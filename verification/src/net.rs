//! What the server and the client decide, apart from the sockets: how a chunk
//! read from a peer becomes a message, how the server answers a message from
//! its key-value store, and what a client makes of a reply.
use vstd::prelude::*;
use vstd::string::StringExecFns;

use crate::frame::{
    boundary, feed, frame_bytes, frame_error_text, lemma_feed_split, payloads, Decoder, Frame, FrameError, Phase,
    MAX_FRAME_LEN,
};
use crate::protocol::{
    fits_length_fields, lemma_message_roundtrip, message_bytes, parse_message, protocol_error_text,
    Message,
    MessageModel, ProtocolError,
};

verus! {

/// The error type of `std::io`, carried through as it is.
#[verifier::external_type_specification]
#[verifier::external_body]
pub struct ExIoError(std::io::Error);

#[derive(Debug)]
pub enum NetError {
    Io(std::io::Error),
    Frame(FrameError),
    Protocol(ProtocolError),
    /// Connection closed before a reply arrived.
    ConnectionClosed,
    /// A reply arrived that does not answer the request.
    UnexpectedReply,
}

impl NetError {
    /// The message that describes this error. An I/O error is described by
    /// `io error: ` and what the I/O error's own `to_string` gives.
    pub fn to_string(&self) -> (text: String)
        ensures
            match self {
                NetError::Io(e) => exists|detail: String|
                    vstd::string::to_string_from_display_ensures::<std::io::Error>(e, detail)
                        && text@ == "io error: "@ + detail@,
                NetError::Frame(e) => text@ == "frame error: "@ + frame_error_text(*e),
                NetError::Protocol(e) => text@ == "protocol error: "@ + protocol_error_text(*e),
                NetError::ConnectionClosed => text@ == "connection closed before reply"@,
                NetError::UnexpectedReply => text@ == "unexpected reply"@,
            },
    {
        match self {
            NetError::Io(e) => {
                let detail = e.to_string();
                let out = String::from_str("io error: ").concat(detail.as_str());
                assert(out@ == "io error: "@ + detail@);
                assert(vstd::string::to_string_from_display_ensures::<std::io::Error>(e, detail));
                out
            },
            NetError::Frame(e) => String::from_str("frame error: ").concat(e.to_string().as_str()),
            NetError::Protocol(e) => String::from_str("protocol error: ").concat(
                e.to_string().as_str(),
            ),
            NetError::ConnectionClosed => String::from_str("connection closed before reply"),
            NetError::UnexpectedReply => String::from_str("unexpected reply"),
        }
    }
}

impl From<std::io::Error> for NetError {
    fn from(e: std::io::Error) -> (r: Self) {
        NetError::Io(e)
    }
}

impl vstd::std_specs::convert::FromSpecImpl<std::io::Error> for NetError {
    open spec fn obeys_from_spec() -> bool {
        true
    }

    open spec fn from_spec(e: std::io::Error) -> Self {
        NetError::Io(e)
    }
}

impl From<FrameError> for NetError {
    fn from(e: FrameError) -> (r: Self) {
        NetError::Frame(e)
    }
}

impl vstd::std_specs::convert::FromSpecImpl<FrameError> for NetError {
    open spec fn obeys_from_spec() -> bool {
        true
    }

    open spec fn from_spec(e: FrameError) -> Self {
        NetError::Frame(e)
    }
}

impl From<ProtocolError> for NetError {
    fn from(e: ProtocolError) -> (r: Self) {
        NetError::Protocol(e)
    }
}

impl vstd::std_specs::convert::FromSpecImpl<ProtocolError> for NetError {
    open spec fn obeys_from_spec() -> bool {
        true
    }

    open spec fn from_spec(e: ProtocolError) -> Self {
        NetError::Protocol(e)
    }
}

/// The bytes that carry `msg` on the wire: its payload, framed.
pub fn wire_bytes(msg: &Message) -> (out: Vec<u8>)
    ensures
        out@ == frame_bytes(message_bytes(msg@)),
{
    msg.encode().encode()
}

/// What one chunk read from a peer comes to.
pub enum ReadOutcome {
    /// More bytes are needed.
    More,
    /// The peer closed the connection.
    Closed,
    /// The framing was broken.
    BadFrame(FrameError),
    /// A frame completed; its payload decoded to this.
    Decoded(Result<MessageModel, ProtocolError>),
}

/// A chunk fed to a decoder with limit `max_len` in `phase`: the outcome and
/// the decoder's next phase. An empty chunk means the peer closed the
/// connection. The first frame that the chunk completes is decoded; frames
/// after it in the same chunk are dropped.
pub open spec fn read_outcome(max_len: nat, phase: Phase, chunk: Seq<u8>) -> (ReadOutcome, Phase) {
    if chunk.len() == 0 {
        (ReadOutcome::Closed, phase)
    } else {
        match feed(max_len, phase, chunk) {
            Err(e) => (ReadOutcome::BadFrame(e), boundary()),
            Ok((frames, next)) => if frames.len() == 0 {
                (ReadOutcome::More, next)
            } else {
                (ReadOutcome::Decoded(parse_message(frames[0])), next)
            },
        }
    }
}

/// Whether `res` is what a reader returns for `outcome`.
pub open spec fn reports(outcome: ReadOutcome, res: Result<Option<Message>, NetError>) -> bool {
    match outcome {
        ReadOutcome::More => res matches Ok(None),
        ReadOutcome::Closed => res matches Err(NetError::ConnectionClosed),
        ReadOutcome::BadFrame(e) => res matches Err(NetError::Frame(f)) && f == e,
        ReadOutcome::Decoded(Ok(m)) => res matches Ok(Some(got)) && got@ == m,
        ReadOutcome::Decoded(Err(e)) => res matches Err(NetError::Protocol(p)) && p == e,
    }
}

/// Chunks read one after another into a decoder in `phase`: the outcome of the
/// first chunk that does not ask for more bytes, or `More` if none does.
pub open spec fn reads(max_len: nat, phase: Phase, chunks: Seq<Seq<u8>>) -> ReadOutcome
    decreases chunks.len(),
{
    if chunks.len() == 0 {
        ReadOutcome::More
    } else {
        let (outcome, next) = read_outcome(max_len, phase, chunks[0]);
        if outcome is More {
            reads(max_len, next, chunks.drop_first())
        } else {
            outcome
        }
    }
}

/// Chunks put back together.
pub open spec fn joined(chunks: Seq<Seq<u8>>) -> Seq<u8>
    decreases chunks.len(),
{
    if chunks.len() == 0 {
        Seq::empty()
    } else {
        chunks[0] + joined(chunks.drop_first())
    }
}

/// A chunk of bytes read from a peer, fed to the decoder of the message being
/// read: the result reports [`read_outcome`], and the decoder moves to the
/// phase that it gives. `Ok(None)`: more bytes are needed.
pub fn read_step(decoder: &mut Decoder, chunk: &[u8]) -> (res: Result<Option<Message>, NetError>)
    ensures
        final(decoder)@.max_len == old(decoder)@.max_len,
        final(decoder)@.phase == read_outcome(old(decoder)@.max_len, old(decoder)@.phase, chunk@).1,
        reports(read_outcome(old(decoder)@.max_len, old(decoder)@.phase, chunk@).0, res),
{
    if chunk.len() == 0 {
        return Err(NetError::ConnectionClosed);
    }
    match decoder.push(chunk) {
        Err(e) => Err(NetError::Frame(e)),
        Ok(frames) => {
            if frames.len() == 0 {
                Ok(None)
            } else {
                let first: &Frame = &frames[0];
                let ghost payload = first.payload@;
                assert(payload == payloads(frames@)[0]);
                match Message::decode(first) {
                    Ok(m) => Ok(Some(m)),
                    Err(e) => Err(NetError::Protocol(e)),
                }
            }
        },
    }
}

/// The outcome of a completed frame that carries `payload`.
#[verifier::opaque]
spec fn decoded(payload: Seq<u8>) -> ReadOutcome {
    ReadOutcome::Decoded(parse_message(payload))
}

/// The chunk that ends a frame, read after a prefix of it that completed nothing.
proof fn lemma_last_chunk(max_len: nat, payload: Seq<u8>, done: Seq<u8>, phase: Phase, c: Seq<u8>)
    requires
        payload.len() <= max_len,
        payload.len() <= u32::MAX,
        c.len() > 0,
        feed(max_len, boundary(), done) == Ok::<(Seq<Seq<u8>>, Phase), FrameError>(
            (seq![], phase),
        ),
        done + c == frame_bytes(payload),
    ensures
        read_outcome(max_len, phase, c).0 == decoded(payload),
        !(read_outcome(max_len, phase, c).0 is More),
{
    reveal(decoded);
    crate::frame::lemma_frame_roundtrip(max_len, payload);
    lemma_feed_split(max_len, boundary(), done, c);
    let e: Seq<Seq<u8>> = seq![];
    let (fs, ph) = feed(max_len, phase, c)->Ok_0;
    assert(e + fs =~= fs);
    assert(fs =~= seq![payload]);
}

/// A chunk that leaves a frame unfinished, read after a prefix of it that
/// completed nothing.
proof fn lemma_middle_chunk(max_len: nat, payload: Seq<u8>, done: Seq<u8>, phase: Phase, c: Seq<u8>)
    requires
        payload.len() <= max_len,
        payload.len() <= u32::MAX,
        c.len() > 0,
        feed(max_len, boundary(), done) == Ok::<(Seq<Seq<u8>>, Phase), FrameError>(
            (seq![], phase),
        ),
        (done + c).len() < frame_bytes(payload).len(),
        frame_bytes(payload).take((done + c).len() as int) == done + c,
    ensures
        read_outcome(max_len, phase, c).0 is More,
        feed(max_len, boundary(), done + c) == Ok::<(Seq<Seq<u8>>, Phase), FrameError>(
            (seq![], read_outcome(max_len, phase, c).1),
        ),
{
    lemma_feed_split(max_len, boundary(), done, c);
    crate::frame::lemma_frame_prefix_incomplete(max_len, payload, (done + c).len() as int);
    let e: Seq<Seq<u8>> = seq![];
    let (fs, ph) = feed(max_len, phase, c)->Ok_0;
    assert(e + fs =~= fs);
    assert(fs.len() == 0);
    assert(fs =~= e);
    assert(e + e =~= e);
}

proof fn lemma_reads_from(
    max_len: nat,
    payload: Seq<u8>,
    done: Seq<u8>,
    phase: Phase,
    chunks: Seq<Seq<u8>>,
)
    requires
        payload.len() <= max_len,
        payload.len() <= u32::MAX,
        forall|i: int| 0 <= i < chunks.len() ==> #[trigger] chunks[i].len() > 0,
        feed(max_len, boundary(), done) == Ok::<(Seq<Seq<u8>>, Phase), FrameError>(
            (seq![], phase),
        ),
        done + joined(chunks) == frame_bytes(payload),
    ensures
        reads(max_len, phase, chunks) == decoded(payload),
    decreases chunks.len(),
{
    let wire = frame_bytes(payload);
    if chunks.len() == 0 {
        crate::frame::lemma_frame_roundtrip(max_len, payload);
        assert(done =~= wire);
        assert(feed(max_len, boundary(), done) == feed(max_len, boundary(), wire));
        assert(seq![payload].len() == 1);
    } else {
        let c = chunks[0];
        let rest = chunks.drop_first();
        assert(c.len() > 0);
        assert forall|i: int| 0 <= i < rest.len() implies #[trigger] rest[i].len() > 0 by {
            assert(rest[i] == chunks[i + 1]);
        }
        let done2 = done + c;
        assert(done2 + joined(rest) =~= done + joined(chunks));
        if rest.len() == 0 {
            assert(done2 =~= wire);
            lemma_last_chunk(max_len, payload, done, phase, c);
        } else {
            assert(rest[0].len() > 0);
            assert(wire.take(done2.len() as int) =~= done2);
            lemma_middle_chunk(max_len, payload, done, phase, c);
            lemma_reads_from(max_len, payload, done2, read_outcome(max_len, phase, c).1, rest);
        }
    }
}

/// However the wire bytes of a message are cut into chunks, reading them one
/// after another into a fresh decoder gives back the message: every chunk but
/// the last asks for more bytes, and the last one decodes to the message.
pub proof fn lemma_reads_reassemble(m: MessageModel, chunks: Seq<Seq<u8>>)
    requires
        fits_length_fields(m),
        message_bytes(m).len() <= MAX_FRAME_LEN,
        forall|i: int| 0 <= i < chunks.len() ==> #[trigger] chunks[i].len() > 0,
        joined(chunks) == frame_bytes(message_bytes(m)),
    ensures
        reads(MAX_FRAME_LEN as nat, boundary(), chunks) == ReadOutcome::Decoded(
            Ok::<MessageModel, ProtocolError>(m),
        ),
{
    let empty: Seq<u8> = Seq::empty();
    assert(empty + joined(chunks) =~= joined(chunks));
    lemma_reads_from(MAX_FRAME_LEN as nat, message_bytes(m), empty, boundary(), chunks);
    lemma_message_roundtrip(m);
    reveal(decoded);
}

/// A message written by a peer reaches a fresh decoder whole: the chunk of its
/// wire bytes completes exactly one frame, which decodes to the same message.
pub proof fn lemma_message_over_wire(m: MessageModel)
    requires
        fits_length_fields(m),
        message_bytes(m).len() <= MAX_FRAME_LEN,
    ensures
        feed(MAX_FRAME_LEN as nat, boundary(), frame_bytes(message_bytes(m))) == Ok::<
            (Seq<Seq<u8>>, Phase),
            FrameError,
        >((seq![message_bytes(m)], boundary())),
        parse_message(message_bytes(m)) == Ok::<MessageModel, ProtocolError>(m),
{
    crate::frame::lemma_frame_roundtrip(MAX_FRAME_LEN as nat, message_bytes(m));
    lemma_message_roundtrip(m);
}

/// What a client's ping or set makes of the reply: only `Pong` is success;
/// any other reply is unexpected.
pub fn expect_pong(reply: Message) -> (res: Result<(), NetError>)
    ensures
        reply@ is Pong ==> res is Ok,
        !(reply@ is Pong) ==> (res matches Err(NetError::UnexpectedReply)),
{
    match reply {
        Message::Pong => Ok(()),
        _ => Err(NetError::UnexpectedReply),
    }
}

/// What a client's get makes of the reply: the value, no value, or an
/// unexpected reply.
pub fn expect_value(reply: Message) -> (res: Result<Option<Vec<u8>>, NetError>)
    ensures
        match reply@ {
            MessageModel::Value { value } => (res matches Ok(Some(v)) && v@ == value),
            MessageModel::NotFound => (res matches Ok(None)),
            _ => (res matches Err(NetError::UnexpectedReply)),
        },
{
    match reply {
        Message::Value { value } => Ok(Some(value)),
        Message::NotFound => Ok(None),
        _ => Err(NetError::UnexpectedReply),
    }
}

/// In-memory key-value store: each key at most once.
pub struct Store {
    entries: Vec<(String, Vec<u8>)>,
}

/// Whether `k` is a key of `entries`.
pub open spec fn has_key(entries: Seq<(String, Vec<u8>)>, k: Seq<char>) -> bool {
    exists|i: int| 0 <= i < entries.len() && #[trigger] entries[i].0@ == k
}

/// The keys of `entries` as a map to their values.
pub open spec fn entries_map(entries: Seq<(String, Vec<u8>)>) -> Map<Seq<char>, Seq<u8>> {
    Map::new(
        |k: Seq<char>| has_key(entries, k),
        |k: Seq<char>|
            entries[choose|i: int| 0 <= i < entries.len() && #[trigger] entries[i].0@ == k].1@,
    )
}

/// No key occurs twice.
pub open spec fn keys_distinct(entries: Seq<(String, Vec<u8>)>) -> bool {
    forall|i: int, j: int|
        0 <= i < entries.len() && 0 <= j < entries.len() && i != j ==> #[trigger] entries[i].0@
            != #[trigger] entries[j].0@
}

impl View for Store {
    type V = Map<Seq<char>, Seq<u8>>;

    closed spec fn view(&self) -> Map<Seq<char>, Seq<u8>> {
        entries_map(self.entries@)
    }
}

/// The store after `msg`, and the reply to it: a ping is answered `Pong`; a
/// set stores the value under the key and is answered `Pong`; a get is
/// answered with the stored value or `NotFound`; anything else is echoed.
pub open spec fn serve_message(store: Map<Seq<char>, Seq<u8>>, msg: MessageModel) -> (
    Map<Seq<char>, Seq<u8>>,
    MessageModel,
) {
    match msg {
        MessageModel::Ping => (store, MessageModel::Pong),
        MessageModel::Put { key, value } => (store.insert(key, value), MessageModel::Pong),
        MessageModel::Get { key } => if store.contains_key(key) {
            (store, MessageModel::Value { value: store[key] })
        } else {
            (store, MessageModel::NotFound)
        },
        other => (store, other),
    }
}

/// Only a set changes the store: a ping, a get, or a reply sent by a client
/// leaves it exactly as it was. A ping is always answered `Pong`.
pub proof fn lemma_only_put_writes(store: Map<Seq<char>, Seq<u8>>, msg: MessageModel)
    requires
        !(msg is Put),
    ensures
        serve_message(store, msg).0 == store,
        msg is Ping ==> serve_message(store, msg).1 is Pong,
{
}

/// A get answers from the store as it stands: with the value under the key if
/// there is one, else `NotFound`; so two gets in a row are answered alike.
pub proof fn lemma_get_reads(store: Map<Seq<char>, Seq<u8>>, key: Seq<char>)
    ensures
        serve_message(store, MessageModel::Get { key }).0 == store,
        store.contains_key(key) ==> serve_message(store, MessageModel::Get { key }).1 == (
        MessageModel::Value { value: store[key] }),
        !store.contains_key(key) ==> serve_message(store, MessageModel::Get { key }).1 is NotFound,
        serve_message(serve_message(store, MessageModel::Get { key }).0, MessageModel::Get { key }).1
            == serve_message(store, MessageModel::Get { key }).1,
{
}

/// A set changes exactly the key it sets and is answered `Pong`.
pub proof fn lemma_put_writes(store: Map<Seq<char>, Seq<u8>>, key: Seq<char>, value: Seq<u8>)
    ensures
        serve_message(store, MessageModel::Put { key, value }).0 == store.insert(key, value),
        serve_message(store, MessageModel::Put { key, value }).1 is Pong,
{
}

/// A get after a set of the same key is answered with the value set; a get of
/// another key is answered as it was before the set.
pub proof fn lemma_get_after_set(
    store: Map<Seq<char>, Seq<u8>>,
    key: Seq<char>,
    value: Seq<u8>,
    other: Seq<char>,
)
    requires
        other != key,
    ensures
        serve_message(store, MessageModel::Put { key, value }).1 == MessageModel::Pong,
        serve_message(
            serve_message(store, MessageModel::Put { key, value }).0,
            MessageModel::Get { key },
        ).1 == (MessageModel::Value { value }),
        serve_message(
            serve_message(store, MessageModel::Put { key, value }).0,
            MessageModel::Get { key: other },
        ).1 == serve_message(store, MessageModel::Get { key: other }).1,
{
}

impl Store {
    #[verifier::type_invariant]
    spec fn inv(self) -> bool {
        keys_distinct(self.entries@)
    }

    pub fn new() -> (s: Self)
        ensures
            s@ == Map::<Seq<char>, Seq<u8>>::empty(),
    {
        let s = Store { entries: Vec::new() };
        assert(s@ =~= Map::<Seq<char>, Seq<u8>>::empty());
        s
    }

    /// Where `key` stands in `entries`, if it does.
    fn position(entries: &Vec<(String, Vec<u8>)>, key: &String) -> (res: Option<usize>)
        ensures
            match res {
                Some(i) => i < entries@.len() && entries@[i as int].0@ == key@,
                None => !has_key(entries@, key@),
            },
    {
        let mut i: usize = 0;
        while i < entries.len()
            invariant
                i <= entries@.len(),
                forall|j: int| 0 <= j < i ==> #[trigger] entries@[j].0@ != key@,
            decreases entries@.len() - i,
        {
            if entries[i].0 == *key {
                return Some(i);
            }
            i = i + 1;
        }
        None
    }

    pub fn get(&self, key: &String) -> (res: Option<&Vec<u8>>)
        ensures
            match res {
                Some(v) => self@.contains_key(key@) && v@ == self@[key@],
                None => !self@.contains_key(key@),
            },
    {
        proof {
            use_type_invariant(self);
        }
        match Self::position(&self.entries, key) {
            Some(i) => {
                let ghost e = self.entries@;
                assert(has_key(e, key@));
                let ghost j = choose|j: int| 0 <= j < e.len() && #[trigger] e[j].0@ == key@;
                assert(j == i as int);
                Some(&self.entries[i].1)
            },
            None => None,
        }
    }

    pub fn insert(&mut self, key: String, value: Vec<u8>)
        ensures
            final(self)@ == old(self)@.insert(key@, value@),
    {
        proof {
            use_type_invariant(&*self);
        }
        let mut entries: Vec<(String, Vec<u8>)> = Vec::new();
        std::mem::swap(&mut entries, &mut self.entries);
        let ghost before = entries@;
        let ghost k = key@;
        let ghost v = value@;
        let ghost at: int;
        match Self::position(&entries, &key) {
            Some(i) => {
                entries.set(i, (key, value));
                proof {
                    at = i as int;
                }
            },
            None => {
                entries.push((key, value));
                proof {
                    at = before.len() as int;
                }
            },
        }
        proof {
            lemma_entries_put(before, entries@, at, k, v);
        }
        self.entries = entries;
    }
}

/// Putting `(k, v)` at position `at` of distinct entries, over the entry of
/// `k` or at the end when `k` is new, keeps the keys distinct and inserts
/// `k -> v` into their map.
proof fn lemma_entries_put(
    before: Seq<(String, Vec<u8>)>,
    after: Seq<(String, Vec<u8>)>,
    at: int,
    k: Seq<char>,
    v: Seq<u8>,
)
    requires
        keys_distinct(before),
        0 <= at <= before.len(),
        at < before.len() ==> before[at].0@ == k,
        at == before.len() ==> !has_key(before, k),
        after.len() == if at < before.len() {
            before.len() as int
        } else {
            before.len() + 1int
        },
        after[at].0@ == k,
        after[at].1@ == v,
        forall|j: int| 0 <= j < before.len() && j != at ==> after[j] == before[j],
    ensures
        keys_distinct(after),
        entries_map(after) == entries_map(before).insert(k, v),
{
    assert forall|a: int, b: int|
        0 <= a < after.len() && 0 <= b < after.len() && a != b implies #[trigger] after[a].0@
            != #[trigger] after[b].0@ by {
        if a != at && b != at {
            assert(after[a] == before[a] && after[b] == before[b]);
        } else if a == at {
            assert(after[b] == before[b]);
            if at == before.len() {
                assert(!(before[b].0@ == k));
            }
        } else {
            assert(after[a] == before[a]);
            if at == before.len() {
                assert(!(before[a].0@ == k));
            }
        }
    }
    assert(entries_map(after) =~= entries_map(before).insert(k, v)) by {
        assert forall|x: Seq<char>| has_key(after, x) == (has_key(before, x) || x == k) by {
            if has_key(before, x) {
                let j = choose|j: int| 0 <= j < before.len() && #[trigger] before[j].0@ == x;
                if j != at {
                    assert(after[j] == before[j]);
                }
                assert(after[j].0@ == x);
            }
            if has_key(after, x) {
                let j = choose|j: int| 0 <= j < after.len() && #[trigger] after[j].0@ == x;
                if j != at {
                    assert(after[j] == before[j]);
                    assert(before[j].0@ == x);
                }
            }
            if x == k {
                assert(after[at].0@ == x);
            }
        }
        assert forall|x: Seq<char>| #[trigger] has_key(after, x) implies entries_map(after)[x]
            == entries_map(before).insert(k, v)[x] by {
            let j = choose|j: int| 0 <= j < after.len() && #[trigger] after[j].0@ == x;
            if x == k {
                assert(after[at].0@ == x);
                assert(j == at);
            } else {
                assert(j != at);
                assert(after[j] == before[j]);
                assert(before[j].0@ == x);
                let j2 = choose|j2: int| 0 <= j2 < before.len() && #[trigger] before[j2].0@ == x;
                assert(j2 == j);
            }
        }
    }
}

/// What a connection's server does after reading from it: serve the message
/// that arrived (`Ok(Some)`), stop quietly when the peer has closed the
/// connection (`Ok(None)`), or stop with any other error.
pub fn after_read(read: Result<Message, NetError>) -> (next: Result<Option<Message>, NetError>)
    ensures
        match read {
            Ok(m) => next matches Ok(Some(got)) && got == m,
            Err(NetError::ConnectionClosed) => next matches Ok(None),
            Err(e) => next matches Err(f) && f == e,
        },
{
    match read {
        Ok(m) => Ok(Some(m)),
        Err(NetError::ConnectionClosed) => Ok(None),
        Err(e) => Err(e),
    }
}

/// The server's answer to one message: the store changes and the reply are
/// those of [`serve_message`]. Only a set changes the store, and it changes
/// exactly the key set; a ping is answered `Pong`; a get is answered with the
/// value stored under its key, or `NotFound` when there is none; replies sent
/// by a client come back unchanged.
pub fn respond(store: &mut Store, msg: Message) -> (reply: Message)
    ensures
        (final(store)@, reply@) == serve_message(old(store)@, msg@),
        match msg@ {
            MessageModel::Put { key, value } => {
                &&& final(store)@ == old(store)@.insert(key, value)
                &&& reply@ is Pong
            },
            MessageModel::Ping => final(store)@ == old(store)@ && reply@ is Pong,
            MessageModel::Get { key } => {
                &&& final(store)@ == old(store)@
                &&& old(store)@.contains_key(key) ==> reply@ == (MessageModel::Value {
                    value: old(store)@[key],
                })
                &&& !old(store)@.contains_key(key) ==> reply@ is NotFound
            },
            _ => final(store)@ == old(store)@ && reply@ == msg@,
        },
{
    match msg {
        Message::Ping => Message::Pong,
        Message::Put { key, value } => {
            store.insert(key, value);
            Message::Pong
        },
        Message::Get { key } => match store.get(&key) {
            Some(value) => Message::Value { value: value.clone() },
            None => Message::NotFound,
        },
        other => other,
    }
}

} // verus!
