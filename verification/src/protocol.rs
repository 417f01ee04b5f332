//! A small typed protocol encoded on top of [`Frame`] payloads.
//!
//! Every message starts with a 1-byte tag identifying its kind, followed by
//! a kind-specific body. Strings are length-prefixed with a 2-byte
//! big-endian length so they stay well clear of the 16 MiB frame cap.
use vstd::prelude::*;
use vstd::string::StringExecFns;
use vstd::utf8::{decode_utf8, encode_utf8, valid_utf8};

use crate::frame::Frame;
use crate::text::{hex_byte_text, push_hex_byte};
use crate::wire::{
    append_range, be16, be32, bytes16, bytes32, get_u16_be, get_u32_be, lemma_be16_of_bytes16,
    lemma_be32_of_bytes32, lemma_bytes16_of_be16, lemma_bytes32_of_be32, put_len16_be, put_len32_be,
};

verus! {

broadcast use vstd::utf8::encode_utf8_valid_utf8, vstd::utf8::encode_utf8_decode_utf8;

pub const TAG_PING: u8 = 0x01;

pub const TAG_PONG: u8 = 0x02;

pub const TAG_SET: u8 = 0x03;

pub const TAG_GET: u8 = 0x04;

pub const TAG_VALUE: u8 = 0x05;

pub const TAG_NOT_FOUND: u8 = 0x06;

#[derive(Debug, PartialEq, Eq, Clone)]
pub enum Message {
    Ping,
    Pong,
    Put { key: String, value: Vec<u8> },
    Get { key: String },
    Value { value: Vec<u8> },
    NotFound,
}

#[derive(Debug, PartialEq, Eq, Structural, Clone, Copy)]
pub enum ProtocolError {
    Empty,
    UnknownTag(u8),
    Truncated,
    InvalidUtf8,
}

/// The message that describes a decoding error.
pub open spec fn protocol_error_text(e: ProtocolError) -> Seq<char> {
    match e {
        ProtocolError::Empty => "empty message body"@,
        ProtocolError::UnknownTag(t) => "unknown message tag "@ + hex_byte_text(t),
        ProtocolError::Truncated => "message body truncated"@,
        ProtocolError::InvalidUtf8 => "key bytes are not valid utf-8"@,
    }
}

impl ProtocolError {
    /// The message that describes this error.
    pub fn to_string(&self) -> (text: String)
        ensures
            text@ == protocol_error_text(*self),
    {
        match self {
            ProtocolError::Empty => String::from_str("empty message body"),
            ProtocolError::UnknownTag(t) => {
                let mut out = String::from_str("unknown message tag ");
                push_hex_byte(&mut out, *t);
                out
            },
            ProtocolError::Truncated => String::from_str("message body truncated"),
            ProtocolError::InvalidUtf8 => String::from_str("key bytes are not valid utf-8"),
        }
    }
}

/// A message as a value: keys are character sequences, values byte sequences.
pub enum MessageModel {
    Ping,
    Pong,
    Put { key: Seq<char>, value: Seq<u8> },
    Get { key: Seq<char> },
    Value { value: Seq<u8> },
    NotFound,
}

impl View for Message {
    type V = MessageModel;

    open spec fn view(&self) -> MessageModel {
        match self {
            Message::Ping => MessageModel::Ping,
            Message::Pong => MessageModel::Pong,
            Message::Put { key, value } => MessageModel::Put { key: key@, value: value@ },
            Message::Get { key } => MessageModel::Get { key: key@ },
            Message::Value { value } => MessageModel::Value { value: value@ },
            Message::NotFound => MessageModel::NotFound,
        }
    }
}

/// A string on the wire: the low 16 bits of its UTF-8 length, big-endian,
/// then its UTF-8 bytes.
pub open spec fn string_field(s: Seq<char>) -> Seq<u8> {
    bytes16(encode_utf8(s).len()) + encode_utf8(s)
}

/// A byte string on the wire: the low 32 bits of its length, big-endian,
/// then the bytes.
pub open spec fn bytes_field(b: Seq<u8>) -> Seq<u8> {
    bytes32(b.len()) + b
}

/// The payload that carries a message.
pub open spec fn message_bytes(m: MessageModel) -> Seq<u8> {
    match m {
        MessageModel::Ping => seq![TAG_PING],
        MessageModel::Pong => seq![TAG_PONG],
        MessageModel::Put { key, value } => seq![TAG_SET] + string_field(key) + bytes_field(value),
        MessageModel::Get { key } => seq![TAG_GET] + string_field(key),
        MessageModel::Value { value } => seq![TAG_VALUE] + bytes_field(value),
        MessageModel::NotFound => seq![TAG_NOT_FOUND],
    }
}

/// Whether every length field of the message holds its length without loss.
pub open spec fn fits_length_fields(m: MessageModel) -> bool {
    match m {
        MessageModel::Put { key, value } => encode_utf8(key).len() <= u16::MAX && value.len()
            <= u32::MAX,
        MessageModel::Get { key } => encode_utf8(key).len() <= u16::MAX,
        MessageModel::Value { value } => value.len() <= u32::MAX,
        _ => true,
    }
}

/// Reading a string field at `pos`: the text and the position after it.
pub open spec fn string_at(buf: Seq<u8>, pos: int) -> Result<(Seq<char>, int), ProtocolError> {
    if buf.len() < pos + 2 {
        Err(ProtocolError::Truncated)
    } else {
        let len = be16(buf.subrange(pos, pos + 2));
        let start = pos + 2;
        if buf.len() < start + len {
            Err(ProtocolError::Truncated)
        } else if !valid_utf8(buf.subrange(start, start + len)) {
            Err(ProtocolError::InvalidUtf8)
        } else {
            Ok((decode_utf8(buf.subrange(start, start + len)), start + len))
        }
    }
}

/// Reading a byte-string field at `pos`: the bytes and the position after them.
pub open spec fn bytes_at(buf: Seq<u8>, pos: int) -> Result<(Seq<u8>, int), ProtocolError> {
    if buf.len() < pos + 4 {
        Err(ProtocolError::Truncated)
    } else {
        let len = be32(buf.subrange(pos, pos + 4));
        let start = pos + 4;
        if buf.len() < start + len {
            Err(ProtocolError::Truncated)
        } else {
            Ok((buf.subrange(start, start + len), start + len))
        }
    }
}

/// The message that a payload carries, or why it carries none. Bytes after
/// the last field of a message are not looked at.
pub open spec fn parse_message(buf: Seq<u8>) -> Result<MessageModel, ProtocolError> {
    if buf.len() == 0 {
        Err(ProtocolError::Empty)
    } else if buf[0] == TAG_PING {
        Ok(MessageModel::Ping)
    } else if buf[0] == TAG_PONG {
        Ok(MessageModel::Pong)
    } else if buf[0] == TAG_SET {
        match string_at(buf, 1) {
            Err(e) => Err(e),
            Ok((key, next)) => match bytes_at(buf, next) {
                Err(e) => Err(e),
                Ok((value, _)) => Ok(MessageModel::Put { key, value }),
            },
        }
    } else if buf[0] == TAG_GET {
        match string_at(buf, 1) {
            Err(e) => Err(e),
            Ok((key, _)) => Ok(MessageModel::Get { key }),
        }
    } else if buf[0] == TAG_VALUE {
        match bytes_at(buf, 1) {
            Err(e) => Err(e),
            Ok((value, _)) => Ok(MessageModel::Value { value }),
        }
    } else if buf[0] == TAG_NOT_FOUND {
        Ok(MessageModel::NotFound)
    } else {
        Err(ProtocolError::UnknownTag(buf[0]))
    }
}

/// The error of `std::str::from_utf8`; nothing in this library looks into it.
#[verifier::external_type_specification]
#[verifier::external_body]
pub struct ExUtf8Error(core::str::Utf8Error);

/// Calls `std::str::from_utf8`, which accepts exactly the byte strings that
/// are well-formed UTF-8 and then returns the text that they encode.
#[verifier::external_body]
fn str_from_utf8(bytes: &[u8]) -> (res: Result<&str, core::str::Utf8Error>)
    ensures
        match res {
            Ok(s) => valid_utf8(bytes@) && s@ == decode_utf8(bytes@),
            Err(_) => !valid_utf8(bytes@),
        },
{
    std::str::from_utf8(bytes)
}

fn write_string(out: &mut Vec<u8>, s: &str)
    ensures
        final(out)@ == old(out)@ + string_field(s@),
{
    let bytes = s.as_bytes();
    let ghost start = out@;
    put_len16_be(out, bytes.len());
    append_range(out, bytes, 0, bytes.len());
    assert(bytes@.subrange(0, bytes@.len() as int) =~= bytes@);
    assert(out@ =~= start + string_field(s@));
}

fn write_bytes(out: &mut Vec<u8>, b: &[u8])
    ensures
        final(out)@ == old(out)@ + bytes_field(b@),
{
    let ghost start = out@;
    put_len32_be(out, b.len());
    append_range(out, b, 0, b.len());
    assert(b@.subrange(0, b@.len() as int) =~= b@);
    assert(out@ =~= start + bytes_field(b@));
}

fn read_string(buf: &[u8], pos: &mut usize) -> (res: Result<String, ProtocolError>)
    ensures
        match string_at(buf@, *old(pos) as int) {
            Ok((s, next)) => res is Ok && res->Ok_0@ == s && *final(pos) == next,
            Err(e) => {
                &&& res == Err::<String, ProtocolError>(e)
                &&& *final(pos) == if buf@.len() < *old(pos) + 2 {
                    *old(pos) as int
                } else {
                    *old(pos) + 2
                }
            },
        },
{
    if buf.len() < *pos || buf.len() - *pos < 2 {
        return Err(ProtocolError::Truncated);
    }
    let len = get_u16_be(buf, *pos) as usize;
    *pos = *pos + 2;
    if buf.len() - *pos < len {
        return Err(ProtocolError::Truncated);
    }
    let s = match str_from_utf8(&buf[*pos..*pos + len]) {
        Ok(s) => s.to_string(),
        Err(_) => return Err(ProtocolError::InvalidUtf8),
    };
    *pos = *pos + len;
    Ok(s)
}

fn read_bytes(buf: &[u8], pos: &mut usize) -> (res: Result<Vec<u8>, ProtocolError>)
    ensures
        match bytes_at(buf@, *old(pos) as int) {
            Ok((b, next)) => res is Ok && res->Ok_0@ == b && *final(pos) == next,
            Err(e) => {
                &&& res == Err::<Vec<u8>, ProtocolError>(e)
                &&& *final(pos) == if buf@.len() < *old(pos) + 4 {
                    *old(pos) as int
                } else {
                    *old(pos) + 4
                }
            },
        },
{
    if buf.len() < *pos || buf.len() - *pos < 4 {
        return Err(ProtocolError::Truncated);
    }
    let len = get_u32_be(buf, *pos) as usize;
    *pos = *pos + 4;
    if buf.len() - *pos < len {
        return Err(ProtocolError::Truncated);
    }
    let mut v: Vec<u8> = Vec::new();
    append_range(&mut v, buf, *pos, *pos + len);
    *pos = *pos + len;
    Ok(v)
}

impl Message {
    pub fn encode(&self) -> (frame: Frame)
        ensures
            frame.payload@ == message_bytes(self@),
    {
        let mut body: Vec<u8> = Vec::new();
        match self {
            Message::Ping => body.push(TAG_PING),
            Message::Pong => body.push(TAG_PONG),
            Message::Put { key, value } => {
                body.push(TAG_SET);
                write_string(&mut body, key.as_str());
                write_bytes(&mut body, value.as_slice());
            },
            Message::Get { key } => {
                body.push(TAG_GET);
                write_string(&mut body, key.as_str());
            },
            Message::Value { value } => {
                body.push(TAG_VALUE);
                write_bytes(&mut body, value.as_slice());
            },
            Message::NotFound => body.push(TAG_NOT_FOUND),
        }
        assert(body@ =~= message_bytes(self@));
        Frame::new(body)
    }

    pub fn decode(frame: &Frame) -> (res: Result<Self, ProtocolError>)
        ensures
            match res {
                Ok(m) => parse_message(frame.payload@) == Ok::<MessageModel, ProtocolError>(m@),
                Err(e) => parse_message(frame.payload@) == Err::<MessageModel, ProtocolError>(e),
            },
    {
        let buf = frame.payload.as_slice();
        if buf.len() == 0 {
            return Err(ProtocolError::Empty);
        }
        let tag = buf[0];
        let mut pos: usize = 1;
        if tag == TAG_PING {
            Ok(Message::Ping)
        } else if tag == TAG_PONG {
            Ok(Message::Pong)
        } else if tag == TAG_SET {
            let key = read_string(buf, &mut pos)?;
            let value = read_bytes(buf, &mut pos)?;
            Ok(Message::Put { key, value })
        } else if tag == TAG_GET {
            let key = read_string(buf, &mut pos)?;
            Ok(Message::Get { key })
        } else if tag == TAG_VALUE {
            let value = read_bytes(buf, &mut pos)?;
            Ok(Message::Value { value })
        } else if tag == TAG_NOT_FOUND {
            Ok(Message::NotFound)
        } else {
            Err(ProtocolError::UnknownTag(tag))
        }
    }
}

/// Reading the fields back that were written gives the message back, as long
/// as no length field was cut short.
pub proof fn lemma_message_roundtrip(m: MessageModel)
    requires
        fits_length_fields(m),
    ensures
        parse_message(message_bytes(m)) == Ok::<MessageModel, ProtocolError>(m),
{
    let buf = message_bytes(m);
    match m {
        MessageModel::Put { key, value } => {
            let kb = encode_utf8(key);
            lemma_be16_of_bytes16(kb.len());
            lemma_be32_of_bytes32(value.len());
            let after_key: int = 3 + kb.len() as int;
            assert(buf.subrange(1, 3) =~= bytes16(kb.len()));
            assert(buf.subrange(3, after_key) =~= kb);
            assert(buf.subrange(after_key, after_key + 4) =~= bytes32(value.len()));
            assert(buf.subrange(after_key + 4, after_key + 4 + value.len()) =~= value);
        },
        MessageModel::Get { key } => {
            let kb = encode_utf8(key);
            lemma_be16_of_bytes16(kb.len());
            assert(buf.subrange(1, 3) =~= bytes16(kb.len()));
            assert(buf.subrange(3, 3 + kb.len() as int) =~= kb);
        },
        MessageModel::Value { value } => {
            lemma_be32_of_bytes32(value.len());
            assert(buf.subrange(1, 5) =~= bytes32(value.len()));
            assert(buf.subrange(5, 5 + value.len() as int) =~= value);
        },
        _ => {},
    }
}

/// The bytes of each message, in order: its tag byte, then for a key the
/// big-endian 16-bit length of its UTF-8 bytes and those bytes, then for a
/// value the big-endian 32-bit length of its bytes and those bytes.
pub proof fn lemma_message_layout(key: Seq<char>, value: Seq<u8>)
    ensures
        message_bytes(MessageModel::Ping) == seq![1u8],
        message_bytes(MessageModel::Pong) == seq![2u8],
        message_bytes(MessageModel::Put { key, value }) == seq![3u8] + bytes16(
            encode_utf8(key).len(),
        ) + encode_utf8(key) + bytes32(value.len()) + value,
        message_bytes(MessageModel::Get { key }) == seq![4u8] + bytes16(encode_utf8(key).len())
            + encode_utf8(key),
        message_bytes(MessageModel::Value { value }) == seq![5u8] + bytes32(value.len()) + value,
        message_bytes(MessageModel::NotFound) == seq![6u8],
{
    assert(message_bytes(MessageModel::Put { key, value }) =~= seq![3u8] + bytes16(
        encode_utf8(key).len(),
    ) + encode_utf8(key) + bytes32(value.len()) + value);
    assert(message_bytes(MessageModel::Get { key }) =~= seq![4u8] + bytes16(
        encode_utf8(key).len(),
    ) + encode_utf8(key));
    assert(message_bytes(MessageModel::Value { value }) =~= seq![5u8] + bytes32(value.len())
        + value);
}

/// A payload that starts with a tag byte of a message without fields is
/// that message, whatever follows the tag.
pub proof fn lemma_parse_bare_tags(rest: Seq<u8>)
    ensures
        parse_message(seq![1u8] + rest) == Ok::<MessageModel, ProtocolError>(MessageModel::Ping),
        parse_message(seq![2u8] + rest) == Ok::<MessageModel, ProtocolError>(MessageModel::Pong),
        parse_message(seq![6u8] + rest) == Ok::<MessageModel, ProtocolError>(
            MessageModel::NotFound,
        ),
{
    assert((seq![1u8] + rest)[0] == 1u8);
    assert((seq![2u8] + rest)[0] == 2u8);
    assert((seq![6u8] + rest)[0] == 6u8);
}

/// A value message is read as the bytes that follow its 32-bit length field,
/// exactly as many as it says and in order, whatever follows them.
pub proof fn lemma_parse_value_layout(value: Seq<u8>, rest: Seq<u8>)
    requires
        value.len() <= u32::MAX,
    ensures
        parse_message(seq![5u8] + bytes32(value.len()) + value + rest) == Ok::<
            MessageModel,
            ProtocolError,
        >(MessageModel::Value { value }),
{
    let buf = seq![5u8] + bytes32(value.len()) + value + rest;
    lemma_be32_of_bytes32(value.len());
    assert(buf.subrange(1, 5) =~= bytes32(value.len()));
    assert(buf.subrange(5, 5 + value.len() as int) =~= value);
}

/// A get message is read as the key whose UTF-8 bytes follow its 16-bit
/// length field, exactly as many as it says and in order, whatever follows
/// them; bytes that are not UTF-8 are refused.
pub proof fn lemma_parse_get_layout(raw: Seq<u8>, rest: Seq<u8>)
    requires
        raw.len() <= u16::MAX,
    ensures
        parse_message(seq![4u8] + bytes16(raw.len()) + raw + rest) == if valid_utf8(raw) {
            Ok::<MessageModel, ProtocolError>(MessageModel::Get { key: decode_utf8(raw) })
        } else {
            Err::<MessageModel, ProtocolError>(ProtocolError::InvalidUtf8)
        },
{
    let buf = seq![4u8] + bytes16(raw.len()) + raw + rest;
    lemma_be16_of_bytes16(raw.len());
    assert(buf.subrange(1, 3) =~= bytes16(raw.len()));
    assert(buf.subrange(3, 3 + raw.len() as int) =~= raw);
}

/// A set message is read as the key whose UTF-8 bytes follow its 16-bit
/// length field, then the value whose bytes follow its 32-bit length field,
/// each exactly as many bytes as its length says and in order.
pub proof fn lemma_parse_put_layout(raw: Seq<u8>, value: Seq<u8>, rest: Seq<u8>)
    requires
        raw.len() <= u16::MAX,
        value.len() <= u32::MAX,
    ensures
        parse_message(seq![3u8] + bytes16(raw.len()) + raw + bytes32(value.len()) + value + rest)
            == if valid_utf8(raw) {
            Ok::<MessageModel, ProtocolError>(MessageModel::Put { key: decode_utf8(raw), value })
        } else {
            Err::<MessageModel, ProtocolError>(ProtocolError::InvalidUtf8)
        },
{
    let buf = seq![3u8] + bytes16(raw.len()) + raw + bytes32(value.len()) + value + rest;
    let k: int = 3 + raw.len() as int;
    lemma_be16_of_bytes16(raw.len());
    lemma_be32_of_bytes32(value.len());
    assert(buf.subrange(1, 3) =~= bytes16(raw.len()));
    assert(buf.subrange(3, k) =~= raw);
    assert(buf.subrange(k, k + 4) =~= bytes32(value.len()));
    assert(buf.subrange(k + 4, k + 4 + value.len()) =~= value);
}

/// A string field written after any bytes reads back, whatever follows it:
/// the text, and the position just past the field.
pub proof fn lemma_string_field_reads_back(before: Seq<u8>, s: Seq<char>, after: Seq<u8>)
    requires
        encode_utf8(s).len() <= u16::MAX,
    ensures
        string_at(before + string_field(s) + after, before.len() as int) == Ok::<
            (Seq<char>, int),
            ProtocolError,
        >((s, (before.len() + string_field(s).len()) as int)),
{
    let buf = before + string_field(s) + after;
    let kb = encode_utf8(s);
    let p = before.len() as int;
    lemma_be16_of_bytes16(kb.len());
    assert(buf.subrange(p, p + 2) =~= bytes16(kb.len()));
    assert(buf.subrange(p + 2, p + 2 + kb.len()) =~= kb);
}

/// A byte-string field written after any bytes reads back, whatever follows
/// it: the bytes, and the position just past the field.
pub proof fn lemma_bytes_field_reads_back(before: Seq<u8>, b: Seq<u8>, after: Seq<u8>)
    requires
        b.len() <= u32::MAX,
    ensures
        bytes_at(before + bytes_field(b) + after, before.len() as int) == Ok::<
            (Seq<u8>, int),
            ProtocolError,
        >((b, (before.len() + bytes_field(b).len()) as int)),
{
    let buf = before + bytes_field(b) + after;
    let p = before.len() as int;
    lemma_be32_of_bytes32(b.len());
    assert(buf.subrange(p, p + 4) =~= bytes32(b.len()));
    assert(buf.subrange(p + 4, p + 4 + b.len()) =~= b);
}

/// What reading a string field at `pos` consumed, written back, is the field.
proof fn lemma_string_field_read_back(buf: Seq<u8>, pos: int)
    requires
        0 <= pos,
        string_at(buf, pos) is Ok,
    ensures
        ({
            let (s, next) = string_at(buf, pos)->Ok_0;
            &&& encode_utf8(s).len() <= u16::MAX
            &&& next <= buf.len()
            &&& buf.subrange(pos, next) == string_field(s)
        }),
{
    let (s, next) = string_at(buf, pos)->Ok_0;
    let raw = buf.subrange(pos + 2, next);
    lemma_bytes16_of_be16(buf.subrange(pos, pos + 2));
    vstd::utf8::decode_utf8_encode_utf8(raw);
    assert(buf.subrange(pos, next) =~= buf.subrange(pos, pos + 2) + raw);
}

/// What reading a byte-string field at `pos` consumed, written back, is the field.
proof fn lemma_bytes_field_read_back(buf: Seq<u8>, pos: int)
    requires
        0 <= pos,
        bytes_at(buf, pos) is Ok,
    ensures
        ({
            let (b, next) = bytes_at(buf, pos)->Ok_0;
            &&& b.len() <= u32::MAX
            &&& next <= buf.len()
            &&& buf.subrange(pos, next) == bytes_field(b)
        }),
{
    let (b, next) = bytes_at(buf, pos)->Ok_0;
    lemma_bytes32_of_be32(buf.subrange(pos, pos + 4));
    assert(buf.subrange(pos, next) =~= buf.subrange(pos, pos + 4) + b);
}

/// A payload that parses starts with exactly the bytes that the parsed message
/// encodes to: decoding loses nothing that it read, and no length field of the
/// result overflows.
pub proof fn lemma_parse_then_encode(buf: Seq<u8>)
    requires
        parse_message(buf) is Ok,
    ensures
        fits_length_fields(parse_message(buf)->Ok_0),
        message_bytes(parse_message(buf)->Ok_0).len() <= buf.len(),
        buf.take(message_bytes(parse_message(buf)->Ok_0).len() as int) == message_bytes(
            parse_message(buf)->Ok_0,
        ),
{
    let m = parse_message(buf)->Ok_0;
    let tag = buf[0];
    if tag == TAG_SET {
        lemma_string_field_read_back(buf, 1);
        let (key, next) = string_at(buf, 1)->Ok_0;
        lemma_bytes_field_read_back(buf, next);
        let (value, end) = bytes_at(buf, next)->Ok_0;
        assert(buf.take(end) =~= seq![tag] + buf.subrange(1, next) + buf.subrange(next, end));
    } else if tag == TAG_GET {
        lemma_string_field_read_back(buf, 1);
        let (key, next) = string_at(buf, 1)->Ok_0;
        assert(buf.take(next) =~= seq![tag] + buf.subrange(1, next));
    } else if tag == TAG_VALUE {
        lemma_bytes_field_read_back(buf, 1);
        let (value, end) = bytes_at(buf, 1)->Ok_0;
        assert(buf.take(end) =~= seq![tag] + buf.subrange(1, end));
    } else {
        assert(buf.take(1) =~= seq![tag]);
    }
}

} // verus!
