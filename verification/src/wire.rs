//! Big-endian integer fields as they appear on the wire.

use vstd::prelude::*;

verus! {

/// The value of a two-byte big-endian field stored at the front of `b`.
pub open spec fn be16(b: Seq<u8>) -> nat
    recommends
        b.len() >= 2,
{
    b[0] as nat * 0x100 + b[1] as nat
}

/// The value of a four-byte big-endian field stored at the front of `b`.
pub open spec fn be32(b: Seq<u8>) -> nat
    recommends
        b.len() >= 4,
{
    b[0] as nat * 0x1000000 + b[1] as nat * 0x10000 + b[2] as nat * 0x100 + b[3] as nat
}

/// The two bytes that encode the low 16 bits of `x` in big-endian order.
pub open spec fn bytes16(x: nat) -> Seq<u8> {
    seq![((x / 0x100) % 0x100) as u8, (x % 0x100) as u8]
}

/// The four bytes that encode the low 32 bits of `x` in big-endian order.
pub open spec fn bytes32(x: nat) -> Seq<u8> {
    seq![
        ((x / 0x1000000) % 0x100) as u8,
        ((x / 0x10000) % 0x100) as u8,
        ((x / 0x100) % 0x100) as u8,
        (x % 0x100) as u8,
    ]
}

/// Reading back a two-byte field gives the number that was written, when it fits.
pub proof fn lemma_be16_of_bytes16(x: nat)
    requires
        x < 0x10000,
    ensures
        be16(bytes16(x)) == x,
{
    assert(((x / 0x100) % 0x100) * 0x100 + x % 0x100 == x) by (nonlinear_arith)
        requires 0 <= x < 0x10000;
}

/// Reading back a four-byte field gives the number that was written, when it fits.
pub proof fn lemma_be32_of_bytes32(x: nat)
    requires
        x < 0x100000000,
    ensures
        be32(bytes32(x)) == x,
{
    assert(((x / 0x1000000) % 0x100) * 0x1000000 + ((x / 0x10000) % 0x100) * 0x10000 + ((x / 0x100)
        % 0x100) * 0x100 + x % 0x100 == x) by (nonlinear_arith)
        requires 0 <= x < 0x100000000;
}

/// Writing back a two-byte field that was read gives the same bytes.
pub proof fn lemma_bytes16_of_be16(b: Seq<u8>)
    requires
        b.len() == 2,
    ensures
        be16(b) < 0x10000,
        bytes16(be16(b)) == b,
{
    let (b0, b1) = (b[0] as nat, b[1] as nat);
    assert(((b0 * 0x100 + b1) / 0x100) % 0x100 == b0 && (b0 * 0x100 + b1) % 0x100 == b1)
        by (nonlinear_arith)
        requires b0 < 0x100 && b1 < 0x100;
    assert(bytes16(be16(b)) =~= b);
}

/// Writing back a four-byte field that was read gives the same bytes.
pub proof fn lemma_bytes32_of_be32(b: Seq<u8>)
    requires
        b.len() == 4,
    ensures
        be32(b) < 0x100000000,
        bytes32(be32(b)) == b,
{
    let (b0, b1, b2, b3) = (b[0] as nat, b[1] as nat, b[2] as nat, b[3] as nat);
    let v = b0 * 0x1000000 + b1 * 0x10000 + b2 * 0x100 + b3;
    assert((v / 0x1000000) % 0x100 == b0 && (v / 0x10000) % 0x100 == b1 && (v / 0x100) % 0x100
        == b2 && v % 0x100 == b3) by (nonlinear_arith)
        requires
            b0 < 0x100 && b1 < 0x100 && b2 < 0x100 && b3 < 0x100,
            v == b0 * 0x1000000 + b1 * 0x10000 + b2 * 0x100 + b3,
    ;
    assert(bytes32(be32(b)) =~= b);
}

/// Appends the big-endian encoding of the low 16 bits of `x` to `out`.
pub fn put_len16_be(out: &mut Vec<u8>, x: usize)
    ensures
        final(out)@ == old(out)@ + bytes16(x as nat),
{
    out.push(((x / 0x100) % 0x100) as u8);
    out.push((x % 0x100) as u8);
    assert(final(out)@ =~= old(out)@ + bytes16(x as nat));
}

/// Appends the big-endian encoding of the low 32 bits of `x` to `out`.
pub fn put_len32_be(out: &mut Vec<u8>, x: usize)
    ensures
        final(out)@ == old(out)@ + bytes32(x as nat),
{
    out.push(((x / 0x1000000) % 0x100) as u8);
    out.push(((x / 0x10000) % 0x100) as u8);
    out.push(((x / 0x100) % 0x100) as u8);
    out.push((x % 0x100) as u8);
    assert(final(out)@ =~= old(out)@ + bytes32(x as nat));
}

/// Appends `src[from..to]` to `out`.
pub fn append_range(out: &mut Vec<u8>, src: &[u8], from: usize, to: usize)
    requires
        from <= to <= src@.len(),
    ensures
        final(out)@ == old(out)@ + src@.subrange(from as int, to as int),
{
    let ghost start = out@;
    let mut i = from;
    while i < to
        invariant
            from <= i <= to,
            to <= src@.len(),
            out@ == start + src@.subrange(from as int, i as int),
        decreases to - i,
    {
        out.push(src[i]);
        i = i + 1;
        assert(src@.subrange(from as int, i as int) =~= src@.subrange(from as int, i - 1).push(
            src@[i - 1],
        ));
    }
}

/// Reads the two-byte big-endian field at `pos`.
pub fn get_u16_be(buf: &[u8], pos: usize) -> (r: u16)
    requires
        pos + 2 <= buf@.len(),
    ensures
        r == be16(buf@.subrange(pos as int, pos + 2)),
{
    (buf[pos] as u16) * 0x100 + (buf[pos + 1] as u16)
}

/// Reads the four-byte big-endian field at `pos`.
pub fn get_u32_be(buf: &[u8], pos: usize) -> (r: u32)
    requires
        pos + 4 <= buf@.len(),
    ensures
        r == be32(buf@.subrange(pos as int, pos + 4)),
{
    (buf[pos] as u32) * 0x1000000 + (buf[pos + 1] as u32) * 0x10000 + (buf[pos + 2] as u32) * 0x100
        + (buf[pos + 3] as u32)
}

} // verus!
