use vstd::prelude::*;
use byteorder::ByteOrder;
use byteorder::LittleEndian;

verus! {

/// The value of the two little-endian bytes at `i`: an unsigned 16-bit
/// quantity.
pub open spec fn le16(b: Seq<u8>, i: int) -> int
    recommends
        0 <= i,
        i + 2 <= b.len(),
{
    b[i] + 0x100 * b[i + 1]
}

/// The value of the four little-endian bytes at `i`: an unsigned 32-bit
/// quantity.
pub open spec fn le32(b: Seq<u8>, i: int) -> int
    recommends
        0 <= i,
        i + 4 <= b.len(),
{
    b[i] + 0x100 * b[i + 1] + 0x1_0000 * b[i + 2] + 0x100_0000 * b[i + 3]
}

/// Reinterpret an unsigned 16-bit value as a signed (two's-complement) one.
pub open spec fn as_i16_val(v: int) -> int
    recommends
        0 <= v < 0x1_0000,
{
    if v >= 0x8000 {
        v - 0x1_0000
    } else {
        v
    }
}

/// The signed value of the two little-endian bytes at `i`.
pub open spec fn le16s(b: Seq<u8>, i: int) -> int
    recommends
        0 <= i,
        i + 2 <= b.len(),
{
    as_i16_val(le16(b, i))
}

/// The unsigned 16-bit pattern that a signed value is stored as.
pub open spec fn u16_val(x: i16) -> int {
    if x < 0 {
        x + 0x1_0000
    } else {
        x as int
    }
}

/// The two little-endian bytes of an unsigned 16-bit value.
pub open spec fn le16_bytes(v: int) -> Seq<u8>
    recommends
        0 <= v < 0x1_0000,
{
    seq![(v % 0x100) as u8, (v / 0x100) as u8]
}

/// Relies on byteorder's `LittleEndian::read_u16`: the little-endian
/// unsigned 16-bit value of the two bytes the slice starts with.
#[verifier::external_body]
pub(crate) fn read_le_u16(b: &Vec<u8>, off: usize) -> (r: u16)
    requires
        off + 2 <= b@.len(),
    ensures
        r as int == le16(b@, off as int),
{
    <LittleEndian as ByteOrder>::read_u16(&b[off..off + 2])
}

/// Relies on byteorder's `LittleEndian::read_i16`: the little-endian
/// unsigned 16-bit value of the two bytes the slice starts with,
/// reinterpreted as signed.
#[verifier::external_body]
pub(crate) fn read_le_i16(b: &Vec<u8>, off: usize) -> (r: i16)
    requires
        off + 2 <= b@.len(),
    ensures
        r as int == le16s(b@, off as int),
{
    <LittleEndian as ByteOrder>::read_i16(&b[off..off + 2])
}

/// Relies on byteorder's `LittleEndian::read_u32`: the little-endian
/// unsigned 32-bit value of the four bytes the slice starts with.
#[verifier::external_body]
pub(crate) fn read_le_u32(b: &Vec<u8>, off: usize) -> (r: u32)
    requires
        off + 4 <= b@.len(),
    ensures
        r as int == le32(b@, off as int),
{
    <LittleEndian as ByteOrder>::read_u32(&b[off..off + 4])
}

/// Append the two little-endian bytes of an unsigned 16-bit value.
pub fn push_le_u16(out: &mut Vec<u8>, v: u16)
    ensures
        final(out)@ == old(out)@ + le16_bytes(v as int),
{
    let lo: u8 = (v % 0x100) as u8;
    let hi: u8 = (v / 0x100) as u8;
    out.push(lo);
    out.push(hi);
    proof {
        assert(out@ =~= old(out)@ + le16_bytes(v as int));
    }
}

/// Append the two little-endian bytes of the unsigned pattern of a signed
/// 16-bit value.
pub fn push_le_i16(out: &mut Vec<u8>, x: i16)
    ensures
        final(out)@ == old(out)@ + le16_bytes(u16_val(x)),
{
    let v: u16 = if x >= 0 {
        x as u16
    } else {
        ((x as i32) + 0x1_0000) as u16
    };
    assert(v as int == u16_val(x));
    push_le_u16(out, v);
}

/// Reading two bytes and writing the value back reproduces the bytes.
pub proof fn lemma_le16_round_trip(b: Seq<u8>, i: int)
    requires
        0 <= i,
        i + 2 <= b.len(),
    ensures
        le16_bytes(le16(b, i)) == b.subrange(i, i + 2),
{
    let v = le16(b, i);
    vstd::arithmetic::div_mod::lemma_fundamental_div_mod_converse_mod(
        v, 0x100, b[i + 1] as int, b[i] as int);
    vstd::arithmetic::div_mod::lemma_fundamental_div_mod_converse_div(
        v, 0x100, b[i + 1] as int, b[i] as int);
    assert(le16_bytes(v) =~= b.subrange(i, i + 2));
}

/// The signed reading of two bytes still determines the bytes exactly.
pub proof fn lemma_le16s_round_trip(b: Seq<u8>, i: int, x: i16)
    requires
        0 <= i,
        i + 2 <= b.len(),
        x as int == le16s(b, i),
    ensures
        le16_bytes(u16_val(x)) == b.subrange(i, i + 2),
{
    assert(u16_val(x) == le16(b, i));
    lemma_le16_round_trip(b, i);
}

/// Copy the `len` bytes at `off` into a fresh vector.
pub(crate) fn copy_range(b: &Vec<u8>, off: usize, len: usize) -> (r: Vec<u8>)
    requires
        off + len <= b@.len(),
    ensures
        r@ == b@.subrange(off as int, off + len),
{
    let blen: usize = b.len();
    let mut out: Vec<u8> = Vec::new();
    proof {
        assert(out@ =~= b@.subrange(off as int, off as int));
    }
    let mut i: usize = 0;
    while i < len
        invariant
            i <= len,
            off + len <= b@.len(),
            b@.len() <= usize::MAX,
            out@ == b@.subrange(off as int, off + i),
        decreases len - i,
    {
        out.push(b[off + i]);
        proof {
            assert(out@ =~= b@.subrange(off as int, off + i + 1));
        }
        i = i + 1;
    }
    out
}

} // verus!
