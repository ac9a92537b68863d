use vstd::prelude::*;

use crate::errors::DeserializeError;
use crate::utils::read_bytes;

verus! {

// ---------------------------------------------------------------------------
// Big-endian byte encodings of the integer widths the formats use.
// ---------------------------------------------------------------------------

/// The four bytes of `x`, most significant first.
pub open spec fn u32_be_bytes(x: u32) -> Seq<u8> {
    seq![
        ((x >> 24) & 0xff) as u8,
        ((x >> 16) & 0xff) as u8,
        ((x >> 8) & 0xff) as u8,
        (x & 0xff) as u8,
    ]
}

/// The eight bytes of `x`, most significant first.
pub open spec fn u64_be_bytes(x: u64) -> Seq<u8> {
    seq![
        ((x >> 56) & 0xff) as u8,
        ((x >> 48) & 0xff) as u8,
        ((x >> 40) & 0xff) as u8,
        ((x >> 32) & 0xff) as u8,
        ((x >> 24) & 0xff) as u8,
        ((x >> 16) & 0xff) as u8,
        ((x >> 8) & 0xff) as u8,
        (x & 0xff) as u8,
    ]
}

/// The value read big-endian from a four-byte sequence.
pub open spec fn be_to_u32(s: Seq<u8>) -> u32
    recommends
        s.len() == 4,
{
    ((s[0] as u32) << 24) | ((s[1] as u32) << 16) | ((s[2] as u32) << 8) | (s[3] as u32)
}

/// The value read big-endian from an eight-byte sequence.
pub open spec fn be_to_u64(s: Seq<u8>) -> u64
    recommends
        s.len() == 8,
{
    ((s[0] as u64) << 56) | ((s[1] as u64) << 48) | ((s[2] as u64) << 40) | ((s[3] as u64) << 32)
        | ((s[4] as u64) << 24) | ((s[5] as u64) << 16) | ((s[6] as u64) << 8) | (s[7] as u64)
}

/// Reading back the four bytes of `x` yields `x`.
pub broadcast proof fn lemma_u32_be_round(x: u32)
    ensures
        be_to_u32(#[trigger] u32_be_bytes(x)) == x,
{
    assert((((((x >> 24) & 0xff) as u8) as u32) << 24) | (((((x >> 16) & 0xff) as u8) as u32)
        << 16) | (((((x >> 8) & 0xff) as u8) as u32) << 8) | (((x & 0xff) as u8) as u32)
        == x) by (bit_vector);
}

/// Reading back the eight bytes of `x` yields `x`.
pub broadcast proof fn lemma_u64_be_round(x: u64)
    ensures
        be_to_u64(#[trigger] u64_be_bytes(x)) == x,
{
    assert((((((x >> 56) & 0xff) as u8) as u64) << 56) | (((((x >> 48) & 0xff) as u8) as u64)
        << 48) | (((((x >> 40) & 0xff) as u8) as u64) << 40) | (((((x >> 32) & 0xff) as u8) as u64)
        << 32) | (((((x >> 24) & 0xff) as u8) as u64) << 24) | (((((x >> 16) & 0xff) as u8) as u64)
        << 16) | (((((x >> 8) & 0xff) as u8) as u64) << 8) | (((x & 0xff) as u8) as u64)
        == x) by (bit_vector);
}

/// Serialising the value read from four bytes yields those bytes again.
pub proof fn lemma_u32_be_inverse(s: Seq<u8>)
    requires
        s.len() == 4,
    ensures
        u32_be_bytes(be_to_u32(s)) == s,
{
    let a = s[0];
    let b = s[1];
    let c = s[2];
    let d = s[3];
    let x = be_to_u32(s);
    assert(((((a as u32) << 24) | ((b as u32) << 16) | ((c as u32) << 8) | (d as u32)) >> 24)
        & 0xff == a) by (bit_vector);
    assert(((((a as u32) << 24) | ((b as u32) << 16) | ((c as u32) << 8) | (d as u32)) >> 16)
        & 0xff == b) by (bit_vector);
    assert(((((a as u32) << 24) | ((b as u32) << 16) | ((c as u32) << 8) | (d as u32)) >> 8)
        & 0xff == c) by (bit_vector);
    assert((((a as u32) << 24) | ((b as u32) << 16) | ((c as u32) << 8) | (d as u32)) & 0xff
        == d) by (bit_vector);
    assert(u32_be_bytes(x) =~= s);
}

/// Serialising the value read from eight bytes yields those bytes again.
pub proof fn lemma_u64_be_inverse(s: Seq<u8>)
    requires
        s.len() == 8,
    ensures
        u64_be_bytes(be_to_u64(s)) == s,
{
    let a = s[0];
    let b = s[1];
    let c = s[2];
    let d = s[3];
    let e = s[4];
    let f = s[5];
    let g = s[6];
    let h = s[7];
    let x = be_to_u64(s);
    assert((x >> 56) & 0xff == a && (x >> 48) & 0xff == b && (x >> 40) & 0xff == c && (x >> 32)
        & 0xff == d && (x >> 24) & 0xff == e && (x >> 16) & 0xff == f && (x >> 8) & 0xff == g && x
        & 0xff == h) by (bit_vector)
        requires
            x == ((a as u64) << 56) | ((b as u64) << 48) | ((c as u64) << 40) | ((d as u64) << 32)
                | ((e as u64) << 24) | ((f as u64) << 16) | ((g as u64) << 8) | (h as u64),
    ;
    assert(u64_be_bytes(x) =~= s);
}

/// Splitting a concatenation at the length of its first part gives the parts
/// back. This is the workhorse of every parsing proof below.
pub proof fn lemma_split_concat(a: Seq<u8>, b: Seq<u8>, n: int)
    requires
        n == a.len(),
    ensures
        (a + b).len() == a.len() + b.len(),
        (a + b).take(n) == a,
        (a + b).skip(n) == b,
{
    assert((a + b).take(n) =~= a);
    assert((a + b).skip(n) =~= b);
}

/// Concatenation is associative. Stated as a lemma so parsing proofs can
/// re-group long concatenations cheaply.
pub proof fn lemma_concat_assoc(a: Seq<u8>, b: Seq<u8>, c: Seq<u8>)
    ensures
        (a + b) + c == a + (b + c),
{
    assert((a + b) + c =~= a + (b + c));
}

/// A prefix of length `a + b` splits into the first `a` bytes and the `b`
/// bytes after them.
pub proof fn lemma_take_split(s: Seq<u8>, a: int, b: int)
    requires
        0 <= a,
        0 <= b,
        a + b <= s.len(),
    ensures
        s.take(a + b) == s.take(a) + s.skip(a).take(b),
        s.skip(a + b) == s.skip(a).skip(b),
{
    assert(s.take(a + b) =~= s.take(a) + s.skip(a).take(b));
    assert(s.skip(a + b) =~= s.skip(a).skip(b));
}

/// Concatenation of lag-entry sequences is associative too.
pub proof fn lemma_concat_assoc_entries(
    a: Seq<(Seq<char>, u32, u64, u64, u64)>,
    b: Seq<(Seq<char>, u32, u64, u64, u64)>,
    c: Seq<(Seq<char>, u32, u64, u64, u64)>,
)
    ensures
        (a + b) + c == a + (b + c),
{
    assert((a + b) + c =~= a + (b + c));
}

// ---------------------------------------------------------------------------
// Writers: append an encoding to a growing buffer.
// ---------------------------------------------------------------------------

/// Appends the four big-endian bytes of `x` to `buf`.
pub fn put_u32(buf: &mut Vec<u8>, x: u32)
    ensures
        final(buf)@ == old(buf)@ + u32_be_bytes(x),
{
    buf.push(((x >> 24) & 0xff) as u8);
    buf.push(((x >> 16) & 0xff) as u8);
    buf.push(((x >> 8) & 0xff) as u8);
    buf.push((x & 0xff) as u8);
    assert(buf@ =~= old(buf)@ + u32_be_bytes(x));
}

/// Appends the eight big-endian bytes of `x` to `buf`.
pub fn put_u64(buf: &mut Vec<u8>, x: u64)
    ensures
        final(buf)@ == old(buf)@ + u64_be_bytes(x),
{
    buf.push(((x >> 56) & 0xff) as u8);
    buf.push(((x >> 48) & 0xff) as u8);
    buf.push(((x >> 40) & 0xff) as u8);
    buf.push(((x >> 32) & 0xff) as u8);
    buf.push(((x >> 24) & 0xff) as u8);
    buf.push(((x >> 16) & 0xff) as u8);
    buf.push(((x >> 8) & 0xff) as u8);
    buf.push((x & 0xff) as u8);
    assert(buf@ =~= old(buf)@ + u64_be_bytes(x));
}

/// Appends every byte of `bytes` to `buf`.
pub fn put_bytes(buf: &mut Vec<u8>, bytes: &[u8])
    ensures
        final(buf)@ == old(buf)@ + bytes@,
{
    buf.extend_from_slice(bytes);
}

// ---------------------------------------------------------------------------
// Readers: take an encoding off the front of a shrinking slice.
// ---------------------------------------------------------------------------

/// Takes one byte off the front of `buf`.
pub fn take_u8(buf: &mut &[u8]) -> (r: Result<u8, DeserializeError>)
    ensures
        old(buf)@.len() >= 1 ==> (r matches Ok(x)
            && x == old(buf)@[0]
            && final(buf)@ == old(buf)@.skip(1)),
        old(buf)@.len() < 1 ==> (r matches Err(e)
            && e is UnexpectedEOF
            && final(buf)@ == old(buf)@),
{
    let s = match read_bytes(buf, 1) {
        Ok(s) => s,
        Err(e) => {
            return Err(e);
        },
    };
    Ok(s[0])
}

/// Takes `len` bytes off the front of `buf` as an owned vector, or `None`
/// when fewer remain (leaving `buf` untouched).
pub fn read_bytes_or_none(buf: &mut &[u8], len: usize) -> (r: Option<Vec<u8>>)
    ensures
        old(buf)@.len() >= len ==> (r matches Some(v)
            && v@ == old(buf)@.take(len as int)
            && final(buf)@ == old(buf)@.skip(len as int)),
        old(buf)@.len() < len ==> r is None && final(buf)@ == old(buf)@,
{
    match read_bytes(buf, len) {
        Ok(b) => Some(vstd::slice::slice_to_vec(b)),
        Err(_) => None,
    }
}

/// Takes a big-endian `u32` off the front of `buf`.
pub fn take_u32(buf: &mut &[u8]) -> (r: Result<u32, DeserializeError>)
    ensures
        old(buf)@.len() >= 4 ==> (r matches Ok(x)
            && x == be_to_u32(old(buf)@.take(4))
            && final(buf)@ == old(buf)@.skip(4)),
        old(buf)@.len() < 4 ==> (r matches Err(e)
            && e is UnexpectedEOF
            && final(buf)@ == old(buf)@),
{
    let s = match read_bytes(buf, 4) {
        Ok(s) => s,
        Err(e) => {
            return Err(e);
        },
    };
    let x = ((s[0] as u32) << 24) | ((s[1] as u32) << 16) | ((s[2] as u32) << 8) | (s[3] as u32);
    Ok(x)
}

/// Takes a big-endian `u64` off the front of `buf`.
pub fn take_u64(buf: &mut &[u8]) -> (r: Result<u64, DeserializeError>)
    ensures
        old(buf)@.len() >= 8 ==> (r matches Ok(x)
            && x == be_to_u64(old(buf)@.take(8))
            && final(buf)@ == old(buf)@.skip(8)),
        old(buf)@.len() < 8 ==> (r matches Err(e)
            && e is UnexpectedEOF
            && final(buf)@ == old(buf)@),
{
    let s = match read_bytes(buf, 8) {
        Ok(s) => s,
        Err(e) => {
            return Err(e);
        },
    };
    let x = ((s[0] as u64) << 56) | ((s[1] as u64) << 48) | ((s[2] as u64) << 40) | ((s[3] as u64)
        << 32) | ((s[4] as u64) << 24) | ((s[5] as u64) << 16) | ((s[6] as u64) << 8) | (
    s[7] as u64);
    Ok(x)
}

} // verus!
