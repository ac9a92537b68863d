use vstd::prelude::*;

use vstd::utf8::{decode_utf8, encode_utf8, valid_utf8};

use crate::errors::DeserializeError;
use crate::wire::{be_to_u32, put_bytes, put_u32, u32_be_bytes};

verus! {

/// A length-prefixed UTF-8 string, as request and response payloads carry
/// topic, group and header names: a four-byte big-endian byte count followed
/// by that many bytes.
pub open spec fn str_field_bytes(s: Seq<char>) -> Seq<u8> {
    u32_be_bytes(encode_utf8(s).len() as u32) + encode_utf8(s)
}

/// Parses a length-prefixed UTF-8 string off the front of `b`, returning it
/// with the remaining bytes. `None` when the buffer is too short or the
/// bytes are not UTF-8.
pub open spec fn parse_str_field(b: Seq<u8>) -> Option<(Seq<char>, Seq<u8>)> {
    if b.len() < 4 {
        None
    } else {
        let n = be_to_u32(b.take(4)) as int;
        let b1 = b.skip(4);
        if b1.len() < n {
            None
        } else if !valid_utf8(b1.take(n)) {
            None
        } else {
            Some((decode_utf8(b1.take(n)), b1.skip(n)))
        }
    }
}

/// A string field parses off its own encoding followed by `rest`, leaving
/// exactly `rest`.
pub proof fn lemma_str_field_round(s: Seq<char>, rest: Seq<u8>)
    requires
        encode_utf8(s).len() <= u32::MAX,
    ensures
        parse_str_field(str_field_bytes(s) + rest) == Some((s, rest)),
{
    let nb = encode_utf8(s);
    crate::wire::lemma_concat_assoc(u32_be_bytes(nb.len() as u32), nb, rest);
    assert(str_field_bytes(s) + rest == u32_be_bytes(nb.len() as u32) + (nb + rest));
    crate::wire::lemma_split_concat(u32_be_bytes(nb.len() as u32), nb + rest, 4);
    crate::wire::lemma_u32_be_round(nb.len() as u32);
    crate::wire::lemma_split_concat(nb, rest, nb.len() as int);
    vstd::utf8::encode_utf8_valid_utf8(s);
    vstd::utf8::encode_utf8_decode_utf8(s);
}

/// A parsed string field's UTF-8 encoding fits a four-byte length, since
/// that is the field it was read from.
pub proof fn lemma_parse_str_field_len(b: Seq<u8>)
    requires
        parse_str_field(b) is Some,
    ensures
        parse_str_field(b) matches Some(t) ==> encode_utf8(t.0).len() <= u32::MAX,
{
    let n = be_to_u32(b.take(4)) as int;
    let kb = b.skip(4).take(n);
    vstd::utf8::decode_utf8_encode_utf8(kb);
}

/// Appends the length-prefixed UTF-8 bytes of `s` to `buf`.
pub(crate) fn put_str_field(buf: &mut Vec<u8>, s: &str)
    requires
        encode_utf8(s@).len() <= u32::MAX,
    ensures
        final(buf)@ == old(buf)@ + str_field_bytes(s@),
{
    let bytes = s.as_bytes();
    put_u32(buf, bytes.len() as u32);
    put_bytes(buf, bytes);
    proof {
        assert(buf@ =~= old(buf)@ + str_field_bytes(s@));
    }
}

/// Takes a length-prefixed UTF-8 string off the front of `buf`, as
/// [`parse_str_field`] describes.
pub(crate) fn take_str_field(buf: &mut &[u8]) -> (r: Option<String>)
    ensures
        r matches Some(s) ==> (parse_str_field(old(buf)@) matches Some(t) && t.0 == s@ && t.1
            == final(buf)@),
        r is Some <==> parse_str_field(old(buf)@) is Some,
{
    let n = match crate::wire::take_u32(buf) {
        Ok(x) => x,
        Err(_) => {
            return None;
        },
    };
    let raw = match read_bytes(buf, n as usize) {
        Ok(b) => vstd::slice::slice_to_vec(b),
        Err(_) => {
            return None;
        },
    };
    bytes_to_string(raw)
}

/// Relies on `String::from_utf8`: it succeeds exactly on valid UTF-8 and
/// yields the characters those bytes encode.
#[verifier::external_body]
pub(crate) fn bytes_to_string(v: Vec<u8>) -> (r: Option<String>)
    ensures
        r is Some <==> vstd::utf8::valid_utf8(v@),
        r matches Some(s) ==> s@ == vstd::utf8::decode_utf8(v@),
{
    String::from_utf8(v).ok()
}

/// Takes the first `len` bytes off the front of `buf`, advancing it past them.
/// Fails with `UnexpectedEOF` when fewer than `len` bytes remain, leaving `buf`
/// untouched.
pub fn read_bytes<'a>(buf: &mut &'a [u8], len: usize) -> (r: Result<&'a [u8], DeserializeError>)
    ensures
        old(buf)@.len() >= len ==> (r matches Ok(head)
            && head@ == old(buf)@.take(len as int)
            && final(buf)@ == old(buf)@.skip(len as int)),
        old(buf)@.len() < len ==> (r matches Err(e)
            && e is UnexpectedEOF
            && final(buf)@ == old(buf)@),
{
    if buf.len() < len {
        return Err(DeserializeError::UnexpectedEOF);
    }
    let (head, rest) = buf.split_at(len);
    *buf = rest;
    assert(head@ =~= old(buf)@.take(len as int));
    assert(rest@ =~= old(buf)@.skip(len as int));
    Ok(head)
}

} // verus!
