use vstd::prelude::*;

use vstd::utf8::{decode_utf8, encode_utf8, valid_utf8};

use crate::errors::DeserializeError;
use crate::utils::{bytes_to_string, read_bytes};
use crate::wire::{
    be_to_u32, be_to_u64, put_bytes, put_u32, put_u64, take_u32, take_u64, u32_be_bytes,
    u64_be_bytes,
};

verus! {

// ---------------------------------------------------------------------------
// The message and its mathematical shape.
// ---------------------------------------------------------------------------

/// A message as producers hand it in: optional key (used for partition
/// routing), value bytes, a millisecond timestamp, and optional ordered
/// headers whose names are UTF-8.
#[derive(Debug)]
pub struct Message {
    pub key: Option<Vec<u8>>,
    pub value: Vec<u8>,
    pub timestamp: u64,
    pub headers: Option<Vec<(String, Vec<u8>)>>,
}

/// The abstract value of a [`Message`].
#[verifier::ext_equal]
pub struct MessageView {
    pub key: Option<Seq<u8>>,
    pub value: Seq<u8>,
    pub timestamp: u64,
    pub headers: Option<Seq<(Seq<char>, Seq<u8>)>>,
}

impl View for Message {
    type V = MessageView;

    open spec fn view(&self) -> MessageView {
        MessageView {
            key: match self.key {
                Some(k) => Some(k@),
                None => None,
            },
            value: self.value@,
            timestamp: self.timestamp,
            headers: match self.headers {
                Some(hs) => Some(hs@.map_values(|h: (String, Vec<u8>)| (h.0@, h.1@))),
                None => None,
            },
        }
    }
}

/// An owned copy of a byte vector, equal to it.
pub(crate) fn clone_bytes(v: &Vec<u8>) -> (r: Vec<u8>)
    ensures
        r@ == v@,
{
    vstd::slice::slice_to_vec(v.as_slice())
}

impl Clone for Message {
    /// The copy carries the same abstract value.
    fn clone(&self) -> (r: Self)
        ensures
            r@ == self@,
    {
        let key = match &self.key {
            Some(k) => Some(clone_bytes(k)),
            None => None,
        };
        let value = clone_bytes(&self.value);
        let headers = match &self.headers {
            Some(hs) => {
                let mut copy: Vec<(String, Vec<u8>)> = Vec::new();
                let mut i: usize = 0;
                while i < hs.len()
                    invariant
                        i <= hs@.len(),
                        copy@.len() == i,
                        forall|j: int|
                            0 <= j < i ==> (#[trigger] copy@[j]).0@ == hs@[j].0@ && copy@[j].1@
                                == hs@[j].1@,
                    decreases hs@.len() - i,
                {
                    let h = &hs[i];
                    copy.push((h.0.clone(), clone_bytes(&h.1)));
                    i = i + 1;
                }
                Some(copy)
            },
            None => None,
        };
        let r = Message { key, value, timestamp: self.timestamp, headers };
        proof {
            match (&r.headers, &self.headers) {
                (Some(a), Some(b)) => {
                    assert(a@.map_values(|h: (String, Vec<u8>)| (h.0@, h.1@)) =~= b@.map_values(
                        |h: (String, Vec<u8>)| (h.0@, h.1@),
                    ));
                },
                _ => {},
            }
            assert(r@ =~= self@);
        }
        r
    }
}

// ---------------------------------------------------------------------------
// The byte layout, as specification functions.
//
// A stored record is laid out big-endian as
//   [ record_len ][ offset ][ timestamp ][ key_len ][ key ]
//   [ value_len ][ value ][ header_cnt ][ headers... ]
// where `record_len` covers everything after its own four bytes. The wire
// form of a message drops the prefix and the offset.
// ---------------------------------------------------------------------------

/// Encoding of one header: name length, UTF-8 name bytes, value length, value.
pub open spec fn header_bytes(h: (Seq<char>, Seq<u8>)) -> Seq<u8> {
    u32_be_bytes(encode_utf8(h.0).len() as u32) + encode_utf8(h.0)
        + u32_be_bytes(h.1.len() as u32) + h.1
}

/// Encoding of a header list, in order.
pub open spec fn headers_bytes(hs: Seq<(Seq<char>, Seq<u8>)>) -> Seq<u8>
    decreases hs.len(),
{
    if hs.len() == 0 {
        Seq::empty()
    } else {
        header_bytes(hs[0]) + headers_bytes(hs.drop_first())
    }
}

/// Encoding of the key section: a zero length stands for "no key".
pub open spec fn key_section_bytes(key: Option<Seq<u8>>) -> Seq<u8> {
    match key {
        Some(k) => u32_be_bytes(k.len() as u32) + k,
        None => u32_be_bytes(0),
    }
}

/// Encoding of the header section: a zero count stands for "no headers".
pub open spec fn header_section_bytes(headers: Option<Seq<(Seq<char>, Seq<u8>)>>) -> Seq<u8> {
    match headers {
        Some(hs) => u32_be_bytes(hs.len() as u32) + headers_bytes(hs),
        None => u32_be_bytes(0),
    }
}

/// The wire body of a message: everything after the offset.
pub open spec fn message_body_bytes(m: MessageView) -> Seq<u8> {
    u64_be_bytes(m.timestamp) + key_section_bytes(m.key) + u32_be_bytes(m.value.len() as u32)
        + m.value + header_section_bytes(m.headers)
}

/// The body of a stored record: offset, then the message body.
pub open spec fn record_body_bytes(m: MessageView, offset: u64) -> Seq<u8> {
    u64_be_bytes(offset) + message_body_bytes(m)
}

/// Every length field of `m` fits the `u32` the layout stores it in.
#[verifier::opaque]
pub open spec fn msg_fits(m: MessageView) -> bool {
    &&& (m.key matches Some(k) ==> k.len() <= u32::MAX)
    &&& m.value.len() <= u32::MAX
    &&& (m.headers matches Some(hs) ==> {
        &&& hs.len() <= u32::MAX
        &&& forall|i: int|
            0 <= i < hs.len() ==> {
                &&& encode_utf8((#[trigger] hs[i]).0).len() <= u32::MAX
                &&& hs[i].1.len() <= u32::MAX
            }
    })
    &&& record_body_bytes(m, 0).len() <= u32::MAX
}

/// A fitting message's record body fits the four-byte length prefix.
pub proof fn lemma_fits_len(m: MessageView, offset: u64)
    requires
        msg_fits(m),
    ensures
        record_body_bytes(m, offset).len() <= u32::MAX,
{
    reveal(msg_fits);
    assert(record_body_bytes(m, 0).len() == record_body_bytes(m, offset).len());
}

/// A message is well formed when its lengths fit and its options are
/// normalised: an absent key or header list is `None`, never an empty `Some`.
/// Only well-formed messages round-trip, since the layout writes a zero
/// length for `None`.
pub open spec fn msg_wf(m: MessageView) -> bool {
    &&& msg_fits(m)
    &&& (m.key matches Some(k) ==> k.len() > 0)
    &&& (m.headers matches Some(hs) ==> hs.len() > 0)
}

// ---------------------------------------------------------------------------
// The parser, as a specification.
// ---------------------------------------------------------------------------

/// How record parsing can fail: the buffer ran out, or a header name held
/// bytes that are not UTF-8.
pub enum RecordParseError {
    Eof,
    Utf8,
}

/// Parses one header off the front of `s`, returning it with the remaining
/// bytes.
pub open spec fn parse_one_header(s: Seq<u8>) -> Result<
    ((Seq<char>, Seq<u8>), Seq<u8>),
    RecordParseError,
> {
    if s.len() < 4 {
        Err(RecordParseError::Eof)
    } else {
        let klen = be_to_u32(s.take(4)) as int;
        let s1 = s.skip(4);
        if s1.len() < klen {
            Err(RecordParseError::Eof)
        } else {
            let kb = s1.take(klen);
            let s2 = s1.skip(klen);
            if !valid_utf8(kb) {
                Err(RecordParseError::Utf8)
            } else if s2.len() < 4 {
                Err(RecordParseError::Eof)
            } else {
                let vlen = be_to_u32(s2.take(4)) as int;
                let s3 = s2.skip(4);
                if s3.len() < vlen {
                    Err(RecordParseError::Eof)
                } else {
                    Ok(((decode_utf8(kb), s3.take(vlen)), s3.skip(vlen)))
                }
            }
        }
    }
}

/// Parses `n` headers off the front of `s`, returning them with the
/// remaining bytes.
pub open spec fn parse_headers(s: Seq<u8>, n: nat) -> Result<
    (Seq<(Seq<char>, Seq<u8>)>, Seq<u8>),
    RecordParseError,
>
    decreases n,
{
    if n == 0 {
        Ok((Seq::empty(), s))
    } else {
        match parse_one_header(s) {
            Ok((h, rem)) => match parse_headers(rem, (n - 1) as nat) {
                Ok((rest, rem2)) => Ok((seq![h] + rest, rem2)),
                Err(e) => Err(e),
            },
            Err(e) => Err(e),
        }
    }
}

/// Parses a message body (no offset) off the front of `s`, returning the
/// message with the remaining bytes.
#[verifier::opaque]
pub open spec fn parse_message_body(s: Seq<u8>) -> Result<
    (MessageView, Seq<u8>),
    RecordParseError,
> {
    if s.len() < 8 {
        Err(RecordParseError::Eof)
    } else {
        let timestamp = be_to_u64(s.take(8));
        let s1 = s.skip(8);
        if s1.len() < 4 {
            Err(RecordParseError::Eof)
        } else {
            let klen = be_to_u32(s1.take(4)) as int;
            let s2 = s1.skip(4);
            if s2.len() < klen {
                Err(RecordParseError::Eof)
            } else {
                let key = if klen > 0 {
                    Some(s2.take(klen))
                } else {
                    None
                };
                let s3 = s2.skip(klen);
                if s3.len() < 4 {
                    Err(RecordParseError::Eof)
                } else {
                    let vlen = be_to_u32(s3.take(4)) as int;
                    let s4 = s3.skip(4);
                    if s4.len() < vlen {
                        Err(RecordParseError::Eof)
                    } else {
                        let value = s4.take(vlen);
                        let s5 = s4.skip(vlen);
                        if s5.len() < 4 {
                            Err(RecordParseError::Eof)
                        } else {
                            let hcount = be_to_u32(s5.take(4)) as nat;
                            let s6 = s5.skip(4);
                            match parse_headers(s6, hcount) {
                                Ok((hs, rem)) => Ok(
                                    (
                                        MessageView {
                                            key,
                                            value,
                                            timestamp,
                                            headers: if hs.len() == 0 {
                                                None
                                            } else {
                                                Some(hs)
                                            },
                                        },
                                        rem,
                                    ),
                                ),
                                Err(e) => Err(e),
                            }
                        }
                    }
                }
            }
        }
    }
}

/// Appending one header to a list appends its encoding to the list's.
pub proof fn lemma_headers_bytes_snoc(hs: Seq<(Seq<char>, Seq<u8>)>, h: (Seq<char>, Seq<u8>))
    ensures
        headers_bytes(hs.push(h)) == headers_bytes(hs) + header_bytes(h),
    decreases hs.len(),
{
    if hs.len() == 0 {
        let p = hs.push(h);
        assert(p[0] == h);
        assert(p.drop_first() =~= Seq::<(Seq<char>, Seq<u8>)>::empty());
        assert(headers_bytes(p.drop_first()) == Seq::<u8>::empty());
        assert(headers_bytes(p) == header_bytes(h) + headers_bytes(p.drop_first()));
        assert(header_bytes(h) + Seq::<u8>::empty() =~= header_bytes(h));
        assert(headers_bytes(hs) == Seq::<u8>::empty());
        assert(Seq::<u8>::empty() + header_bytes(h) =~= header_bytes(h));
    } else {
        assert(hs.push(h).drop_first() =~= hs.drop_first().push(h));
        lemma_headers_bytes_snoc(hs.drop_first(), h);
        assert(hs.push(h)[0] == hs[0]);
        assert(headers_bytes(hs.push(h)) == header_bytes(hs[0]) + (headers_bytes(hs.drop_first())
            + header_bytes(h)));
        assert(header_bytes(hs[0]) + (headers_bytes(hs.drop_first()) + header_bytes(h)) =~= (
        header_bytes(hs[0]) + headers_bytes(hs.drop_first())) + header_bytes(h));
    }
}

/// Parsing one header off its own encoding followed by `rest` succeeds and
/// leaves exactly `rest`.
pub proof fn lemma_parse_one_header_round(h: (Seq<char>, Seq<u8>), rest: Seq<u8>)
    requires
        encode_utf8(h.0).len() <= u32::MAX,
        h.1.len() <= u32::MAX,
    ensures
        parse_one_header(header_bytes(h) + rest) == Ok::<_, RecordParseError>((h, rest)),
{
    let nb = encode_utf8(h.0);
    let a = u32_be_bytes(nb.len() as u32);
    let c = u32_be_bytes(h.1.len() as u32);
    let s = header_bytes(h) + rest;
    // header_bytes(h) is ((a + nb) + c) + h.1; re-group so each field heads
    // the remaining bytes in turn.
    crate::wire::lemma_concat_assoc((a + nb) + c, h.1, rest);
    crate::wire::lemma_concat_assoc(a + nb, c, h.1 + rest);
    crate::wire::lemma_concat_assoc(a, nb, c + (h.1 + rest));
    assert(s == a + (nb + (c + (h.1 + rest))));
    crate::wire::lemma_split_concat(a, nb + (c + (h.1 + rest)), 4);
    crate::wire::lemma_u32_be_round(nb.len() as u32);
    crate::wire::lemma_split_concat(nb, c + (h.1 + rest), nb.len() as int);
    vstd::utf8::encode_utf8_valid_utf8(h.0);
    vstd::utf8::encode_utf8_decode_utf8(h.0);
    crate::wire::lemma_split_concat(c, h.1 + rest, 4);
    crate::wire::lemma_u32_be_round(h.1.len() as u32);
    crate::wire::lemma_split_concat(h.1, rest, h.1.len() as int);
}

/// Parsing `n` headers off their own encoding followed by `rest` succeeds
/// and leaves exactly `rest`.
pub proof fn lemma_parse_headers_round(hs: Seq<(Seq<char>, Seq<u8>)>, rest: Seq<u8>)
    requires
        forall|i: int|
            0 <= i < hs.len() ==> encode_utf8((#[trigger] hs[i]).0).len() <= u32::MAX
                && hs[i].1.len() <= u32::MAX,
    ensures
        parse_headers(headers_bytes(hs) + rest, hs.len()) == Ok::<
            _,
            RecordParseError,
        >((hs, rest)),
    decreases hs.len(),
{
    if hs.len() == 0 {
        assert(headers_bytes(hs) + rest =~= rest);
        assert(hs =~= Seq::<(Seq<char>, Seq<u8>)>::empty());
    } else {
        let h = hs[0];
        let s = headers_bytes(hs) + rest;
        crate::wire::lemma_concat_assoc(header_bytes(h), headers_bytes(hs.drop_first()), rest);
        assert(s == header_bytes(h) + (headers_bytes(hs.drop_first()) + rest));
        lemma_parse_one_header_round(h, headers_bytes(hs.drop_first()) + rest);
        lemma_parse_headers_round(hs.drop_first(), rest);
        assert(seq![h] + hs.drop_first() =~= hs);
    }
}

/// A well-formed message body parses back to the message, leaving `rest`.
#[verifier::rlimit(100)]
pub proof fn lemma_parse_message_round(m: MessageView, rest: Seq<u8>)
    requires
        msg_wf(m),
    ensures
        parse_message_body(message_body_bytes(m) + rest) == Ok::<
            _,
            RecordParseError,
        >((m, rest)),
{
    reveal(msg_fits);
    reveal(parse_message_body);
    let a = u64_be_bytes(m.timestamp);
    let b = key_section_bytes(m.key);
    let c = u32_be_bytes(m.value.len() as u32);
    let d = m.value;
    let e = header_section_bytes(m.headers);
    let s = message_body_bytes(m) + rest;
    // message_body_bytes(m) is (((a + b) + c) + d) + e; re-group so each
    // field heads the remaining bytes in turn.
    crate::wire::lemma_concat_assoc(((a + b) + c) + d, e, rest);
    crate::wire::lemma_concat_assoc((a + b) + c, d, e + rest);
    crate::wire::lemma_concat_assoc(a + b, c, d + (e + rest));
    crate::wire::lemma_concat_assoc(a, b, c + (d + (e + rest)));
    assert(s == a + (b + (c + (d + (e + rest)))));
    crate::wire::lemma_split_concat(a, b + (c + (d + (e + rest))), 8);
    crate::wire::lemma_u64_be_round(m.timestamp);
    let s1 = s.skip(8);
    let after_key = c + (d + (e + rest));
    match m.key {
        Some(k) => {
            crate::wire::lemma_concat_assoc(u32_be_bytes(k.len() as u32), k, after_key);
            assert(s1 == u32_be_bytes(k.len() as u32) + (k + after_key));
            crate::wire::lemma_split_concat(u32_be_bytes(k.len() as u32), k + after_key, 4);
            crate::wire::lemma_u32_be_round(k.len() as u32);
            crate::wire::lemma_split_concat(k, after_key, k.len() as int);
        },
        None => {
            assert(s1 == u32_be_bytes(0) + after_key);
            crate::wire::lemma_split_concat(u32_be_bytes(0), after_key, 4);
            crate::wire::lemma_u32_be_round(0);
            assert(after_key.skip(0) =~= after_key);
            assert(after_key.take(0) =~= Seq::<u8>::empty());
        },
    }
    let s3 = after_key;
    crate::wire::lemma_split_concat(c, d + (e + rest), 4);
    crate::wire::lemma_u32_be_round(m.value.len() as u32);
    crate::wire::lemma_split_concat(d, e + rest, d.len() as int);
    let s5 = e + rest;
    match m.headers {
        Some(hs) => {
            crate::wire::lemma_concat_assoc(
                u32_be_bytes(hs.len() as u32),
                headers_bytes(hs),
                rest,
            );
            assert(s5 == u32_be_bytes(hs.len() as u32) + (headers_bytes(hs) + rest));
            crate::wire::lemma_split_concat(
                u32_be_bytes(hs.len() as u32),
                headers_bytes(hs) + rest,
                4,
            );
            crate::wire::lemma_u32_be_round(hs.len() as u32);
            lemma_parse_headers_round(hs, rest);
        },
        None => {
            assert(s5 == u32_be_bytes(0) + rest);
            crate::wire::lemma_split_concat(u32_be_bytes(0), rest, 4);
            crate::wire::lemma_u32_be_round(0);
        },
    }
    match parse_message_body(s) {
        Ok((pm, prem)) => {
            assert(pm =~= m);
            assert(prem == rest);
        },
        Err(_) => {
            assert(false);
        },
    }
}

/// The record round trip: a well-formed message serialised at offset `o`
/// parses back to exactly `(o, m)` with nothing left over.
pub proof fn lemma_record_round_trip(m: MessageView, offset: u64)
    requires
        msg_wf(m),
    ensures
        parse_record_body(record_body_bytes(m, offset)) == Ok::<
            _,
            RecordParseError,
        >((offset, m, Seq::<u8>::empty())),
{
    let s = record_body_bytes(m, offset);
    crate::wire::lemma_split_concat(u64_be_bytes(offset), message_body_bytes(m), 8);
    crate::wire::lemma_u64_be_round(offset);
    lemma_parse_message_round(m, Seq::<u8>::empty());
    assert(message_body_bytes(m) + Seq::<u8>::empty() =~= message_body_bytes(m));
}

/// Splitting any sequence at `n` and re-concatenating gives it back.
proof fn lemma_take_skip(s: Seq<u8>, n: int)
    requires
        0 <= n <= s.len(),
    ensures
        s == s.take(n) + s.skip(n),
{
    assert(s =~= s.take(n) + s.skip(n));
}

/// What one parsed header re-serialises to: exactly the bytes it was parsed
/// from, up to the remainder. Its lengths fit, since they were read from
/// four-byte fields.
pub proof fn lemma_parse_one_header_sound(s: Seq<u8>)
    requires
        parse_one_header(s) is Ok,
    ensures
        parse_one_header(s) matches Ok((h, rem)) ==> {
            &&& s == header_bytes(h) + rem
            &&& encode_utf8(h.0).len() <= u32::MAX
            &&& h.1.len() <= u32::MAX
        },
{
    let klen = be_to_u32(s.take(4)) as int;
    let s1 = s.skip(4);
    let kb = s1.take(klen);
    let s2 = s1.skip(klen);
    let vlen = be_to_u32(s2.take(4)) as int;
    let s3 = s2.skip(4);
    let vb = s3.take(vlen);
    vstd::utf8::decode_utf8_encode_utf8(kb);
    crate::wire::lemma_u32_be_inverse(s.take(4));
    crate::wire::lemma_u32_be_inverse(s2.take(4));
    let h = (decode_utf8(kb), vb);
    assert(encode_utf8(h.0) == kb);
    assert(u32_be_bytes(kb.len() as u32) == s.take(4));
    assert(u32_be_bytes(vb.len() as u32) == s2.take(4));
    lemma_take_skip(s, 4);
    lemma_take_skip(s1, klen);
    lemma_take_skip(s2, 4);
    lemma_take_skip(s3, vlen);
    assert(header_bytes(h) + s3.skip(vlen) =~= s.take(4) + (s1.take(klen) + (s2.take(4) + (
    s3.take(vlen) + s3.skip(vlen)))));
    assert(s =~= s.take(4) + (s1.take(klen) + (s2.take(4) + (s3.take(vlen) + s3.skip(vlen)))));
}

/// What `n` parsed headers re-serialise to: exactly the bytes they were
/// parsed from, up to the remainder; and there are `n` of them, each with
/// fitting lengths.
pub proof fn lemma_parse_headers_sound(s: Seq<u8>, n: nat)
    requires
        parse_headers(s, n) is Ok,
    ensures
        parse_headers(s, n) matches Ok((hs, rem)) ==> {
            &&& s == headers_bytes(hs) + rem
            &&& hs.len() == n
            &&& forall|i: int|
                0 <= i < hs.len() ==> encode_utf8((#[trigger] hs[i]).0).len() <= u32::MAX
                    && hs[i].1.len() <= u32::MAX
        },
    decreases n,
{
    if n == 0 {
        let (hs, rem) = parse_headers(s, n)->Ok_0;
        assert(headers_bytes(hs) + rem =~= s);
    } else {
        lemma_parse_one_header_sound(s);
        let (h, rem1) = parse_one_header(s)->Ok_0;
        lemma_parse_headers_sound(rem1, (n - 1) as nat);
        let (rest, rem2) = parse_headers(rem1, (n - 1) as nat)->Ok_0;
        let hs = seq![h] + rest;
        assert(hs[0] == h);
        assert(hs.drop_first() =~= rest);
        assert(headers_bytes(hs) == header_bytes(h) + headers_bytes(rest));
        assert((header_bytes(h) + headers_bytes(rest)) + rem2 =~= header_bytes(h) + (
        headers_bytes(rest) + rem2));
    }
}

/// What a parsed message body re-serialises to: exactly the bytes it was
/// parsed from, up to the remainder. The parsed message is normalised (no
/// empty `Some` key or header list) and all its lengths fit.
#[verifier::rlimit(100)]
pub proof fn lemma_parse_message_sound(s: Seq<u8>)
    requires
        parse_message_body(s) is Ok,
    ensures
        parse_message_body(s) matches Ok((m, rem)) ==> {
            &&& s == message_body_bytes(m) + rem
            &&& message_body_bytes(m).len() + rem.len() == s.len()
            &&& (m.key matches Some(k) ==> 0 < k.len() <= u32::MAX)
            &&& m.value.len() <= u32::MAX
            &&& (m.headers matches Some(hs) ==> {
                &&& 0 < hs.len() <= u32::MAX
                &&& forall|i: int|
                    0 <= i < hs.len() ==> encode_utf8((#[trigger] hs[i]).0).len() <= u32::MAX
                        && hs[i].1.len() <= u32::MAX
            })
        },
{
    reveal(parse_message_body);
    let s1 = s.skip(8);
    let klen = be_to_u32(s1.take(4)) as int;
    let s2 = s1.skip(4);
    let s3 = s2.skip(klen);
    let vlen = be_to_u32(s3.take(4)) as int;
    let s4 = s3.skip(4);
    let s5 = s4.skip(vlen);
    let hcount = be_to_u32(s5.take(4)) as nat;
    let s6 = s5.skip(4);
    let (m, rem) = parse_message_body(s)->Ok_0;
    crate::wire::lemma_u64_be_inverse(s.take(8));
    crate::wire::lemma_u32_be_inverse(s1.take(4));
    crate::wire::lemma_u32_be_inverse(s3.take(4));
    crate::wire::lemma_u32_be_inverse(s5.take(4));
    lemma_parse_headers_sound(s6, hcount);
    let (hs, hrem) = parse_headers(s6, hcount)->Ok_0;
    assert(rem == hrem);
    // Each section's bytes are the slice they were read from.
    assert(u64_be_bytes(m.timestamp) == s.take(8));
    assert(key_section_bytes(m.key) =~= s1.take(4) + s2.take(klen)) by {
        if klen > 0 {
            assert(m.key == Some(s2.take(klen)));
            assert(u32_be_bytes(s2.take(klen).len() as u32) == s1.take(4));
        } else {
            assert(s2.take(0) =~= Seq::<u8>::empty());
            assert(u32_be_bytes(0) == s1.take(4));
        }
    }
    assert(u32_be_bytes(m.value.len() as u32) == s3.take(4));
    assert(m.value == s4.take(vlen));
    assert(header_section_bytes(m.headers) =~= s5.take(4) + headers_bytes(hs)) by {
        if hs.len() == 0 {
            assert(m.headers is None);
            assert(headers_bytes(hs) =~= Seq::<u8>::empty());
            assert(u32_be_bytes(0) == s5.take(4));
        } else {
            assert(m.headers == Some(hs));
            assert(hs.len() == hcount);
            assert(u32_be_bytes(hs.len() as u32) == s5.take(4));
        }
    }
    lemma_take_skip(s, 8);
    lemma_take_skip(s1, 4);
    lemma_take_skip(s2, klen);
    lemma_take_skip(s3, 4);
    lemma_take_skip(s4, vlen);
    lemma_take_skip(s5, 4);
    assert(s6 == headers_bytes(hs) + rem);
    let a = u64_be_bytes(m.timestamp);
    let b = key_section_bytes(m.key);
    let c = u32_be_bytes(m.value.len() as u32);
    let d = m.value;
    let e = header_section_bytes(m.headers);
    // Re-group the five message sections against the take/skip decomposition
    // of `s`, one boundary at a time.
    crate::wire::lemma_concat_assoc(((a + b) + c) + d, e, rem);
    crate::wire::lemma_concat_assoc((a + b) + c, d, e + rem);
    crate::wire::lemma_concat_assoc(a + b, c, d + (e + rem));
    crate::wire::lemma_concat_assoc(a, b, c + (d + (e + rem)));
    crate::wire::lemma_concat_assoc(s5.take(4), headers_bytes(hs), rem);
    assert(e + rem == s5);
    assert(d + (e + rem) == s4);
    assert(c + (d + (e + rem)) == s3);
    crate::wire::lemma_concat_assoc(s1.take(4), s2.take(klen), c + (d + (e + rem)));
    assert(s2.take(klen) + s3 == s2);
    assert(b + (c + (d + (e + rem))) == s1);
    assert(a + s1 == s);
    assert(message_body_bytes(m) + rem == s);
}

/// What a parsed record body re-serialises to: exactly the bytes it was
/// parsed from, up to the remainder, with the message normalised and fitting
/// as in [`lemma_parse_message_sound`].
pub proof fn lemma_parse_record_sound(s: Seq<u8>)
    requires
        parse_record_body(s) is Ok,
    ensures
        parse_record_body(s) matches Ok((o, m, rem)) ==> {
            &&& s == record_body_bytes(m, o) + rem
            &&& record_body_bytes(m, o).len() + rem.len() == s.len()
            &&& (m.key matches Some(k) ==> 0 < k.len() <= u32::MAX)
            &&& m.value.len() <= u32::MAX
            &&& (m.headers matches Some(hs) ==> {
                &&& 0 < hs.len() <= u32::MAX
                &&& forall|i: int|
                    0 <= i < hs.len() ==> encode_utf8((#[trigger] hs[i]).0).len() <= u32::MAX
                        && hs[i].1.len() <= u32::MAX
            })
        },
{
    crate::wire::lemma_u64_be_inverse(s.take(8));
    lemma_parse_message_sound(s.skip(8));
    let (o, m, rem) = parse_record_body(s)->Ok_0;
    lemma_take_skip(s, 8);
    crate::wire::lemma_concat_assoc(u64_be_bytes(o), message_body_bytes(m), rem);
    assert(message_body_bytes(m) + rem == s.skip(8));
    assert(record_body_bytes(m, o) + rem == s);
}

/// Parses a stored-record body: offset first, then the message body.
pub open spec fn parse_record_body(s: Seq<u8>) -> Result<
    (u64, MessageView, Seq<u8>),
    RecordParseError,
> {
    if s.len() < 8 {
        Err(RecordParseError::Eof)
    } else {
        let offset = be_to_u64(s.take(8));
        match parse_message_body(s.skip(8)) {
            Ok((m, rem)) => Ok((offset, m, rem)),
            Err(e) => Err(e),
        }
    }
}

// ---------------------------------------------------------------------------
// Executable serialisation and parsing, proved against the model above.
// ---------------------------------------------------------------------------

impl Message {
    /// Appends the wire body of this message (no offset, no length prefix)
    /// to `buf`.
    pub(crate) fn write_body(&self, buf: &mut Vec<u8>)
        requires
            msg_fits(self@),
        ensures
            final(buf)@ == old(buf)@ + message_body_bytes(self@),
    {
        proof {
            reveal(msg_fits);
        }
        put_u64(buf, self.timestamp);
        match &self.key {
            Some(key) => {
                put_u32(buf, key.len() as u32);
                put_bytes(buf, key.as_slice());
            },
            None => {
                put_u32(buf, 0);
            },
        }
        put_u32(buf, self.value.len() as u32);
        put_bytes(buf, self.value.as_slice());
        match &self.headers {
            Some(headers) => {
                let ghost hs = self@.headers.unwrap();
                put_u32(buf, headers.len() as u32);
                let ghost before = buf@;
                let mut i: usize = 0;
                while i < headers.len()
                    invariant
                        i <= headers.len(),
                        msg_fits(self@),
                        self@.headers == Some(hs),
                        hs.len() == headers@.len(),
                        forall|j: int|
                            0 <= j < headers@.len() ==> hs[j] == (
                            #[trigger] headers@[j].0@,
                            headers@[j].1@,
                            ),
                        buf@ == before + headers_bytes(hs.take(i as int)),
                    decreases headers.len() - i,
                {
                    let h = &headers[i];
                    let name_bytes = h.0.as_str().as_bytes();
                    assert(name_bytes@ == encode_utf8(hs[i as int].0));
                    put_u32(buf, name_bytes.len() as u32);
                    put_bytes(buf, name_bytes);
                    put_u32(buf, h.1.len() as u32);
                    put_bytes(buf, h.1.as_slice());
                    proof {
                        lemma_headers_bytes_snoc(hs.take(i as int), hs[i as int]);
                        assert(hs.take(i as int).push(hs[i as int]) =~= hs.take(i + 1));
                        assert(buf@ =~= before + headers_bytes(hs.take(i + 1)));
                    }
                    i = i + 1;
                }
                proof {
                    assert(hs.take(hs.len() as int) =~= hs);
                }
            },
            None => {
                put_u32(buf, 0);
            },
        }
        proof {
            assert(buf@ =~= old(buf)@ + message_body_bytes(self@));
        }
    }

    /// Serialises this message for disk at the given offset: a four-byte
    /// length prefix followed by the record body.
    pub fn serialize_for_disk(&self, offset: u64) -> (r: Vec<u8>)
        requires
            msg_fits(self@),
        ensures
            r@ == u32_be_bytes(record_body_bytes(self@, offset).len() as u32) + record_body_bytes(
                self@,
                offset,
            ),
    {
        let body = self.serialize_for_wire(offset);
        let mut out: Vec<u8> = Vec::new();
        proof {
            reveal(msg_fits);
            assert(record_body_bytes(self@, 0).len() == record_body_bytes(
                self@,
                offset,
            ).len());
        }
        put_u32(&mut out, body.len() as u32);
        put_bytes(&mut out, body.as_slice());
        proof {
            assert(out@ =~= u32_be_bytes(record_body_bytes(self@, offset).len() as u32)
                + record_body_bytes(self@, offset));
        }
        out
    }

    /// Serialises this message for the wire at the given offset: the record
    /// body without the length prefix.
    pub fn serialize_for_wire(&self, offset: u64) -> (r: Vec<u8>)
        requires
            msg_fits(self@),
        ensures
            r@ == record_body_bytes(self@, offset),
    {
        let mut buf: Vec<u8> = Vec::new();
        put_u64(&mut buf, offset);
        self.write_body(&mut buf);
        proof {
            assert(buf@ =~= record_body_bytes(self@, offset));
        }
        buf
    }

    /// Parses a record body: the offset, then the message. Trailing bytes
    /// are ignored. Behaves exactly as [`parse_record_body`] on the buffer.
    pub fn deserialize(buf: &[u8]) -> (r: Result<(u64, Message), DeserializeError>)
        ensures
            r matches Ok((o, m)) ==> (parse_record_body(buf@) matches Ok(t) && t.0 == o && t.1
                == m@),
            r matches Err(e) ==> (parse_record_body(buf@) matches Err(pe) && ((pe
                == RecordParseError::Eof && e is UnexpectedEOF) || (pe == RecordParseError::Utf8
                && e is InvalidUtf8))),
            r is Ok <==> parse_record_body(buf@) is Ok,
    {
        let mut cur: &[u8] = buf;
        let offset = match take_u64(&mut cur) {
            Ok(x) => x,
            Err(e) => {
                return Err(e);
            },
        };
        match Self::parse_body_exec(&mut cur) {
            Ok(m) => Ok((offset, m)),
            Err(e) => Err(e),
        }
    }

    /// Parses a wire message body (no offset). Trailing bytes are ignored.
    /// Behaves exactly as [`parse_message_body`] on the buffer.
    pub fn deserialize_body(buf: &[u8]) -> (r: Result<Message, DeserializeError>)
        ensures
            r matches Ok(m) ==> (parse_message_body(buf@) matches Ok(t) && t.0 == m@),
            r matches Err(e) ==> (parse_message_body(buf@) matches Err(pe) && ((pe
                == RecordParseError::Eof && e is UnexpectedEOF) || (pe == RecordParseError::Utf8
                && e is InvalidUtf8))),
            r is Ok <==> parse_message_body(buf@) is Ok,
    {
        let mut cur: &[u8] = buf;
        Self::parse_body_exec(&mut cur)
    }

    /// Parses one header, as [`parse_one_header`] describes.
    fn parse_one_header_exec(cur: &mut &[u8]) -> (r: Result<(String, Vec<u8>), DeserializeError>)
        ensures
            r matches Ok(h) ==> (parse_one_header(old(cur)@) matches Ok(t) && t.0 == (h.0@, h.1@)
                && t.1 == final(cur)@),
            r matches Err(e) ==> (parse_one_header(old(cur)@) matches Err(pe) && ((pe
                == RecordParseError::Eof && e is UnexpectedEOF) || (pe == RecordParseError::Utf8
                && e is InvalidUtf8))),
            r is Ok <==> parse_one_header(old(cur)@) is Ok,
    {
        let name_len = match take_u32(cur) {
            Ok(x) => x,
            Err(e) => {
                return Err(e);
            },
        };
        let name_raw = match read_bytes(cur, name_len as usize) {
            Ok(nb) => vstd::slice::slice_to_vec(nb),
            Err(e) => {
                return Err(e);
            },
        };
        let name = match bytes_to_string(name_raw) {
            Some(s) => s,
            None => {
                return Err(DeserializeError::InvalidUtf8);
            },
        };
        let val_len = match take_u32(cur) {
            Ok(x) => x,
            Err(e) => {
                return Err(e);
            },
        };
        let val = match read_bytes(cur, val_len as usize) {
            Ok(vb) => vstd::slice::slice_to_vec(vb),
            Err(e) => {
                return Err(e);
            },
        };
        Ok((name, val))
    }

    /// The working parser behind [`Message::deserialize`] and
    /// [`Message::deserialize_body`].
    #[verifier::loop_isolation(false)]
    pub(crate) fn parse_body_exec(cur: &mut &[u8]) -> (r: Result<Message, DeserializeError>)
        ensures
            r matches Ok(m) ==> (parse_message_body(old(cur)@) matches Ok(t) && t.0 == m@
                && t.1 == final(cur)@),
            r matches Err(e) ==> (parse_message_body(old(cur)@) matches Err(pe) && ((pe
                == RecordParseError::Eof && e is UnexpectedEOF) || (pe == RecordParseError::Utf8
                && e is InvalidUtf8))),
            r is Ok <==> parse_message_body(old(cur)@) is Ok,
    {
        proof {
            reveal(parse_message_body);
        }
        let timestamp = match take_u64(cur) {
            Ok(x) => x,
            Err(e) => {
                return Err(e);
            },
        };
        let key_len = match take_u32(cur) {
            Ok(x) => x,
            Err(e) => {
                return Err(e);
            },
        };
        let key_raw = match read_bytes(cur, key_len as usize) {
            Ok(kb) => kb,
            Err(e) => {
                return Err(e);
            },
        };
        let key = if key_len > 0 {
            Some(vstd::slice::slice_to_vec(key_raw))
        } else {
            None
        };
        let value_len = match take_u32(cur) {
            Ok(x) => x,
            Err(e) => {
                return Err(e);
            },
        };
        let value = match read_bytes(cur, value_len as usize) {
            Ok(vb) => vstd::slice::slice_to_vec(vb),
            Err(e) => {
                return Err(e);
            },
        };
        let header_count = match take_u32(cur) {
            Ok(x) => x,
            Err(e) => {
                return Err(e);
            },
        };
        let ghost s6 = cur@;
        let ghost buf0 = old(cur)@;
        let ghost key_view: Option<Seq<u8>> = match key {
            Some(ref k) => Some(k@),
            None => None,
        };
        let ghost value_view = value@;
        let ghost hcount = header_count as nat;
        proof {
            // The prefix fields tie the whole parse to what the header loop
            // will find from here on.
            assert(match parse_headers(s6, hcount) {
                Ok((hs, rem)) => parse_message_body(buf0) == Ok::<_, RecordParseError>(
                    (
                        MessageView {
                            key: key_view,
                            value: value_view,
                            timestamp,
                            headers: if hs.len() == 0 {
                                None
                            } else {
                                Some(hs)
                            },
                        },
                        rem,
                    ),
                ),
                Err(pe) => parse_message_body(buf0) == Err::<
                    (MessageView, Seq<u8>),
                    _,
                >(pe),
            });
        }
        let mut headers: Vec<(String, Vec<u8>)> = Vec::new();
        let mut i: u32 = 0;
        while i < header_count
            invariant
                i <= header_count,
                headers@.len() == i,
                hcount == header_count as nat,
                parse_headers(s6, hcount) == (match parse_headers(
                    cur@,
                    (header_count - i) as nat,
                ) {
                    Ok((hs, rem)) => Ok::<_, RecordParseError>(
                        (
                            headers@.map_values(|h: (String, Vec<u8>)| (h.0@, h.1@)) + hs,
                            rem,
                        ),
                    ),
                    Err(e) => Err(e),
                }),
            decreases header_count - i,
        {
            let ghost c0 = cur@;
            let ghost k = (header_count - i) as nat;
            let h = match Self::parse_one_header_exec(cur) {
                Ok(h) => h,
                Err(e) => {
                    proof {
                        assert(parse_headers(c0, k) matches Err(pe) && ((pe
                            == RecordParseError::Eof && e is UnexpectedEOF) || (pe
                            == RecordParseError::Utf8 && e is InvalidUtf8)));
                    }
                    return Err(e);
                },
            };
            let ghost old_headers = headers@;
            headers.push(h);
            proof {
                let f = |h: (String, Vec<u8>)| (h.0@, h.1@);
                let hv = (headers@[i as int].0@, headers@[i as int].1@);
                assert(headers@.map_values(f) =~= old_headers.map_values(f).push(hv));
                match parse_headers(cur@, (k - 1) as nat) {
                    Ok((hs, rem)) => {
                        assert(old_headers.map_values(f) + (seq![hv] + hs) =~= headers@.map_values(
                            f,
                        ) + hs);
                    },
                    Err(_) => {},
                }
            }
            i = i + 1;
        }
        proof {
            assert(parse_headers(cur@, 0) == Ok::<_, RecordParseError>(
                (Seq::<(Seq<char>, Seq<u8>)>::empty(), cur@),
            ));
            let f = |h: (String, Vec<u8>)| (h.0@, h.1@);
            assert(headers@.map_values(f) + Seq::empty() =~= headers@.map_values(f));
        }
        let headers_opt = if headers.len() == 0 {
            None
        } else {
            Some(headers)
        };
        let m = Message { key, value, timestamp, headers: headers_opt };
        proof {
            let pr = parse_message_body(buf0);
            assert(pr matches Ok(t) && t.0 =~= m@ && t.1 == cur@);
        }
        Ok(m)
    }
}

} // verus!
