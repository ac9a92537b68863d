use vstd::prelude::*;

use crate::errors::{DeserializeError, ProtocolError};
use crate::hash::{xxh32_digest, xxh32_of};
use crate::utils::read_bytes;
use crate::wire::{be_to_u32, put_bytes, put_u32, take_u32, take_u8, u32_be_bytes};

verus! {

// ---------------------------------------------------------------------------
// Frame types.
// ---------------------------------------------------------------------------

/// What a frame carries: a request, a response, an error, or a keepalive.
#[derive(Debug, Copy, Clone, Eq, PartialEq, Structural)]
pub enum FrameType {
    Request,
    Response,
    Error,
    Heartbeat,
}

/// The byte that names each frame type on the wire.
pub open spec fn frame_type_byte(t: FrameType) -> u8 {
    match t {
        FrameType::Request => 1,
        FrameType::Response => 2,
        FrameType::Error => 3,
        FrameType::Heartbeat => 4,
    }
}

/// The frame type a byte names, for bytes 1 through 4.
pub open spec fn byte_frame_type(b: u8) -> FrameType
    recommends
        1 <= b <= 4,
{
    if b == 1 {
        FrameType::Request
    } else if b == 2 {
        FrameType::Response
    } else if b == 3 {
        FrameType::Error
    } else {
        FrameType::Heartbeat
    }
}

impl FrameType {
    /// The wire byte for this frame type.
    pub fn to_byte(&self) -> (r: u8)
        ensures
            r == frame_type_byte(*self),
    {
        match self {
            FrameType::Request => 1,
            FrameType::Response => 2,
            FrameType::Error => 3,
            FrameType::Heartbeat => 4,
        }
    }

    /// The frame type a wire byte names; bytes outside 1..=4 are refused.
    pub fn try_from(value: u8) -> (r: Result<FrameType, ProtocolError>)
        ensures
            r is Ok <==> 1 <= value <= 4,
            r matches Ok(t) ==> t == byte_frame_type(value) && frame_type_byte(t) == value,
            r matches Err(e) ==> e matches ProtocolError::UnknownFrameType(b) && b == value,
    {
        match value {
            1 => Ok(FrameType::Request),
            2 => Ok(FrameType::Response),
            3 => Ok(FrameType::Error),
            4 => Ok(FrameType::Heartbeat),
            _ => Err(ProtocolError::UnknownFrameType(value)),
        }
    }
}

// ---------------------------------------------------------------------------
// Frames.
// ---------------------------------------------------------------------------

/// A wire frame: version, type, correlation id and raw payload. On the wire
/// it carries a payload length and an xxHash32 checksum of the payload
/// between the header and the payload bytes.
#[derive(Debug)]
pub struct Frame {
    pub version: u8,
    pub frame_type: FrameType,
    pub correlation_id: u32,
    pub payload: Vec<u8>,
}

/// The abstract value of a [`Frame`].
#[verifier::ext_equal]
pub struct FrameView {
    pub version: u8,
    pub frame_type: FrameType,
    pub correlation_id: u32,
    pub payload: Seq<u8>,
}

impl View for Frame {
    type V = FrameView;

    open spec fn view(&self) -> FrameView {
        FrameView {
            version: self.version,
            frame_type: self.frame_type,
            correlation_id: self.correlation_id,
            payload: self.payload@,
        }
    }
}

/// The encoded form of a frame:
/// `[version][type][correlation_id][payload_len][checksum][payload]`.
pub open spec fn frame_bytes(f: FrameView) -> Seq<u8> {
    seq![f.version, frame_type_byte(f.frame_type)] + u32_be_bytes(f.correlation_id) + u32_be_bytes(
        f.payload.len() as u32,
    ) + u32_be_bytes(xxh32_of(f.payload)) + f.payload
}

/// How frame decoding can fail once a whole frame is buffered.
pub enum FrameParseError {
    /// The stored checksum (first) differs from the payload's (second).
    Checksum(u32, u32),
    /// The frame type byte names no frame type.
    BadType(u8),
}

/// Decoding a byte sequence: `Ok(None)` while fewer than the 14 header
/// bytes, or fewer than the announced payload bytes, are buffered; otherwise
/// the frame and the total number of bytes it occupies, or the error.
pub open spec fn parse_frame(s: Seq<u8>) -> Result<Option<(FrameView, int)>, FrameParseError> {
    if s.len() < 14 {
        Ok(None)
    } else {
        let version = s[0];
        let ftb = s[1];
        let s2 = s.skip(2);
        let cid = be_to_u32(s2.take(4));
        let s3 = s2.skip(4);
        let plen = be_to_u32(s3.take(4)) as int;
        let s4 = s3.skip(4);
        let want = be_to_u32(s4.take(4));
        let s5 = s4.skip(4);
        if s5.len() < plen {
            Ok(None)
        } else {
            let payload = s5.take(plen);
            if xxh32_of(payload) != want {
                Err(FrameParseError::Checksum(want, xxh32_of(payload)))
            } else if !(1 <= ftb <= 4) {
                Err(FrameParseError::BadType(ftb))
            } else {
                Ok(
                    Some(
                        (
                            FrameView {
                                version,
                                frame_type: byte_frame_type(ftb),
                                correlation_id: cid,
                                payload,
                            },
                            14 + plen,
                        ),
                    ),
                )
            }
        }
    }
}

impl Frame {
    /// Appends the encoded frame, checksum included, to `buf`.
    pub fn encode(&self, buf: &mut Vec<u8>)
        requires
            self.payload@.len() <= u32::MAX,
        ensures
            final(buf)@ == old(buf)@ + frame_bytes(self@),
    {
        buf.push(self.version);
        buf.push(self.frame_type.to_byte());
        put_u32(buf, self.correlation_id);
        put_u32(buf, self.payload.len() as u32);
        let checksum = xxh32_digest(self.payload.as_slice());
        put_u32(buf, checksum);
        put_bytes(buf, self.payload.as_slice());
        proof {
            assert(buf@ =~= old(buf)@ + frame_bytes(self@));
        }
    }

    /// Attempts to decode one frame off the front of `buf`. Returns
    /// `Ok(None)` while the buffer does not yet hold a whole frame — nothing
    /// is consumed — and otherwise the frame with the number of bytes it
    /// occupied, which the caller discards from its buffer. Fails on a
    /// checksum mismatch or an unknown frame type. Behaves exactly as
    /// [`parse_frame`] on the buffer.
    pub fn decode(buf: &[u8]) -> (r: Result<Option<(Frame, usize)>, ProtocolError>)
        ensures
            match r {
                Ok(None) => parse_frame(buf@) == Ok::<Option<(FrameView, int)>, FrameParseError>(
                    None,
                ),
                Ok(Some((f, n))) => parse_frame(buf@) == Ok::<
                    Option<(FrameView, int)>,
                    FrameParseError,
                >(Some((f@, n as int))),
                Err(e) => parse_frame(buf@) matches Err(pe) && (match pe {
                    FrameParseError::Checksum(w, g) => e matches ProtocolError::ChecksumMismatch {
                        expected,
                        found,
                    } && expected == w && found == g,
                    FrameParseError::BadType(b) => e matches ProtocolError::UnknownFrameType(tb)
                        && tb == b,
                }),
            },
    {
        if buf.len() < 14 {
            return Ok(None);
        }
        let mut cur: &[u8] = buf;
        let version = match take_u8(&mut cur) {
            Ok(x) => x,
            Err(_) => {
                return Ok(None);
            },
        };
        let ftb = match take_u8(&mut cur) {
            Ok(x) => x,
            Err(_) => {
                return Ok(None);
            },
        };
        proof {
            assert(buf@.skip(1)[0] == buf@[1]);
            assert(buf@.skip(1).skip(1) =~= buf@.skip(2));
        }
        let correlation_id = match take_u32(&mut cur) {
            Ok(x) => x,
            Err(_) => {
                return Ok(None);
            },
        };
        let payload_len = match take_u32(&mut cur) {
            Ok(x) => x,
            Err(_) => {
                return Ok(None);
            },
        };
        let want = match take_u32(&mut cur) {
            Ok(x) => x,
            Err(_) => {
                return Ok(None);
            },
        };
        if cur.len() < payload_len as usize {
            return Ok(None);
        }
        let payload = match read_bytes(&mut cur, payload_len as usize) {
            Ok(p) => vstd::slice::slice_to_vec(p),
            Err(_) => {
                return Ok(None);
            },
        };
        let found = xxh32_digest(payload.as_slice());
        if found != want {
            return Err(ProtocolError::ChecksumMismatch { expected: want, found });
        }
        let frame_type = match FrameType::try_from(ftb) {
            Ok(t) => t,
            Err(e) => {
                return Err(e);
            },
        };
        let f = Frame { version, frame_type, correlation_id, payload };
        proof {
            match parse_frame(buf@) {
                Ok(Some((pf, n))) => {
                    assert(pf =~= f@);
                },
                _ => {
                    assert(false);
                },
            }
        }
        Ok(Some((f, 14 + payload_len as usize)))
    }

    /// The bytes of a frame whose payload was corrupted in transit: the
    /// header still carries the original payload's checksum, but the
    /// payload bytes differ.
    pub open spec fn corrupted_frame_bytes(f: FrameView, corrupted: Seq<u8>) -> Seq<u8> {
        seq![f.version, frame_type_byte(f.frame_type)] + u32_be_bytes(f.correlation_id)
            + u32_be_bytes(f.payload.len() as u32) + u32_be_bytes(xxh32_of(f.payload)) + corrupted
    }

    /// The corruption half of the frame law: an encoded frame whose payload
    /// bytes were altered — a flipped bit, say — is refused with a checksum
    /// mismatch carrying exactly the stored and the recomputed digests,
    /// whenever the alteration changes the digest. A 32-bit digest cannot
    /// rule out collisions, so that digest inequality is the one hypothesis.
    pub proof fn lemma_frame_corruption_detected(
        f: FrameView,
        corrupted: Seq<u8>,
        rest: Seq<u8>,
    )
        requires
            f.payload.len() <= u32::MAX,
            corrupted.len() == f.payload.len(),
            xxh32_of(corrupted) != xxh32_of(f.payload),
        ensures
            parse_frame(Self::corrupted_frame_bytes(f, corrupted) + rest) == Err::<
                Option<(FrameView, int)>,
                FrameParseError,
            >(FrameParseError::Checksum(xxh32_of(f.payload), xxh32_of(corrupted))),
    {
        let hd = seq![f.version, frame_type_byte(f.frame_type)];
        let a = u32_be_bytes(f.correlation_id);
        let b = u32_be_bytes(f.payload.len() as u32);
        let c = u32_be_bytes(xxh32_of(f.payload));
        let s = Self::corrupted_frame_bytes(f, corrupted) + rest;
        crate::wire::lemma_concat_assoc(((hd + a) + b) + c, corrupted, rest);
        crate::wire::lemma_concat_assoc((hd + a) + b, c, corrupted + rest);
        crate::wire::lemma_concat_assoc(hd + a, b, c + (corrupted + rest));
        crate::wire::lemma_concat_assoc(hd, a, b + (c + (corrupted + rest)));
        assert(s == hd + (a + (b + (c + (corrupted + rest)))));
        crate::wire::lemma_split_concat(hd, a + (b + (c + (corrupted + rest))), 2);
        crate::wire::lemma_split_concat(a, b + (c + (corrupted + rest)), 4);
        crate::wire::lemma_u32_be_round(f.correlation_id);
        crate::wire::lemma_split_concat(b, c + (corrupted + rest), 4);
        crate::wire::lemma_u32_be_round(f.payload.len() as u32);
        crate::wire::lemma_split_concat(c, corrupted + rest, 4);
        crate::wire::lemma_u32_be_round(xxh32_of(f.payload));
        crate::wire::lemma_split_concat(corrupted, rest, corrupted.len() as int);
    }

    /// The frame round trip: an encoded frame, possibly followed by more
    /// buffered bytes, decodes back to exactly the frame it came from, and
    /// occupies 14 bytes plus its payload.
    pub proof fn lemma_frame_round_trip(f: FrameView, rest: Seq<u8>)
        requires
            f.payload.len() <= u32::MAX,
        ensures
            parse_frame(frame_bytes(f) + rest) == Ok::<
                Option<(FrameView, int)>,
                FrameParseError,
            >(Some((f, 14 + f.payload.len() as int))),
    {
        let hd = seq![f.version, frame_type_byte(f.frame_type)];
        let a = u32_be_bytes(f.correlation_id);
        let b = u32_be_bytes(f.payload.len() as u32);
        let c = u32_be_bytes(xxh32_of(f.payload));
        let s = frame_bytes(f) + rest;
        // frame_bytes(f) is (((hd + a) + b) + c) + payload; re-group so each
        // field heads the remaining bytes in turn.
        crate::wire::lemma_concat_assoc(((hd + a) + b) + c, f.payload, rest);
        crate::wire::lemma_concat_assoc((hd + a) + b, c, f.payload + rest);
        crate::wire::lemma_concat_assoc(hd + a, b, c + (f.payload + rest));
        crate::wire::lemma_concat_assoc(hd, a, b + (c + (f.payload + rest)));
        assert(s == hd + (a + (b + (c + (f.payload + rest)))));
        crate::wire::lemma_split_concat(hd, a + (b + (c + (f.payload + rest))), 2);
        assert(s[0] == f.version);
        assert(s[1] == frame_type_byte(f.frame_type));
        crate::wire::lemma_split_concat(a, b + (c + (f.payload + rest)), 4);
        crate::wire::lemma_u32_be_round(f.correlation_id);
        crate::wire::lemma_split_concat(b, c + (f.payload + rest), 4);
        crate::wire::lemma_u32_be_round(f.payload.len() as u32);
        crate::wire::lemma_split_concat(c, f.payload + rest, 4);
        crate::wire::lemma_u32_be_round(xxh32_of(f.payload));
        crate::wire::lemma_split_concat(f.payload, rest, f.payload.len() as int);
        match parse_frame(s) {
            Ok(Some((pf, n))) => {
                assert(pf =~= f);
            },
            _ => {
                assert(false);
            },
        }
    }
}

} // verus!
