//! Framing: one connection carries exactly one frame, which is the encoded
//! metadata record, the delimiter byte, then the raw file payload.  The
//! sender builds the whole frame; the receiver splits the received byte
//! stream at the first delimiter, decodes the metadata before it, and takes
//! everything after it — up to end of stream — as the payload.  The declared
//! size in the metadata is advisory and never governs how much payload is
//! accepted.

use vstd::prelude::*;
use vstd::utf8::encode_utf8;

use crate::codec::{
    decode, encode, encode_spec, decode_spec, lemma_decode_inverts_encode,
    lemma_encode_delimiter_free, DecodeError, Metadata, DELIMITER,
};

verus! {

/// Returned by `receive_frame`: the stream ended before a delimiter was
/// seen (`TruncatedMetadata`), or the bytes before the delimiter were not a
/// valid metadata encoding (`MalformedMetadata`).
#[derive(Clone, Copy, Debug, PartialEq, Eq, Structural)]
pub enum ProtocolError {
    TruncatedMetadata,
    MalformedMetadata,
}

/// The complete wire frame for one transfer.
pub open spec fn frame_spec(name: Seq<char>, size: u64, payload: Seq<u8>) -> Seq<u8> {
    encode_spec(name, size) + seq![DELIMITER] + payload
}

/// Split a received byte stream at its first delimiter byte: `Some` of the
/// bytes before it and the bytes after it, or `None` when the stream holds
/// no delimiter at all.
pub open spec fn split_frame(bytes: Seq<u8>) -> Option<(Seq<u8>, Seq<u8>)>
    decreases bytes.len(),
{
    if bytes.len() == 0 {
        None
    } else if bytes.first() == DELIMITER {
        Some((Seq::<u8>::empty(), bytes.drop_first()))
    } else {
        match split_frame(bytes.drop_first()) {
            Some((m, p)) => Some((seq![bytes.first()] + m, p)),
            None => None,
        }
    }
}

/// `split_frame` splits exactly at the first delimiter.
proof fn lemma_split_frame_at(bytes: Seq<u8>, j: int)
    requires
        0 <= j < bytes.len(),
        bytes[j] == DELIMITER,
        forall|k: int| 0 <= k < j ==> bytes[k] != DELIMITER,
    ensures
        split_frame(bytes) == Some(
            (bytes.subrange(0, j), bytes.subrange(j + 1, bytes.len() as int)),
        ),
    decreases j,
{
    if j == 0 {
        assert(bytes.subrange(0, 0) =~= Seq::<u8>::empty());
        assert(bytes.subrange(1, bytes.len() as int) =~= bytes.drop_first());
    } else {
        let tail = bytes.drop_first();
        assert(tail[j - 1] == DELIMITER);
        assert(forall|k: int| 0 <= k < j - 1 ==> tail[k] != DELIMITER);
        lemma_split_frame_at(tail, j - 1);
        assert(seq![bytes.first()] + tail.subrange(0, j - 1) =~= bytes.subrange(0, j));
        assert(tail.subrange(j, tail.len() as int) =~= bytes.subrange(
            j + 1,
            bytes.len() as int,
        ));
    }
}

/// A stream without a delimiter does not split.
proof fn lemma_split_frame_none(bytes: Seq<u8>)
    requires
        forall|k: int| 0 <= k < bytes.len() ==> bytes[k] != DELIMITER,
    ensures
        split_frame(bytes) is None,
    decreases bytes.len(),
{
    if bytes.len() > 0 {
        lemma_split_frame_none(bytes.drop_first());
    }
}

/// Build the complete wire frame for one transfer: encoded metadata, the
/// delimiter, then the payload.  This is the whole byte sequence the sender
/// writes to the connection before closing it.
pub fn build_frame(md: &Metadata, payload: &[u8]) -> (r: Vec<u8>)
    ensures
        r@ == frame_spec(md.name@, md.size, payload@),
{
    let mut out = encode(md);
    out.push(DELIMITER);
    let mut i: usize = 0;
    while i < payload.len()
        invariant
            i <= payload@.len(),
            out@ == encode_spec(md.name@, md.size) + seq![DELIMITER] + payload@.subrange(
                0,
                i as int,
            ),
        decreases payload@.len() - i,
    {
        let b = *vstd::slice::slice_index_get(payload, i);
        out.push(b);
        proof {
            assert(payload@.subrange(0, i as int + 1) =~= payload@.subrange(0, i as int).push(
                b));
        }
        i = i + 1;
    }
    proof {
        assert(payload@.subrange(0, payload@.len() as int) =~= payload@);
        assert(out@ =~= frame_spec(md.name@, md.size, payload@));
    }
    out
}

/// Reconstruct one transfer from the bytes a connection delivered before it
/// closed: split at the first delimiter, decode the metadata, and hand back
/// the payload — all bytes after the delimiter, however many there are,
/// whatever the metadata's declared size says.
pub fn receive_frame(bytes: &[u8]) -> (r: Result<(Metadata, Vec<u8>), ProtocolError>)
    ensures
        match split_frame(bytes@) {
            None => r matches Err(e) && e == ProtocolError::TruncatedMetadata,
            Some((m, p)) => match decode_spec(m) {
                None => r matches Err(e) && e == ProtocolError::MalformedMetadata,
                Some((n, s)) => r matches Ok(t) && t.0.name@ == n && t.0.size == s && t.1@
                    == p,
            },
        },
{
    let len = bytes.len();
    let mut j: usize = 0;
    while j < len
        invariant
            j <= len,
            len == bytes@.len(),
            forall|k: int| 0 <= k < j ==> bytes@[k] != DELIMITER,
        decreases len - j,
    {
        if *vstd::slice::slice_index_get(bytes, j) == DELIMITER {
            proof {
                lemma_split_frame_at(bytes@, j as int);
            }
            let meta_slice = vstd::slice::slice_subrange(bytes, 0, j);
            let payload = vstd::slice::slice_to_vec(
                vstd::slice::slice_subrange(bytes, j + 1, len),
            );
            return match decode(meta_slice) {
                Ok(md) => Ok((md, payload)),
                Err(DecodeError) => Err(ProtocolError::MalformedMetadata),
            };
        }
        j = j + 1;
    }
    proof {
        lemma_split_frame_none(bytes@);
    }
    Err(ProtocolError::TruncatedMetadata)
}

/// Round-trip: the frame built from any name, declared size, and payload
/// is received back exactly — the metadata splits off at the delimiter,
/// decodes to the same name and size, and the payload is returned byte for
/// byte.
pub proof fn lemma_send_receive_round_trip(name: Seq<char>, size: u64, payload: Seq<u8>)
    requires
        encode_utf8(name).len() <= u64::MAX,
    ensures
        split_frame(frame_spec(name, size, payload)) == Some((encode_spec(name, size), payload)),
        decode_spec(encode_spec(name, size)) == Some((name, size)),
{
    let enc = encode_spec(name, size);
    let frame = frame_spec(name, size, payload);
    lemma_encode_delimiter_free(name, size);
    let j = enc.len() as int;
    assert(frame[j] == DELIMITER);
    assert(forall|k: int| 0 <= k < j ==> frame[k] == enc[k] && frame[k] != DELIMITER);
    lemma_split_frame_at(frame, j);
    assert(frame.subrange(0, j) =~= enc);
    assert(frame.subrange(j + 1, frame.len() as int) =~= payload);
    lemma_decode_inverts_encode(name, size);
}

/// The declared size is advisory: the payload that comes back from a frame
/// is exactly the bytes after the delimiter, whatever size the sender
/// declared — in particular, a frame declaring size zero still delivers
/// every payload byte.
pub proof fn lemma_declared_size_advisory(name: Seq<char>, size: u64, payload: Seq<u8>)
    requires
        encode_utf8(name).len() <= u64::MAX,
    ensures
        split_frame(frame_spec(name, size, payload)) is Some,
        split_frame(frame_spec(name, size, payload))->Some_0.1 == payload,
        decode_spec(split_frame(frame_spec(name, size, payload))->Some_0.0) == Some(
            (name, size),
        ),
{
    lemma_send_receive_round_trip(name, size, payload);
}

/// A connection that closes before the complete metadata frame — any
/// proper prefix of the metadata bytes, with no delimiter yet — does not
/// split, so the receiver reports truncation rather than inventing a
/// record.
pub proof fn lemma_truncated_metadata_rejected(name: Seq<char>, size: u64, k: int)
    requires
        0 <= k <= encode_spec(name, size).len(),
    ensures
        split_frame(encode_spec(name, size).subrange(0, k)) is None,
{
    lemma_encode_delimiter_free(name, size);
    lemma_split_frame_none(encode_spec(name, size).subrange(0, k));
}

} // verus!
