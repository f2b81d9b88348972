//! Frame codec: serialization of the metadata record to and from bytes.
//!
//! The wire layout of a metadata record is a little-endian length-prefixed
//! record, passed through a byte-stuffing step so that the frame delimiter
//! can never appear inside it:
//!
//! * raw record: `le64(len(name_bytes)) ++ name_bytes ++ le64(size)`, where
//!   `name_bytes` is the UTF-8 encoding of the file name;
//! * wire bytes: the raw record with every delimiter byte written as
//!   `ESCAPE, ESCAPED_DELIMITER` and every escape byte as `ESCAPE, ESCAPE`.
//!
//! Byte stuffing makes the encoding delimiter-free for every metadata
//! record, so the delimiter that separates metadata from payload can never
//! collide with metadata content.  `decode` accepts exactly the byte
//! sequences that `encode` produces and recovers the exact record.

use vstd::prelude::*;
use vstd::bytes::*;
use vstd::utf8::*;

verus! {

/// The frame delimiter: an ASCII newline separates the encoded metadata
/// from the raw payload on the wire.
pub const DELIMITER: u8 = 10;

/// The escape byte used by the byte-stuffing step (ASCII backslash).
pub const ESCAPE: u8 = 92;

/// Second byte of the escape sequence that stands for a delimiter byte
/// inside metadata content (ASCII 'n').
pub const ESCAPED_DELIMITER: u8 = 110;

/// The metadata record for one transfer: the destination file name and the
/// byte length of the file at send time.  The size is advisory: the
/// receiver trusts end of stream, not this field, to know when the payload
/// is complete.
#[derive(Debug, PartialEq, Eq)]
pub struct Metadata {
    pub name: String,
    pub size: u64,
}

/// Returned by `decode` when the bytes are not a valid metadata encoding
/// (truncated or malformed).
#[derive(Clone, Copy, Debug, PartialEq, Eq, Structural)]
pub struct DecodeError;

/// Byte-stuffing of a single byte: delimiter and escape bytes become
/// two-byte escape sequences, every other byte stands for itself.
pub open spec fn escape_byte(b: u8) -> Seq<u8> {
    if b == DELIMITER {
        seq![ESCAPE, ESCAPED_DELIMITER]
    } else if b == ESCAPE {
        seq![ESCAPE, ESCAPE]
    } else {
        seq![b]
    }
}

/// Byte-stuffing of a whole byte sequence.
pub open spec fn escape_bytes(s: Seq<u8>) -> Seq<u8>
    decreases s.len(),
{
    if s.len() == 0 {
        Seq::<u8>::empty()
    } else {
        escape_byte(s.first()) + escape_bytes(s.drop_first())
    }
}

/// Inverse of `escape_bytes`: `None` on a dangling escape, an unknown
/// escape sequence, or a bare delimiter byte (which can never occur inside
/// well-formed metadata bytes).
pub open spec fn unescape_bytes(s: Seq<u8>) -> Option<Seq<u8>>
    decreases s.len(),
{
    if s.len() == 0 {
        Some(Seq::<u8>::empty())
    } else if s.first() == ESCAPE {
        if s.len() >= 2 && (s[1] == ESCAPED_DELIMITER || s[1] == ESCAPE) {
            match unescape_bytes(s.skip(2)) {
                Some(t) => Some(
                    seq![if s[1] == ESCAPED_DELIMITER { DELIMITER } else { ESCAPE }] + t,
                ),
                None => None,
            }
        } else {
            None
        }
    } else if s.first() == DELIMITER {
        None
    } else {
        match unescape_bytes(s.drop_first()) {
            Some(t) => Some(seq![s.first()] + t),
            None => None,
        }
    }
}

/// The raw (unstuffed) record: name length, name bytes, declared size,
/// with both integers as 8 little-endian bytes.
pub open spec fn raw_record(name_bytes: Seq<u8>, size: u64) -> Seq<u8> {
    spec_u64_to_le_bytes(name_bytes.len() as u64) + name_bytes + spec_u64_to_le_bytes(size)
}

/// The wire encoding of a metadata record with the given name and size.
pub open spec fn encode_spec(name: Seq<char>, size: u64) -> Seq<u8> {
    escape_bytes(raw_record(encode_utf8(name), size))
}

/// Parse a raw (unstuffed) record back into name and size; `None` when the
/// record is too short, its length prefix disagrees with its actual length,
/// or the name bytes are not valid UTF-8.
pub open spec fn parse_raw(raw: Seq<u8>) -> Option<(Seq<char>, u64)> {
    if raw.len() < 16 {
        None
    } else {
        let name_len = spec_u64_from_le_bytes(raw.subrange(0, 8));
        if raw.len() - 16 != name_len {
            None
        } else {
            let name_bytes = raw.subrange(8, raw.len() - 8);
            if valid_utf8(name_bytes) {
                Some(
                    (
                        decode_utf8(name_bytes),
                        spec_u64_from_le_bytes(
                            raw.subrange(raw.len() - 8, raw.len() as int),
                        ),
                    ),
                )
            } else {
                None
            }
        }
    }
}

/// Full decoding: unstuff, then parse the raw record.
pub open spec fn decode_spec(bytes: Seq<u8>) -> Option<(Seq<char>, u64)> {
    match unescape_bytes(bytes) {
        Some(raw) => parse_raw(raw),
        None => None,
    }
}

/// Byte-stuffing distributes over concatenation.
proof fn lemma_escape_bytes_append(a: Seq<u8>, b: Seq<u8>)
    ensures
        escape_bytes(a + b) == escape_bytes(a) + escape_bytes(b),
    decreases a.len(),
{
    if a.len() == 0 {
        assert(a + b =~= b);
        assert(escape_bytes(a) + escape_bytes(b) =~= escape_bytes(b));
    } else {
        assert((a + b).first() == a.first());
        assert((a + b).drop_first() =~= a.drop_first() + b);
        lemma_escape_bytes_append(a.drop_first(), b);
        assert(escape_bytes(a + b) =~= escape_bytes(a) + escape_bytes(b));
    }
}

/// Byte-stuffed output never contains the delimiter byte.
proof fn lemma_escape_bytes_delimiter_free(s: Seq<u8>)
    ensures
        forall|i: int|
            0 <= i < escape_bytes(s).len() ==> escape_bytes(s)[i] != DELIMITER,
    decreases s.len(),
{
    if s.len() > 0 {
        lemma_escape_bytes_delimiter_free(s.drop_first());
        let e0 = escape_byte(s.first());
        let rest = escape_bytes(s.drop_first());
        assert(forall|i: int| 0 <= i < e0.len() ==> e0[i] != DELIMITER);
        assert forall|i: int|
            0 <= i < escape_bytes(s).len() implies escape_bytes(s)[i] != DELIMITER by {
            if i < e0.len() {
                assert(escape_bytes(s)[i] == e0[i]);
            } else {
                assert(escape_bytes(s)[i] == rest[i - e0.len()]);
            }
        }
    }
}

/// Unstuffing inverts stuffing: every stuffed sequence unstuffs back to
/// exactly the bytes that were stuffed.
proof fn lemma_unescape_escape(s: Seq<u8>)
    ensures
        unescape_bytes(escape_bytes(s)) == Some(s),
    decreases s.len(),
{
    if s.len() == 0 {
    } else {
        let e = escape_bytes(s);
        let rest = escape_bytes(s.drop_first());
        lemma_unescape_escape(s.drop_first());
        if s.first() == DELIMITER || s.first() == ESCAPE {
            assert(e =~= escape_byte(s.first()) + rest);
            assert(e.len() >= 2);
            assert(e.first() == ESCAPE);
            assert(e.skip(2) =~= rest);
            assert(unescape_bytes(e) == Some(seq![s.first()] + s.drop_first()));
        } else {
            assert(e.first() == s.first());
            assert(e.drop_first() =~= rest);
            assert(unescape_bytes(e) == Some(seq![s.first()] + s.drop_first()));
        }
        assert(seq![s.first()] + s.drop_first() =~= s);
    }
}

/// Stuffing is canonical: whenever unstuffing succeeds, stuffing the result
/// gives back exactly the input bytes.
proof fn lemma_escape_unescape(s: Seq<u8>, raw: Seq<u8>)
    requires
        unescape_bytes(s) == Some(raw),
    ensures
        escape_bytes(raw) == s,
    decreases s.len(),
{
    if s.len() == 0 {
        assert(raw =~= Seq::<u8>::empty());
        assert(escape_bytes(raw) =~= s);
    } else if s.first() == ESCAPE {
        let t = unescape_bytes(s.skip(2))->Some_0;
        let b: u8 = if s[1] == ESCAPED_DELIMITER { DELIMITER } else { ESCAPE };
        assert(raw == seq![b] + t);
        lemma_escape_unescape(s.skip(2), t);
        assert(raw.first() == b);
        assert(raw.drop_first() =~= t);
        assert(escape_byte(b) =~= seq![ESCAPE, s[1]]);
        assert(escape_bytes(raw) =~= s);
    } else {
        let t = unescape_bytes(s.drop_first())->Some_0;
        assert(raw == seq![s.first()] + t);
        lemma_escape_unescape(s.drop_first(), t);
        assert(raw.first() == s.first());
        assert(raw.drop_first() =~= t);
        assert(escape_byte(raw.first()) =~= seq![s.first()]);
        assert(escape_bytes(raw) =~= s);
    }
}

/// Byte-stuffing of a single element.
proof fn lemma_escape_bytes_singleton(b: u8)
    ensures
        escape_bytes(seq![b]) == escape_byte(b),
{
    let s = seq![b];
    assert(s.len() == 1 && s.first() == b);
    assert(s.drop_first() =~= Seq::<u8>::empty());
    assert(escape_bytes(Seq::<u8>::empty()) == Seq::<u8>::empty());
    assert(escape_bytes(s) == escape_byte(b) + escape_bytes(s.drop_first()));
    assert(escape_byte(b) + Seq::<u8>::empty() =~= escape_byte(b));
}

/// Relies on `String::from_utf8`: it succeeds exactly when the bytes are
/// valid UTF-8, and the returned string is the one whose UTF-8 encoding is
/// the input bytes.
#[verifier::external_body]
fn string_from_utf8(v: Vec<u8>) -> (r: Option<String>)
    ensures
        r is Some <==> valid_utf8(v@),
        r is Some ==> encode_utf8(r->Some_0@) == v@,
{
    String::from_utf8(v).ok()
}

/// Serialize a metadata record into its delimiter-free wire bytes.
pub fn encode(md: &Metadata) -> (r: Vec<u8>)
    ensures
        r@ == encode_spec(md.name@, md.size),
        forall|i: int| 0 <= i < r@.len() ==> r@[i] != DELIMITER,
{
    proof {
        lemma_encode_delimiter_free(md.name@, md.size);
    }
    let name_bytes: &[u8] = md.name.as_str().as_bytes();
    let mut raw: Vec<u8> = u64_to_le_bytes(name_bytes.len() as u64);
    let mut name_vec: Vec<u8> = vstd::slice::slice_to_vec(name_bytes);
    raw.append(&mut name_vec);
    let mut size_bytes: Vec<u8> = u64_to_le_bytes(md.size);
    raw.append(&mut size_bytes);
    proof {
        assert(raw@ =~= raw_record(encode_utf8(md.name@), md.size));
    }
    let mut out: Vec<u8> = Vec::new();
    let mut i: usize = 0;
    while i < raw.len()
        invariant
            i <= raw.len(),
            raw@ == raw_record(encode_utf8(md.name@), md.size),
            out@ == escape_bytes(raw@.subrange(0, i as int)),
        decreases raw.len() - i,
    {
        let b = raw[i];
        proof {
            let pre = raw@.subrange(0, i as int);
            assert(raw@.subrange(0, i as int + 1) =~= pre + seq![b]);
            lemma_escape_bytes_append(pre, seq![b]);
            lemma_escape_bytes_singleton(b);
        }
        if b == DELIMITER {
            out.push(ESCAPE);
            out.push(ESCAPED_DELIMITER);
        } else if b == ESCAPE {
            out.push(ESCAPE);
            out.push(ESCAPE);
        } else {
            out.push(b);
        }
        proof {
            assert(out@ =~= escape_bytes(raw@.subrange(0, i as int)) + escape_byte(b));
        }
        i = i + 1;
    }
    proof {
        assert(raw@.subrange(0, raw@.len() as int) =~= raw@);
    }
    out
}

/// `Some(p + t)` when `o` is `Some(t)`, else `None`: the shape of a
/// partially unstuffed byte sequence.
spec fn opt_concat(p: Seq<u8>, o: Option<Seq<u8>>) -> Option<Seq<u8>> {
    match o {
        Some(t) => Some(p + t),
        None => None,
    }
}

/// Deserialize wire bytes back into a metadata record.  Succeeds exactly
/// on the byte sequences that `encode` produces (see
/// `lemma_decode_inverts_encode` and `lemma_encode_inverts_decode`), and
/// then returns exactly the record that was encoded.
pub fn decode(bytes: &[u8]) -> (r: Result<Metadata, DecodeError>)
    ensures
        match decode_spec(bytes@) {
            Some((n, s)) => r matches Ok(md) && md.name@ == n && md.size == s,
            None => r is Err,
        },
{
    let n = bytes.len();
    let mut raw: Vec<u8> = Vec::new();
    let mut i: usize = 0;
    proof {
        assert(bytes@.skip(0) =~= bytes@);
        match unescape_bytes(bytes@) {
            Some(t) => {
                assert(Seq::<u8>::empty() + t =~= t);
            },
            None => {},
        }
    }
    while i < n
        invariant
            i <= n,
            n == bytes@.len(),
            unescape_bytes(bytes@) == opt_concat(raw@, unescape_bytes(bytes@.skip(i as int))),
        decreases n - i,
    {
        let b = bytes[i];
        proof {
            let s = bytes@.skip(i as int);
            assert(s.first() == bytes@[i as int]);
            assert(s.drop_first() =~= bytes@.skip(i as int + 1));
            if s.len() >= 2 {
                assert(s[1] == bytes@[i as int + 1]);
                assert(s.skip(2) =~= bytes@.skip(i as int + 2));
            }
        }
        if b == ESCAPE {
            if i + 1 < n && (bytes[i + 1] == ESCAPED_DELIMITER || bytes[i + 1] == ESCAPE) {
                let ub: u8 = if bytes[i + 1] == ESCAPED_DELIMITER {
                    DELIMITER
                } else {
                    ESCAPE
                };
                let ghost pre = raw@;
                raw.push(ub);
                proof {
                    assert forall|t: Seq<u8>|
                        unescape_bytes(bytes@.skip(i as int + 2)) == Some(t) implies pre + (
                    seq![ub] + t) =~= raw@ + t by {}
                }
                i = i + 2;
            } else {
                return Err(DecodeError);
            }
        } else if b == DELIMITER {
            return Err(DecodeError);
        } else {
            let ghost pre = raw@;
            raw.push(b);
            proof {
                assert forall|t: Seq<u8>|
                    unescape_bytes(bytes@.skip(i as int + 1)) == Some(t) implies pre + (seq![b]
                    + t) =~= raw@ + t by {}
            }
            i = i + 1;
        }
    }
    proof {
        assert(bytes@.skip(n as int) =~= Seq::<u8>::empty());
        assert(raw@ + Seq::<u8>::empty() =~= raw@);
        assert(unescape_bytes(bytes@) == Some(raw@));
    }
    if raw.len() < 16 {
        return Err(DecodeError);
    }
    let name_len = u64_from_le_bytes(vstd::slice::slice_subrange(raw.as_slice(), 0, 8));
    if name_len != (raw.len() - 16) as u64 {
        return Err(DecodeError);
    }
    let name_slice = vstd::slice::slice_subrange(raw.as_slice(), 8, raw.len() - 8);
    let name_vec: Vec<u8> = vstd::slice::slice_to_vec(name_slice);
    match string_from_utf8(name_vec) {
        None => Err(DecodeError),
        Some(name) => {
            let size = u64_from_le_bytes(
                vstd::slice::slice_subrange(raw.as_slice(), raw.len() - 8, raw.len()),
            );
            proof {
                broadcast use encode_utf8_decode_utf8;

            }
            Ok(Metadata { name, size })
        },
    }
}

/// Delimiter safety: the wire encoding of any metadata record — any name,
/// any size — never contains the delimiter byte, so the delimiter that
/// follows the metadata on the wire is unambiguous.
pub proof fn lemma_encode_delimiter_free(name: Seq<char>, size: u64)
    ensures
        forall|i: int|
            0 <= i < encode_spec(name, size).len() ==> encode_spec(name, size)[i]
                != DELIMITER,
{
    lemma_escape_bytes_delimiter_free(raw_record(encode_utf8(name), size));
}

/// Decoding inverts encoding: every metadata record comes back from its
/// own wire bytes, name and size exact.
pub proof fn lemma_decode_inverts_encode(name: Seq<char>, size: u64)
    requires
        encode_utf8(name).len() <= u64::MAX,
    ensures
        decode_spec(encode_spec(name, size)) == Some((name, size)),
{
    let nb = encode_utf8(name);
    let raw = raw_record(nb, size);
    lemma_unescape_escape(raw);
    lemma_auto_spec_u64_to_from_le_bytes();
    assert(raw.subrange(0, 8) =~= spec_u64_to_le_bytes(nb.len() as u64));
    assert(raw.subrange(8, raw.len() - 8) =~= nb);
    assert(raw.subrange(raw.len() - 8, raw.len() as int) =~= spec_u64_to_le_bytes(size));
    broadcast use encode_utf8_valid_utf8, encode_utf8_decode_utf8;

    assert(parse_raw(raw) == Some((name, size)));
}

/// Encoding inverts decoding: whenever decoding succeeds, the input bytes
/// are exactly the wire encoding of the decoded record — the codec accepts
/// no byte sequence that it could not itself have produced.
pub proof fn lemma_encode_inverts_decode(bytes: Seq<u8>, name: Seq<char>, size: u64)
    requires
        decode_spec(bytes) == Some((name, size)),
    ensures
        encode_spec(name, size) == bytes,
{
    let raw = unescape_bytes(bytes)->Some_0;
    lemma_escape_unescape(bytes, raw);
    let nb = raw.subrange(8, raw.len() - 8);
    broadcast use decode_utf8_encode_utf8;

    assert(encode_utf8(name) == nb);
    lemma_auto_spec_u64_to_from_le_bytes();
    let name_len = spec_u64_from_le_bytes(raw.subrange(0, 8));
    assert(raw.subrange(0, 8).len() == 8);
    assert(spec_u64_to_le_bytes(name_len) == raw.subrange(0, 8));
    assert(nb.len() as u64 == name_len);
    assert(raw.subrange(raw.len() - 8, raw.len() as int).len() == 8);
    assert(spec_u64_to_le_bytes(size) == raw.subrange(raw.len() - 8, raw.len() as int));
    assert(raw_record(nb, size) =~= raw);
}

} // verus!
