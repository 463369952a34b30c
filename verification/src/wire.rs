//! Primitives of the library's binary wire format: little-endian fixed-width
//! integers, length-prefixed byte strings, and length-prefixed UTF-8 text.
//!
//! Every value has one spec-level encoding (`spec_enc_*`) and one spec-level
//! decoder (`spec_dec_*_at`) that reads at a position of a buffer.  The
//! lemmas state that the decoders accept exactly the encodings: decoding
//! at the start of an encoding yields the encoded value back, and whatever
//! a decoder accepts re-encodes to the very bytes it consumed.  The
//! executable encoders and decoders are proved against these functions.
use vstd::prelude::*;

use vstd::slice::{slice_subrange, slice_to_vec};
use vstd::utf8::{
    decode_utf8, decode_utf8_encode_utf8, encode_utf8, encode_utf8_decode_utf8,
    encode_utf8_valid_utf8, valid_utf8,
};

verus! {

// ---------------------------------------------------------------------------
// Spec-level encodings
// ---------------------------------------------------------------------------
/// A `u32` as 4 bytes, little endian.
pub open spec fn spec_enc_u32(v: u32) -> Seq<u8> {
    seq![
        (v & 0xff) as u8,
        ((v >> 8) & 0xff) as u8,
        ((v >> 16) & 0xff) as u8,
        ((v >> 24) & 0xff) as u8,
    ]
}

/// A `u64` as 8 bytes, little endian.
pub open spec fn spec_enc_u64(v: u64) -> Seq<u8> {
    seq![
        (v & 0xff) as u8,
        ((v >> 8) & 0xff) as u8,
        ((v >> 16) & 0xff) as u8,
        ((v >> 24) & 0xff) as u8,
        ((v >> 32) & 0xff) as u8,
        ((v >> 40) & 0xff) as u8,
        ((v >> 48) & 0xff) as u8,
        ((v >> 56) & 0xff) as u8,
    ]
}

/// A byte string: its length as a `u64`, then the raw bytes.
pub open spec fn spec_enc_bytes(b: Seq<u8>) -> Seq<u8> {
    spec_enc_u64(b.len() as u64) + b
}

/// Text: the UTF-8 bytes of the characters, as a byte string.
pub open spec fn spec_enc_str(s: Seq<char>) -> Seq<u8> {
    spec_enc_bytes(encode_utf8(s))
}

/// The value of 4 little-endian bytes.
pub open spec fn spec_dec_u32(s: Seq<u8>) -> u32 {
    (s[0] as u32) | ((s[1] as u32) << 8) | ((s[2] as u32) << 16) | ((s[3] as u32) << 24)
}

/// The value of 8 little-endian bytes.
pub open spec fn spec_dec_u64(s: Seq<u8>) -> u64 {
    (s[0] as u64) | ((s[1] as u64) << 8) | ((s[2] as u64) << 16) | ((s[3] as u64) << 24) | (
    (s[4] as u64) << 32) | ((s[5] as u64) << 40) | ((s[6] as u64) << 48) | ((s[7] as u64) << 56)
}

// ---------------------------------------------------------------------------
// Spec-level decoders, reading at a position
// ---------------------------------------------------------------------------
/// Read a `u32` at `pos`; `None` when fewer than 4 bytes remain.
pub open spec fn spec_dec_u32_at(buf: Seq<u8>, pos: int) -> Option<(u32, int)> {
    if 0 <= pos && pos + 4 <= buf.len() {
        Some((spec_dec_u32(buf.subrange(pos, pos + 4)), pos + 4))
    } else {
        None
    }
}

/// Read a `u64` at `pos`; `None` when fewer than 8 bytes remain.
pub open spec fn spec_dec_u64_at(buf: Seq<u8>, pos: int) -> Option<(u64, int)> {
    if 0 <= pos && pos + 8 <= buf.len() {
        Some((spec_dec_u64(buf.subrange(pos, pos + 8)), pos + 8))
    } else {
        None
    }
}

/// Read a length-prefixed byte string at `pos`; `None` when the claimed
/// length overruns the buffer.
pub open spec fn spec_dec_bytes_at(buf: Seq<u8>, pos: int) -> Option<(Seq<u8>, int)> {
    match spec_dec_u64_at(buf, pos) {
        Some((n, p)) => if p + n <= buf.len() {
            Some((buf.subrange(p, p + n), p + n))
        } else {
            None
        },
        None => None,
    }
}

/// Read length-prefixed text at `pos`; `None` when the byte string is
/// missing or is not valid UTF-8.
pub open spec fn spec_dec_str_at(buf: Seq<u8>, pos: int) -> Option<(Seq<char>, int)> {
    match spec_dec_bytes_at(buf, pos) {
        Some((b, p)) => if valid_utf8(b) {
            Some((decode_utf8(b), p))
        } else {
            None
        },
        None => None,
    }
}

// ---------------------------------------------------------------------------
// Byte-level round-trip facts
// ---------------------------------------------------------------------------
proof fn lemma_u32_byte_masks(v: u32)
    by (bit_vector)
    ensures
        v & 0xff < 256,
        (v >> 8) & 0xff < 256,
        (v >> 16) & 0xff < 256,
        (v >> 24) & 0xff < 256,
{
}

proof fn lemma_u64_byte_masks(v: u64)
    by (bit_vector)
    ensures
        v & 0xff < 256,
        (v >> 8) & 0xff < 256,
        (v >> 16) & 0xff < 256,
        (v >> 24) & 0xff < 256,
        (v >> 32) & 0xff < 256,
        (v >> 40) & 0xff < 256,
        (v >> 48) & 0xff < 256,
        (v >> 56) & 0xff < 256,
{
}

proof fn lemma_u32_recombine(v: u32)
    by (bit_vector)
    ensures
        ((((v & 0xff) as u8) as u32) | (((((v >> 8) & 0xff) as u8) as u32) << 8) | (((((v >> 16)
            & 0xff) as u8) as u32) << 16) | (((((v >> 24) & 0xff) as u8) as u32) << 24)) == v,
{
}

proof fn lemma_u64_recombine(v: u64)
    by (bit_vector)
    ensures
        ((((v & 0xff) as u8) as u64) | (((((v >> 8) & 0xff) as u8) as u64) << 8) | (((((v >> 16)
            & 0xff) as u8) as u64) << 16) | (((((v >> 24) & 0xff) as u8) as u64) << 24) | (((((v
            >> 32) & 0xff) as u8) as u64) << 32) | (((((v >> 40) & 0xff) as u8) as u64) << 40) | ((
        (((v >> 48) & 0xff) as u8) as u64) << 48) | (((((v >> 56) & 0xff) as u8) as u64) << 56))
            == v,
{
}



/// Decoding an encoded `u32` gives the value back.
pub proof fn lemma_dec_enc_u32(v: u32)
    ensures
        spec_dec_u32(spec_enc_u32(v)) == v,
{
    lemma_u32_recombine(v);
}

/// Decoding an encoded `u64` gives the value back.
pub proof fn lemma_dec_enc_u64(v: u64)
    ensures
        spec_dec_u64(spec_enc_u64(v)) == v,
{
    lemma_u64_recombine(v);
}

proof fn lemma_u32_split(b0: u8, b1: u8, b2: u8, b3: u8, v: u32)
    by (bit_vector)
    requires
        v == ((b0 as u32) | ((b1 as u32) << 8) | ((b2 as u32) << 16) | ((b3 as u32) << 24)),
    ensures
        (v & 0xff) as u8 == b0,
        ((v >> 8) & 0xff) as u8 == b1,
        ((v >> 16) & 0xff) as u8 == b2,
        ((v >> 24) & 0xff) as u8 == b3,
{
}

proof fn lemma_u64_split(b0: u8, b1: u8, b2: u8, b3: u8, b4: u8, b5: u8, b6: u8, b7: u8, v: u64)
    by (bit_vector)
    requires
        v == ((b0 as u64) | ((b1 as u64) << 8) | ((b2 as u64) << 16) | ((b3 as u64) << 24) | ((b4
            as u64) << 32) | ((b5 as u64) << 40) | ((b6 as u64) << 48) | ((b7 as u64) << 56)),
    ensures
        (v & 0xff) as u8 == b0,
        ((v >> 8) & 0xff) as u8 == b1,
        ((v >> 16) & 0xff) as u8 == b2,
        ((v >> 24) & 0xff) as u8 == b3,
        ((v >> 32) & 0xff) as u8 == b4,
        ((v >> 40) & 0xff) as u8 == b5,
        ((v >> 48) & 0xff) as u8 == b6,
        ((v >> 56) & 0xff) as u8 == b7,
{
}

/// Re-encoding a decoded `u32` gives the bytes back: 4-byte blocks and
/// `u32` values correspond one to one.
pub proof fn lemma_enc_dec_u32(s: Seq<u8>)
    requires
        s.len() == 4,
    ensures
        spec_enc_u32(spec_dec_u32(s)) == s,
{
    lemma_u32_split(s[0], s[1], s[2], s[3], spec_dec_u32(s));
    assert(spec_enc_u32(spec_dec_u32(s)) =~= s);
}

/// Re-encoding a decoded `u64` gives the bytes back.
pub proof fn lemma_enc_dec_u64(s: Seq<u8>)
    requires
        s.len() == 8,
    ensures
        spec_enc_u64(spec_dec_u64(s)) == s,
{
    lemma_u64_split(s[0], s[1], s[2], s[3], s[4], s[5], s[6], s[7], spec_dec_u64(s));
    assert(spec_enc_u64(spec_dec_u64(s)) =~= s);
}

// ---------------------------------------------------------------------------
// Completeness: a decoder run at the start of an encoding yields the value
// ---------------------------------------------------------------------------
/// Reading where an encoded `u32` lies yields that value.
pub proof fn lemma_dec_u32_at_complete(buf: Seq<u8>, pos: int, v: u32)
    requires
        0 <= pos,
        pos + 4 <= buf.len(),
        buf.subrange(pos, pos + 4) == spec_enc_u32(v),
    ensures
        spec_dec_u32_at(buf, pos) == Some((v, pos + 4)),
{
    lemma_dec_enc_u32(v);
}

/// Reading where an encoded `u64` lies yields that value.
pub proof fn lemma_dec_u64_at_complete(buf: Seq<u8>, pos: int, v: u64)
    requires
        0 <= pos,
        pos + 8 <= buf.len(),
        buf.subrange(pos, pos + 8) == spec_enc_u64(v),
    ensures
        spec_dec_u64_at(buf, pos) == Some((v, pos + 8)),
{
    lemma_dec_enc_u64(v);
}

/// Reading where an encoded byte string lies yields that byte string.
pub proof fn lemma_dec_bytes_at_complete(buf: Seq<u8>, pos: int, b: Seq<u8>)
    requires
        0 <= pos,
        b.len() <= u64::MAX,
        pos + spec_enc_bytes(b).len() <= buf.len(),
        buf.subrange(pos, pos + spec_enc_bytes(b).len()) == spec_enc_bytes(b),
    ensures
        spec_dec_bytes_at(buf, pos) == Some((b, pos + spec_enc_bytes(b).len())),
{
    let n = b.len() as u64;
    let e = spec_enc_bytes(b);
    assert(buf.subrange(pos, pos + 8) =~= spec_enc_u64(n));
    lemma_dec_u64_at_complete(buf, pos, n);
    assert forall|i: int| 0 <= i < b.len() implies buf.subrange(pos + 8, pos + 8 + b.len())[i]
        == b[i] by {
        assert(buf.subrange(pos, pos + e.len())[8 + i] == e[8 + i]);
    }
    assert(buf.subrange(pos + 8, pos + 8 + b.len()) =~= b);
}

/// Reading where encoded text lies yields those characters.
pub proof fn lemma_dec_str_at_complete(buf: Seq<u8>, pos: int, s: Seq<char>)
    requires
        0 <= pos,
        encode_utf8(s).len() <= u64::MAX,
        pos + spec_enc_str(s).len() <= buf.len(),
        buf.subrange(pos, pos + spec_enc_str(s).len()) == spec_enc_str(s),
    ensures
        spec_dec_str_at(buf, pos) == Some((s, pos + spec_enc_str(s).len())),
{
    let b = encode_utf8(s);
    lemma_dec_bytes_at_complete(buf, pos, b);
    encode_utf8_valid_utf8(s);
    encode_utf8_decode_utf8(s);
}

// ---------------------------------------------------------------------------
// Canonicity: whatever a decoder accepts re-encodes to the consumed bytes
// ---------------------------------------------------------------------------
/// An accepted `u32` read consumed exactly the value's encoding.
pub proof fn lemma_dec_u32_at_canonical(buf: Seq<u8>, pos: int, v: u32, end: int)
    requires
        spec_dec_u32_at(buf, pos) == Some((v, end)),
    ensures
        0 <= pos,
        end == pos + 4,
        end <= buf.len(),
        buf.subrange(pos, end) == spec_enc_u32(v),
{
    lemma_enc_dec_u32(buf.subrange(pos, pos + 4));
}

/// An accepted `u64` read consumed exactly the value's encoding.
pub proof fn lemma_dec_u64_at_canonical(buf: Seq<u8>, pos: int, v: u64, end: int)
    requires
        spec_dec_u64_at(buf, pos) == Some((v, end)),
    ensures
        0 <= pos,
        end == pos + 8,
        end <= buf.len(),
        buf.subrange(pos, end) == spec_enc_u64(v),
{
    lemma_enc_dec_u64(buf.subrange(pos, pos + 8));
}

/// An accepted byte-string read consumed exactly that string's encoding.
pub proof fn lemma_dec_bytes_at_canonical(buf: Seq<u8>, pos: int, b: Seq<u8>, end: int)
    requires
        spec_dec_bytes_at(buf, pos) == Some((b, end)),
    ensures
        0 <= pos <= end <= buf.len(),
        b.len() <= u64::MAX,
        end == pos + spec_enc_bytes(b).len(),
        buf.subrange(pos, end) == spec_enc_bytes(b),
{
    let (n, p) = spec_dec_u64_at(buf, pos).unwrap();
    lemma_dec_u64_at_canonical(buf, pos, n, p);
    assert(b.len() == n);
    assert(buf.subrange(pos, end) =~= buf.subrange(pos, pos + 8) + buf.subrange(pos + 8, end));
}

/// An accepted text read consumed exactly those characters' encoding.
pub proof fn lemma_dec_str_at_canonical(buf: Seq<u8>, pos: int, s: Seq<char>, end: int)
    requires
        spec_dec_str_at(buf, pos) == Some((s, end)),
    ensures
        0 <= pos <= end <= buf.len(),
        encode_utf8(s).len() <= u64::MAX,
        end == pos + spec_enc_str(s).len(),
        buf.subrange(pos, end) == spec_enc_str(s),
{
    let (b, p) = spec_dec_bytes_at(buf, pos).unwrap();
    lemma_dec_bytes_at_canonical(buf, pos, b, end);
    decode_utf8_encode_utf8(b);
}

// ---------------------------------------------------------------------------
// Executable encoders
// ---------------------------------------------------------------------------
/// Append the 4-byte little-endian encoding of `v`.
pub fn enc_u32(out: &mut Vec<u8>, v: u32)
    ensures
        final(out)@ == old(out)@ + spec_enc_u32(v),
{
    proof {
        lemma_u32_byte_masks(v);
    }
    out.push((v & 0xff) as u8);
    out.push(((v >> 8) & 0xff) as u8);
    out.push(((v >> 16) & 0xff) as u8);
    out.push(((v >> 24) & 0xff) as u8);
    proof {
        assert(out@ =~= old(out)@ + spec_enc_u32(v));
    }
}

/// Append the 8-byte little-endian encoding of `v`.
pub fn enc_u64(out: &mut Vec<u8>, v: u64)
    ensures
        final(out)@ == old(out)@ + spec_enc_u64(v),
{
    proof {
        lemma_u64_byte_masks(v);
    }
    out.push((v & 0xff) as u8);
    out.push(((v >> 8) & 0xff) as u8);
    out.push(((v >> 16) & 0xff) as u8);
    out.push(((v >> 24) & 0xff) as u8);
    out.push(((v >> 32) & 0xff) as u8);
    out.push(((v >> 40) & 0xff) as u8);
    out.push(((v >> 48) & 0xff) as u8);
    out.push(((v >> 56) & 0xff) as u8);
    proof {
        assert(out@ =~= old(out)@ + spec_enc_u64(v));
    }
}

/// Append the length-prefixed encoding of a byte string.
pub fn enc_bytes(out: &mut Vec<u8>, b: &[u8])
    ensures
        final(out)@ == old(out)@ + spec_enc_bytes(b@),
        b@.len() <= usize::MAX,
{
    enc_u64(out, b.len() as u64);
    out.extend_from_slice(b);
    proof {
        assert forall|i: int| 0 <= i < b@.len() implies out@[old(out)@.len() + 8 + i]
            == b@[i] by {
        }
        assert(out@ =~= old(out)@ + spec_enc_bytes(b@));
    }
}

/// Append the length-prefixed UTF-8 encoding of text.
pub fn enc_str(out: &mut Vec<u8>, s: &str)
    ensures
        final(out)@ == old(out)@ + spec_enc_str(s@),
        encode_utf8(s@).len() <= usize::MAX,
{
    enc_bytes(out, s.as_bytes());
}

// ---------------------------------------------------------------------------
// Executable decoders
// ---------------------------------------------------------------------------
/// Read a `u32` at `pos`.
pub fn dec_u32(buf: &[u8], pos: usize) -> (r: Option<(u32, usize)>)
    ensures
        match r {
            Some((v, end)) => spec_dec_u32_at(buf@, pos as int) == Some((v, end as int)),
            None => spec_dec_u32_at(buf@, pos as int) is None,
        },
{
    if pos > buf.len() || buf.len() - pos < 4 {
        return None;
    }
    let v = (buf[pos] as u32) | ((buf[pos + 1] as u32) << 8) | ((buf[pos + 2] as u32) << 16) | (
    (buf[pos + 3] as u32) << 24);
    proof {
        let sub = buf@.subrange(pos as int, pos + 4);
        assert(sub[0] == buf@[pos as int] && sub[1] == buf@[pos + 1] && sub[2] == buf@[pos + 2]
            && sub[3] == buf@[pos + 3]);
    }
    Some((v, pos + 4))
}

/// Read a `u64` at `pos`.
pub fn dec_u64(buf: &[u8], pos: usize) -> (r: Option<(u64, usize)>)
    ensures
        match r {
            Some((v, end)) => spec_dec_u64_at(buf@, pos as int) == Some((v, end as int)),
            None => spec_dec_u64_at(buf@, pos as int) is None,
        },
{
    if pos > buf.len() || buf.len() - pos < 8 {
        return None;
    }
    let v = (buf[pos] as u64) | ((buf[pos + 1] as u64) << 8) | ((buf[pos + 2] as u64) << 16) | (
    (buf[pos + 3] as u64) << 24) | ((buf[pos + 4] as u64) << 32) | ((buf[pos + 5] as u64) << 40)
        | ((buf[pos + 6] as u64) << 48) | ((buf[pos + 7] as u64) << 56);
    proof {
        let sub = buf@.subrange(pos as int, pos + 8);
        assert(sub[0] == buf@[pos as int] && sub[1] == buf@[pos + 1] && sub[2] == buf@[pos + 2]
            && sub[3] == buf@[pos + 3] && sub[4] == buf@[pos + 4] && sub[5] == buf@[pos + 5]
            && sub[6] == buf@[pos + 6] && sub[7] == buf@[pos + 7]);
    }
    Some((v, pos + 8))
}

/// Read a length-prefixed byte string at `pos`.
pub fn dec_bytes(buf: &[u8], pos: usize) -> (r: Option<(Vec<u8>, usize)>)
    ensures
        match r {
            Some((v, end)) => spec_dec_bytes_at(buf@, pos as int) == Some((v@, end as int)),
            None => spec_dec_bytes_at(buf@, pos as int) is None,
        },
{
    match dec_u64(buf, pos) {
        None => None,
        Some((n, p)) => {
            if n > (buf.len() - p) as u64 {
                return None;
            }
            let end = p + (n as usize);
            let v = slice_to_vec(slice_subrange(buf, p, end));
            Some((v, end))
        },
    }
}

/// Relies on `String::from_utf8`: it succeeds exactly on valid UTF-8 input
/// and returns the string holding those very bytes.
#[verifier::external_body]
fn string_from_utf8(bytes: Vec<u8>) -> (r: Option<String>)
    ensures
        valid_utf8(bytes@) ==> r is Some,
        r matches Some(s) ==> encode_utf8(s@) == bytes@,
{
    String::from_utf8(bytes).ok()
}

/// Read length-prefixed UTF-8 text at `pos`.
pub fn dec_str(buf: &[u8], pos: usize) -> (r: Option<(String, usize)>)
    ensures
        match r {
            Some((s, end)) => spec_dec_str_at(buf@, pos as int) == Some((s@, end as int)),
            None => spec_dec_str_at(buf@, pos as int) is None,
        },
{
    match dec_bytes(buf, pos) {
        None => None,
        Some((b, end)) => {
            let ghost bs = b@;
            match string_from_utf8(b) {
                None => {
                    proof {
                        assert(!valid_utf8(bs));
                    }
                    None
                },
                Some(s) => {
                    proof {
                        encode_utf8_valid_utf8(s@);
                        encode_utf8_decode_utf8(s@);
                    }
                    Some((s, end))
                },
            }
        },
    }
}

} // verus!
