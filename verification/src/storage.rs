//! The document envelope codec: a fixed binary schema holding a document
//! text, an exact-match key, a fingerprint vector and an opaque data field,
//! all optional, for persistence or transport.
//!
//! The wire form is: one flags byte naming which text fields are present,
//! the present text fields in order, then the fingerprint as a count and
//! its 32-bit values, then the data field.  An absent fingerprint and an
//! empty one encode alike, as an empty list, and decode to "absent".
use vstd::prelude::*;

use crate::snapshot_codec::{
    lemma_dec_list_at_complete, lemma_dec_list_at_len, lemma_enc_list_take_step, lemma_prefix_split,
    spec_dec_list_at, spec_enc_list,
};
use crate::wire::{
    dec_str, dec_u32, dec_u64, enc_str, enc_u32, enc_u64, lemma_dec_str_at_complete,
    lemma_dec_u32_at_complete, lemma_dec_u64_at_complete, spec_dec_str_at, spec_dec_u32_at,
    spec_dec_u64_at, spec_enc_str, spec_enc_u32, spec_enc_u64,
};
use crate::NarrowDownError;
use vstd::utf8::encode_utf8;

verus! {

/// A decoded document envelope.  Every field is optional; an envelope with
/// no field set is valid.
pub struct StoredDocument {
    /// The document text.
    pub document: Option<String>,
    /// The exact-match comparison key.
    pub exact_part: Option<String>,
    /// The MinHash fingerprint; absent and never empty when present.
    pub fingerprint: Option<Vec<u32>>,
    /// An opaque payload.
    pub data: Option<String>,
}

/// The view of an optional text field.
pub open spec fn opt_str_view(o: Option<String>) -> Option<Seq<char>> {
    match o {
        Some(s) => Some(s@),
        None => None,
    }
}

/// The fingerprint values an optional fingerprint argument stands for: an
/// absent fingerprint counts as empty.
pub open spec fn fingerprint_view(o: Option<Vec<u32>>) -> Seq<u32> {
    match o {
        Some(v) => v@,
        None => Seq::empty(),
    }
}

/// The flags byte: one bit per present text field.
pub open spec fn spec_envelope_flags(
    doc: Option<Seq<char>>,
    exact: Option<Seq<char>>,
    data: Option<Seq<char>>,
) -> u8 {
    ((if doc is Some {
        1int
    } else {
        0int
    }) + (if exact is Some {
        2int
    } else {
        0int
    }) + (if data is Some {
        4int
    } else {
        0int
    })) as u8
}

/// The encoding of an optional text field: nothing when absent.
pub open spec fn spec_enc_opt_str(o: Option<Seq<char>>) -> Seq<u8> {
    match o {
        Some(s) => spec_enc_str(s),
        None => Seq::empty(),
    }
}

/// The fingerprint value encoder as a function value.
pub open spec fn spec_enc_fp_fn() -> spec_fn(u32) -> Seq<u8> {
    |x: u32| spec_enc_u32(x)
}

/// The bytes of an envelope.
pub open spec fn spec_enc_envelope(
    doc: Option<Seq<char>>,
    exact: Option<Seq<char>>,
    fp: Seq<u32>,
    data: Option<Seq<char>>,
) -> Seq<u8> {
    seq![spec_envelope_flags(doc, exact, data)] + (spec_enc_opt_str(doc) + (spec_enc_opt_str(exact)
        + (spec_enc_u64(fp.len() as u64) + (spec_enc_list(fp, spec_enc_fp_fn()) + spec_enc_opt_str(
        data,
    )))))
}

/// Read an optional text field: nothing to read when the flag is clear.
pub open spec fn spec_dec_opt_str_at(buf: Seq<u8>, pos: int, present: bool) -> Option<
    (Option<Seq<char>>, int),
> {
    if !present {
        Some((None, pos))
    } else {
        match spec_dec_str_at(buf, pos) {
            None => None,
            Some((s, p)) => Some((Some(s), p)),
        }
    }
}

/// The fingerprint value decoder as a function value.
pub open spec fn spec_dec_fp_fn() -> spec_fn(Seq<u8>, int) -> Option<(u32, int)> {
    |buf: Seq<u8>, pos: int| spec_dec_u32_at(buf, pos)
}

/// The envelope a byte string spells, if any: the flags byte must name no
/// unknown field and the bytes must end with the last field.
pub open spec fn spec_dec_envelope(buf: Seq<u8>) -> Option<
    (Option<Seq<char>>, Option<Seq<char>>, Seq<u32>, Option<Seq<char>>),
> {
    if buf.len() < 1 || buf[0] >= 8 {
        None
    } else {
        let f = buf[0];
        match spec_dec_opt_str_at(buf, 1, f % 2 == 1) {
            None => None,
            Some((doc, p1)) => match spec_dec_opt_str_at(buf, p1, (f / 2) % 2 == 1) {
                None => None,
                Some((exact, p2)) => match spec_dec_u64_at(buf, p2) {
                    None => None,
                    Some((n, p3)) => match spec_dec_list_at(buf, p3, n as int, spec_dec_fp_fn()) {
                        None => None,
                        Some((fp, p4)) => match spec_dec_opt_str_at(buf, p4, (f / 4) % 2 == 1) {
                            None => None,
                            Some((data, p5)) => if p5 == buf.len() {
                                Some((doc, exact, fp, data))
                            } else {
                                None
                            },
                        },
                    },
                },
            },
        }
    }
}

/// Reading where an encoded optional text field lies yields it.
proof fn lemma_dec_opt_str_at_complete(buf: Seq<u8>, pos: int, o: Option<Seq<char>>)
    requires
        0 <= pos,
        o matches Some(s) ==> encode_utf8(s).len() <= u64::MAX,
        pos + spec_enc_opt_str(o).len() <= buf.len(),
        buf.subrange(pos, pos + spec_enc_opt_str(o).len()) == spec_enc_opt_str(o),
    ensures
        spec_dec_opt_str_at(buf, pos, o is Some) == Some((o, pos + spec_enc_opt_str(o).len())),
{
    if let Some(s) = o {
        lemma_dec_str_at_complete(buf, pos, s);
    }
}

/// Reading the fields of an envelope body, after the flags byte.
#[verifier::rlimit(100)]
#[verifier::spinoff_prover]
proof fn lemma_envelope_body_complete(
    buf: Seq<u8>,
    pos: int,
    doc: Option<Seq<char>>,
    exact: Option<Seq<char>>,
    fp: Seq<u32>,
    data: Option<Seq<char>>,
)
    requires
        0 <= pos,
        fp.len() <= u64::MAX,
        doc matches Some(s) ==> encode_utf8(s).len() <= u64::MAX,
        exact matches Some(s) ==> encode_utf8(s).len() <= u64::MAX,
        data matches Some(s) ==> encode_utf8(s).len() <= u64::MAX,
        pos + spec_enc_opt_str(doc).len() + (spec_enc_opt_str(exact).len() + (8 + (spec_enc_list(
            fp,
            spec_enc_fp_fn(),
        ).len() + spec_enc_opt_str(data).len()))) == buf.len(),
        buf.subrange(pos, buf.len() as int) == spec_enc_opt_str(doc) + (spec_enc_opt_str(exact) + (
        spec_enc_u64(fp.len() as u64) + (spec_enc_list(fp, spec_enc_fp_fn()) + spec_enc_opt_str(
            data,
        )))),
    ensures
        ({
            let p1 = pos + spec_enc_opt_str(doc).len() as int;
            let p2 = p1 + spec_enc_opt_str(exact).len() as int;
            let p3 = p2 + 8;
            let p4 = p3 + spec_enc_list(fp, spec_enc_fp_fn()).len() as int;
            &&& spec_dec_opt_str_at(buf, pos, doc is Some) == Some((doc, p1))
            &&& spec_dec_opt_str_at(buf, p1, exact is Some) == Some((exact, p2))
            &&& spec_dec_u64_at(buf, p2) == Some((fp.len() as u64, p3))
            &&& spec_dec_list_at(buf, p3, fp.len() as int, spec_dec_fp_fn()) == Some((fp, p4))
            &&& spec_dec_opt_str_at(buf, p4, data is Some) == Some((data, buf.len() as int))
        }),
{
    let de = spec_enc_opt_str(doc);
    let ee = spec_enc_opt_str(exact);
    let fe = spec_enc_list(fp, spec_enc_fp_fn());
    let te = spec_enc_opt_str(data);
    lemma_prefix_split(buf, pos, de, ee + (spec_enc_u64(fp.len() as u64) + (fe + te)));
    lemma_dec_opt_str_at_complete(buf, pos, doc);
    let p1: int = pos + de.len() as int;
    lemma_prefix_split(buf, p1, ee, spec_enc_u64(fp.len() as u64) + (fe + te));
    lemma_dec_opt_str_at_complete(buf, p1, exact);
    let p2: int = p1 + ee.len() as int;
    lemma_prefix_split(buf, p2, spec_enc_u64(fp.len() as u64), fe + te);
    lemma_dec_u64_at_complete(buf, p2, fp.len() as u64);
    let p3 = p2 + 8;
    lemma_prefix_split(buf, p3, fe, te);
    assert forall|j: int, q: int|
        #![trigger spec_dec_fp_fn()(buf, q), spec_enc_fp_fn()(fp[j])]
        0 <= j < fp.len() && 0 <= q && q + spec_enc_fp_fn()(fp[j]).len() <= buf.len()
            && buf.subrange(q, q + spec_enc_fp_fn()(fp[j]).len()) == spec_enc_fp_fn()(
            fp[j],
        ) implies spec_dec_fp_fn()(buf, q) == Some((fp[j], q + spec_enc_fp_fn()(fp[j]).len())) by {
        lemma_dec_u32_at_complete(buf, q, fp[j]);
    }
    lemma_dec_list_at_complete(buf, p3, fp, spec_enc_fp_fn(), spec_dec_fp_fn());
    let p4: int = p3 + fe.len() as int;
    lemma_dec_opt_str_at_complete(buf, p4, data);
}

/// Decoding an encoded envelope restores all four fields: the envelope
/// format is lossless, with an absent fingerprint read back as empty.
#[verifier::rlimit(100)]
#[verifier::spinoff_prover]
pub proof fn lemma_envelope_round_trip(
    doc: Option<Seq<char>>,
    exact: Option<Seq<char>>,
    fp: Seq<u32>,
    data: Option<Seq<char>>,
)
    requires
        fp.len() <= u64::MAX,
        doc matches Some(s) ==> encode_utf8(s).len() <= u64::MAX,
        exact matches Some(s) ==> encode_utf8(s).len() <= u64::MAX,
        data matches Some(s) ==> encode_utf8(s).len() <= u64::MAX,
    ensures
        spec_dec_envelope(spec_enc_envelope(doc, exact, fp, data)) == Some(
            (doc, exact, fp, data),
        ),
{
    let buf = spec_enc_envelope(doc, exact, fp, data);
    let f = spec_envelope_flags(doc, exact, data);
    assert(buf[0] == f);
    assert(f < 8);
    assert(f % 2 == 1 <==> doc is Some);
    assert((f / 2) % 2 == 1 <==> exact is Some);
    assert((f / 4) % 2 == 1 <==> data is Some);
    let de = spec_enc_opt_str(doc);
    let ee = spec_enc_opt_str(exact);
    let fe = spec_enc_list(fp, spec_enc_fp_fn());
    let te = spec_enc_opt_str(data);
    assert(buf.subrange(1, buf.len() as int) =~= de + (ee + (spec_enc_u64(fp.len() as u64) + (fe
        + te))));
    lemma_envelope_body_complete(buf, 1, doc, exact, fp, data);
}

/// An accepted optional-text read consumed exactly the field's encoding.
proof fn lemma_dec_opt_str_at_canonical(
    buf: Seq<u8>,
    pos: int,
    present: bool,
    o: Option<Seq<char>>,
    end: int,
)
    requires
        0 <= pos <= buf.len(),
        spec_dec_opt_str_at(buf, pos, present) == Some((o, end)),
    ensures
        o is Some <==> present,
        pos <= end <= buf.len(),
        end == pos + spec_enc_opt_str(o).len(),
        buf.subrange(pos, end) == spec_enc_opt_str(o),
{
    if present {
        let (s, p) = spec_dec_str_at(buf, pos).unwrap();
        crate::wire::lemma_dec_str_at_canonical(buf, pos, s, end);
    } else {
        assert(buf.subrange(pos, pos) =~= spec_enc_opt_str(o));
    }
}

/// A decoded envelope re-encodes to the very bytes it was decoded from:
/// the decoder accepts nothing but canonical encodings.
#[verifier::rlimit(100)]
#[verifier::spinoff_prover]
pub proof fn lemma_envelope_canonical(
    buf: Seq<u8>,
    doc: Option<Seq<char>>,
    exact: Option<Seq<char>>,
    fp: Seq<u32>,
    data: Option<Seq<char>>,
)
    requires
        spec_dec_envelope(buf) == Some((doc, exact, fp, data)),
    ensures
        buf == spec_enc_envelope(doc, exact, fp, data),
{
    let f = buf[0];
    let (doc0, p1) = spec_dec_opt_str_at(buf, 1, f % 2 == 1).unwrap();
    let (exact0, p2) = spec_dec_opt_str_at(buf, p1, (f / 2) % 2 == 1).unwrap();
    let (n, p3) = spec_dec_u64_at(buf, p2).unwrap();
    let (fp0, p4) = spec_dec_list_at(buf, p3, n as int, spec_dec_fp_fn()).unwrap();
    let (data0, p5) = spec_dec_opt_str_at(buf, p4, (f / 4) % 2 == 1).unwrap();
    lemma_dec_opt_str_at_canonical(buf, 1, f % 2 == 1, doc, p1);
    lemma_dec_opt_str_at_canonical(buf, p1, (f / 2) % 2 == 1, exact, p2);
    crate::wire::lemma_dec_u64_at_canonical(buf, p2, n, p3);
    crate::snapshot_codec::lemma_dec_list_at_len(buf, p3, n as int, spec_dec_fp_fn(), fp, p4);
    assert forall|q: int| #[trigger]
        spec_dec_fp_fn()(buf, q) is Some implies {
        let (x, e) = spec_dec_fp_fn()(buf, q).unwrap();
        &&& 0 <= q <= e <= buf.len()
        &&& e == q + spec_enc_fp_fn()(x).len()
        &&& buf.subrange(q, e) == spec_enc_fp_fn()(x)
    } by {
        let (x, e) = spec_dec_fp_fn()(buf, q).unwrap();
        crate::wire::lemma_dec_u32_at_canonical(buf, q, x, e);
    }
    crate::snapshot_codec::lemma_dec_list_at_canonical(
        buf,
        p3,
        n as int,
        spec_enc_fp_fn(),
        spec_dec_fp_fn(),
        fp,
        p4,
    );
    assert((fp.len() as u64) == n);
    assert(f == spec_envelope_flags(doc, exact, data)) by {
        assert(f < 8);
    }
    assert(buf.subrange(0, 1) =~= seq![spec_envelope_flags(doc, exact, data)]);
    lemma_dec_opt_str_at_canonical(buf, p4, (f / 4) % 2 == 1, data, p5);
    assert(buf.subrange(p3, p5) =~= buf.subrange(p3, p4) + buf.subrange(p4, p5));
    assert(buf.subrange(p2, p5) =~= buf.subrange(p2, p3) + buf.subrange(p3, p5));
    assert(buf.subrange(1, p5) =~= buf.subrange(1, p1) + (buf.subrange(p1, p2) + buf.subrange(
        p2,
        p5,
    )));
    assert(buf =~= buf.subrange(0, 1) + buf.subrange(1, p5));
    assert(buf =~= spec_enc_envelope(doc, exact, fp, data));
}

/// Append an optional text field.
fn enc_opt_str(out: &mut Vec<u8>, o: &Option<String>)
    ensures
        final(out)@ == old(out)@ + spec_enc_opt_str(opt_str_view(*o)),
        opt_str_view(*o) matches Some(s) ==> encode_utf8(s).len() <= usize::MAX,
{
    match o {
        Some(s) => enc_str(out, s.as_str()),
        None => {
            proof {
                assert(out@ =~= out@ + Seq::<u8>::empty());
            }
        },
    }
}

/// Create an envelope message from the four fields and return it as bytes.
///
/// An absent fingerprint and an empty one encode alike.
#[verifier::rlimit(100)]
#[verifier::spinoff_prover]
pub fn stored_document_to_protobuf(
    document: Option<String>,
    exact_part: Option<String>,
    fingerprint: Option<Vec<u32>>,
    data: Option<String>,
) -> (r: Vec<u8>)
    ensures
        r@ == spec_enc_envelope(
            opt_str_view(document),
            opt_str_view(exact_part),
            fingerprint_view(fingerprint),
            opt_str_view(data),
        ),
        fingerprint_view(fingerprint).len() <= u64::MAX,
        opt_str_view(document) matches Some(s) ==> encode_utf8(s).len() <= u64::MAX,
        opt_str_view(exact_part) matches Some(s) ==> encode_utf8(s).len() <= u64::MAX,
        opt_str_view(data) matches Some(s) ==> encode_utf8(s).len() <= u64::MAX,
{
    let ghost dv = opt_str_view(document);
    let ghost ev = opt_str_view(exact_part);
    let ghost fv = fingerprint_view(fingerprint);
    let ghost tv = opt_str_view(data);
    let mut flags: u8 = 0;
    if document.is_some() {
        flags = flags + 1;
    }
    if exact_part.is_some() {
        flags = flags + 2;
    }
    if data.is_some() {
        flags = flags + 4;
    }
    let mut out: Vec<u8> = Vec::new();
    out.push(flags);
    proof {
        assert(out@ =~= seq![spec_envelope_flags(dv, ev, tv)]);
    }
    enc_opt_str(&mut out, &document);
    enc_opt_str(&mut out, &exact_part);
    let fp: Vec<u32> = match fingerprint {
        Some(v) => v,
        None => Vec::new(),
    };
    proof {
        assert(fp@ =~= fv);
    }
    enc_u64(&mut out, fp.len() as u64);
    let ghost h_fp = out@;
    let mut i: usize = 0;
    while i < fp.len()
        invariant
            i <= fp.len(),
            fp@ == fv,
            out@ == h_fp + spec_enc_list(fv.take(i as int), spec_enc_fp_fn()),
        decreases fp.len() - i,
    {
        enc_u32(&mut out, fp[i]);
        proof {
            lemma_enc_list_take_step(fv, i as int, spec_enc_fp_fn());
            assert(out@ =~= h_fp + spec_enc_list(fv.take(i as int + 1), spec_enc_fp_fn()));
        }
        i = i + 1;
    }
    proof {
        assert(fv.take(fv.len() as int) =~= fv);
    }
    enc_opt_str(&mut out, &data);
    proof {
        assert(out@ =~= spec_enc_envelope(dv, ev, fv, tv));
    }
    out
}

/// Read an optional text field.
fn dec_opt_str(buf: &[u8], pos: usize, present: bool) -> (r: Option<(Option<String>, usize)>)
    ensures
        match r {
            Some((o, end)) => spec_dec_opt_str_at(buf@, pos as int, present) == Some(
                (opt_str_view(o), end as int),
            ),
            None => spec_dec_opt_str_at(buf@, pos as int, present) is None,
        },
{
    if !present {
        Some((None, pos))
    } else {
        match dec_str(buf, pos) {
            None => None,
            Some((s, p)) => Some((Some(s), p)),
        }
    }
}

/// Read the fingerprint values.
fn dec_fp_list(buf: &[u8], pos: usize, n: u64) -> (r: Option<(Vec<u32>, usize)>)
    ensures
        match r {
            Some((v, end)) => spec_dec_list_at(buf@, pos as int, n as int, spec_dec_fp_fn())
                == Some((v@, end as int)),
            None => spec_dec_list_at(buf@, pos as int, n as int, spec_dec_fp_fn()) is None,
        },
{
    let ghost fd = spec_dec_fp_fn();
    let ghost overall = spec_dec_list_at(buf@, pos as int, n as int, fd);
    let mut acc: Vec<u32> = Vec::new();
    let mut p: usize = pos;
    let mut i: u64 = 0;
    proof {
        if let Some((items, end)) = overall {
            lemma_dec_list_at_len(buf@, pos as int, n as int, fd, items, end);
        }
    }
    while i < n
        invariant
            i <= n,
            overall == spec_dec_list_at(buf@, pos as int, n as int, fd),
            overall matches Some(oi) ==> oi.0.len() == n as int,
            fd == spec_dec_fp_fn(),
            match overall {
                Some((items, end)) => acc@ == items.take(i as int) && spec_dec_list_at(
                    buf@,
                    p as int,
                    n as int - i as int,
                    fd,
                ) == Some((items.skip(i as int), end)),
                None => spec_dec_list_at(buf@, p as int, n as int - i as int, fd) is None,
            },
        decreases n - i,
    {
        let ghost k = n as int - i as int;
        match dec_u32(buf, p) {
            None => {
                proof {
                    assert(fd(buf@, p as int) is None);
                    assert(spec_dec_list_at(buf@, p as int, k, fd) is None);
                    assert(overall is None);
                }
                return None;
            },
            Some((x, p2)) => {
                proof {
                    assert(fd(buf@, p as int) == Some((x, p2 as int)));
                    if let Some((items, end)) = overall {
                        let inner = spec_dec_list_at(buf@, p2 as int, k - 1, fd);
                        assert(inner is Some);
                        let (rest, e) = inner.unwrap();
                        assert(seq![x] + rest == items.skip(i as int));
                        assert(i < items.len());
                        assert((seq![x] + rest)[0] == x);
                        assert forall|jj: int|
                            0 <= jj < rest.len() implies (seq![x] + rest)[jj + 1] == rest[jj] by {}
                        assert(items.skip(i as int)[0] == x);
                        assert(items[i as int] == x);
                        assert(rest =~= items.skip(i as int).drop_first());
                        assert(items.skip(i as int).drop_first() =~= items.skip(i as int + 1));
                        assert(items.take(i as int + 1) =~= items.take(i as int).push(
                            items[i as int],
                        ));
                    } else {
                        assert(spec_dec_list_at(buf@, p2 as int, k - 1, fd) is None);
                    }
                }
                acc.push(x);
                p = p2;
                i = i + 1;
            },
        }
    }
    proof {
        if let Some((items, end)) = overall {
            assert(items.take(n as int) =~= items);
        } else {
            assert(spec_dec_list_at(buf@, p as int, 0, fd) is None);
            assert(false);
        }
    }
    Some((acc, p))
}

/// Parse a binary envelope message and return its fields.
///
/// Bytes that are not a well-formed envelope are malformed input, reported
/// as an error.  An empty fingerprint list decodes to an absent one.
pub fn protobuf_to_stored_document(document: &[u8]) -> (r: Result<StoredDocument, NarrowDownError>)
    ensures
        match r {
            Ok(d) => spec_dec_envelope(document@) matches Some(fields) && fields.0
                == opt_str_view(d.document) && fields.1 == opt_str_view(d.exact_part) && fields.3
                == opt_str_view(d.data) && (match d.fingerprint {
                Some(v) => v@ == fields.2 && v@.len() > 0,
                None => fields.2.len() == 0,
            }) && document@ == spec_enc_envelope(fields.0, fields.1, fields.2, fields.3),
            Err(e) => e == NarrowDownError::MalformedInput && spec_dec_envelope(document@)
                is None,
        },
{
    if document.len() < 1 {
        return Err(NarrowDownError::MalformedInput);
    }
    let f = document[0];
    if f >= 8 {
        return Err(NarrowDownError::MalformedInput);
    }
    let (doc, p1) = match dec_opt_str(document, 1, f % 2 == 1) {
        None => {
            return Err(NarrowDownError::MalformedInput);
        },
        Some(x) => x,
    };
    let (exact, p2) = match dec_opt_str(document, p1, (f / 2) % 2 == 1) {
        None => {
            return Err(NarrowDownError::MalformedInput);
        },
        Some(x) => x,
    };
    let (n, p3) = match dec_u64(document, p2) {
        None => {
            return Err(NarrowDownError::MalformedInput);
        },
        Some(x) => x,
    };
    let (fp, p4) = match dec_fp_list(document, p3, n) {
        None => {
            return Err(NarrowDownError::MalformedInput);
        },
        Some(x) => x,
    };
    let (data, p5) = match dec_opt_str(document, p4, (f / 4) % 2 == 1) {
        None => {
            return Err(NarrowDownError::MalformedInput);
        },
        Some(x) => x,
    };
    if p5 != document.len() {
        return Err(NarrowDownError::MalformedInput);
    }
    let fingerprint = if fp.len() == 0 {
        None
    } else {
        Some(fp)
    };
    proof {
        let fields = spec_dec_envelope(document@).unwrap();
        lemma_envelope_canonical(document@, fields.0, fields.1, fields.2, fields.3);
    }
    Ok(StoredDocument { document: doc, exact_part: exact, fingerprint, data })
}

} // verus!
