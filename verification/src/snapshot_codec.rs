//! The store's binary snapshot format.
//!
//! A snapshot is, in order: the id counter, then each table as an entry
//! count followed by the entries.  A settings entry is two strings; a
//! document entry is an id and a byte string; a bucket entry is the two key
//! words, an id count and the ids.  All on the primitives of [`crate::wire`].
//!
//! `spec_encode` fixes the bytes of a snapshot, `spec_decode` the snapshot
//! a byte string spells, and [`lemma_snapshot_round_trip`] states that
//! decoding an encoded snapshot restores it exactly.
use vstd::prelude::*;

use crate::in_memory_store::StoreSnapshot;
use crate::wire::{
    lemma_dec_str_at_complete, lemma_dec_u32_at_complete, lemma_dec_u64_at_complete, spec_dec_str_at,
    spec_dec_u32_at, spec_dec_u64_at, spec_enc_bytes, spec_enc_str, spec_enc_u32, spec_enc_u64,
};
use vstd::utf8::encode_utf8;

verus! {

// ---------------------------------------------------------------------------
// Lists of encoded items
// ---------------------------------------------------------------------------
/// The items of a sequence encoded one after the other.
pub open spec fn spec_enc_list<T>(s: Seq<T>, f: spec_fn(T) -> Seq<u8>) -> Seq<u8>
    decreases s.len(),
{
    if s.len() == 0 {
        Seq::empty()
    } else {
        f(s.first()) + spec_enc_list(s.drop_first(), f)
    }
}

/// Read `n` items one after the other, starting at `pos`.
pub open spec fn spec_dec_list_at<T>(
    buf: Seq<u8>,
    pos: int,
    n: int,
    f: spec_fn(Seq<u8>, int) -> Option<(T, int)>,
) -> Option<(Seq<T>, int)>
    decreases n,
{
    if n <= 0 {
        Some((Seq::empty(), pos))
    } else {
        match f(buf, pos) {
            None => None,
            Some((x, p)) => match spec_dec_list_at(buf, p, n - 1, f) {
                None => None,
                Some((rest, end)) => Some((seq![x] + rest, end)),
            },
        }
    }
}

/// A successful list read yields exactly `n` items.
pub proof fn lemma_dec_list_at_len<T>(
    buf: Seq<u8>,
    pos: int,
    n: int,
    f: spec_fn(Seq<u8>, int) -> Option<(T, int)>,
    items: Seq<T>,
    end: int,
)
    requires
        spec_dec_list_at(buf, pos, n, f) == Some((items, end)),
    ensures
        items.len() == if n <= 0 {
            0
        } else {
            n
        },
    decreases n,
{
    if n > 0 {
        let (x, p) = f(buf, pos).unwrap();
        let (rest, e) = spec_dec_list_at(buf, p, n - 1, f).unwrap();
        lemma_dec_list_at_len(buf, p, n - 1, f, rest, e);
    }
}

/// Extending the encoded prefix by one item appends that item's encoding.
pub proof fn lemma_enc_list_take_step<T>(s: Seq<T>, i: int, f: spec_fn(T) -> Seq<u8>)
    requires
        0 <= i < s.len(),
    ensures
        spec_enc_list(s.take(i + 1), f) == spec_enc_list(s.take(i), f) + f(s[i]),
    decreases i,
{
    if i == 0 {
        assert(s.take(1).first() == s[0]);
        assert(s.take(1).drop_first() =~= Seq::<T>::empty());
        assert(s.take(0) =~= Seq::<T>::empty());
        assert(f(s[0]) + Seq::<u8>::empty() =~= f(s[0]));
        assert(Seq::<u8>::empty() + f(s[0]) =~= f(s[0]));
    } else {
        lemma_enc_list_take_step(s.drop_first(), i - 1, f);
        assert(s.take(i + 1).first() == s[0]);
        assert(s.take(i + 1).drop_first() =~= s.drop_first().take(i));
        assert(s.take(i).first() == s[0]);
        assert(s.take(i).drop_first() =~= s.drop_first().take(i - 1));
        assert(s.drop_first()[i - 1] == s[i]);
        assert(f(s[0]) + (spec_enc_list(s.drop_first().take(i - 1), f) + f(s[i])) =~= (f(s[0])
            + spec_enc_list(s.drop_first().take(i - 1), f)) + f(s[i]));
    }
}

/// Split a known stretch of the buffer that holds `a + b` into its parts.
pub proof fn lemma_prefix_split(buf: Seq<u8>, pos: int, a: Seq<u8>, b: Seq<u8>)
    requires
        0 <= pos,
        pos + a.len() + b.len() <= buf.len(),
        buf.subrange(pos, pos + a.len() + b.len()) == a + b,
    ensures
        buf.subrange(pos, pos + a.len()) == a,
        buf.subrange(pos + a.len(), pos + a.len() + b.len()) == b,
{
    let whole = buf.subrange(pos, pos + a.len() + b.len());
    assert forall|i: int| 0 <= i < a.len() implies buf.subrange(pos, pos + a.len())[i] == a[i] by {
        assert(whole[i] == (a + b)[i]);
    }
    assert(buf.subrange(pos, pos + a.len()) =~= a);
    assert forall|i: int|
        0 <= i < b.len() implies buf.subrange(pos + a.len(), pos + a.len() + b.len())[i]
        == b[i] by {
        assert(whole[a.len() + i] == (a + b)[a.len() + i]);
    }
    assert(buf.subrange(pos + a.len(), pos + a.len() + b.len()) =~= b);
}

/// Reading where an encoded item list lies yields those items, provided
/// each single item reads back from its own encoding.
pub proof fn lemma_dec_list_at_complete<T>(
    buf: Seq<u8>,
    pos: int,
    s: Seq<T>,
    fe: spec_fn(T) -> Seq<u8>,
    fd: spec_fn(Seq<u8>, int) -> Option<(T, int)>,
)
    requires
        0 <= pos,
        pos + spec_enc_list(s, fe).len() <= buf.len(),
        buf.subrange(pos, pos + spec_enc_list(s, fe).len()) == spec_enc_list(s, fe),
        forall|j: int, q: int|
            #![trigger fd(buf, q), fe(s[j])]
            0 <= j < s.len() && 0 <= q && q + fe(s[j]).len() <= buf.len() && buf.subrange(
                q,
                q + fe(s[j]).len(),
            ) == fe(s[j]) ==> fd(buf, q) == Some((s[j], q + fe(s[j]).len())),
    ensures
        spec_dec_list_at(buf, pos, s.len() as int, fd) == Some(
            (s, pos + spec_enc_list(s, fe).len()),
        ),
    decreases s.len(),
{
    if s.len() > 0 {
        let e0 = fe(s[0]);
        let t = s.drop_first();
        let rest_enc = spec_enc_list(t, fe);
        assert(spec_enc_list(s, fe) == e0 + rest_enc);
        lemma_prefix_split(buf, pos, e0, rest_enc);
        assert(fd(buf, pos) == Some((s[0], pos + e0.len())));
        assert forall|j: int, q: int|
            #![trigger fd(buf, q), fe(t[j])]
            0 <= j < t.len() && 0 <= q && q + fe(t[j]).len() <= buf.len() && buf.subrange(
                q,
                q + fe(t[j]).len(),
            ) == fe(t[j]) implies fd(buf, q) == Some((t[j], q + fe(t[j]).len())) by {
            assert(t[j] == s[j + 1]);
            assert(fe(s[j + 1]) == fe(t[j]));
        }
        lemma_dec_list_at_complete(buf, pos + e0.len(), t, fe, fd);
        assert(seq![s[0]] + t =~= s);
    }
}

// ---------------------------------------------------------------------------
// The entry encodings
// ---------------------------------------------------------------------------
/// A settings entry: key, then value.
pub open spec fn spec_enc_setting(p: (Seq<char>, Seq<char>)) -> Seq<u8> {
    spec_enc_str(p.0) + spec_enc_str(p.1)
}

/// The settings entry encoder as a function value.
pub open spec fn spec_enc_setting_fn() -> spec_fn((Seq<char>, Seq<char>)) -> Seq<u8> {
    |p: (Seq<char>, Seq<char>)| spec_enc_setting(p)
}

/// A document entry: id, then payload.
pub open spec fn spec_enc_document(p: (u64, Seq<u8>)) -> Seq<u8> {
    spec_enc_u64(p.0) + spec_enc_bytes(p.1)
}

/// The document entry encoder as a function value.
pub open spec fn spec_enc_document_fn() -> spec_fn((u64, Seq<u8>)) -> Seq<u8> {
    |p: (u64, Seq<u8>)| spec_enc_document(p)
}

/// The id encoder of a bucket's member list as a function value.
pub open spec fn spec_enc_id_fn() -> spec_fn(u64) -> Seq<u8> {
    |id: u64| spec_enc_u64(id)
}

/// A bucket entry: band id, band hash, id count, then the ids.
pub open spec fn spec_enc_bucket(p: ((u32, u32), Seq<u64>)) -> Seq<u8> {
    spec_enc_u32(p.0.0) + (spec_enc_u32(p.0.1) + (spec_enc_u64(p.1.len() as u64) + spec_enc_list(
        p.1,
        spec_enc_id_fn(),
    )))
}

/// The bucket entry encoder as a function value.
pub open spec fn spec_enc_bucket_fn() -> spec_fn(((u32, u32), Seq<u64>)) -> Seq<u8> {
    |p: ((u32, u32), Seq<u64>)| spec_enc_bucket(p)
}

/// The bucket table: its entry count, then the entries.
pub open spec fn spec_enc_buckets_section(v: StoreSnapshot) -> Seq<u8> {
    spec_enc_u64(v.buckets.len() as u64) + spec_enc_list(v.buckets, spec_enc_bucket_fn())
}

/// The document table and everything after it.
pub open spec fn spec_enc_from_documents(v: StoreSnapshot) -> Seq<u8> {
    spec_enc_list(v.documents, spec_enc_document_fn()) + spec_enc_buckets_section(v)
}

/// The document count and everything after it.
pub open spec fn spec_enc_from_documents_count(v: StoreSnapshot) -> Seq<u8> {
    spec_enc_u64(v.documents.len() as u64) + spec_enc_from_documents(v)
}

/// The settings table and everything after it.
pub open spec fn spec_enc_from_settings(v: StoreSnapshot) -> Seq<u8> {
    spec_enc_list(v.settings, spec_enc_setting_fn()) + spec_enc_from_documents_count(v)
}

/// The settings count and everything after it.
pub open spec fn spec_enc_from_settings_count(v: StoreSnapshot) -> Seq<u8> {
    spec_enc_u64(v.settings.len() as u64) + spec_enc_from_settings(v)
}

/// The bytes of a whole snapshot: the id counter, then the three tables.
pub open spec fn spec_encode(v: StoreSnapshot) -> Seq<u8> {
    spec_enc_u64(v.last_doc_id) + spec_enc_from_settings_count(v)
}

/// All counts and lengths of the snapshot fit the format's 64-bit fields;
/// every snapshot a store can actually hold does.
pub open spec fn snapshot_fits(v: StoreSnapshot) -> bool {
    &&& v.settings.len() <= u64::MAX
    &&& v.documents.len() <= u64::MAX
    &&& v.buckets.len() <= u64::MAX
    &&& forall|i: int|
        0 <= i < v.settings.len() ==> encode_utf8((#[trigger] v.settings[i]).0).len() <= u64::MAX
            && encode_utf8(v.settings[i].1).len() <= u64::MAX
    &&& forall|i: int| 0 <= i < v.documents.len() ==> (#[trigger] v.documents[i]).1.len() <= u64::MAX
    &&& forall|i: int| 0 <= i < v.buckets.len() ==> (#[trigger] v.buckets[i]).1.len() <= u64::MAX
}

// ---------------------------------------------------------------------------
// The entry decoders
// ---------------------------------------------------------------------------
/// Read a settings entry at `pos`.
pub open spec fn spec_dec_setting_at(buf: Seq<u8>, pos: int) -> Option<((Seq<char>, Seq<char>), int)> {
    match spec_dec_str_at(buf, pos) {
        None => None,
        Some((k, p)) => match spec_dec_str_at(buf, p) {
            None => None,
            Some((v, end)) => Some(((k, v), end)),
        },
    }
}

/// The settings entry decoder as a function value.
pub open spec fn spec_dec_setting_fn() -> spec_fn(Seq<u8>, int) -> Option<((Seq<char>, Seq<char>), int)> {
    |buf: Seq<u8>, pos: int| spec_dec_setting_at(buf, pos)
}

/// Read a document entry at `pos`.
pub open spec fn spec_dec_document_at(buf: Seq<u8>, pos: int) -> Option<((u64, Seq<u8>), int)> {
    match spec_dec_u64_at(buf, pos) {
        None => None,
        Some((id, p)) => match crate::wire::spec_dec_bytes_at(buf, p) {
            None => None,
            Some((b, end)) => Some(((id, b), end)),
        },
    }
}

/// The document entry decoder as a function value.
pub open spec fn spec_dec_document_fn() -> spec_fn(Seq<u8>, int) -> Option<((u64, Seq<u8>), int)> {
    |buf: Seq<u8>, pos: int| spec_dec_document_at(buf, pos)
}

/// The id decoder of a bucket's member list as a function value.
pub open spec fn spec_dec_id_fn() -> spec_fn(Seq<u8>, int) -> Option<(u64, int)> {
    |buf: Seq<u8>, pos: int| spec_dec_u64_at(buf, pos)
}

/// Read a bucket entry at `pos`.
pub open spec fn spec_dec_bucket_at(buf: Seq<u8>, pos: int) -> Option<(((u32, u32), Seq<u64>), int)> {
    match spec_dec_u32_at(buf, pos) {
        None => None,
        Some((band, p1)) => match spec_dec_u32_at(buf, p1) {
            None => None,
            Some((hash, p2)) => match spec_dec_u64_at(buf, p2) {
                None => None,
                Some((n, p3)) => match spec_dec_list_at(buf, p3, n as int, spec_dec_id_fn()) {
                    None => None,
                    Some((ids, end)) => Some((((band, hash), ids), end)),
                },
            },
        },
    }
}

/// The bucket entry decoder as a function value.
pub open spec fn spec_dec_bucket_fn() -> spec_fn(Seq<u8>, int) -> Option<(((u32, u32), Seq<u64>), int)> {
    |buf: Seq<u8>, pos: int| spec_dec_bucket_at(buf, pos)
}

/// The snapshot a byte string spells, if any: every piece must read back
/// and the bytes must end exactly where the last table does.
pub open spec fn spec_decode(buf: Seq<u8>) -> Option<StoreSnapshot> {
    match spec_dec_u64_at(buf, 0) {
        None => None,
        Some((last_doc_id, p1)) => match spec_dec_u64_at(buf, p1) {
            None => None,
            Some((ns, p2)) => match spec_dec_list_at(buf, p2, ns as int, spec_dec_setting_fn()) {
                None => None,
                Some((settings, p3)) => match spec_dec_u64_at(buf, p3) {
                    None => None,
                    Some((nd, p4)) => match spec_dec_list_at(
                        buf,
                        p4,
                        nd as int,
                        spec_dec_document_fn(),
                    ) {
                        None => None,
                        Some((documents, p5)) => match spec_dec_u64_at(buf, p5) {
                            None => None,
                            Some((nb, p6)) => match spec_dec_list_at(
                                buf,
                                p6,
                                nb as int,
                                spec_dec_bucket_fn(),
                            ) {
                                None => None,
                                Some((buckets, p7)) => if p7 == buf.len() {
                                    Some(
                                        StoreSnapshot {
                                            settings,
                                            documents,
                                            buckets,
                                            last_doc_id,
                                        },
                                    )
                                } else {
                                    None
                                },
                            },
                        },
                    },
                },
            },
        },
    }
}

// ---------------------------------------------------------------------------
// Decoding an encoding restores it
// ---------------------------------------------------------------------------
/// Reading where an encoded settings entry lies yields that entry.
proof fn lemma_dec_setting_at_complete(buf: Seq<u8>, pos: int, p: (Seq<char>, Seq<char>))
    requires
        0 <= pos,
        encode_utf8(p.0).len() <= u64::MAX,
        encode_utf8(p.1).len() <= u64::MAX,
        pos + spec_enc_setting(p).len() <= buf.len(),
        buf.subrange(pos, pos + spec_enc_setting(p).len()) == spec_enc_setting(p),
    ensures
        spec_dec_setting_at(buf, pos) == Some((p, pos + spec_enc_setting(p).len())),
{
    lemma_prefix_split(buf, pos, spec_enc_str(p.0), spec_enc_str(p.1));
    lemma_dec_str_at_complete(buf, pos, p.0);
    lemma_dec_str_at_complete(buf, pos + spec_enc_str(p.0).len(), p.1);
}

/// Reading where an encoded document entry lies yields that entry.
proof fn lemma_dec_document_at_complete(buf: Seq<u8>, pos: int, p: (u64, Seq<u8>))
    requires
        0 <= pos,
        p.1.len() <= u64::MAX,
        pos + spec_enc_document(p).len() <= buf.len(),
        buf.subrange(pos, pos + spec_enc_document(p).len()) == spec_enc_document(p),
    ensures
        spec_dec_document_at(buf, pos) == Some((p, pos + spec_enc_document(p).len())),
{
    lemma_prefix_split(buf, pos, spec_enc_u64(p.0), spec_enc_bytes(p.1));
    lemma_dec_u64_at_complete(buf, pos, p.0);
    crate::wire::lemma_dec_bytes_at_complete(buf, pos + 8, p.1);
}

/// Reading where an encoded bucket entry lies yields that entry.
proof fn lemma_dec_bucket_at_complete(buf: Seq<u8>, pos: int, p: ((u32, u32), Seq<u64>))
    requires
        0 <= pos,
        p.1.len() <= u64::MAX,
        pos + spec_enc_bucket(p).len() <= buf.len(),
        buf.subrange(pos, pos + spec_enc_bucket(p).len()) == spec_enc_bucket(p),
    ensures
        spec_dec_bucket_at(buf, pos) == Some((p, pos + spec_enc_bucket(p).len())),
{
    let ids_enc = spec_enc_list(p.1, spec_enc_id_fn());
    lemma_prefix_split(
        buf,
        pos,
        spec_enc_u32(p.0.0),
        spec_enc_u32(p.0.1) + (spec_enc_u64(p.1.len() as u64) + ids_enc),
    );
    lemma_dec_u32_at_complete(buf, pos, p.0.0);
    let q1 = pos + 4;
    lemma_prefix_split(buf, q1, spec_enc_u32(p.0.1), spec_enc_u64(p.1.len() as u64) + ids_enc);
    lemma_dec_u32_at_complete(buf, q1, p.0.1);
    let q2 = q1 + 4;
    lemma_prefix_split(buf, q2, spec_enc_u64(p.1.len() as u64), ids_enc);
    lemma_dec_u64_at_complete(buf, q2, p.1.len() as u64);
    let q3 = q2 + 8;
    assert forall|j: int, q: int|
        #![trigger spec_dec_id_fn()(buf, q), spec_enc_id_fn()(p.1[j])]
        0 <= j < p.1.len() && 0 <= q && q + spec_enc_id_fn()(p.1[j]).len() <= buf.len()
            && buf.subrange(q, q + spec_enc_id_fn()(p.1[j]).len()) == spec_enc_id_fn()(
            p.1[j],
        ) implies spec_dec_id_fn()(buf, q) == Some((p.1[j], q + spec_enc_id_fn()(p.1[j]).len())) by {
        lemma_dec_u64_at_complete(buf, q, p.1[j]);
    }
    lemma_dec_list_at_complete(buf, q3, p.1, spec_enc_id_fn(), spec_dec_id_fn());
}

/// Reading where the encoded settings table lies yields those entries.
proof fn lemma_dec_settings_complete(buf: Seq<u8>, pos: int, s: Seq<(Seq<char>, Seq<char>)>)
    requires
        0 <= pos,
        forall|i: int|
            0 <= i < s.len() ==> encode_utf8((#[trigger] s[i]).0).len() <= u64::MAX && encode_utf8(
                s[i].1,
            ).len() <= u64::MAX,
        pos + spec_enc_list(s, spec_enc_setting_fn()).len() <= buf.len(),
        buf.subrange(pos, pos + spec_enc_list(s, spec_enc_setting_fn()).len()) == spec_enc_list(
            s,
            spec_enc_setting_fn(),
        ),
    ensures
        spec_dec_list_at(buf, pos, s.len() as int, spec_dec_setting_fn()) == Some(
            (s, pos + spec_enc_list(s, spec_enc_setting_fn()).len()),
        ),
{
    assert forall|j: int, q: int|
        #![trigger spec_dec_setting_fn()(buf, q), spec_enc_setting_fn()(s[j])]
        0 <= j < s.len() && 0 <= q && q + spec_enc_setting_fn()(s[j]).len() <= buf.len()
            && buf.subrange(q, q + spec_enc_setting_fn()(s[j]).len()) == spec_enc_setting_fn()(
            s[j],
        ) implies spec_dec_setting_fn()(buf, q) == Some(
        (s[j], q + spec_enc_setting_fn()(s[j]).len()),
    ) by {
        lemma_dec_setting_at_complete(buf, q, s[j]);
    }
    lemma_dec_list_at_complete(buf, pos, s, spec_enc_setting_fn(), spec_dec_setting_fn());
}

/// Reading where the encoded document table lies yields those entries.
proof fn lemma_dec_documents_complete(buf: Seq<u8>, pos: int, s: Seq<(u64, Seq<u8>)>)
    requires
        0 <= pos,
        forall|i: int| 0 <= i < s.len() ==> (#[trigger] s[i]).1.len() <= u64::MAX,
        pos + spec_enc_list(s, spec_enc_document_fn()).len() <= buf.len(),
        buf.subrange(pos, pos + spec_enc_list(s, spec_enc_document_fn()).len()) == spec_enc_list(
            s,
            spec_enc_document_fn(),
        ),
    ensures
        spec_dec_list_at(buf, pos, s.len() as int, spec_dec_document_fn()) == Some(
            (s, pos + spec_enc_list(s, spec_enc_document_fn()).len()),
        ),
{
    assert forall|j: int, q: int|
        #![trigger spec_dec_document_fn()(buf, q), spec_enc_document_fn()(s[j])]
        0 <= j < s.len() && 0 <= q && q + spec_enc_document_fn()(s[j]).len() <= buf.len()
            && buf.subrange(q, q + spec_enc_document_fn()(s[j]).len()) == spec_enc_document_fn()(
            s[j],
        ) implies spec_dec_document_fn()(buf, q) == Some(
        (s[j], q + spec_enc_document_fn()(s[j]).len()),
    ) by {
        lemma_dec_document_at_complete(buf, q, s[j]);
    }
    lemma_dec_list_at_complete(buf, pos, s, spec_enc_document_fn(), spec_dec_document_fn());
}

/// Reading where the encoded bucket table lies yields those entries.
proof fn lemma_dec_buckets_complete(buf: Seq<u8>, pos: int, s: Seq<((u32, u32), Seq<u64>)>)
    requires
        0 <= pos,
        forall|i: int| 0 <= i < s.len() ==> (#[trigger] s[i]).1.len() <= u64::MAX,
        pos + spec_enc_list(s, spec_enc_bucket_fn()).len() <= buf.len(),
        buf.subrange(pos, pos + spec_enc_list(s, spec_enc_bucket_fn()).len()) == spec_enc_list(
            s,
            spec_enc_bucket_fn(),
        ),
    ensures
        spec_dec_list_at(buf, pos, s.len() as int, spec_dec_bucket_fn()) == Some(
            (s, pos + spec_enc_list(s, spec_enc_bucket_fn()).len()),
        ),
{
    assert forall|j: int, q: int|
        #![trigger spec_dec_bucket_fn()(buf, q), spec_enc_bucket_fn()(s[j])]
        0 <= j < s.len() && 0 <= q && q + spec_enc_bucket_fn()(s[j]).len() <= buf.len()
            && buf.subrange(q, q + spec_enc_bucket_fn()(s[j]).len()) == spec_enc_bucket_fn()(
            s[j],
        ) implies spec_dec_bucket_fn()(buf, q) == Some(
        (s[j], q + spec_enc_bucket_fn()(s[j]).len()),
    ) by {
        lemma_dec_bucket_at_complete(buf, q, s[j]);
    }
    lemma_dec_list_at_complete(buf, pos, s, spec_enc_bucket_fn(), spec_dec_bucket_fn());
}

// ---------------------------------------------------------------------------
// Executable entry decoders
// ---------------------------------------------------------------------------
/// Read one settings entry at `pos`.
fn dec_setting(buf: &[u8], pos: usize) -> (r: Option<((String, String), usize)>)
    ensures
        match r {
            Some((kv, end)) => spec_dec_setting_at(buf@, pos as int) == Some(
                ((kv.0@, kv.1@), end as int),
            ),
            None => spec_dec_setting_at(buf@, pos as int) is None,
        },
{
    match crate::wire::dec_str(buf, pos) {
        None => None,
        Some((k, p)) => match crate::wire::dec_str(buf, p) {
            None => None,
            Some((v, end)) => Some(((k, v), end)),
        },
    }
}

/// Read one document entry at `pos`.
fn dec_document(buf: &[u8], pos: usize) -> (r: Option<((u64, Vec<u8>), usize)>)
    ensures
        match r {
            Some((kv, end)) => spec_dec_document_at(buf@, pos as int) == Some(
                ((kv.0, kv.1@), end as int),
            ),
            None => spec_dec_document_at(buf@, pos as int) is None,
        },
{
    match crate::wire::dec_u64(buf, pos) {
        None => None,
        Some((id, p)) => match crate::wire::dec_bytes(buf, p) {
            None => None,
            Some((b, end)) => Some(((id, b), end)),
        },
    }
}

/// Read `n` bucket member ids one after the other.
fn dec_ids_list(buf: &[u8], pos: usize, n: u64) -> (r: Option<(Vec<u64>, usize)>)
    ensures
        match r {
            Some((v, end)) => spec_dec_list_at(buf@, pos as int, n as int, spec_dec_id_fn())
                == Some((v@, end as int)),
            None => spec_dec_list_at(buf@, pos as int, n as int, spec_dec_id_fn()) is None,
        },
{
    let ghost fd = spec_dec_id_fn();
    let ghost overall = spec_dec_list_at(buf@, pos as int, n as int, fd);
    let mut acc: Vec<u64> = Vec::new();
    let mut p: usize = pos;
    let mut i: u64 = 0;
    proof {
        if let Some((items, end)) = overall {
            lemma_dec_list_at_len(buf@, pos as int, n as int, fd, items, end);
        }
    }
    while i < n
        invariant
            i <= n,
            overall == spec_dec_list_at(buf@, pos as int, n as int, fd),
            overall matches Some(oi) ==> oi.0.len() == n as int,
            fd == spec_dec_id_fn(),
            match overall {
                Some((items, end)) => acc@ == items.take(i as int) && spec_dec_list_at(
                    buf@,
                    p as int,
                    n as int - i as int,
                    fd,
                ) == Some((items.skip(i as int), end)),
                None => spec_dec_list_at(buf@, p as int, n as int - i as int, fd) is None,
            },
        decreases n - i,
    {
        let ghost k = n as int - i as int;
        match crate::wire::dec_u64(buf, p) {
            None => {
                proof {
                    assert(fd(buf@, p as int) is None);
                    assert(spec_dec_list_at(buf@, p as int, k, fd) is None);
                    assert(overall is None);
                }
                return None;
            },
            Some((x, p2)) => {
                proof {
                    assert(fd(buf@, p as int) == Some((x, p2 as int)));
                    if let Some((items, end)) = overall {
                        let inner = spec_dec_list_at(buf@, p2 as int, k - 1, fd);
                        assert(inner is Some);
                        let (rest, e) = inner.unwrap();
                        assert(seq![x] + rest == items.skip(i as int));
                        assert(items.skip(i as int).len() == 1 + rest.len());
                        assert(i < items.len());
                        assert((seq![x] + rest)[0] == x);
                        assert forall|jj: int| 0 <= jj < rest.len() implies (seq![x] + rest)[jj
                            + 1] == rest[jj] by {}
                        assert(items.skip(i as int)[0] == x);
                        assert(items[i as int] == x);
                        assert(rest =~= items.skip(i as int).drop_first());
                        assert(items.skip(i as int).drop_first() =~= items.skip(i as int + 1));
                        assert(items.take(i as int + 1) =~= items.take(i as int).push(
                            items[i as int],
                        ));
                    } else {
                        assert(spec_dec_list_at(buf@, p2 as int, k - 1, fd) is None);
                    }
                }
                acc.push(x);
                p = p2;
                i = i + 1;
            },
        }
    }
    proof {
        if let Some((items, end)) = overall {
            lemma_dec_list_at_len(buf@, pos as int, n as int, fd, items, end);
            assert(items.take(n as int) =~= items);
        } else {
            assert(spec_dec_list_at(buf@, p as int, 0, fd) is None);
            assert(false);
        }
    }
    Some((acc, p))
}

/// Read one bucket entry at `pos`.
fn dec_bucket(buf: &[u8], pos: usize) -> (r: Option<(((u32, u32), Vec<u64>), usize)>)
    ensures
        match r {
            Some((kv, end)) => spec_dec_bucket_at(buf@, pos as int) == Some(
                ((kv.0, kv.1@), end as int),
            ),
            None => spec_dec_bucket_at(buf@, pos as int) is None,
        },
{
    match crate::wire::dec_u32(buf, pos) {
        None => None,
        Some((band, p1)) => match crate::wire::dec_u32(buf, p1) {
            None => None,
            Some((hash, p2)) => match crate::wire::dec_u64(buf, p2) {
                None => None,
                Some((n, p3)) => match dec_ids_list(buf, p3, n) {
                    None => None,
                    Some((ids, end)) => Some((((band, hash), ids), end)),
                },
            },
        },
    }
}

// ---------------------------------------------------------------------------
// Executable table decoders
// ---------------------------------------------------------------------------
/// Read `n` settings entries one after the other.
pub fn dec_settings_list(buf: &[u8], pos: usize, n: u64) -> (r: Option<
    (Vec<(String, String)>, usize),
>)
    ensures
        match r {
            Some((v, end)) => spec_dec_list_at(buf@, pos as int, n as int, spec_dec_setting_fn())
                == Some((v@.map_values(|p: (String, String)| (p.0@, p.1@)), end as int)),
            None => spec_dec_list_at(buf@, pos as int, n as int, spec_dec_setting_fn()) is None,
        },
{
    let ghost fd = spec_dec_setting_fn();
    let ghost overall = spec_dec_list_at(buf@, pos as int, n as int, fd);
    let mut acc: Vec<(String, String)> = Vec::new();
    let mut p: usize = pos;
    let mut i: u64 = 0;
    proof {
        if let Some((items, end)) = overall {
            lemma_dec_list_at_len(buf@, pos as int, n as int, fd, items, end);
        }
    }
    while i < n
        invariant
            i <= n,
            overall == spec_dec_list_at(buf@, pos as int, n as int, fd),
            overall matches Some(oi) ==> oi.0.len() == n as int,
            fd == spec_dec_setting_fn(),
            match overall {
                Some((items, end)) => acc@.map_values(|q: (String, String)| (q.0@, q.1@))
                    == items.take(i as int) && spec_dec_list_at(
                    buf@,
                    p as int,
                    n as int - i as int,
                    fd,
                ) == Some((items.skip(i as int), end)),
                None => spec_dec_list_at(buf@, p as int, n as int - i as int, fd) is None,
            },
        decreases n - i,
    {
        let ghost k = n as int - i as int;
        let ghost acc0 = acc@;
        match dec_setting(buf, p) {
            None => {
                proof {
                    assert(fd(buf@, p as int) is None);
                    assert(spec_dec_list_at(buf@, p as int, k, fd) is None);
                    assert(overall is None);
                }
                return None;
            },
            Some((kv, p2)) => {
                let ghost x = (kv.0@, kv.1@);
                proof {
                    assert(fd(buf@, p as int) == Some((x, p2 as int)));
                    if let Some((items, end)) = overall {
                        let inner = spec_dec_list_at(buf@, p2 as int, k - 1, fd);
                        assert(inner is Some);
                        let (rest, e) = inner.unwrap();
                        assert(seq![x] + rest == items.skip(i as int));
                        assert(items.skip(i as int).len() == 1 + rest.len());
                        assert(i < items.len());
                        assert((seq![x] + rest)[0] == x);
                        assert forall|jj: int| 0 <= jj < rest.len() implies (seq![x] + rest)[jj
                            + 1] == rest[jj] by {}
                        assert(items.skip(i as int)[0] == x);
                        assert(items[i as int] == x);
                        assert(rest =~= items.skip(i as int).drop_first());
                        assert(items.skip(i as int).drop_first() =~= items.skip(i as int + 1));
                        assert(items.take(i as int + 1) =~= items.take(i as int).push(
                            items[i as int],
                        ));
                    } else {
                        assert(spec_dec_list_at(buf@, p2 as int, k - 1, fd) is None);
                    }
                }
                acc.push(kv);
                proof {
                    assert(acc@.map_values(|q: (String, String)| (q.0@, q.1@)) =~= acc0.map_values(
                        |q: (String, String)| (q.0@, q.1@),
                    ).push(x));
                }
                p = p2;
                i = i + 1;
            },
        }
    }
    proof {
        if let Some((items, end)) = overall {
            lemma_dec_list_at_len(buf@, pos as int, n as int, fd, items, end);
            assert(items.take(n as int) =~= items);
        } else {
            assert(spec_dec_list_at(buf@, p as int, 0, fd) is None);
            assert(false);
        }
    }
    Some((acc, p))
}

/// Read `n` document entries one after the other.
pub fn dec_documents_list(buf: &[u8], pos: usize, n: u64) -> (r: Option<
    (Vec<(u64, Vec<u8>)>, usize),
>)
    ensures
        match r {
            Some((v, end)) => spec_dec_list_at(buf@, pos as int, n as int, spec_dec_document_fn())
                == Some((v@.map_values(|p: (u64, Vec<u8>)| (p.0, p.1@)), end as int)),
            None => spec_dec_list_at(buf@, pos as int, n as int, spec_dec_document_fn()) is None,
        },
{
    let ghost fd = spec_dec_document_fn();
    let ghost overall = spec_dec_list_at(buf@, pos as int, n as int, fd);
    let mut acc: Vec<(u64, Vec<u8>)> = Vec::new();
    let mut p: usize = pos;
    let mut i: u64 = 0;
    proof {
        if let Some((items, end)) = overall {
            lemma_dec_list_at_len(buf@, pos as int, n as int, fd, items, end);
        }
    }
    while i < n
        invariant
            i <= n,
            overall == spec_dec_list_at(buf@, pos as int, n as int, fd),
            overall matches Some(oi) ==> oi.0.len() == n as int,
            fd == spec_dec_document_fn(),
            match overall {
                Some((items, end)) => acc@.map_values(|q: (u64, Vec<u8>)| (q.0, q.1@))
                    == items.take(i as int) && spec_dec_list_at(
                    buf@,
                    p as int,
                    n as int - i as int,
                    fd,
                ) == Some((items.skip(i as int), end)),
                None => spec_dec_list_at(buf@, p as int, n as int - i as int, fd) is None,
            },
        decreases n - i,
    {
        let ghost k = n as int - i as int;
        let ghost acc0 = acc@;
        match dec_document(buf, p) {
            None => {
                proof {
                    assert(fd(buf@, p as int) is None);
                    assert(spec_dec_list_at(buf@, p as int, k, fd) is None);
                    assert(overall is None);
                }
                return None;
            },
            Some((kv, p2)) => {
                let ghost x = (kv.0, kv.1@);
                proof {
                    assert(fd(buf@, p as int) == Some((x, p2 as int)));
                    if let Some((items, end)) = overall {
                        let inner = spec_dec_list_at(buf@, p2 as int, k - 1, fd);
                        assert(inner is Some);
                        let (rest, e) = inner.unwrap();
                        assert(seq![x] + rest == items.skip(i as int));
                        assert(items.skip(i as int).len() == 1 + rest.len());
                        assert(i < items.len());
                        assert((seq![x] + rest)[0] == x);
                        assert forall|jj: int| 0 <= jj < rest.len() implies (seq![x] + rest)[jj
                            + 1] == rest[jj] by {}
                        assert(items.skip(i as int)[0] == x);
                        assert(items[i as int] == x);
                        assert(rest =~= items.skip(i as int).drop_first());
                        assert(items.skip(i as int).drop_first() =~= items.skip(i as int + 1));
                        assert(items.take(i as int + 1) =~= items.take(i as int).push(
                            items[i as int],
                        ));
                    } else {
                        assert(spec_dec_list_at(buf@, p2 as int, k - 1, fd) is None);
                    }
                }
                acc.push(kv);
                proof {
                    assert(acc@.map_values(|q: (u64, Vec<u8>)| (q.0, q.1@)) =~= acc0.map_values(
                        |q: (u64, Vec<u8>)| (q.0, q.1@),
                    ).push(x));
                }
                p = p2;
                i = i + 1;
            },
        }
    }
    proof {
        if let Some((items, end)) = overall {
            lemma_dec_list_at_len(buf@, pos as int, n as int, fd, items, end);
            assert(items.take(n as int) =~= items);
        } else {
            assert(spec_dec_list_at(buf@, p as int, 0, fd) is None);
            assert(false);
        }
    }
    Some((acc, p))
}

/// Read `n` bucket entries one after the other.
pub fn dec_buckets_list(buf: &[u8], pos: usize, n: u64) -> (r: Option<
    (Vec<((u32, u32), Vec<u64>)>, usize),
>)
    ensures
        match r {
            Some((v, end)) => spec_dec_list_at(buf@, pos as int, n as int, spec_dec_bucket_fn())
                == Some((v@.map_values(|p: ((u32, u32), Vec<u64>)| (p.0, p.1@)), end as int)),
            None => spec_dec_list_at(buf@, pos as int, n as int, spec_dec_bucket_fn()) is None,
        },
{
    let ghost fd = spec_dec_bucket_fn();
    let ghost overall = spec_dec_list_at(buf@, pos as int, n as int, fd);
    let mut acc: Vec<((u32, u32), Vec<u64>)> = Vec::new();
    let mut p: usize = pos;
    let mut i: u64 = 0;
    proof {
        if let Some((items, end)) = overall {
            lemma_dec_list_at_len(buf@, pos as int, n as int, fd, items, end);
        }
    }
    while i < n
        invariant
            i <= n,
            overall == spec_dec_list_at(buf@, pos as int, n as int, fd),
            overall matches Some(oi) ==> oi.0.len() == n as int,
            fd == spec_dec_bucket_fn(),
            match overall {
                Some((items, end)) => acc@.map_values(|q: ((u32, u32), Vec<u64>)| (q.0, q.1@))
                    == items.take(i as int) && spec_dec_list_at(
                    buf@,
                    p as int,
                    n as int - i as int,
                    fd,
                ) == Some((items.skip(i as int), end)),
                None => spec_dec_list_at(buf@, p as int, n as int - i as int, fd) is None,
            },
        decreases n - i,
    {
        let ghost k = n as int - i as int;
        let ghost acc0 = acc@;
        match dec_bucket(buf, p) {
            None => {
                proof {
                    assert(fd(buf@, p as int) is None);
                    assert(spec_dec_list_at(buf@, p as int, k, fd) is None);
                    assert(overall is None);
                }
                return None;
            },
            Some((kv, p2)) => {
                let ghost x = (kv.0, kv.1@);
                proof {
                    assert(fd(buf@, p as int) == Some((x, p2 as int)));
                    if let Some((items, end)) = overall {
                        let inner = spec_dec_list_at(buf@, p2 as int, k - 1, fd);
                        assert(inner is Some);
                        let (rest, e) = inner.unwrap();
                        assert(seq![x] + rest == items.skip(i as int));
                        assert(items.skip(i as int).len() == 1 + rest.len());
                        assert(i < items.len());
                        assert((seq![x] + rest)[0] == x);
                        assert forall|jj: int| 0 <= jj < rest.len() implies (seq![x] + rest)[jj
                            + 1] == rest[jj] by {}
                        assert(items.skip(i as int)[0] == x);
                        assert(items[i as int] == x);
                        assert(rest =~= items.skip(i as int).drop_first());
                        assert(items.skip(i as int).drop_first() =~= items.skip(i as int + 1));
                        assert(items.take(i as int + 1) =~= items.take(i as int).push(
                            items[i as int],
                        ));
                    } else {
                        assert(spec_dec_list_at(buf@, p2 as int, k - 1, fd) is None);
                    }
                }
                acc.push(kv);
                proof {
                    assert(acc@.map_values(|q: ((u32, u32), Vec<u64>)| (q.0, q.1@))
                        =~= acc0.map_values(|q: ((u32, u32), Vec<u64>)| (q.0, q.1@)).push(x));
                }
                p = p2;
                i = i + 1;
            },
        }
    }
    proof {
        if let Some((items, end)) = overall {
            lemma_dec_list_at_len(buf@, pos as int, n as int, fd, items, end);
            assert(items.take(n as int) =~= items);
        } else {
            assert(spec_dec_list_at(buf@, p as int, 0, fd) is None);
            assert(false);
        }
    }
    Some((acc, p))
}

// ---------------------------------------------------------------------------
// Canonicity: whatever the decoder accepts re-encodes to the bytes it read
// ---------------------------------------------------------------------------
/// An accepted item-list read consumed exactly those items' encodings,
/// provided every accepted single item re-encodes to the bytes it read.
pub proof fn lemma_dec_list_at_canonical<T>(
    buf: Seq<u8>,
    pos: int,
    n: int,
    fe: spec_fn(T) -> Seq<u8>,
    fd: spec_fn(Seq<u8>, int) -> Option<(T, int)>,
    items: Seq<T>,
    end: int,
)
    requires
        0 <= pos <= buf.len(),
        spec_dec_list_at(buf, pos, n, fd) == Some((items, end)),
        forall|q: int| #[trigger]
            fd(buf, q) is Some ==> {
                let (x, e) = fd(buf, q).unwrap();
                &&& 0 <= q <= e <= buf.len()
                &&& e == q + fe(x).len()
                &&& buf.subrange(q, e) == fe(x)
            },
    ensures
        pos <= end <= buf.len(),
        end == pos + spec_enc_list(items, fe).len(),
        buf.subrange(pos, end) == spec_enc_list(items, fe),
    decreases n,
{
    if n <= 0 {
        assert(buf.subrange(pos, pos) =~= spec_enc_list(items, fe));
    } else {
        let (x, p) = fd(buf, pos).unwrap();
        assert(fd(buf, pos) is Some);
        let (rest, e) = spec_dec_list_at(buf, p, n - 1, fd).unwrap();
        lemma_dec_list_at_canonical(buf, p, n - 1, fe, fd, rest, end);
        assert(items == seq![x] + rest);
        assert(items.len() > 0);
        assert(items[0] == x);
        assert(items.drop_first() =~= rest);
        assert(spec_enc_list(items, fe) == fe(x) + spec_enc_list(rest, fe));
        assert(buf.subrange(pos, end) =~= buf.subrange(pos, p) + buf.subrange(p, end));
    }
}

/// An accepted settings entry re-encodes to the bytes it read.
proof fn lemma_dec_setting_at_canonical(
    buf: Seq<u8>,
    pos: int,
    kv: (Seq<char>, Seq<char>),
    end: int,
)
    requires
        spec_dec_setting_at(buf, pos) == Some((kv, end)),
    ensures
        0 <= pos <= end <= buf.len(),
        end == pos + spec_enc_setting(kv).len(),
        buf.subrange(pos, end) == spec_enc_setting(kv),
{
    let (k, p) = spec_dec_str_at(buf, pos).unwrap();
    crate::wire::lemma_dec_str_at_canonical(buf, pos, k, p);
    crate::wire::lemma_dec_str_at_canonical(buf, p, kv.1, end);
    assert(buf.subrange(pos, end) =~= buf.subrange(pos, p) + buf.subrange(p, end));
}

/// An accepted document entry re-encodes to the bytes it read.
proof fn lemma_dec_document_at_canonical(buf: Seq<u8>, pos: int, kv: (u64, Seq<u8>), end: int)
    requires
        spec_dec_document_at(buf, pos) == Some((kv, end)),
    ensures
        0 <= pos <= end <= buf.len(),
        end == pos + spec_enc_document(kv).len(),
        buf.subrange(pos, end) == spec_enc_document(kv),
{
    let (id, p) = spec_dec_u64_at(buf, pos).unwrap();
    crate::wire::lemma_dec_u64_at_canonical(buf, pos, id, p);
    crate::wire::lemma_dec_bytes_at_canonical(buf, p, kv.1, end);
    assert(buf.subrange(pos, end) =~= buf.subrange(pos, p) + buf.subrange(p, end));
}

/// An accepted bucket entry re-encodes to the bytes it read.
proof fn lemma_dec_bucket_at_canonical(
    buf: Seq<u8>,
    pos: int,
    kv: ((u32, u32), Seq<u64>),
    end: int,
)
    requires
        spec_dec_bucket_at(buf, pos) == Some((kv, end)),
    ensures
        0 <= pos <= end <= buf.len(),
        end == pos + spec_enc_bucket(kv).len(),
        buf.subrange(pos, end) == spec_enc_bucket(kv),
{
    let (band, p1) = spec_dec_u32_at(buf, pos).unwrap();
    let (hash, p2) = spec_dec_u32_at(buf, p1).unwrap();
    let (n, p3) = spec_dec_u64_at(buf, p2).unwrap();
    crate::wire::lemma_dec_u32_at_canonical(buf, pos, band, p1);
    crate::wire::lemma_dec_u32_at_canonical(buf, p1, hash, p2);
    crate::wire::lemma_dec_u64_at_canonical(buf, p2, n, p3);
    lemma_dec_list_at_len(buf, p3, n as int, spec_dec_id_fn(), kv.1, end);
    assert forall|q: int| #[trigger]
        spec_dec_id_fn()(buf, q) is Some implies {
        let (x, e) = spec_dec_id_fn()(buf, q).unwrap();
        &&& 0 <= q <= e <= buf.len()
        &&& e == q + spec_enc_id_fn()(x).len()
        &&& buf.subrange(q, e) == spec_enc_id_fn()(x)
    } by {
        let (x, e) = spec_dec_id_fn()(buf, q).unwrap();
        crate::wire::lemma_dec_u64_at_canonical(buf, q, x, e);
    }
    lemma_dec_list_at_canonical(buf, p3, n as int, spec_enc_id_fn(), spec_dec_id_fn(), kv.1, end);
    assert((kv.1.len() as u64) == n);
    assert(buf.subrange(pos, end) =~= buf.subrange(pos, p1) + (buf.subrange(p1, p2) + (
    buf.subrange(p2, p3) + buf.subrange(p3, end))));
}

/// The settings-table decoder accepts only canonical bytes.
proof fn lemma_dec_settings_canonical(
    buf: Seq<u8>,
    pos: int,
    n: int,
    items: Seq<(Seq<char>, Seq<char>)>,
    end: int,
)
    requires
        0 <= pos <= buf.len(),
        spec_dec_list_at(buf, pos, n, spec_dec_setting_fn()) == Some((items, end)),
    ensures
        pos <= end <= buf.len(),
        end == pos + spec_enc_list(items, spec_enc_setting_fn()).len(),
        buf.subrange(pos, end) == spec_enc_list(items, spec_enc_setting_fn()),
{
    assert forall|q: int| #[trigger]
        spec_dec_setting_fn()(buf, q) is Some implies {
        let (x, e) = spec_dec_setting_fn()(buf, q).unwrap();
        &&& 0 <= q <= e <= buf.len()
        &&& e == q + spec_enc_setting_fn()(x).len()
        &&& buf.subrange(q, e) == spec_enc_setting_fn()(x)
    } by {
        let (x, e) = spec_dec_setting_fn()(buf, q).unwrap();
        lemma_dec_setting_at_canonical(buf, q, x, e);
    }
    lemma_dec_list_at_canonical(
        buf,
        pos,
        n,
        spec_enc_setting_fn(),
        spec_dec_setting_fn(),
        items,
        end,
    );
}

/// The document-table decoder accepts only canonical bytes.
proof fn lemma_dec_documents_canonical(
    buf: Seq<u8>,
    pos: int,
    n: int,
    items: Seq<(u64, Seq<u8>)>,
    end: int,
)
    requires
        0 <= pos <= buf.len(),
        spec_dec_list_at(buf, pos, n, spec_dec_document_fn()) == Some((items, end)),
    ensures
        pos <= end <= buf.len(),
        end == pos + spec_enc_list(items, spec_enc_document_fn()).len(),
        buf.subrange(pos, end) == spec_enc_list(items, spec_enc_document_fn()),
{
    assert forall|q: int| #[trigger]
        spec_dec_document_fn()(buf, q) is Some implies {
        let (x, e) = spec_dec_document_fn()(buf, q).unwrap();
        &&& 0 <= q <= e <= buf.len()
        &&& e == q + spec_enc_document_fn()(x).len()
        &&& buf.subrange(q, e) == spec_enc_document_fn()(x)
    } by {
        let (x, e) = spec_dec_document_fn()(buf, q).unwrap();
        lemma_dec_document_at_canonical(buf, q, x, e);
    }
    lemma_dec_list_at_canonical(
        buf,
        pos,
        n,
        spec_enc_document_fn(),
        spec_dec_document_fn(),
        items,
        end,
    );
}

/// The bucket-table decoder accepts only canonical bytes.
proof fn lemma_dec_buckets_canonical(
    buf: Seq<u8>,
    pos: int,
    n: int,
    items: Seq<((u32, u32), Seq<u64>)>,
    end: int,
)
    requires
        0 <= pos <= buf.len(),
        spec_dec_list_at(buf, pos, n, spec_dec_bucket_fn()) == Some((items, end)),
    ensures
        pos <= end <= buf.len(),
        end == pos + spec_enc_list(items, spec_enc_bucket_fn()).len(),
        buf.subrange(pos, end) == spec_enc_list(items, spec_enc_bucket_fn()),
{
    assert forall|q: int| #[trigger]
        spec_dec_bucket_fn()(buf, q) is Some implies {
        let (x, e) = spec_dec_bucket_fn()(buf, q).unwrap();
        &&& 0 <= q <= e <= buf.len()
        &&& e == q + spec_enc_bucket_fn()(x).len()
        &&& buf.subrange(q, e) == spec_enc_bucket_fn()(x)
    } by {
        let (x, e) = spec_dec_bucket_fn()(buf, q).unwrap();
        lemma_dec_bucket_at_canonical(buf, q, x, e);
    }
    lemma_dec_list_at_canonical(
        buf,
        pos,
        n,
        spec_enc_bucket_fn(),
        spec_dec_bucket_fn(),
        items,
        end,
    );
}

/// A decoded snapshot re-encodes to the very bytes it was decoded from:
/// the decoder accepts nothing but canonical encodings.
#[verifier::rlimit(100)]
#[verifier::spinoff_prover]
pub proof fn lemma_spec_decode_canonical(buf: Seq<u8>, v: StoreSnapshot)
    requires
        spec_decode(buf) == Some(v),
    ensures
        buf == spec_encode(v),
{
    let (last_doc_id, p1) = spec_dec_u64_at(buf, 0).unwrap();
    let (ns, p2) = spec_dec_u64_at(buf, p1).unwrap();
    let (settings, p3) = spec_dec_list_at(buf, p2, ns as int, spec_dec_setting_fn()).unwrap();
    let (nd, p4) = spec_dec_u64_at(buf, p3).unwrap();
    let (documents, p5) = spec_dec_list_at(buf, p4, nd as int, spec_dec_document_fn()).unwrap();
    let (nb, p6) = spec_dec_u64_at(buf, p5).unwrap();
    let (buckets, p7) = spec_dec_list_at(buf, p6, nb as int, spec_dec_bucket_fn()).unwrap();
    crate::wire::lemma_dec_u64_at_canonical(buf, 0, last_doc_id, p1);
    crate::wire::lemma_dec_u64_at_canonical(buf, p1, ns, p2);
    lemma_dec_settings_canonical(buf, p2, ns as int, settings, p3);
    lemma_dec_list_at_len(buf, p2, ns as int, spec_dec_setting_fn(), settings, p3);
    crate::wire::lemma_dec_u64_at_canonical(buf, p3, nd, p4);
    lemma_dec_documents_canonical(buf, p4, nd as int, documents, p5);
    lemma_dec_list_at_len(buf, p4, nd as int, spec_dec_document_fn(), documents, p5);
    crate::wire::lemma_dec_u64_at_canonical(buf, p5, nb, p6);
    lemma_dec_buckets_canonical(buf, p6, nb as int, buckets, p7);
    lemma_dec_list_at_len(buf, p6, nb as int, spec_dec_bucket_fn(), buckets, p7);
    assert((v.settings.len() as u64) == ns);
    assert((v.documents.len() as u64) == nd);
    assert((v.buckets.len() as u64) == nb);
    assert(buf.subrange(p5, p7) =~= buf.subrange(p5, p6) + buf.subrange(p6, p7));
    assert(buf.subrange(p5, p7) == spec_enc_buckets_section(v));
    assert(buf.subrange(p4, p7) =~= buf.subrange(p4, p5) + buf.subrange(p5, p7));
    assert(buf.subrange(p4, p7) == spec_enc_from_documents(v));
    assert(buf.subrange(p3, p7) =~= buf.subrange(p3, p4) + buf.subrange(p4, p7));
    assert(buf.subrange(p3, p7) == spec_enc_from_documents_count(v));
    assert(buf.subrange(p2, p7) =~= buf.subrange(p2, p3) + buf.subrange(p3, p7));
    assert(buf.subrange(p2, p7) == spec_enc_from_settings(v));
    assert(buf.subrange(p1, p7) =~= buf.subrange(p1, p2) + buf.subrange(p2, p7));
    assert(buf.subrange(p1, p7) == spec_enc_from_settings_count(v));
    assert(buf =~= buf.subrange(0, p1) + buf.subrange(p1, p7));
    assert(buf == spec_encode(v));
}

/// The first phase of decoding an encoding: counter, settings count and
/// settings table; the rest of the bytes hold the remaining sections.
#[verifier::rlimit(100)]
#[verifier::spinoff_prover]
proof fn lemma_round_trip_head(buf: Seq<u8>, v: StoreSnapshot)
    requires
        snapshot_fits(v),
        buf == spec_encode(v),
    ensures
        ({
            let se = spec_enc_list(v.settings, spec_enc_setting_fn());
            let p3: int = 16 + se.len() as int;
            &&& spec_dec_u64_at(buf, 0) == Some((v.last_doc_id, 8int))
            &&& spec_dec_u64_at(buf, 8) == Some((v.settings.len() as u64, 16int))
            &&& spec_dec_list_at(buf, 16, v.settings.len() as int, spec_dec_setting_fn())
                == Some((v.settings, p3))
            &&& p3 + spec_enc_from_documents_count(v).len() == buf.len()
            &&& buf.subrange(p3, buf.len() as int) == spec_enc_from_documents_count(v)
        }),
{
    let se = spec_enc_list(v.settings, spec_enc_setting_fn());
    assert(buf.subrange(0, buf.len() as int) =~= buf);
    lemma_prefix_split(buf, 0, spec_enc_u64(v.last_doc_id), spec_enc_from_settings_count(v));
    lemma_dec_u64_at_complete(buf, 0, v.last_doc_id);
    lemma_prefix_split(buf, 8, spec_enc_u64(v.settings.len() as u64), spec_enc_from_settings(v));
    lemma_dec_u64_at_complete(buf, 8, v.settings.len() as u64);
    lemma_prefix_split(buf, 16, se, spec_enc_from_documents_count(v));
    lemma_dec_settings_complete(buf, 16, v.settings);
}

/// The second phase of decoding an encoding: document and bucket tables,
/// ending exactly at the end of the bytes.
#[verifier::rlimit(100)]
#[verifier::spinoff_prover]
proof fn lemma_round_trip_tail(buf: Seq<u8>, v: StoreSnapshot, p3: int)
    requires
        snapshot_fits(v),
        0 <= p3,
        p3 + spec_enc_from_documents_count(v).len() == buf.len(),
        buf.subrange(p3, buf.len() as int) == spec_enc_from_documents_count(v),
    ensures
        ({
            let de = spec_enc_list(v.documents, spec_enc_document_fn());
            let p4 = p3 + 8;
            let p5 = p4 + de.len();
            let p6 = p5 + 8;
            &&& spec_dec_u64_at(buf, p3) == Some((v.documents.len() as u64, p4))
            &&& spec_dec_list_at(buf, p4, v.documents.len() as int, spec_dec_document_fn())
                == Some((v.documents, p5))
            &&& spec_dec_u64_at(buf, p5) == Some((v.buckets.len() as u64, p6))
            &&& spec_dec_list_at(buf, p6, v.buckets.len() as int, spec_dec_bucket_fn()) == Some(
                (v.buckets, buf.len() as int),
            )
        }),
{
    let de = spec_enc_list(v.documents, spec_enc_document_fn());
    let be = spec_enc_list(v.buckets, spec_enc_bucket_fn());
    lemma_prefix_split(
        buf,
        p3,
        spec_enc_u64(v.documents.len() as u64),
        spec_enc_from_documents(v),
    );
    lemma_dec_u64_at_complete(buf, p3, v.documents.len() as u64);
    let p4 = p3 + 8;
    lemma_prefix_split(buf, p4, de, spec_enc_buckets_section(v));
    lemma_dec_documents_complete(buf, p4, v.documents);
    let p5 = p4 + de.len();
    lemma_prefix_split(buf, p5, spec_enc_u64(v.buckets.len() as u64), be);
    lemma_dec_u64_at_complete(buf, p5, v.buckets.len() as u64);
    lemma_dec_buckets_complete(buf, p5 + 8, v.buckets);
}

/// Decoding an encoded snapshot restores it exactly: the snapshot format
/// is lossless for every store whose tables fit its 64-bit fields.
#[verifier::rlimit(100)]
#[verifier::spinoff_prover]
pub proof fn lemma_snapshot_round_trip(v: StoreSnapshot)
    requires
        snapshot_fits(v),
    ensures
        spec_decode(spec_encode(v)) == Some(v),
{
    let buf = spec_encode(v);
    let se = spec_enc_list(v.settings, spec_enc_setting_fn());
    let p3: int = 16 + se.len() as int;
    lemma_round_trip_head(buf, v);
    lemma_round_trip_tail(buf, v, p3);
}

} // verus!
