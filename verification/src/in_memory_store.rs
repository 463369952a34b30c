//! The in-memory storage backend for LSH: three tables (settings,
//! documents, buckets) plus the auto-assignment counter for document ids.
//!
//! Each table is held as a sequence of key/value entries with pairwise
//! distinct keys; the abstract content of a table is the map (or, for a
//! bucket, the set) those entries spell out.  Every operation's contract is
//! stated over those maps.
use vstd::prelude::*;

use crate::NarrowDownError;

verus! {

/// The contents of a store: one entry sequence per table, in storage
/// order, plus the id counter.
pub struct StoreSnapshot {
    /// String-keyed configuration entries.
    pub settings: Seq<(Seq<char>, Seq<char>)>,
    /// Document payloads keyed by document id.
    pub documents: Seq<(u64, Seq<u8>)>,
    /// Bucket membership lists keyed by (band id, band hash).
    pub buckets: Seq<((u32, u32), Seq<u64>)>,
    /// The last auto-assigned document id.
    pub last_doc_id: u64,
}

/// The map spelled out by a sequence of key/value entries; a later entry
/// wins over an earlier one with the same key.
pub open spec fn pairs_map<K, V>(s: Seq<(K, V)>) -> Map<K, V>
    decreases s.len(),
{
    if s.len() == 0 {
        Map::empty()
    } else {
        pairs_map(s.drop_last()).insert(s.last().0, s.last().1)
    }
}

/// All entry keys are pairwise distinct.
pub open spec fn distinct_keys<K, V>(s: Seq<(K, V)>) -> bool {
    forall|i: int, j: int| 0 <= i < j < s.len() ==> s[i].0 != s[j].0
}

impl StoreSnapshot {
    /// The settings table as a map.
    pub open spec fn settings_map(self) -> Map<Seq<char>, Seq<char>> {
        pairs_map(self.settings)
    }

    /// The document table as a map.
    pub open spec fn documents_map(self) -> Map<u64, Seq<u8>> {
        pairs_map(self.documents)
    }

    /// The bucket entries with each membership list read as a set.
    pub open spec fn bucket_sets(self) -> Seq<((u32, u32), Set<u64>)> {
        self.buckets.map_values(|p: ((u32, u32), Seq<u64>)| (p.0, p.1.to_set()))
    }

    /// The bucket table as a map from (band id, band hash) to the set of
    /// member document ids.
    pub open spec fn buckets_map(self) -> Map<(u32, u32), Set<u64>> {
        pairs_map(self.bucket_sets())
    }

    /// Well-formedness: distinct keys in every table and no duplicate id
    /// inside any bucket.
    pub open spec fn wf(self) -> bool {
        &&& distinct_keys(self.settings)
        &&& distinct_keys(self.documents)
        &&& distinct_keys(self.buckets)
        &&& forall|i: int| 0 <= i < self.buckets.len() ==> (#[trigger] self.buckets[i]).1.no_duplicates()
    }
}

// ---------------------------------------------------------------------------
// Facts about entry sequences and the maps they spell out
// ---------------------------------------------------------------------------
/// Dropping the last entry keeps keys distinct.
proof fn lemma_distinct_drop_last<K, V>(s: Seq<(K, V)>)
    requires
        distinct_keys(s),
        s.len() > 0,
    ensures
        distinct_keys(s.drop_last()),
{
    assert forall|i: int, j: int| 0 <= i < j < s.drop_last().len() implies s.drop_last()[i].0
        != s.drop_last()[j].0 by {
        assert(s.drop_last()[i] == s[i]);
        assert(s.drop_last()[j] == s[j]);
    }
}

/// A key is in the map exactly when some entry carries it.
pub proof fn lemma_pairs_map_contains<K, V>(s: Seq<(K, V)>, k: K)
    ensures
        pairs_map(s).contains_key(k) <==> exists|i: int| 0 <= i < s.len() && s[i].0 == k,
    decreases s.len(),
{
    if s.len() > 0 {
        let rest = s.drop_last();
        lemma_pairs_map_contains(rest, k);
        if pairs_map(s).contains_key(k) {
            if s.last().0 == k {
                assert(s[s.len() - 1].0 == k);
            } else {
                let i = choose|i: int| 0 <= i < rest.len() && rest[i].0 == k;
                assert(s[i].0 == k);
            }
        }
        if exists|i: int| 0 <= i < s.len() && s[i].0 == k {
            let i = choose|i: int| 0 <= i < s.len() && s[i].0 == k;
            if i < s.len() - 1 {
                assert(rest[i].0 == k);
            }
        }
    }
}

/// With distinct keys, the entry at `i` gives the map's value at its key.
pub proof fn lemma_pairs_map_get<K, V>(s: Seq<(K, V)>, i: int)
    requires
        distinct_keys(s),
        0 <= i < s.len(),
    ensures
        pairs_map(s).contains_key(s[i].0),
        pairs_map(s)[s[i].0] == s[i].1,
    decreases s.len(),
{
    if i == s.len() - 1 {
    } else {
        lemma_distinct_drop_last(s);
        lemma_pairs_map_get(s.drop_last(), i);
        assert(s.drop_last()[i] == s[i]);
        assert(s.last().0 != s[i].0);
    }
}

/// Replacing the value of entry `i` updates the map at that entry's key.
pub proof fn lemma_pairs_map_update<K, V>(s: Seq<(K, V)>, i: int, v: V)
    requires
        distinct_keys(s),
        0 <= i < s.len(),
    ensures
        pairs_map(s.update(i, (s[i].0, v))) == pairs_map(s).insert(s[i].0, v),
        distinct_keys(s.update(i, (s[i].0, v))),
    decreases s.len(),
{
    let k = s[i].0;
    let t = s.update(i, (k, v));
    assert forall|a: int, b: int| 0 <= a < b < t.len() implies t[a].0 != t[b].0 by {
        assert(t[a].0 == s[a].0);
        assert(t[b].0 == s[b].0);
    }
    if i == s.len() - 1 {
        assert(t.drop_last() =~= s.drop_last());
        assert(pairs_map(s.drop_last()).insert(k, s[i].1).insert(k, v) =~= pairs_map(
            s.drop_last(),
        ).insert(k, v));
    } else {
        lemma_distinct_drop_last(s);
        lemma_pairs_map_update(s.drop_last(), i, v);
        assert(s.drop_last()[i] == s[i]);
        assert(t.drop_last() =~= s.drop_last().update(i, (k, v)));
        assert(t.last() == s.last());
        let l = s.last();
        assert(l.0 != k);
        assert(pairs_map(s.drop_last()).insert(k, v).insert(l.0, l.1) =~= pairs_map(
            s.drop_last(),
        ).insert(l.0, l.1).insert(k, v));
    }
}

/// A key no entry carries maps to nothing; removing it changes nothing.
pub proof fn lemma_pairs_map_remove_absent<K, V>(s: Seq<(K, V)>, k: K)
    requires
        forall|i: int| 0 <= i < s.len() ==> (#[trigger] s[i]).0 != k,
    ensures
        pairs_map(s).remove(k) == pairs_map(s),
{
    lemma_pairs_map_contains(s, k);
    assert(pairs_map(s).remove(k) =~= pairs_map(s));
}

/// Removing entry `i` removes exactly that entry's key from the map.
pub proof fn lemma_pairs_map_remove<K, V>(s: Seq<(K, V)>, i: int)
    requires
        distinct_keys(s),
        0 <= i < s.len(),
    ensures
        pairs_map(s.remove(i)) == pairs_map(s).remove(s[i].0),
        distinct_keys(s.remove(i)),
    decreases s.len(),
{
    let k = s[i].0;
    let t = s.remove(i);
    assert forall|a: int, b: int| 0 <= a < b < t.len() implies t[a].0 != t[b].0 by {
        assert(t[a] == if a < i {
            s[a]
        } else {
            s[a + 1]
        });
        assert(t[b] == if b < i {
            s[b]
        } else {
            s[b + 1]
        });
    }
    if i == s.len() - 1 {
        assert(t =~= s.drop_last());
        lemma_distinct_drop_last(s);
        assert forall|j: int| 0 <= j < s.drop_last().len() implies (#[trigger] s.drop_last()[j]).0
            != k by {
            assert(s.drop_last()[j] == s[j]);
        }
        lemma_pairs_map_remove_absent(s.drop_last(), k);
        assert(pairs_map(s).remove(k) =~= pairs_map(s.drop_last()).insert(k, s.last().1).remove(
            k,
        ));
        assert(pairs_map(s.drop_last()).insert(k, s.last().1).remove(k) =~= pairs_map(
            s.drop_last(),
        ).remove(k));
    } else {
        lemma_distinct_drop_last(s);
        lemma_pairs_map_remove(s.drop_last(), i);
        assert(s.drop_last()[i] == s[i]);
        assert(t.drop_last() =~= s.drop_last().remove(i));
        assert(t.last() == s.last());
        let l = s.last();
        assert(l.0 != k);
        assert(pairs_map(s.drop_last()).remove(k).insert(l.0, l.1) =~= pairs_map(
            s.drop_last(),
        ).insert(l.0, l.1).remove(k));
    }
}

/// Appending an element adds it to the sequence's set of elements.
proof fn lemma_seq_push_to_set(s: Seq<u64>, x: u64)
    ensures
        s.push(x).to_set() == s.to_set().insert(x),
{
    let t = s.push(x);
    assert(t[s.len() as int] == x);
    assert forall|y: u64| t.to_set().contains(y) implies s.to_set().contains(y) || y == x by {
        let j = choose|j: int| 0 <= j < t.len() && t[j] == y;
        if j < s.len() {
            assert(s[j] == y);
        }
    }
    assert forall|y: u64| s.to_set().contains(y) implies t.to_set().contains(y) by {
        let j = choose|j: int| 0 <= j < s.len() && s[j] == y;
        assert(t[j] == y);
    }
    assert(t.to_set() =~= s.to_set().insert(x));
}

/// Removing one element of a duplicate-free sequence keeps it
/// duplicate-free.
proof fn lemma_seq_remove_no_duplicates(s: Seq<u64>, i: int)
    requires
        s.no_duplicates(),
        0 <= i < s.len(),
    ensures
        s.remove(i).no_duplicates(),
{
    let t = s.remove(i);
    assert forall|a: int, b: int| 0 <= a < b < t.len() implies t[a] != t[b] by {
        assert(t[a] == if a < i {
            s[a]
        } else {
            s[a + 1]
        });
        assert(t[b] == if b < i {
            s[b]
        } else {
            s[b + 1]
        });
    }
}

/// Removing the one occurrence of an element removes it from the
/// sequence's set of elements.
proof fn lemma_seq_remove_to_set(s: Seq<u64>, i: int)
    requires
        s.no_duplicates(),
        0 <= i < s.len(),
    ensures
        s.remove(i).to_set() == s.to_set().remove(s[i]),
{
    let t = s.remove(i);
    assert forall|x: u64| t.to_set().contains(x) implies s.to_set().contains(x) && x != s[i] by {
        let j = choose|j: int| 0 <= j < t.len() && t[j] == x;
        let k = if j < i {
            j
        } else {
            j + 1
        };
        assert(s[k] == x);
        assert(k != i);
    }
    assert forall|x: u64| s.to_set().contains(x) && x != s[i] implies t.to_set().contains(x) by {
        let k = choose|k: int| 0 <= k < s.len() && s[k] == x;
        assert(k != i);
        let j = if k < i {
            k
        } else {
            k - 1
        };
        assert(t[j] == x);
    }
    assert(t.to_set() =~= s.to_set().remove(s[i]));
}

// ---------------------------------------------------------------------------
// The abstract effect of the bucket operations
// ---------------------------------------------------------------------------
/// The bucket map after filing `id` under `key`: the bucket (empty when the
/// key is new) gains the id.
pub open spec fn bucket_after_add(m: Map<(u32, u32), Set<u64>>, key: (u32, u32), id: u64) -> Map<
    (u32, u32),
    Set<u64>,
> {
    let s = if m.contains_key(key) {
        m[key]
    } else {
        Set::empty()
    };
    m.insert(key, s.insert(id))
}

/// The bucket map after dropping `id` from the bucket under `key`; a
/// missing bucket stays missing.
pub open spec fn bucket_after_remove(m: Map<(u32, u32), Set<u64>>, key: (u32, u32), id: u64) -> Map<
    (u32, u32),
    Set<u64>,
> {
    if m.contains_key(key) {
        m.insert(key, m[key].remove(id))
    } else {
        m
    }
}

/// Filing the same id under the same key twice is the same as filing it
/// once: bucket membership has set semantics.
pub proof fn lemma_add_to_bucket_idempotent(m: Map<(u32, u32), Set<u64>>, key: (u32, u32), id: u64)
    ensures
        bucket_after_add(bucket_after_add(m, key, id), key, id) == bucket_after_add(m, key, id),
{
    let once = bucket_after_add(m, key, id);
    assert(once[key].insert(id) =~= once[key]);
    assert(bucket_after_add(once, key, id) =~= once);
}

/// What it means for `id` to be the id auto-assignment picks in a store
/// with contents `v`: the first free id strictly above the counter.
pub open spec fn is_auto_assigned_id(v: StoreSnapshot, id: u64) -> bool {
    &&& id > v.last_doc_id
    &&& !v.documents_map().contains_key(id)
    &&& forall|j: u64| v.last_doc_id < j < id ==> v.documents_map().contains_key(j)
}

/// Auto-assignment is monotone: the picked id is strictly above the
/// counter, and the counter then advances to it, so the ids of successive
/// auto-assigning inserts strictly increase and are pairwise distinct.
pub proof fn lemma_auto_assignment_monotonic(
    v1: StoreSnapshot,
    id1: u64,
    v2: StoreSnapshot,
    id2: u64,
)
    requires
        is_auto_assigned_id(v1, id1),
        v2.last_doc_id == id1,
        is_auto_assigned_id(v2, id2),
    ensures
        id1 > v1.last_doc_id,
        id2 > id1,
{
}

// ---------------------------------------------------------------------------
// The store
// ---------------------------------------------------------------------------
/// The in-memory storage backend: settings, documents and LSH buckets,
/// with insert/query/remove for each table and a whole-store snapshot.
pub struct RustMemoryStore {
    settings: Vec<(String, String)>,
    documents: Vec<(u64, Vec<u8>)>,
    buckets: Vec<((u32, u32), Vec<u64>)>,
    last_doc_id: u64,
}

impl View for RustMemoryStore {
    type V = StoreSnapshot;

    closed spec fn view(&self) -> StoreSnapshot {
        StoreSnapshot {
            settings: self.settings@.map_values(|p: (String, String)| (p.0@, p.1@)),
            documents: self.documents@.map_values(|p: (u64, Vec<u8>)| (p.0, p.1@)),
            buckets: self.buckets@.map_values(|p: ((u32, u32), Vec<u64>)| (p.0, p.1@)),
            last_doc_id: self.last_doc_id,
        }
    }
}

impl RustMemoryStore {
    /// Create an empty store; auto-assignment starts above id 0.
    pub fn new() -> (s: Self)
        ensures
            s@.wf(),
            s@.settings == Seq::<(Seq<char>, Seq<char>)>::empty(),
            s@.documents == Seq::<(u64, Seq<u8>)>::empty(),
            s@.buckets == Seq::<((u32, u32), Seq<u64>)>::empty(),
            s@.last_doc_id == 0,
    {
        let s = RustMemoryStore {
            settings: Vec::new(),
            documents: Vec::new(),
            buckets: Vec::new(),
            last_doc_id: 0,
        };
        proof {
            assert(s@.settings =~= Seq::<(Seq<char>, Seq<char>)>::empty());
            assert(s@.documents =~= Seq::<(u64, Seq<u8>)>::empty());
            assert(s@.buckets =~= Seq::<((u32, u32), Seq<u64>)>::empty());
        }
        s
    }

    /// The index of the settings entry carrying `key`, if any.
    fn find_setting(&self, key: &String) -> (r: Option<usize>)
        ensures
            match r {
                Some(i) => i < self@.settings.len() && self@.settings[i as int].0 == key@,
                None => forall|i: int|
                    0 <= i < self@.settings.len() ==> (#[trigger] self@.settings[i]).0 != key@,
            },
    {
        let mut i: usize = 0;
        while i < self.settings.len()
            invariant
                i <= self.settings.len(),
                forall|j: int| 0 <= j < i ==> (#[trigger] self@.settings[j]).0 != key@,
            decreases self.settings.len() - i,
        {
            if self.settings[i].0.eq(key) {
                return Some(i);
            }
            i = i + 1;
        }
        None
    }

    /// Insert or overwrite one configuration entry.
    pub fn insert_setting(&mut self, key: String, value: String)
        requires
            old(self)@.wf(),
        ensures
            final(self)@.wf(),
            final(self)@.settings_map() == old(self)@.settings_map().insert(key@, value@),
            final(self)@.documents == old(self)@.documents,
            final(self)@.buckets == old(self)@.buckets,
            final(self)@.last_doc_id == old(self)@.last_doc_id,
    {
        let ghost s0 = self@.settings;
        match self.find_setting(&key) {
            Some(i) => {
                proof {
                    lemma_pairs_map_update(s0, i as int, value@);
                }
                self.settings[i] = (key, value);
                proof {
                    assert(self@.settings =~= s0.update(i as int, (s0[i as int].0, value@)));
                }
            },
            None => {
                self.settings.push((key, value));
                proof {
                    assert(self@.settings =~= s0.push((key@, value@)));
                    assert(self@.settings.drop_last() =~= s0);
                    assert forall|a: int, b: int|
                        0 <= a < b < self@.settings.len() implies self@.settings[a].0
                        != self@.settings[b].0 by {
                        if b < s0.len() {
                            assert(self@.settings[a] == s0[a]);
                            assert(self@.settings[b] == s0[b]);
                        } else {
                            assert(self@.settings[a] == s0[a]);
                            assert(self@.settings[b].0 == key@);
                        }
                    }
                }
            },
        }
    }

    /// Look one configuration entry up; absent keys give `None`.
    pub fn query_setting(&self, key: String) -> (r: Option<&String>)
        requires
            self@.wf(),
        ensures
            match r {
                Some(v) => self@.settings_map().contains_key(key@) && v@
                    == self@.settings_map()[key@],
                None => !self@.settings_map().contains_key(key@),
            },
    {
        proof {
            lemma_pairs_map_contains(self@.settings, key@);
        }
        match self.find_setting(&key) {
            Some(i) => {
                proof {
                    lemma_pairs_map_get(self@.settings, i as int);
                }
                Some(&self.settings[i].1)
            },
            None => None,
        }
    }

    /// The index of the document entry carrying `document_id`, if any.
    fn find_document(&self, document_id: u64) -> (r: Option<usize>)
        ensures
            match r {
                Some(i) => i < self@.documents.len() && self@.documents[i as int].0 == document_id,
                None => forall|i: int|
                    0 <= i < self@.documents.len() ==> (#[trigger] self@.documents[i]).0
                        != document_id,
            },
    {
        let mut i: usize = 0;
        while i < self.documents.len()
            invariant
                i <= self.documents.len(),
                forall|j: int| 0 <= j < i ==> (#[trigger] self@.documents[j]).0 != document_id,
            decreases self.documents.len() - i,
        {
            if self.documents[i].0 == document_id {
                return Some(i);
            }
            i = i + 1;
        }
        None
    }

    /// How many ids at most can be taken in `(last, hi]`: the documents
    /// table is that large.
    proof fn lemma_taken_ids_bound(docs: Seq<(u64, Seq<u8>)>, last: u64, hi: u64)
        requires
            distinct_keys(docs),
            last <= hi,
            forall|j: u64| last < j <= hi ==> pairs_map(docs).contains_key(j),
        ensures
            hi - last <= docs.len(),
    {
        let keys = docs.map_values(|p: (u64, Seq<u8>)| p.0 as int);
        assert forall|a: int, b: int| 0 <= a < b < keys.len() implies keys[a] != keys[b] by {
            assert(docs[a].0 != docs[b].0);
        }
        assert(keys.no_duplicates());
        keys.unique_seq_to_set();
        let taken = vstd::set_lib::set_int_range(last + 1, hi + 1);
        vstd::set_lib::lemma_int_range(last + 1, hi + 1);
        assert forall|j: int| taken.contains(j) implies keys.to_set().contains(j) by {
            let ju = j as u64;
            assert(pairs_map(docs).contains_key(ju));
            lemma_pairs_map_contains(docs, ju);
            let i = choose|i: int| 0 <= i < docs.len() && docs[i].0 == ju;
            assert(keys[i] == j);
            assert(keys.to_set().contains(keys[i]));
        }
        vstd::set_lib::lemma_len_subset(taken, keys.to_set());
    }

    /// Insert a document payload.
    ///
    /// With an explicit id any payload already at that id is silently
    /// overwritten and the auto-assignment counter is untouched.  Without
    /// one, the first free id strictly above the counter is assigned and
    /// the counter advances to it.
    pub fn insert_document(&mut self, document: Vec<u8>, document_id: Option<u64>) -> (r: u64)
        requires
            old(self)@.wf(),
            document_id is None ==> old(self)@.last_doc_id + old(self)@.documents.len()
                < u64::MAX,
        ensures
            final(self)@.wf(),
            final(self)@.settings == old(self)@.settings,
            final(self)@.buckets == old(self)@.buckets,
            final(self)@.documents_map() == old(self)@.documents_map().insert(r, document@),
            final(self)@.documents.len() <= old(self)@.documents.len() + 1,
            match document_id {
                Some(id) => r == id && final(self)@.last_doc_id == old(self)@.last_doc_id,
                None => is_auto_assigned_id(old(self)@, r) && final(self)@.last_doc_id == r,
            },
    {
        match document_id {
            Some(id) => {
                self.insert_document_at(id, document);
                id
            },
            None => {
                let ghost v0 = self@;
                let mut id: u64 = self.last_doc_id + 1;
                let mut free = self.find_document(id).is_none();
                proof {
                    lemma_pairs_map_contains(v0.documents, id);
                }
                while !free
                    invariant
                        self == old(self),
                        v0 == self@,
                        v0.wf(),
                        v0.last_doc_id + v0.documents.len() < u64::MAX,
                        v0.last_doc_id < id,
                        forall|j: u64| v0.last_doc_id < j < id ==> v0.documents_map().contains_key(
                            j,
                        ),
                        free == !v0.documents_map().contains_key(id),
                        id <= v0.last_doc_id + v0.documents.len() + 1,
                    decreases v0.last_doc_id + v0.documents.len() + 1 - id,
                {
                    proof {
                        assert forall|j: u64|
                            v0.last_doc_id < j <= id implies v0.documents_map().contains_key(
                            j,
                        ) by {}
                        Self::lemma_taken_ids_bound(v0.documents, v0.last_doc_id, id);
                    }
                    id = id + 1;
                    free = self.find_document(id).is_none();
                    proof {
                        lemma_pairs_map_contains(v0.documents, id);
                    }
                }
                self.last_doc_id = id;
                self.insert_document_at(id, document);
                id
            },
        }
    }

    /// Place `document` at `id`, overwriting any entry already there.
    fn insert_document_at(&mut self, id: u64, document: Vec<u8>)
        requires
            old(self)@.wf(),
        ensures
            final(self)@.wf(),
            final(self)@.settings == old(self)@.settings,
            final(self)@.buckets == old(self)@.buckets,
            final(self)@.last_doc_id == old(self)@.last_doc_id,
            final(self)@.documents_map() == old(self)@.documents_map().insert(id, document@),
            final(self)@.documents.len() <= old(self)@.documents.len() + 1,
    {
        let ghost s0 = self@.documents;
        match self.find_document(id) {
            Some(i) => {
                proof {
                    lemma_pairs_map_update(s0, i as int, document@);
                }
                self.documents[i] = (id, document);
                proof {
                    assert(self@.documents =~= s0.update(i as int, (s0[i as int].0, document@)));
                }
            },
            None => {
                self.documents.push((id, document));
                proof {
                    assert(self@.documents =~= s0.push((id, document@)));
                    assert(self@.documents.drop_last() =~= s0);
                    assert forall|a: int, b: int|
                        0 <= a < b < self@.documents.len() implies self@.documents[a].0
                        != self@.documents[b].0 by {
                        if b < s0.len() {
                            assert(self@.documents[a] == s0[a]);
                            assert(self@.documents[b] == s0[b]);
                        } else {
                            assert(self@.documents[a] == s0[a]);
                            assert(self@.documents[b].0 == id);
                        }
                    }
                }
            },
        }
    }

    /// Look a document up by id; absent ids give `None`.
    pub fn query_document(&self, document_id: u64) -> (r: Option<&Vec<u8>>)
        requires
            self@.wf(),
        ensures
            match r {
                Some(b) => self@.documents_map().contains_key(document_id) && b@
                    == self@.documents_map()[document_id],
                None => !self@.documents_map().contains_key(document_id),
            },
    {
        proof {
            lemma_pairs_map_contains(self@.documents, document_id);
        }
        match self.find_document(document_id) {
            Some(i) => {
                proof {
                    lemma_pairs_map_get(self@.documents, i as int);
                }
                Some(&self.documents[i].1)
            },
            None => None,
        }
    }

    /// Remove a document; removing an absent id is a no-op.  Bucket
    /// memberships are not cascaded: callers drop them explicitly with
    /// `remove_id_from_bucket`, and the id counter never moves back.
    pub fn remove_document(&mut self, document_id: u64)
        requires
            old(self)@.wf(),
        ensures
            final(self)@.wf(),
            final(self)@.settings == old(self)@.settings,
            final(self)@.buckets == old(self)@.buckets,
            final(self)@.last_doc_id == old(self)@.last_doc_id,
            final(self)@.documents_map() == old(self)@.documents_map().remove(document_id),
            final(self)@.documents.len() <= old(self)@.documents.len(),
    {
        let ghost s0 = self@.documents;
        match self.find_document(document_id) {
            Some(i) => {
                proof {
                    lemma_pairs_map_remove(s0, i as int);
                }
                self.documents.remove(i);
                proof {
                    assert(self@.documents =~= s0.remove(i as int));
                }
            },
            None => {
                proof {
                    lemma_pairs_map_remove_absent(s0, document_id);
                }
            },
        }
    }

    /// The index of the bucket entry for `key`, if any.
    fn find_bucket(&self, bucket_id: u32, document_hash: u32) -> (r: Option<usize>)
        ensures
            match r {
                Some(i) => i < self@.buckets.len() && self@.buckets[i as int].0 == (
                bucket_id,
                document_hash,
                ),
                None => forall|i: int|
                    0 <= i < self@.buckets.len() ==> (#[trigger] self@.buckets[i]).0 != (
                    bucket_id,
                    document_hash,
                    ),
            },
    {
        let mut i: usize = 0;
        while i < self.buckets.len()
            invariant
                i <= self.buckets.len(),
                forall|j: int|
                    0 <= j < i ==> (#[trigger] self@.buckets[j]).0 != (bucket_id, document_hash),
            decreases self.buckets.len() - i,
        {
            if self.buckets[i].0.0 == bucket_id && self.buckets[i].0.1 == document_hash {
                return Some(i);
            }
            i = i + 1;
        }
        None
    }

    /// Whether `id` occurs in the id list of bucket entry `i`.
    fn bucket_contains_id(&self, i: usize, id: u64) -> (r: bool)
        requires
            i < self@.buckets.len(),
        ensures
            r == self@.buckets[i as int].1.contains(id),
    {
        let ids = &self.buckets[i].1;
        let mut j: usize = 0;
        while j < ids.len()
            invariant
                j <= ids.len(),
                i < self@.buckets.len(),
                ids@ == self@.buckets[i as int].1,
                forall|p: int| 0 <= p < j ==> ids@[p] != id,
            decreases ids.len() - j,
        {
            if ids[j] == id {
                return true;
            }
            j = j + 1;
        }
        false
    }

    /// File `document_id` under bucket `(bucket_id, document_hash)`,
    /// creating the bucket if absent; filing an id twice is a no-op.
    pub fn add_document_to_bucket(&mut self, bucket_id: u32, document_hash: u32, document_id: u64)
        requires
            old(self)@.wf(),
        ensures
            final(self)@.wf(),
            final(self)@.settings == old(self)@.settings,
            final(self)@.documents == old(self)@.documents,
            final(self)@.last_doc_id == old(self)@.last_doc_id,
            final(self)@.buckets_map() == bucket_after_add(
                old(self)@.buckets_map(),
                (bucket_id, document_hash),
                document_id,
            ),
    {
        let ghost key = (bucket_id, document_hash);
        let ghost b0 = self@.buckets;
        let ghost m0 = self@.buckets_map();
        match self.find_bucket(bucket_id, document_hash) {
            Some(i) => {
                proof {
                    lemma_pairs_map_get(self@.bucket_sets(), i as int);
                    assert(self@.bucket_sets()[i as int] == (key, b0[i as int].1.to_set()));
                    assert(m0[key] == b0[i as int].1.to_set());
                }
                if self.bucket_contains_id(i, document_id) {
                    proof {
                        assert(m0[key].contains(document_id));
                        assert(m0[key].insert(document_id) =~= m0[key]);
                        lemma_pairs_map_get(self@.bucket_sets(), i as int);
                        assert(m0.insert(key, m0[key]) =~= m0);
                        assert(final(self)@.buckets_map() == m0);
                    }
                } else {
                    let ghost ids0 = b0[i as int].1;
                    self.buckets[i].1.push(document_id);
                    proof {
                        assert(self@.buckets =~= b0.update(
                            i as int,
                            (key, ids0.push(document_id)),
                        ));
                        assert(self@.bucket_sets() =~= self@.buckets.map_values(
                            |p: ((u32, u32), Seq<u64>)| (p.0, p.1.to_set()),
                        ));
                        assert(self@.bucket_sets() =~= old(self)@.bucket_sets().update(
                            i as int,
                            (key, ids0.push(document_id).to_set()),
                        ));
                        lemma_seq_push_to_set(ids0, document_id);
                        lemma_pairs_map_update(
                            old(self)@.bucket_sets(),
                            i as int,
                            ids0.to_set().insert(document_id),
                        );
                        assert(old(self)@.bucket_sets()[i as int].0 == key);
                        // distinct keys and no duplicate ids are kept
                        assert forall|a: int, b: int|
                            0 <= a < b < self@.buckets.len() implies self@.buckets[a].0
                            != self@.buckets[b].0 by {
                            assert(self@.buckets[a].0 == b0[a].0);
                            assert(self@.buckets[b].0 == b0[b].0);
                        }
                        assert forall|p: int|
                            0 <= p < self@.buckets.len() implies (#[trigger] self@.buckets[p]).1.no_duplicates() by {
                            if p == i {
                                assert(!ids0.contains(document_id));
                                assert(self@.buckets[p].1 == ids0.push(document_id));
                            } else {
                                assert(self@.buckets[p].1 == b0[p].1);
                            }
                        }
                    }
                }
            },
            None => {
                let mut new_ids: Vec<u64> = Vec::new();
                new_ids.push(document_id);
                let ghost ids_view = new_ids@;
                self.buckets.push(((bucket_id, document_hash), new_ids));
                proof {
                    assert(self@.buckets =~= b0.push((key, ids_view)));
                    assert(self@.bucket_sets() =~= old(self)@.bucket_sets().push(
                        (key, ids_view.to_set()),
                    ));
                    assert(self@.bucket_sets().drop_last() =~= old(self)@.bucket_sets());
                    lemma_pairs_map_contains(old(self)@.bucket_sets(), key);
                    assert forall|j: int|
                        0 <= j < old(self)@.bucket_sets().len() implies (
                        #[trigger] old(self)@.bucket_sets()[j]).0 != key by {
                        assert(old(self)@.bucket_sets()[j].0 == b0[j].0);
                    }
                    assert(!m0.contains_key(key));
                    assert(ids_view =~= Seq::<u64>::empty().push(document_id));
                    lemma_seq_push_to_set(Seq::<u64>::empty(), document_id);
                    assert(Seq::<u64>::empty().to_set() =~= Set::<u64>::empty());
                    assert(ids_view.to_set() == Set::<u64>::empty().insert(document_id));
                    assert forall|a: int, b: int|
                        0 <= a < b < self@.buckets.len() implies self@.buckets[a].0
                        != self@.buckets[b].0 by {
                        if b < b0.len() {
                            assert(self@.buckets[a].0 == b0[a].0);
                            assert(self@.buckets[b].0 == b0[b].0);
                        } else {
                            assert(self@.buckets[a].0 == b0[a].0);
                            assert(self@.buckets[b].0 == key);
                        }
                    }
                    assert forall|p: int|
                        0 <= p < self@.buckets.len() implies (#[trigger] self@.buckets[p]).1.no_duplicates() by {
                        if p < b0.len() {
                            assert(self@.buckets[p].1 == b0[p].1);
                        } else {
                            assert(self@.buckets[p].1 == ids_view);
                        }
                    }
                }
            },
        }
    }

    /// The ids filed under a bucket, each exactly once, in no promised
    /// order; an absent bucket gives the empty list.
    pub fn query_ids_from_bucket(&self, bucket_id: u32, document_hash: u32) -> (r: Vec<u64>)
        requires
            self@.wf(),
        ensures
            r@.no_duplicates(),
            r@.to_set() == if self@.buckets_map().contains_key((bucket_id, document_hash)) {
                self@.buckets_map()[(bucket_id, document_hash)]
            } else {
                Set::<u64>::empty()
            },
    {
        let ghost key = (bucket_id, document_hash);
        proof {
            lemma_pairs_map_contains(self@.bucket_sets(), key);
        }
        match self.find_bucket(bucket_id, document_hash) {
            Some(i) => {
                proof {
                    lemma_pairs_map_get(self@.bucket_sets(), i as int);
                    assert(self@.bucket_sets()[i as int].0 == key);
                }
                let ids = &self.buckets[i].1;
                let mut out: Vec<u64> = Vec::new();
                let mut j: usize = 0;
                while j < ids.len()
                    invariant
                        j <= ids.len(),
                        ids@ == self@.buckets[i as int].1,
                        i < self@.buckets.len(),
                        out@ == self@.buckets[i as int].1.take(j as int),
                    decreases ids.len() - j,
                {
                    out.push(ids[j]);
                    proof {
                        assert(self@.buckets[i as int].1.take(j + 1) =~= self@.buckets[
                            i as int].1.take(j as int).push(ids@[j as int]));
                    }
                    j = j + 1;
                }
                proof {
                    assert(self@.buckets[i as int].1.take(ids@.len() as int) =~= self@.buckets[
                        i as int].1);
                    assert(self@.bucket_sets()[i as int].1 == self@.buckets[i as int].1.to_set());
                }
                out
            },
            None => {
                proof {
                    assert forall|j: int|
                        0 <= j < self@.bucket_sets().len() implies (
                        #[trigger] self@.bucket_sets()[j]).0 != key by {
                        assert(self@.bucket_sets()[j].0 == self@.buckets[j].0);
                    }
                    assert(!self@.buckets_map().contains_key(key));
                    assert(Seq::<u64>::empty().to_set() =~= Set::<u64>::empty());
                }
                Vec::new()
            },
        }
    }

    /// Drop `document_id` from bucket `(bucket_id, document_hash)`; a
    /// missing bucket or id is a no-op.
    pub fn remove_id_from_bucket(&mut self, bucket_id: u32, document_hash: u32, document_id: u64)
        requires
            old(self)@.wf(),
        ensures
            final(self)@.wf(),
            final(self)@.settings == old(self)@.settings,
            final(self)@.documents == old(self)@.documents,
            final(self)@.last_doc_id == old(self)@.last_doc_id,
            final(self)@.buckets_map() == bucket_after_remove(
                old(self)@.buckets_map(),
                (bucket_id, document_hash),
                document_id,
            ),
    {
        let ghost key = (bucket_id, document_hash);
        let ghost b0 = self@.buckets;
        let ghost m0 = self@.buckets_map();
        match self.find_bucket(bucket_id, document_hash) {
            Some(i) => {
                proof {
                    lemma_pairs_map_get(self@.bucket_sets(), i as int);
                    assert(self@.bucket_sets()[i as int].0 == key);
                    assert(m0.contains_key(key));
                    assert(m0[key] == b0[i as int].1.to_set());
                }
                let ghost ids0 = b0[i as int].1;
                let mut j: usize = 0;
                let n = self.buckets[i].1.len();
                let mut found: Option<usize> = None;
                while j < n
                    invariant
                        j <= n,
                        i < self@.buckets.len(),
                        self == old(self),
                        n == self@.buckets[i as int].1.len(),
                        ids0 == self@.buckets[i as int].1,
                        match found {
                            Some(p) => p < n && ids0[p as int] == document_id,
                            None => forall|p: int| 0 <= p < j ==> ids0[p] != document_id,
                        },
                    decreases n - j,
                {
                    if found.is_none() && self.buckets[i].1[j] == document_id {
                        found = Some(j);
                    }
                    j = j + 1;
                }
                match found {
                    Some(p) => {
                        self.buckets[i].1.remove(p);
                        proof {
                            let ids1 = ids0.remove(p as int);
                            assert(self@.buckets =~= b0.update(i as int, (key, ids1)));
                            assert(self@.bucket_sets() =~= old(self)@.bucket_sets().update(
                                i as int,
                                (key, ids1.to_set()),
                            ));
                            assert(ids0.no_duplicates());
                            lemma_seq_remove_to_set(ids0, p as int);
                            assert(ids1.to_set() =~= ids0.to_set().remove(document_id));
                            lemma_pairs_map_update(
                                old(self)@.bucket_sets(),
                                i as int,
                                ids1.to_set(),
                            );
                            assert forall|a: int, b: int|
                                0 <= a < b < self@.buckets.len() implies self@.buckets[a].0
                                != self@.buckets[b].0 by {
                                assert(self@.buckets[a].0 == b0[a].0);
                                assert(self@.buckets[b].0 == b0[b].0);
                            }
                            assert forall|q: int|
                                0 <= q < self@.buckets.len() implies (
                                #[trigger] self@.buckets[q]).1.no_duplicates() by {
                                if q == i {
                                    lemma_seq_remove_no_duplicates(ids0, p as int);
                                } else {
                                    assert(self@.buckets[q].1 == b0[q].1);
                                }
                            }
                        }
                    },
                    None => {
                        proof {
                            assert(!ids0.contains(document_id));
                            assert(ids0.to_set().remove(document_id) =~= ids0.to_set());
                            assert(m0.insert(key, m0[key]) =~= m0);
                        }
                    },
                }
            },
            None => {
                proof {
                    lemma_pairs_map_contains(self@.bucket_sets(), key);
                    assert forall|j: int|
                        0 <= j < self@.bucket_sets().len() implies (
                        #[trigger] self@.bucket_sets()[j]).0 != key by {
                        assert(self@.bucket_sets()[j].0 == self@.buckets[j].0);
                    }
                    assert(!m0.contains_key(key));
                }
            },
        }
    }

    /// The last auto-assigned document id; 0 before any auto-assignment.
    pub fn last_assigned_id(&self) -> (r: u64)
        ensures
            r == self@.last_doc_id,
    {
        self.last_doc_id
    }

    /// How many documents the store holds.
    pub fn document_count(&self) -> (r: usize)
        ensures
            r == self@.documents.len(),
    {
        self.documents.len()
    }

    /// The settings entries, in storage order.
    pub fn settings_entries(&self) -> (r: &Vec<(String, String)>)
        ensures
            r@.map_values(|p: (String, String)| (p.0@, p.1@)) == self@.settings,
    {
        &self.settings
    }

    /// Serialize the whole store into its binary snapshot format.
    ///
    /// The snapshot is lossless: by
    /// [`crate::snapshot_codec::lemma_snapshot_round_trip`], `deserialize`
    /// restores from these bytes a store with exactly the same settings,
    /// documents, buckets and id counter.
    pub fn serialize(&self) -> (r: Vec<u8>)
        ensures
            r@ == crate::snapshot_codec::spec_encode(self@),
            crate::snapshot_codec::snapshot_fits(self@),
    {
        let ghost snap = self@;
        let mut out: Vec<u8> = Vec::new();
        crate::wire::enc_u64(&mut out, self.last_doc_id);
        crate::wire::enc_u64(&mut out, self.settings.len() as u64);
        let ghost h_settings = out@;
        let mut i: usize = 0;
        while i < self.settings.len()
            invariant
                i <= self.settings.len(),
                snap == self@,
                out@ == h_settings + crate::snapshot_codec::spec_enc_list(
                    snap.settings.take(i as int),
                    crate::snapshot_codec::spec_enc_setting_fn(),
                ),
                forall|j: int|
                    0 <= j < i ==> vstd::utf8::encode_utf8(
                        (#[trigger] snap.settings[j]).0,
                    ).len() <= u64::MAX && vstd::utf8::encode_utf8(snap.settings[j].1).len()
                        <= u64::MAX,
            decreases self.settings.len() - i,
        {
            let ghost o0 = out@;
            crate::wire::enc_str(&mut out, self.settings[i].0.as_str());
            crate::wire::enc_str(&mut out, self.settings[i].1.as_str());
            proof {
                assert(snap.settings[i as int] == (
                    self.settings@[i as int].0@,
                    self.settings@[i as int].1@,
                ));
                assert(out@ =~= o0 + crate::snapshot_codec::spec_enc_setting(
                    snap.settings[i as int],
                ));
                crate::snapshot_codec::lemma_enc_list_take_step(
                    snap.settings,
                    i as int,
                    crate::snapshot_codec::spec_enc_setting_fn(),
                );
                assert(out@ =~= h_settings + crate::snapshot_codec::spec_enc_list(
                    snap.settings.take(i as int + 1),
                    crate::snapshot_codec::spec_enc_setting_fn(),
                ));
            }
            i = i + 1;
        }
        proof {
            assert(snap.settings.take(snap.settings.len() as int) =~= snap.settings);
        }
        crate::wire::enc_u64(&mut out, self.documents.len() as u64);
        let ghost h_documents = out@;
        let mut i: usize = 0;
        while i < self.documents.len()
            invariant
                i <= self.documents.len(),
                snap == self@,
                out@ == h_documents + crate::snapshot_codec::spec_enc_list(
                    snap.documents.take(i as int),
                    crate::snapshot_codec::spec_enc_document_fn(),
                ),
                forall|j: int|
                    0 <= j < i ==> (#[trigger] snap.documents[j]).1.len() <= u64::MAX,
            decreases self.documents.len() - i,
        {
            let ghost o0 = out@;
            crate::wire::enc_u64(&mut out, self.documents[i].0);
            crate::wire::enc_bytes(&mut out, self.documents[i].1.as_slice());
            proof {
                assert(snap.documents[i as int] == (
                    self.documents@[i as int].0,
                    self.documents@[i as int].1@,
                ));
                assert(out@ =~= o0 + crate::snapshot_codec::spec_enc_document(
                    snap.documents[i as int],
                ));
                crate::snapshot_codec::lemma_enc_list_take_step(
                    snap.documents,
                    i as int,
                    crate::snapshot_codec::spec_enc_document_fn(),
                );
                assert(out@ =~= h_documents + crate::snapshot_codec::spec_enc_list(
                    snap.documents.take(i as int + 1),
                    crate::snapshot_codec::spec_enc_document_fn(),
                ));
            }
            i = i + 1;
        }
        proof {
            assert(snap.documents.take(snap.documents.len() as int) =~= snap.documents);
        }
        crate::wire::enc_u64(&mut out, self.buckets.len() as u64);
        let ghost h_buckets = out@;
        let mut i: usize = 0;
        while i < self.buckets.len()
            invariant
                i <= self.buckets.len(),
                snap == self@,
                out@ == h_buckets + crate::snapshot_codec::spec_enc_list(
                    snap.buckets.take(i as int),
                    crate::snapshot_codec::spec_enc_bucket_fn(),
                ),
                forall|j: int| 0 <= j < i ==> (#[trigger] snap.buckets[j]).1.len() <= u64::MAX,
            decreases self.buckets.len() - i,
        {
            let ghost o0 = out@;
            let ghost ids_view = snap.buckets[i as int].1;
            crate::wire::enc_u32(&mut out, self.buckets[i].0.0);
            crate::wire::enc_u32(&mut out, self.buckets[i].0.1);
            crate::wire::enc_u64(&mut out, self.buckets[i].1.len() as u64);
            let ghost h_ids = out@;
            let mut j: usize = 0;
            while j < self.buckets[i].1.len()
                invariant
                    j <= ids_view.len(),
                    i < self.buckets@.len(),
                    snap == self@,
                    ids_view == snap.buckets[i as int].1,
                    ids_view == self.buckets@[i as int].1@,
                    out@ == h_ids + crate::snapshot_codec::spec_enc_list(
                        ids_view.take(j as int),
                        crate::snapshot_codec::spec_enc_id_fn(),
                    ),
                decreases ids_view.len() - j,
            {
                crate::wire::enc_u64(&mut out, self.buckets[i].1[j]);
                proof {
                    crate::snapshot_codec::lemma_enc_list_take_step(
                        ids_view,
                        j as int,
                        crate::snapshot_codec::spec_enc_id_fn(),
                    );
                    assert(out@ =~= h_ids + crate::snapshot_codec::spec_enc_list(
                        ids_view.take(j as int + 1),
                        crate::snapshot_codec::spec_enc_id_fn(),
                    ));
                }
                j = j + 1;
            }
            proof {
                assert(ids_view.take(ids_view.len() as int) =~= ids_view);
                assert(snap.buckets[i as int] == (self.buckets@[i as int].0, ids_view));
                assert(out@ =~= o0 + crate::snapshot_codec::spec_enc_bucket(
                    snap.buckets[i as int],
                ));
                crate::snapshot_codec::lemma_enc_list_take_step(
                    snap.buckets,
                    i as int,
                    crate::snapshot_codec::spec_enc_bucket_fn(),
                );
                assert(out@ =~= h_buckets + crate::snapshot_codec::spec_enc_list(
                    snap.buckets.take(i as int + 1),
                    crate::snapshot_codec::spec_enc_bucket_fn(),
                ));
            }
            i = i + 1;
        }
        proof {
            assert(snap.buckets.take(snap.buckets.len() as int) =~= snap.buckets);
            assert(out@ =~= crate::snapshot_codec::spec_encode(snap));
        }
        out
    }

    /// Restore a store from its binary snapshot format.  Truncated or
    /// corrupt bytes, trailing garbage, repeated keys, or a repeated id in
    /// a bucket are malformed input, reported as an error.
    pub fn deserialize(data: &[u8]) -> (r: Result<RustMemoryStore, NarrowDownError>)
        ensures
            match r {
                Ok(s) => s@.wf() && crate::snapshot_codec::spec_decode(data@) == Some(s@)
                    && data@ == crate::snapshot_codec::spec_encode(s@),
                Err(e) => e == NarrowDownError::MalformedInput && match crate::snapshot_codec::spec_decode(
                    data@,
                ) {
                    Some(v) => !v.wf(),
                    None => true,
                },
            },
    {
        let (last_doc_id, p1) = match crate::wire::dec_u64(data, 0) {
            None => {
                return Err(NarrowDownError::MalformedInput);
            },
            Some(x) => x,
        };
        let (ns, p2) = match crate::wire::dec_u64(data, p1) {
            None => {
                return Err(NarrowDownError::MalformedInput);
            },
            Some(x) => x,
        };
        let (settings, p3) = match crate::snapshot_codec::dec_settings_list(data, p2, ns) {
            None => {
                return Err(NarrowDownError::MalformedInput);
            },
            Some(x) => x,
        };
        let (nd, p4) = match crate::wire::dec_u64(data, p3) {
            None => {
                return Err(NarrowDownError::MalformedInput);
            },
            Some(x) => x,
        };
        let (documents, p5) = match crate::snapshot_codec::dec_documents_list(data, p4, nd) {
            None => {
                return Err(NarrowDownError::MalformedInput);
            },
            Some(x) => x,
        };
        let (nb, p6) = match crate::wire::dec_u64(data, p5) {
            None => {
                return Err(NarrowDownError::MalformedInput);
            },
            Some(x) => x,
        };
        let (buckets, p7) = match crate::snapshot_codec::dec_buckets_list(data, p6, nb) {
            None => {
                return Err(NarrowDownError::MalformedInput);
            },
            Some(x) => x,
        };
        if p7 != data.len() {
            return Err(NarrowDownError::MalformedInput);
        }
        if !Self::settings_keys_distinct(&settings) {
            return Err(NarrowDownError::MalformedInput);
        }
        if !Self::documents_keys_distinct(&documents) {
            return Err(NarrowDownError::MalformedInput);
        }
        if !Self::buckets_keys_distinct(&buckets) {
            return Err(NarrowDownError::MalformedInput);
        }
        if !Self::buckets_ids_distinct(&buckets) {
            return Err(NarrowDownError::MalformedInput);
        }
        let s = RustMemoryStore { settings, documents, buckets, last_doc_id };
        proof {
            crate::snapshot_codec::lemma_spec_decode_canonical(data@, s@);
        }
        Ok(s)
    }

    /// Whether the keys of a decoded settings table are pairwise distinct.
    fn settings_keys_distinct(v: &Vec<(String, String)>) -> (r: bool)
        ensures
            r == distinct_keys(v@.map_values(|p: (String, String)| (p.0@, p.1@))),
    {
        let ghost s = v@.map_values(|p: (String, String)| (p.0@, p.1@));
        let mut i: usize = 0;
        while i < v.len()
            invariant
                i <= v.len(),
                s == v@.map_values(|p: (String, String)| (p.0@, p.1@)),
                forall|a: int, b: int| 0 <= a < b < s.len() && a < i ==> s[a].0 != s[b].0,
            decreases v.len() - i,
        {
            let mut j: usize = i + 1;
            while j < v.len()
                invariant
                    i < v.len(),
                    i < j <= v.len(),
                    s == v@.map_values(|p: (String, String)| (p.0@, p.1@)),
                    forall|b: int| i < b < j ==> s[i as int].0 != s[b].0,
                decreases v.len() - j,
            {
                if v[j].0.eq(&v[i].0) {
                    proof {
                        assert(s[j as int].0 == s[i as int].0);
                    }
                    return false;
                }
                j = j + 1;
            }
            i = i + 1;
        }
        true
    }

    /// Whether the ids of a decoded document table are pairwise distinct.
    fn documents_keys_distinct(v: &Vec<(u64, Vec<u8>)>) -> (r: bool)
        ensures
            r == distinct_keys(v@.map_values(|p: (u64, Vec<u8>)| (p.0, p.1@))),
    {
        let ghost s = v@.map_values(|p: (u64, Vec<u8>)| (p.0, p.1@));
        let mut i: usize = 0;
        while i < v.len()
            invariant
                i <= v.len(),
                s == v@.map_values(|p: (u64, Vec<u8>)| (p.0, p.1@)),
                forall|a: int, b: int| 0 <= a < b < s.len() && a < i ==> s[a].0 != s[b].0,
            decreases v.len() - i,
        {
            let mut j: usize = i + 1;
            while j < v.len()
                invariant
                    i < v.len(),
                    i < j <= v.len(),
                    s == v@.map_values(|p: (u64, Vec<u8>)| (p.0, p.1@)),
                    forall|b: int| i < b < j ==> s[i as int].0 != s[b].0,
                decreases v.len() - j,
            {
                if v[j].0 == v[i].0 {
                    proof {
                        assert(s[j as int].0 == s[i as int].0);
                    }
                    return false;
                }
                j = j + 1;
            }
            i = i + 1;
        }
        true
    }

    /// Whether the keys of a decoded bucket table are pairwise distinct.
    fn buckets_keys_distinct(v: &Vec<((u32, u32), Vec<u64>)>) -> (r: bool)
        ensures
            r == distinct_keys(v@.map_values(|p: ((u32, u32), Vec<u64>)| (p.0, p.1@))),
    {
        let ghost s = v@.map_values(|p: ((u32, u32), Vec<u64>)| (p.0, p.1@));
        let mut i: usize = 0;
        while i < v.len()
            invariant
                i <= v.len(),
                s == v@.map_values(|p: ((u32, u32), Vec<u64>)| (p.0, p.1@)),
                forall|a: int, b: int| 0 <= a < b < s.len() && a < i ==> s[a].0 != s[b].0,
            decreases v.len() - i,
        {
            let mut j: usize = i + 1;
            while j < v.len()
                invariant
                    i < v.len(),
                    i < j <= v.len(),
                    s == v@.map_values(|p: ((u32, u32), Vec<u64>)| (p.0, p.1@)),
                    forall|b: int| i < b < j ==> s[i as int].0 != s[b].0,
                decreases v.len() - j,
            {
                if v[j].0.0 == v[i].0.0 && v[j].0.1 == v[i].0.1 {
                    proof {
                        assert(s[j as int].0 == s[i as int].0);
                    }
                    return false;
                }
                j = j + 1;
            }
            i = i + 1;
        }
        true
    }

    /// Whether one id list is free of duplicates.
    fn ids_distinct(ids: &Vec<u64>) -> (r: bool)
        ensures
            r == ids@.no_duplicates(),
    {
        let mut i: usize = 0;
        while i < ids.len()
            invariant
                i <= ids.len(),
                forall|a: int, b: int| 0 <= a < b < ids@.len() && a < i ==> ids@[a] != ids@[b],
            decreases ids.len() - i,
        {
            let mut j: usize = i + 1;
            while j < ids.len()
                invariant
                    i < ids.len(),
                    i < j <= ids.len(),
                    forall|b: int| i < b < j ==> ids@[i as int] != ids@[b],
                decreases ids.len() - j,
            {
                if ids[j] == ids[i] {
                    return false;
                }
                j = j + 1;
            }
            i = i + 1;
        }
        true
    }

    /// Whether every bucket of a decoded bucket table is free of duplicate
    /// ids.
    fn buckets_ids_distinct(v: &Vec<((u32, u32), Vec<u64>)>) -> (r: bool)
        ensures
            r == ({
                let s = v@.map_values(|p: ((u32, u32), Vec<u64>)| (p.0, p.1@));
                forall|i: int| 0 <= i < s.len() ==> (#[trigger] s[i]).1.no_duplicates()
            }),
    {
        let ghost s = v@.map_values(|p: ((u32, u32), Vec<u64>)| (p.0, p.1@));
        let mut i: usize = 0;
        while i < v.len()
            invariant
                i <= v.len(),
                s == v@.map_values(|p: ((u32, u32), Vec<u64>)| (p.0, p.1@)),
                forall|p: int| 0 <= p < i ==> (#[trigger] s[p]).1.no_duplicates(),
            decreases v.len() - i,
        {
            if !Self::ids_distinct(&v[i].1) {
                proof {
                    assert(s[i as int].1 == v@[i as int].1@);
                }
                return false;
            }
            i = i + 1;
        }
        true
    }
}

} // verus!
