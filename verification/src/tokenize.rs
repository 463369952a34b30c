//! Byte n-gram tokenization: the distinct n-grams of a byte string,
//! optionally padded on both sides, as a duplicate-free list.
use vstd::prelude::*;

use vstd::slice::{slice_subrange, slice_to_vec};

verus! {

/// `times` copies of the pad byte on each side of the input.
pub open spec fn spec_padded(s: Seq<u8>, pad: u8, times: nat) -> Seq<u8> {
    Seq::new(times, |i: int| pad) + s + Seq::new(times, |i: int| pad)
}

/// The set of all windows of length `n` of a byte sequence.
pub open spec fn ngram_set(s: Seq<u8>, n: nat) -> Set<Seq<u8>> {
    Set::new(
        |w: Seq<u8>|
            exists|i: int|
                0 <= i && i + n <= s.len() && w == #[trigger] s.subrange(i, i + n as int),
    )
}

/// The sequence the n-grams are drawn from: the input, padded with `n - 1`
/// pad bytes on each side when a pad byte is given.
pub open spec fn spec_source(s: Seq<u8>, n: nat, pad: Option<u8>) -> Seq<u8> {
    match pad {
        Some(c) => spec_padded(s, c, (n - 1) as nat),
        None => s,
    }
}

/// Appending an element adds it to a sequence's set of elements.
proof fn lemma_push_to_set<A>(s: Seq<A>, x: A)
    ensures
        s.push(x).to_set() == s.to_set().insert(x),
{
    let t = s.push(x);
    assert(t[s.len() as int] == x);
    assert forall|y: A| t.to_set().contains(y) implies s.to_set().contains(y) || y == x by {
        let j = choose|j: int| 0 <= j < t.len() && t[j] == y;
        if j < s.len() {
            assert(s[j] == y);
        }
    }
    assert forall|y: A| s.to_set().contains(y) implies t.to_set().contains(y) by {
        let j = choose|j: int| 0 <= j < s.len() && s[j] == y;
        assert(t[j] == y);
    }
    assert(t.to_set() =~= s.to_set().insert(x));
}

/// Whether two byte vectors hold the same bytes.
fn eq_bytes(a: &Vec<u8>, b: &Vec<u8>) -> (r: bool)
    ensures
        r == (a@ == b@),
{
    if a.len() != b.len() {
        return false;
    }
    let mut i: usize = 0;
    while i < a.len()
        invariant
            i <= a.len(),
            a@.len() == b@.len(),
            forall|j: int| 0 <= j < i ==> a@[j] == b@[j],
        decreases a.len() - i,
    {
        if a[i] != b[i] {
            return false;
        }
        i = i + 1;
    }
    proof {
        assert(a@ =~= b@);
    }
    true
}

/// Whether `w`'s bytes already occur in the output list.
fn contains_bytes(out: &Vec<Vec<u8>>, w: &Vec<u8>) -> (r: bool)
    ensures
        r == out@.map_values(|v: Vec<u8>| v@).contains(w@),
{
    let ghost mapped = out@.map_values(|v: Vec<u8>| v@);
    let mut i: usize = 0;
    while i < out.len()
        invariant
            i <= out.len(),
            mapped == out@.map_values(|v: Vec<u8>| v@),
            forall|j: int| 0 <= j < i ==> mapped[j] != w@,
        decreases out.len() - i,
    {
        if eq_bytes(&out[i], w) {
            proof {
                assert(mapped[i as int] == w@);
            }
            return true;
        }
        i = i + 1;
    }
    false
}

/// Return the byte vector with a padding of `pad_char`, repeated `times`
/// times on each side.
fn pad_both_sides(s: &[u8], pad_char: u8, times: usize) -> (r: Vec<u8>)
    requires
        s@.len() + 2 * times <= usize::MAX,
    ensures
        r@ == spec_padded(s@, pad_char, times as nat),
{
    let mut padded: Vec<u8> = Vec::with_capacity(s.len() + 2 * times);
    let mut i: usize = 0;
    while i < times
        invariant
            i <= times,
            padded@ == Seq::new(i as nat, |k: int| pad_char),
        decreases times - i,
    {
        padded.push(pad_char);
        proof {
            assert(padded@ =~= Seq::new(i as nat + 1, |k: int| pad_char));
        }
        i = i + 1;
    }
    padded.extend_from_slice(s);
    let ghost mid = padded@;
    proof {
        assert(mid =~= Seq::new(times as nat, |k: int| pad_char) + s@);
    }
    let mut i: usize = 0;
    while i < times
        invariant
            i <= times,
            padded@ == mid + Seq::new(i as nat, |k: int| pad_char),
        decreases times - i,
    {
        padded.push(pad_char);
        proof {
            assert(padded@ =~= mid + Seq::new(i as nat + 1, |k: int| pad_char));
        }
        i = i + 1;
    }
    proof {
        assert(padded@ =~= spec_padded(s@, pad_char, times as nat));
    }
    padded
}

/// Returns all distinct byte n-grams of length `n`, drawn from the input
/// padded with `n - 1` pad bytes on each side when a pad byte is given.
/// An empty input yields no n-grams at all.
pub fn char_ngrams_bytes(s: &[u8], n: usize, pad_char: Option<u8>) -> (r: Vec<Vec<u8>>)
    requires
        1 <= n,
        s@.len() + 2 * (n - 1) <= usize::MAX,
    ensures
        r@.map_values(|v: Vec<u8>| v@).no_duplicates(),
        s@.len() == 0 ==> r@.len() == 0,
        s@.len() > 0 ==> r@.map_values(|v: Vec<u8>| v@).to_set() == ngram_set(
            spec_source(s@, n as nat, pad_char),
            n as nat,
        ),
{
    let mut out: Vec<Vec<u8>> = Vec::new();
    if s.len() == 0 {
        return out;
    }
    let source: Vec<u8> = match pad_char {
        Some(c) => pad_both_sides(s, c, n - 1),
        None => slice_to_vec(s),
    };
    let ghost src = source@;
    proof {
        assert(src == spec_source(s@, n as nat, pad_char));
    }
    if source.len() < n {
        proof {
            assert forall|w: Seq<u8>| !ngram_set(src, n as nat).contains(w) by {}
            assert(ngram_set(src, n as nat) =~= Set::<Seq<u8>>::empty());
            assert(out@.map_values(|v: Vec<u8>| v@).to_set() =~= Set::<Seq<u8>>::empty());
        }
        return out;
    }
    let mut i: usize = 0;
    while i <= source.len() - n
        invariant
            1 <= n <= source.len(),
            src == source@,
            i <= source.len() - n + 1,
            out@.map_values(|v: Vec<u8>| v@).no_duplicates(),
            out@.map_values(|v: Vec<u8>| v@).to_set() == Set::new(
                |w: Seq<u8>|
                    exists|k: int|
                        0 <= k < i && w == #[trigger] src.subrange(k, k + n as int),
            ),
        decreases source.len() - n + 1 - i,
    {
        let ghost mapped0 = out@.map_values(|v: Vec<u8>| v@);
        let w = slice_to_vec(slice_subrange(source.as_slice(), i, i + n));
        let ghost wv = w@;
        proof {
            assert(wv == src.subrange(i as int, i as int + n as int));
        }
        if !contains_bytes(&out, &w) {
            out.push(w);
            proof {
                assert(out@.map_values(|v: Vec<u8>| v@) =~= mapped0.push(wv));
                lemma_push_to_set(mapped0, wv);
                assert forall|a: int, b: int|
                    0 <= a < b < mapped0.push(wv).len() implies mapped0.push(wv)[a] != mapped0.push(
                    wv,
                )[b] by {
                    if b == mapped0.len() {
                        assert(mapped0.push(wv)[a] == mapped0[a]);
                        assert(mapped0.contains(mapped0[a]));
                    } else {
                        assert(mapped0.push(wv)[a] == mapped0[a]);
                        assert(mapped0.push(wv)[b] == mapped0[b]);
                    }
                }
            }
        }
        proof {
            let new_set = Set::new(
                |w: Seq<u8>|
                    exists|k: int|
                        0 <= k < i + 1 && w == #[trigger] src.subrange(k, k + n as int),
            );
            let cur = out@.map_values(|v: Vec<u8>| v@).to_set();
            assert forall|x: Seq<u8>| new_set.contains(x) implies cur.contains(x) by {
                let k = choose|k: int|
                    0 <= k < i + 1 && x == #[trigger] src.subrange(k, k + n as int);
                if k < i {
                    assert(mapped0.to_set().contains(x));
                } else {
                    assert(x == wv);
                }
            }
            assert forall|x: Seq<u8>| cur.contains(x) implies new_set.contains(x) by {
                if mapped0.to_set().contains(x) {
                    let k = choose|k: int|
                        0 <= k < i && x == #[trigger] src.subrange(k, k + n as int);
                    assert(0 <= k < i + 1 && x == src.subrange(k, k + n as int));
                } else {
                    assert(x == wv);
                    assert(x == src.subrange(i as int, i as int + n as int));
                }
            }
            assert(cur =~= new_set);
        }
        i = i + 1;
    }
    proof {
        let full = Set::new(
            |w: Seq<u8>|
                exists|k: int| 0 <= k < i && w == #[trigger] src.subrange(k, k + n as int),
        );
        assert forall|x: Seq<u8>| full.contains(x) implies ngram_set(src, n as nat).contains(
            x,
        ) by {
            let k = choose|k: int|
                0 <= k < i && x == #[trigger] src.subrange(k, k + n as int);
            assert(0 <= k && k + n as int <= src.len());
        }
        assert forall|x: Seq<u8>| ngram_set(src, n as nat).contains(x) implies full.contains(
            x,
        ) by {
            let k = choose|k: int|
                0 <= k && k + (n as nat) <= src.len() && x == #[trigger] src.subrange(
                    k,
                    k + n as int,
                );
            assert(0 <= k < i && x == src.subrange(k, k + n as int));
        }
        assert(full =~= ngram_set(src, n as nat));
    }
    out
}

} // verus!
