//! The MinHash signature generator: one minimum affine-hash residue per
//! coefficient pair, over the 32-bit murmur hashes of the shingles.
use vstd::prelude::*;

use crate::hash::{murmur3_32bit, murmur3_32_of};
use crate::NarrowDownError;

verus! {

/// The modulus of the affine hash family: the Mersenne prime 2^32 - 1.
pub const MERSENNE_PRIME: u64 = 0xFFFF_FFFF;

/// One affine universal-hash application: `(a * h + b) mod (2^32 - 1)`,
/// with the multiply-add carried out in unbounded arithmetic.
pub open spec fn affine_residue(a: u32, b: u32, h: u32) -> u64 {
    (((a as int) * (h as int) + (b as int)) % (MERSENNE_PRIME as int)) as u64
}

/// The minimum affine residue over a sequence of 32-bit hashes;
/// `2^32 - 1` when the sequence is empty.
pub open spec fn min_residue(hashes: Seq<u32>, a: u32, b: u32) -> u64
    decreases hashes.len(),
{
    if hashes.len() == 0 {
        MERSENNE_PRIME
    } else {
        let rest = min_residue(hashes.drop_last(), a, b);
        let last = affine_residue(a, b, hashes.last());
        if last < rest {
            last
        } else {
            rest
        }
    }
}

/// The 32-bit murmur hashes of the shingles, in input order.
pub open spec fn shingle_hashes(shingles: Seq<Seq<u8>>) -> Seq<u32> {
    shingles.map_values(|s: Seq<u8>| murmur3_32_of(s))
}

/// Every affine residue is below the modulus.
pub proof fn lemma_affine_residue_bounded(a: u32, b: u32, h: u32)
    ensures
        affine_residue(a, b, h) < MERSENNE_PRIME,
{
}

/// Every signature value is at most `2^32 - 1`, so each fits in 32 bits.
pub proof fn lemma_min_residue_bounded(hashes: Seq<u32>, a: u32, b: u32)
    ensures
        min_residue(hashes, a, b) <= MERSENNE_PRIME,
    decreases hashes.len(),
{
    if hashes.len() > 0 {
        lemma_min_residue_bounded(hashes.drop_last(), a, b);
    }
}

/// On an empty shingle sequence every signature position is exactly
/// `2^32 - 1`, whatever the coefficients: the sentinel for "no content".
pub proof fn lemma_minhash_empty(a: u32, b: u32)
    ensures
        min_residue(shingle_hashes(Seq::<Seq<u8>>::empty()), a, b) == MERSENNE_PRIME,
{
}

/// Appending one hash takes the minimum with its residue.
proof fn lemma_min_residue_push(hashes: Seq<u32>, a: u32, b: u32, h: u32)
    ensures
        min_residue(hashes.push(h), a, b) == if affine_residue(a, b, h)
            < min_residue(hashes, a, b) {
            affine_residue(a, b, h)
        } else {
            min_residue(hashes, a, b)
        },
{
    assert(hashes.push(h).drop_last() =~= hashes);
}

/// Compute the MinHash signature of a list of shingles.
///
/// `a` and `b` are the parallel coefficient arrays of the affine hash
/// family; the signature has one value per coefficient pair.  Fails with
/// `InvalidArgument` exactly when `a` and `b` differ in length.  Each
/// `a[i]` should be nonzero for the affine map to behave as intended;
/// that is the caller's responsibility and is not validated here.
pub fn minhash(shingle_list: &Vec<Vec<u8>>, a: &Vec<u32>, b: &Vec<u32>) -> (r: Result<
    Vec<u32>,
    NarrowDownError,
>)
    ensures
        r is Err <==> a@.len() != b@.len(),
        r is Err ==> r == Err::<Vec<u32>, NarrowDownError>(NarrowDownError::InvalidArgument),
        r matches Ok(sig) ==> {
            &&& sig@.len() == a@.len()
            &&& forall|i: int|
                0 <= i < sig@.len() ==> sig@[i] as u64 == min_residue(
                    shingle_hashes(shingle_list.deep_view()),
                    a@[i],
                    b@[i],
                )
        },
{
    if a.len() != b.len() {
        return Err(NarrowDownError::InvalidArgument);
    }
    let ghost shingles: Seq<Seq<u8>> = shingle_list.deep_view();
    let mut hashes: Vec<u32> = Vec::new();
    let mut k: usize = 0;
    while k < shingle_list.len()
        invariant
            k <= shingle_list.len(),
            shingles == shingle_list.deep_view(),
            hashes@ == shingle_hashes(shingles.take(k as int)),
        decreases shingle_list.len() - k,
    {
        let h = murmur3_32bit(shingle_list[k].as_slice());
        hashes.push(h);
        proof {
            assert(shingles.take(k + 1).map_values(|s: Seq<u8>| murmur3_32_of(s))
                =~= shingles.take(k as int).map_values(|s: Seq<u8>| murmur3_32_of(s)).push(
                murmur3_32_of(shingles[k as int]),
            ));
            assert(shingle_list[k as int]@ == shingles[k as int]);
        }
        k = k + 1;
    }
    proof {
        assert(shingles.take(shingle_list.len() as int) =~= shingles);
    }
    let mut minhashes: Vec<u32> = Vec::new();
    let mut i: usize = 0;
    while i < a.len()
        invariant
            i <= a.len(),
            a@.len() == b@.len(),
            shingles == shingle_list.deep_view(),
            hashes@ == shingle_hashes(shingles),
            minhashes@.len() == i,
            forall|p: int|
                0 <= p < i ==> minhashes@[p] as u64 == min_residue(
                    shingle_hashes(shingles),
                    a@[p],
                    b@[p],
                ),
        decreases a.len() - i,
    {
        let ai = a[i];
        let bi = b[i];
        let mut cur: u64 = MERSENNE_PRIME;
        let mut j: usize = 0;
        while j < hashes.len()
            invariant
                j <= hashes.len(),
                cur == min_residue(hashes@.take(j as int), ai, bi),
                cur <= MERSENNE_PRIME,
            decreases hashes.len() - j,
        {
            let h = hashes[j];
            proof {
                assert((ai as int) * (h as int) + (bi as int) <= (u32::MAX as int) * (u32::MAX
                    as int) + u32::MAX) by (nonlinear_arith)
                    requires
                        ai <= u32::MAX,
                        h <= u32::MAX,
                        bi <= u32::MAX,
                ;
            }
            let residue: u64 = ((ai as u64) * (h as u64) + (bi as u64)) % MERSENNE_PRIME;
            if residue < cur {
                cur = residue;
            }
            proof {
                lemma_min_residue_push(hashes@.take(j as int), ai, bi, h);
                assert(hashes@.take(j + 1) =~= hashes@.take(j as int).push(h));
            }
            j = j + 1;
        }
        proof {
            assert(hashes@.take(hashes.len() as int) =~= hashes@);
        }
        minhashes.push(cur as u32);
        i = i + 1;
    }
    Ok(minhashes)
}

} // verus!
