use narrow_down::minhash::{minhash, MERSENNE_PRIME};
use narrow_down::NarrowDownError;

// More an educational test, but not harmful. We rely on u32::MAX being a prime number.
#[test]
fn test_mersenne_prime() {
    assert_eq!(MERSENNE_PRIME, (1u64 << 32) - 1);
}

#[test]
fn test_minhash_pinned_values() {
    let shingles: Vec<Vec<u8>> = vec![b"abc".to_vec(), b"def".to_vec()];
    let a: Vec<u32> = vec![1608637543u32, 3421126068u32];
    let b: Vec<u32> = vec![4083286876u32, 787846414u32];
    let mh = minhash(&shingles, &a, &b).unwrap();
    assert_eq!(mh, vec![3570093942u32, 2194504465u32]);
}

#[test]
fn test_minhash_empty_shingles_gives_sentinel() {
    let shingles: Vec<Vec<u8>> = Vec::new();
    let a: Vec<u32> = vec![7, 11, 13];
    let b: Vec<u32> = vec![1, 2, 3];
    let mh = minhash(&shingles, &a, &b).unwrap();
    assert_eq!(mh, vec![u32::MAX, u32::MAX, u32::MAX]);
}

#[test]
fn test_minhash_output_length_matches_coefficients() {
    let shingles: Vec<Vec<u8>> = vec![b"one".to_vec(), b"two".to_vec(), b"three".to_vec()];
    let a: Vec<u32> = vec![3, 5, 7, 11, 13];
    let b: Vec<u32> = vec![17, 19, 23, 29, 31];
    let mh = minhash(&shingles, &a, &b).unwrap();
    assert_eq!(mh.len(), a.len());
}

#[test]
fn test_minhash_mismatched_lengths_rejected() {
    let shingles: Vec<Vec<u8>> = vec![b"abc".to_vec()];
    let a: Vec<u32> = vec![1, 2];
    let b: Vec<u32> = vec![1];
    assert_eq!(
        minhash(&shingles, &a, &b),
        Err(NarrowDownError::InvalidArgument)
    );
}

#[test]
fn test_minhash_is_deterministic() {
    let shingles: Vec<Vec<u8>> = vec![b"alpha".to_vec(), b"beta".to_vec()];
    let a: Vec<u32> = vec![97, 193];
    let b: Vec<u32> = vec![389, 769];
    assert_eq!(
        minhash(&shingles, &a, &b).unwrap(),
        minhash(&shingles, &a, &b).unwrap()
    );
}
