use narrow_down::hash::{murmur3_32bit, xxhash_32bit, xxhash_64bit};

// Test hashes from https://asecuritysite.com/hash/smh
#[test]
fn test_murmur3_32bit() {
    assert_eq!(murmur3_32bit(b"test"), 3127628307u32);
    assert_eq!(murmur3_32bit(b""), 0u32);
}

#[test]
fn test_xxhash_32bit() {
    assert_eq!(xxhash_32bit(b"test"), 1042293711u32);
    assert_eq!(xxhash_32bit(b""), 46947589u32);
}

#[test]
fn test_xxhash_64bit() {
    assert_eq!(xxhash_64bit(b"test"), 5754696928334414137u64);
    assert_eq!(xxhash_64bit(b""), 17241709254077376921u64);
}

#[test]
fn test_hashes_are_deterministic() {
    let data = b"some longer input with \x00 bytes and unicode \xf0\x9f\x8e\x89";
    assert_eq!(murmur3_32bit(data), murmur3_32bit(data));
    assert_eq!(xxhash_32bit(data), xxhash_32bit(data));
    assert_eq!(xxhash_64bit(data), xxhash_64bit(data));
}
