use narrow_down::tokenize::char_ngrams_bytes;

fn as_sorted(mut grams: Vec<Vec<u8>>) -> Vec<Vec<u8>> {
    grams.sort();
    grams
}

#[test]
fn test_ngrams_without_padding() {
    let grams = as_sorted(char_ngrams_bytes(b"abcd", 2, None));
    assert_eq!(grams, vec![b"ab".to_vec(), b"bc".to_vec(), b"cd".to_vec()]);
}

#[test]
fn test_ngrams_with_padding() {
    let grams = as_sorted(char_ngrams_bytes(b"abc", 2, Some(b'$')));
    assert_eq!(
        grams,
        vec![
            b"$a".to_vec(),
            b"ab".to_vec(),
            b"bc".to_vec(),
            b"c$".to_vec(),
        ]
    );
}

#[test]
fn test_ngrams_empty_input_gives_nothing() {
    assert_eq!(char_ngrams_bytes(b"", 3, Some(b'$')), Vec::<Vec<u8>>::new());
    assert_eq!(char_ngrams_bytes(b"", 3, None), Vec::<Vec<u8>>::new());
}

#[test]
fn test_ngrams_are_a_set() {
    let grams = char_ngrams_bytes(b"aaaa", 2, None);
    assert_eq!(grams, vec![b"aa".to_vec()]);
}

#[test]
fn test_ngrams_input_shorter_than_n_without_padding() {
    assert_eq!(char_ngrams_bytes(b"ab", 5, None), Vec::<Vec<u8>>::new());
}

#[test]
fn test_ngrams_padding_covers_short_input() {
    let grams = as_sorted(char_ngrams_bytes(b"a", 3, Some(b'_')));
    assert_eq!(
        grams,
        vec![
            b"__a".to_vec(),
            b"_a_".to_vec(),
            b"a__".to_vec(),
        ]
    );
}
