use bioinformatics::hamming::{hamming, DistanceError};
use bioinformatics::levenshtein::levenshtein;

#[test]
fn hamming_wiki_tests() {
    assert_eq!(hamming("karolin".as_bytes(), "kathrin".as_bytes()), Ok(3));
    assert_eq!(hamming("karolin".as_bytes(), "kerstin".as_bytes()), Ok(3));
    assert_eq!(hamming("kathrin".as_bytes(), "kerstin".as_bytes()), Ok(4));
    assert_eq!(hamming("0000".as_bytes(), "1111".as_bytes()), Ok(4));
    assert_eq!(hamming("2173896".as_bytes(), "2233796".as_bytes()), Ok(3));
}

#[test]
fn levenshtein_wiki_tests() {
    assert_eq!(levenshtein("kitten".as_bytes(), "sitting".as_bytes()), 3);
    assert_eq!(levenshtein("saturday".as_bytes(), "sunday".as_bytes()), 3);
}

#[test]
fn hamming_unequal_lengths_is_an_error() {
    assert_eq!(
        hamming(b"abc", b"abcd"),
        Err(DistanceError::LengthMismatch { len1: 3, len2: 4 })
    );
}

#[test]
fn hamming_is_symmetric_and_zero_on_itself() {
    assert_eq!(hamming(b"karolin", b"kathrin"), hamming(b"kathrin", b"karolin"));
    assert_eq!(hamming(b"karolin", b"karolin"), Ok(0));
    assert_eq!(hamming(b"", b""), Ok(0));
    assert_eq!(hamming(b"abcd", b"wxyz"), Ok(4));
}

#[test]
fn levenshtein_reads_the_last_symbol_of_the_second_sequence() {
    assert_eq!(levenshtein(b"abc", b"abd"), 1);
    assert_eq!(levenshtein(b"abc", b"abcdef"), 3);
    assert_eq!(levenshtein(b"abcdef", b"abc"), 3);
}

#[test]
fn levenshtein_edge_cases() {
    assert_eq!(levenshtein(b"", b""), 0);
    assert_eq!(levenshtein(b"", b"abc"), 3);
    assert_eq!(levenshtein(b"abc", b""), 3);
    assert_eq!(levenshtein(b"flaw", b"lawn"), 2);
}

#[test]
fn levenshtein_symmetry_identity_and_triangle() {
    let a: &[u8] = b"kitten";
    let b: &[u8] = b"sitting";
    let c: &[u8] = b"sittin";
    assert_eq!(levenshtein(a, b), levenshtein(b, a));
    assert_eq!(levenshtein(a, a), 0);
    assert!(levenshtein(a, b) > 0);
    assert!(levenshtein(a, b) <= levenshtein(a, c) + levenshtein(c, b));
}
