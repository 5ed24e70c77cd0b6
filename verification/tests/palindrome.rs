use exercises::palindrome::{palindrome_permutation, to_lower};

#[test]
fn test_palindrome() {
    assert!(palindrome_permutation("racecar"));
}

#[test]
fn test_empty() {
    assert!(palindrome_permutation(""));
}

#[test]
fn test_single_letter() {
    assert!(palindrome_permutation("I"));
}

#[test]
fn test_non_example() {
    assert!(!palindrome_permutation("Suck it, grass!"));
}

#[test]
fn test_case_insensitivity() {
    assert!(palindrome_permutation("F f"));
}

#[test]
fn test_permutation() {
    assert!(palindrome_permutation("TactCoa"));
}

#[test]
fn test_permutation_with_whitespace() {
    assert!(palindrome_permutation("Tact Coa"));
}

#[test]
fn test_whitespace_only() {
    assert!(palindrome_permutation("    \t\n\n\r"));
}

#[test]
fn test_palindrome_with_whitespace() {
    assert!(palindrome_permutation("A man, a plan, a canal, Panama!"));
}

#[test]
fn two_unpaired_letters_are_one_too_many() {
    assert!(!palindrome_permutation("ab"));
    assert!(palindrome_permutation("aab"));
    assert!(!palindrome_permutation("aabc"));
    assert!(palindrome_permutation("aabbc"));
}

#[test]
fn digits_and_signs_do_not_count() {
    assert!(palindrome_permutation("1a2"));
    assert!(palindrome_permutation("12345"));
    assert!(!palindrome_permutation("a1b"));
}

#[test]
fn letters_beyond_ascii_count_with_their_case() {
    assert!(palindrome_permutation("\u{e9}\u{e9}"));
    assert!(!palindrome_permutation("\u{e9}a"));
    assert!(!palindrome_permutation("\u{c9}\u{e9}"));
}

#[test]
fn to_lower_maps_ascii_capitals_only() {
    assert_eq!(to_lower('A'), 'a');
    assert_eq!(to_lower('Z'), 'z');
    assert_eq!(to_lower('m'), 'm');
    assert_eq!(to_lower('@'), '@');
    assert_eq!(to_lower('['), '[');
    assert_eq!(to_lower('\u{c9}'), '\u{c9}');
}
