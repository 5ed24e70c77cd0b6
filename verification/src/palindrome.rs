//! Can the letters of a text be rearranged into a palindrome?
use std::collections::HashSet;
use vstd::prelude::*;

verus! {

/// Whether a character has Unicode's `Alphabetic` property, as
/// `char::is_alphabetic` tells it.
pub uninterp spec fn alphabetic(c: char) -> bool;

/// `char::is_alphabetic` looks the character up in the tables of the Unicode
/// standard that the standard library carries: its answer is a function of
/// the character alone, and that function is what [`alphabetic`] names.
pub assume_specification[ char::is_alphabetic ](c: char) -> (answer: bool)
    ensures
        answer == alphabetic(c),
;

/// The character with `A` to `Z` mapped to `a` to `z`, anything else as it is.
pub open spec fn ascii_lower(c: char) -> char {
    if 'A' <= c && c <= 'Z' {
        ((c as u8) + 32) as char
    } else {
        c
    }
}

/// The alphabetic characters of a text in their order, each in lower case.
pub open spec fn letters(text: Seq<char>) -> Seq<char>
    decreases text.len(),
{
    if text.len() == 0 {
        Seq::empty()
    } else if alphabetic(text.last()) {
        letters(text.drop_last()).push(ascii_lower(text.last()))
    } else {
        letters(text.drop_last())
    }
}

/// How often `c` occurs in `letters`.
pub open spec fn occurrences(letters: Seq<char>, c: char) -> nat
    decreases letters.len(),
{
    if letters.len() == 0 {
        0
    } else if letters.last() == c {
        occurrences(letters.drop_last(), c) + 1
    } else {
        occurrences(letters.drop_last(), c)
    }
}

/// `c` occurs an odd number of times, so that one of its occurrences has no
/// partner to mirror it.
pub open spec fn unpaired(letters: Seq<char>, c: char) -> bool {
    occurrences(letters, c) % 2 == 1
}

/// The letters of the text can be arranged to read the same in both
/// directions: at most one letter is left without a partner, and it can
/// stand in the middle.
pub open spec fn is_palindrome_permutation(text: Seq<char>) -> bool {
    forall|a: char, b: char|
        unpaired(letters(text), a) && unpaired(letters(text), b) ==> a == b
}

/// The number that stands for a character in the set of unpaired letters.
pub open spec fn code(c: char) -> u32 {
    c as u32
}

/// Different characters have different codes.
proof fn lemma_code_injective(a: char, b: char)
    requires
        code(a) == code(b),
    ensures
        a == b,
{
}

/// A finite set has at most one element exactly when any two of its
/// elements are the same.
proof fn lemma_at_most_one(set: Set<u32>)
    requires
        set.finite(),
    ensures
        set.len() <= 1 <==> forall|a: u32, b: u32| set.contains(a) && set.contains(b) ==> a == b,
{
    if set.len() != 0 {
        let first = set.choose();
        let rest = set.remove(first);
        if rest.len() != 0 {
            let second = rest.choose();
            assert(set.contains(first) && set.contains(second) && first != second);
        } else {
            assert forall|a: u32, b: u32| set.contains(a) && set.contains(b) implies a == b by {
                if a != first {
                    assert(rest.contains(a));
                }
                if b != first {
                    assert(rest.contains(b));
                }
            }
        }
    }
}

/// Puts an ASCII capital into lower case and leaves any other character.
pub fn to_lower(c: char) -> (lower: char)
    ensures
        lower == ascii_lower(c),
{
    if c >= 'A' && c <= 'Z' {
        ((c as u8) + 32) as char
    } else {
        c
    }
}

/// Tells whether the letters of `s` can be rearranged into a palindrome.
/// Characters that are not alphabetic do not count, nor does the case of
/// ASCII letters.
pub fn palindrome_permutation(s: &str) -> (possible: bool)
    ensures
        possible == is_palindrome_permutation(s@),
{
    let mut odd_letters = HashSet::<u32>::new();
    for letter in it: s.chars()
        invariant
            it.seq() == s@,
            odd_letters@.finite(),
            forall|c: char| #[trigger]
                odd_letters@.contains(code(c)) <==> unpaired(
                    letters(s@.take(it.index() as int)),
                    c,
                ),
            forall|x: u32| #[trigger] odd_letters@.contains(x) ==> code(x as char) == x,
    {
        let ghost before = letters(s@.take(it.index() as int));
        let ghost seen = s@.take(it.index() as int + 1);
        let ghost held = odd_letters@;
        proof {
            assert(seen.drop_last() =~= s@.take(it.index() as int));
            assert(seen.last() == letter);
        }
        if letter.is_alphabetic() {
            let lower = to_lower(letter);
            let code = lower as u32;
            if odd_letters.contains(&code) {
                odd_letters.remove(&code);
            } else {
                odd_letters.insert(code);
            }
            proof {
                let after = letters(seen);
                assert(after.drop_last() =~= before);
                assert(after.last() == lower);
                assert forall|c: char| #[trigger]
                    odd_letters@.contains(self::code(c)) <==> unpaired(after, c) by {
                    assert(held.contains(self::code(c)) <==> unpaired(before, c));
                    if c == lower {
                        assert(occurrences(after, c) == occurrences(before, c) + 1);
                    } else {
                        if self::code(c) == code {
                            lemma_code_injective(c, lower);
                        }
                        assert(occurrences(after, c) == occurrences(before, c));
                    }
                }
                assert forall|x: u32| #[trigger] odd_letters@.contains(x) implies self::code(
                    x as char,
                ) == x by {
                    if x != code {
                        assert(held.contains(x));
                    }
                }
            }
        }
    }
    proof {
        assert(s@.take(s@.len() as int) =~= s@);
        lemma_at_most_one(odd_letters@);
        let all = letters(s@);
        if odd_letters@.len() <= 1 {
            assert forall|a: char, b: char| unpaired(all, a) && unpaired(all, b) implies a
                == b by {
                assert(odd_letters@.contains(code(a)) && odd_letters@.contains(code(b)));
                lemma_code_injective(a, b);
            }
        }
        if is_palindrome_permutation(s@) {
            assert forall|a: u32, b: u32|
                odd_letters@.contains(a) && odd_letters@.contains(b) implies a == b by {
                assert(odd_letters@.contains(code(a as char)));
                assert(odd_letters@.contains(code(b as char)));
                assert(unpaired(all, a as char) && unpaired(all, b as char));
            }
        }
    }
    odd_letters.len() <= 1
}

} // verus!
