//! Pig Latin for single words.

use vstd::prelude::*;
use vstd::string::*;

verus! {

/// The five vowels, in either case.
pub open spec fn is_vowel(c: char) -> bool {
    c == 'a' || c == 'A' || c == 'e' || c == 'E' || c == 'i' || c == 'I' || c == 'o' || c == 'O'
        || c == 'u' || c == 'U'
}

/// A word that is not empty in Pig Latin: one that starts with a vowel gets
/// `-hay` behind it; any other gives up its first character, which follows
/// behind a hyphen and before `ay`.
pub open spec fn pig_latin(word: Seq<char>) -> Seq<char> {
    if is_vowel(word[0]) {
        word + "-hay"@
    } else {
        word.skip(1) + "-"@ + seq![word[0]] + "ay"@
    }
}

/// Whether `c` is a vowel.
pub fn starts_vowel(c: char) -> (r: bool)
    ensures
        r == is_vowel(c),
{
    c == 'a' || c == 'A' || c == 'e' || c == 'E' || c == 'i' || c == 'I' || c == 'o' || c == 'O'
        || c == 'u' || c == 'U'
}

/// Turns one word into Pig Latin.
pub fn convert_to_pig_latin(word: &str) -> (r: String)
    requires
        word@.len() > 0,
    ensures
        r@ == pig_latin(word@),
{
    let first_char = word.get_char(0);
    if starts_vowel(first_char) {
        let mut r = String::from_str(word);
        r.append("-hay");
        r
    } else {
        let len: usize = word.unicode_len();
        let mut r = String::from_str(word.substring_char(1, len));
        r.append("-");
        r.append(word.substring_char(0, 1));
        r.append("ay");
        proof {
            assert(word@.subrange(1, len as int) =~= word@.skip(1));
            assert(word@.subrange(0, 1) =~= seq![word@[0]]);
        }
        r
    }
}

} // verus!
