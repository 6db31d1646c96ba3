//! The English BIP39 word list of `bip39`, seen as a function from indices
//! `0..2048` to distinct words.

use vstd::prelude::*;

verus! {

/// The word at `index` of the English list.
pub uninterp spec fn english_word(index: int) -> Seq<char>;

/// `w` is a word of the English list.
pub open spec fn in_wordlist(w: Seq<char>) -> bool {
    exists|i: int| 0 <= i < 2048 && english_word(i) == w
}

/// The index of `w` in the English list, when `in_wordlist(w)`.
pub open spec fn word_index(w: Seq<char>) -> int {
    choose|i: int| 0 <= i < 2048 && english_word(i) == w
}

/// Relies on `WordList::get_word` of `bip39::Language::English`: the list
/// holds 2048 distinct words, so no other index gives the same word.
#[verifier::external_body]
pub(crate) fn word_at(index: u16) -> (r: &'static str)
    requires
        index < 2048,
    ensures
        r@ == english_word(index as int),
        forall|j: int| 0 <= j < 2048 && j != index ==> english_word(j) != r@,
{
    bip39::Language::English.wordlist().get_word(index.into())
}

/// Relies on `WordMap::get_bits` of `bip39::Language::English`: the map is
/// built from the list, each word to its position, so it finds exactly the
/// words of the list, each at its one position.
#[verifier::external_body]
pub(crate) fn find_word(word: &str) -> (r: Option<u16>)
    ensures
        r matches Some(i) ==> i < 2048 && english_word(i as int) == word@ && forall|j: int|
            0 <= j < 2048 && j != i ==> english_word(j) != word@,
        r is None ==> forall|j: int| 0 <= j < 2048 ==> english_word(j) != word@,
{
    match bip39::Language::English.wordmap().get_bits(word) {
        Ok(bits) => Some(bits.into()),
        Err(_) => None,
    }
}

/// The index of a word of the list, and `None` for any other string.
pub fn lookup_word(word: &str) -> (r: Option<u16>)
    ensures
        r is Some <==> in_wordlist(word@),
        r matches Some(i) ==> i as int == word_index(word@) && english_word(i as int) == word@,
{
    match find_word(word) {
        Some(i) => {
            proof {
                let j = word_index(word@);
                assert(0 <= j < 2048 && english_word(j) == word@);
                assert(j == i);
            }
            Some(i)
        },
        None => None,
    }
}

} // verus!
