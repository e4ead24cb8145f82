use smallvec::{SmallVec, ToSmallVec};
use vstd::prelude::*;

use crate::dictionary::words_view;

verus! {

/// A word as the cache stores it: short words need no allocation.
pub type CharString = SmallVec<[char; 16]>;

/// Remembers for each word that was looked up the suggestions found for it.
///
/// The store is a `hashbrown::HashMap` from word to suggestions. Nothing
/// inside it is visible to the verifier: `cache_entries` names what it
/// holds, and the functions below say what each call does to that.
#[verifier::external_body]
pub struct WordCache {
    map: hashbrown::HashMap<CharString, Vec<CharString>>,
}

/// What the cache holds: for each word stored, its suggestions.
pub uninterp spec fn cache_entries(cache: WordCache) -> Map<Seq<char>, Seq<Seq<char>>>;

/// `HashMap::new` of hashbrown makes a map without entries.
#[verifier::external_body]
pub(crate) fn cache_new() -> (cache: WordCache)
    ensures
        cache_entries(cache).dom() == Set::<Seq<char>>::empty(),
{
    WordCache { map: hashbrown::HashMap::new() }
}

/// `HashMap::get` of hashbrown: the value stored under a key equal to
/// `word`, if there is one. A stored key equals `word` when it holds the same
/// characters, since smallvec compares and hashes its vectors as slices. The
/// suggestions come back as copies, each made with `to_vec`.
#[verifier::external_body]
pub(crate) fn cache_get(cache: &WordCache, word: &[char]) -> (found: Option<Vec<Vec<char>>>)
    ensures
        found is Some == cache_entries(*cache).contains_key(word@),
        found is Some ==> words_view(found->0@) == cache_entries(*cache)[word@],
{
    cache.map.get(word).map(|stored| stored.iter().map(|s| s.to_vec()).collect())
}

/// `HashMap::insert` of hashbrown: afterwards the key holds the new value,
/// and every other key what it held before. Word and suggestions go in as
/// copies made with `ToSmallVec::to_smallvec` of smallvec, which keeps the
/// characters and their order.
#[verifier::external_body]
pub(crate) fn cache_insert(cache: &mut WordCache, word: &[char], suggestions: &Vec<Vec<char>>)
    ensures
        (cache_entries(*final(cache)) == cache_entries(*old(cache)).insert(
            word@,
            words_view(suggestions@),
        )),
{
    let stored: Vec<CharString> = suggestions.iter().map(|s| s.to_smallvec()).collect();
    cache.map.insert(word.to_smallvec(), stored);
}

/// `HashMap::len` of hashbrown: the number of keys stored.
#[verifier::external_body]
pub(crate) fn cache_len(cache: &WordCache) -> (n: usize)
    ensures
        n == cache_entries(*cache).dom().len(),
{
    cache.map.len()
}

} // verus!
