//! Laws of the trie, stated over its view: the set of stored words.
//!
//! `Trie::new` yields the empty set, `Trie::insert(w)` adds `w` to the set, and
//! `Trie::search(w)` reports membership, so each law below speaks of what those
//! three operations observe.
use vstd::prelude::*;

verus! {

/// A freshly built trie finds no word, the empty word included.
pub proof fn fresh_trie_finds_nothing(w: Seq<char>)
    ensures
        !Set::<Seq<char>>::empty().contains(w),
{
}

/// After a word is inserted, searching for it succeeds.
pub proof fn inserted_word_is_found(words: Set<Seq<char>>, w: Seq<char>)
    ensures
        words.insert(w).contains(w),
{
}

/// Inserting a word twice leaves the trie as inserting it once does: every
/// search answers the same.
pub proof fn insert_is_idempotent(words: Set<Seq<char>>, w: Seq<char>)
    ensures
        words.insert(w).insert(w) == words.insert(w),
        words.insert(w).insert(w).contains(w),
{
    assert(words.insert(w).insert(w) =~= words.insert(w));
}

/// A strict prefix of an inserted word that was never inserted itself is not
/// found, although its whole path exists.
pub proof fn strict_prefix_is_not_found(words: Set<Seq<char>>, w: Seq<char>, w2: Seq<char>)
    requires
        w.len() < w2.len(),
        w == w2.take(w.len() as int),
        !words.contains(w),
    ensures
        !words.insert(w2).contains(w),
{
}

/// The order of two insertions does not matter: every search answers the same.
pub proof fn insert_order_is_irrelevant(words: Set<Seq<char>>, w1: Seq<char>, w2: Seq<char>)
    ensures
        words.insert(w1).insert(w2) == words.insert(w2).insert(w1),
{
    assert(words.insert(w1).insert(w2) =~= words.insert(w2).insert(w1));
}

/// The empty word is not found in a fresh trie, and is found once inserted.
pub proof fn empty_word_behaves_like_any_word()
    ensures
        !Set::<Seq<char>>::empty().contains(Seq::<char>::empty()),
        Set::<Seq<char>>::empty().insert(Seq::<char>::empty()).contains(Seq::<char>::empty()),
{
}

} // verus!
