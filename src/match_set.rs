//! The words a search found.

use crate::search::{distinct_after, lists};
use vstd::prelude::*;

verus! {

/// A set of words, with no order of its own.
#[derive(Debug)]
pub struct MatchSet {
    words: Vec<String>,
}

impl View for MatchSet {
    type V = Set<Seq<char>>;

    closed spec fn view(&self) -> Set<Seq<char>> {
        Set::new(|w: Seq<char>| lists(self.words@, w))
    }
}

impl MatchSet {
    /// Each word is held once.
    pub closed spec fn wf(&self) -> bool {
        distinct_after(self.words@, 0)
    }

    /// The set of the texts of `words`.
    pub fn from_words(words: Vec<String>) -> (m: MatchSet)
        ensures
            forall|w: Seq<char>| #[trigger] m@.contains(w) <==> lists(words@, w),
            distinct_after(words@, 0) ==> m.wf(),
    {
        MatchSet { words }
    }

    /// How many words the set holds.
    pub fn len(&self) -> (r: usize)
        requires
            self.wf(),
        ensures
            self@.finite(),
            r == self@.len(),
    {
        let ghost texts = self.words@.map_values(|s: String| s@);
        proof {
            assert forall|a: int, b: int| 0 <= a < texts.len() && 0 <= b < texts.len() && a != b implies texts[a]
                != texts[b] by {
                if a < b {
                    assert(self.words@[a]@ != self.words@[b]@);
                } else {
                    assert(self.words@[b]@ != self.words@[a]@);
                }
            }
            assert(texts.no_duplicates());
            texts.unique_seq_to_set();
            assert forall|w: Seq<char>| #[trigger] texts.to_set().contains(w) <==> self@.contains(w) by {
                if self@.contains(w) {
                    let i = choose|i: int| 0 <= i < self.words@.len() && (#[trigger] self.words@[i])@ == w;
                    assert(texts[i] == w);
                }
                if texts.to_set().contains(w) {
                    let i = choose|i: int| 0 <= i < texts.len() && texts[i] == w;
                    assert(self.words@[i]@ == w);
                }
            }
            assert(texts.to_set() =~= self@);
        }
        self.words.len()
    }

    /// Whether `word` is in the set.
    pub fn contains(&self, word: &str) -> (r: bool)
        ensures
            r == self@.contains(word@),
    {
        let target = word.to_owned();
        let mut i: usize = 0;
        while i < self.words.len()
            invariant
                i <= self.words@.len(),
                target@ == word@,
                forall|j: int| 0 <= j < i ==> (#[trigger] self.words@[j])@ != word@,
            decreases self.words@.len() - i,
        {
            if self.words[i] == target {
                return true;
            }
            i = i + 1;
        }
        false
    }

    /// Whether the set holds no word.
    pub fn is_empty(&self) -> (r: bool)
        ensures
            r == (self@ == Set::<Seq<char>>::empty()),
    {
        if self.words.len() == 0 {
            assert(self@ =~= Set::<Seq<char>>::empty());
            true
        } else {
            assert(self@.contains(self.words@[0]@));
            false
        }
    }

    /// The words of the set, in no particular order.
    pub fn into_words(self) -> (r: Vec<String>)
        ensures
            forall|w: Seq<char>| #[trigger] lists(r@, w) <==> self@.contains(w),
    {
        self.words
    }
}

} // verus!
