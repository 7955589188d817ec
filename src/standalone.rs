//! A solver that keeps its own word index and searches it without regard to
//! case and without a repeat cap.

use crate::config::Config;
use crate::constraints::{request, ConstraintSet};
use crate::dictionary::{entry_of, normalize_entry, Dictionary};
use crate::error::SbsError;
use crate::match_set::MatchSet;
use crate::solver::{admitted, max_of, min_of};
use crate::search::search;
use vstd::prelude::*;

verus! {

/// A solver holding its configuration and the words loaded into it.
pub struct Solver {
    index: Dictionary,
    config: Config,
}

impl Solver {
    /// The index is well formed.
    pub closed spec fn wf(&self) -> bool {
        self.index.wf()
    }

    /// The words loaded so far.
    pub closed spec fn words(&self) -> Set<Seq<char>> {
        self.index@
    }

    /// The configuration the solver was made with.
    pub closed spec fn config(&self) -> Config {
        self.config
    }

    /// A solver for the request that `config` describes, with no words yet.
    pub fn new(config: Config) -> (r: Solver)
        ensures
            r.wf(),
            r.words() == Set::<Seq<char>>::empty(),
            r.config() == config,
    {
        Solver { index: Dictionary::new(), config }
    }

    /// Adds each of `words` to the index.
    pub fn load_words_slice(&mut self, words: &[&str])
        requires
            old(self).wf(),
        ensures
            final(self).wf(),
            final(self).config() == old(self).config(),
            final(self).words() == old(self).words().union(
                Set::new(|w: Seq<char>| exists|i: int| 0 <= i < words@.len() && w == (#[trigger] words@[i])@),
            ),
    {
        let ghost start = self.index@;
        let mut k: usize = 0;
        while k < words.len()
            invariant
                k <= words@.len(),
                self.index.wf(),
                self.config == old(self).config,
                self.index@ == start.union(
                    Set::new(|w: Seq<char>| exists|i: int| 0 <= i < k && w == (#[trigger] words@[i])@),
                ),
            decreases words@.len() - k,
        {
            self.index.root.insert(words[k]);
            k = k + 1;
            assert(self.index@ =~= start.union(
                Set::new(|w: Seq<char>| exists|i: int| 0 <= i < k && w == (#[trigger] words@[i])@),
            ));
        }
    }

    /// Adds the words that the lines of a word source hold; lines that hold
    /// none are passed over.
    pub fn load_lines(&mut self, lines: &[&str])
        requires
            old(self).wf(),
        ensures
            final(self).wf(),
            final(self).config() == old(self).config(),
            final(self).words() == old(self).words().union(
                Set::new(|w: Seq<char>| exists|i: int| 0 <= i < lines@.len() && entry_of((#[trigger] lines@[i])@) == Some(w)),
            ),
    {
        let ghost start = self.index@;
        let mut k: usize = 0;
        while k < lines.len()
            invariant
                k <= lines@.len(),
                self.index.wf(),
                self.config == old(self).config,
                self.index@ == start.union(
                    Set::new(|w: Seq<char>| exists|i: int| 0 <= i < k && entry_of((#[trigger] lines@[i])@) == Some(w)),
                ),
            decreases lines@.len() - k,
        {
            let ghost before = self.index@;
            match normalize_entry(lines[k]) {
                Some(word) => {
                    self.index.root.insert(word.as_str());
                },
                None => {},
            }
            k = k + 1;
            assert(self.index@ =~= start.union(
                Set::new(|w: Seq<char>| exists|i: int| 0 <= i < k && entry_of((#[trigger] lines@[i])@) == Some(w)),
            )) by {
                assert forall|w: Seq<char>| #[trigger] self.index@.contains(w) <==> start.contains(w) || exists|i: int| 0 <= i < k && entry_of((#[trigger] lines@[i])@) == Some(w) by {
                    if exists|i: int| 0 <= i < k && entry_of((#[trigger] lines@[i])@) == Some(w) {
                        let i = choose|i: int| 0 <= i < k && entry_of((#[trigger] lines@[i])@) == Some(w);
                        if i < k - 1 {
                            assert(before.contains(w));
                        }
                    }
                    if before.contains(w) && !start.contains(w) {
                        let i = choose|i: int| 0 <= i < k - 1 && entry_of((#[trigger] lines@[i])@) == Some(w);
                        assert(0 <= i < k);
                    }
                }
            }
        }
    }

    /// Every loaded word that the configured request admits, the letters
    /// and required letters being taken to lowercase.
    ///
    /// Fails with a configuration error when the letters or the required
    /// letters are missing.
    pub fn solve(&self) -> (r: Result<MatchSet, SbsError>)
        requires
            self.wf(),
        ensures
            r matches Ok(m) ==> m.wf(),
            self.config().letters is None || self.config().present is None ==> (r matches Err(e)
                && e is ConfigError),
            self.config().letters is Some && self.config().present is Some ==> (r matches Ok(m)
                && m@ == admitted(
                self.words(),
                request(
                    self.config().letters->0@,
                    self.config().present->0@,
                    false,
                    min_of(self.config()),
                    max_of(self.config()),
                    None,
                ),
            )),
    {
        let letters = match &self.config.letters {
            Some(l) => l,
            None => {
                return Err(SbsError::ConfigError("No letters provided".to_owned()));
            },
        };
        let present = match &self.config.present {
            Some(p) => p,
            None => {
                return Err(SbsError::ConfigError("No required letter provided".to_owned()));
            },
        };
        let min_len = match self.config.minimal_word_length {
            Some(n) => n,
            None => crate::config::DEFAULT_MIN_LENGTH,
        };
        let max_len = match self.config.maximal_word_length {
            Some(n) => n,
            None => usize::MAX,
        };
        let cs = match ConstraintSet::derive(letters.as_str(), present.as_str(), false, min_len, max_len, None) {
            Ok(cs) => cs,
            Err(e) => {
                return Err(e);
            },
        };
        let found = search(&self.index, &cs);
        let m = MatchSet::from_words(found);
        assert(m@ =~= admitted(
            self.words(),
            request(letters@, present@, false, min_of(self.config()), max_of(self.config()), None),
        ));
        Ok(m)
    }
}

} // verus!
