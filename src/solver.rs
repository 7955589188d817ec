//! The solver: derives the constraints of a configured request and searches
//! a word index with them.

use crate::config::{Config, DEFAULT_MIN_LENGTH};
use crate::constraints::{
    cap_of, marked_request, marks, occurrences, request, two_marked, unmarked_of, ConstraintSet,
    Constraints,
};
use crate::dictionary::Dictionary;
use crate::error::SbsError;
use crate::match_set::MatchSet;
use crate::search::search;
use vstd::prelude::*;

verus! {

/// Whether a configuration asks for case-sensitive letters (by default not).
pub open spec fn case_flag(config: Config) -> bool {
    match config.case_sensitive {
        Some(b) => b,
        None => false,
    }
}

/// The smallest word length a configuration accepts.
pub open spec fn min_of(config: Config) -> nat {
    match config.minimal_word_length {
        Some(n) => n as nat,
        None => DEFAULT_MIN_LENGTH as nat,
    }
}

/// The largest word length a configuration accepts (by default unbounded).
pub open spec fn max_of(config: Config) -> nat {
    match config.maximal_word_length {
        Some(n) => n as nat,
        None => usize::MAX as nat,
    }
}

/// The constraints of the request that a configuration holds.
pub open spec fn request_of(config: Config) -> Constraints
    recommends
        config.letters is Some,
        config.present is Some,
{
    request(
        config.letters->0@,
        config.present->0@,
        case_flag(config),
        min_of(config),
        max_of(config),
        cap_of(config.repeats),
    )
}

/// The words of `words` that `c` admits.
pub open spec fn admitted(words: Set<Seq<char>>, c: Constraints) -> Set<Seq<char>> {
    words.filter(|w: Seq<char>| c.admits(w))
}

/// Solves the puzzle that a configuration describes.
pub struct Solver {
    pub config: Config,
}

impl Solver {
    /// A solver for the request that `config` describes.
    pub fn new(config: Config) -> (r: Solver)
        ensures
            r.config == config,
    {
        Solver { config }
    }

    /// Every word of `dictionary` that the configured request admits.
    ///
    /// Fails with a configuration error when the letters or the required
    /// letters are missing, or when a case-sensitive request has more than
    /// one uppercase required letter.
    pub fn solve(&self, dictionary: &Dictionary) -> (r: Result<MatchSet, SbsError>)
        requires
            dictionary.wf(),
        ensures
            r matches Ok(m) ==> m.wf(),
            self.config.letters is None || self.config.present is None ==> (r matches Err(e)
                && e is ConfigError),
            self.config.letters is Some && self.config.present is Some ==> {
                &&& (r is Err) <==> (case_flag(self.config) && two_marked(marks(self.config.present->0@)))
                &&& r matches Err(e) ==> e is ConfigError
                &&& r matches Ok(m) ==> m@ == admitted(dictionary@, request_of(self.config))
            },
    {
        let letters = match &self.config.letters {
            Some(l) => l,
            None => {
                return Err(SbsError::ConfigError("No letters provided".to_owned()));
            },
        };
        let present = match &self.config.present {
            Some(p) => p,
            None => {
                return Err(SbsError::ConfigError("No required letter provided".to_owned()));
            },
        };
        let case_sensitive = match self.config.case_sensitive {
            Some(b) => b,
            None => false,
        };
        let min_len = match self.config.minimal_word_length {
            Some(n) => n,
            None => DEFAULT_MIN_LENGTH,
        };
        let max_len = match self.config.maximal_word_length {
            Some(n) => n,
            None => usize::MAX,
        };
        let cs = match ConstraintSet::derive(
            letters.as_str(),
            present.as_str(),
            case_sensitive,
            min_len,
            max_len,
            self.config.repeats,
        ) {
            Ok(cs) => cs,
            Err(e) => {
                return Err(e);
            },
        };
        let found = search(dictionary, &cs);
        let m = MatchSet::from_words(found);
        assert(m@ =~= admitted(dictionary@, request_of(self.config)));
        Ok(m)
    }
}

/// Every found word holds each required character at least once, and its
/// length lies within the bounds.
pub proof fn lemma_found_cover_required(words: Set<Seq<char>>, c: Constraints, w: Seq<char>)
    requires
        admitted(words, c).contains(w),
    ensures
        forall|r: char| #[trigger] c.required.contains(r) ==> w.contains(r),
        c.min_len <= w.len() <= c.max_len,
{
}

/// With a required leading character set, every found word begins with it.
pub proof fn lemma_found_start(words: Set<Seq<char>>, c: Constraints, w: Seq<char>)
    requires
        admitted(words, c).contains(w),
        c.required_start is Some,
    ensures
        w.len() > 0 && w[0] == c.required_start->0,
{
}

/// With a repeat cap of `k`, no character occurs more than `k` times in a
/// found word.
pub proof fn lemma_found_repeats(words: Set<Seq<char>>, c: Constraints, w: Seq<char>)
    requires
        admitted(words, c).contains(w),
        c.max_repeats is Some,
    ensures
        forall|x: char| #[trigger] occurrences(w, x) <= c.max_repeats->0,
{
}

/// In a case-sensitive request, a start-only letter (one given marked, that
/// is in uppercase, and not also given unmarked) appears in no found word
/// beyond the first position.
pub proof fn lemma_start_only_first(
    words: Set<Seq<char>>,
    letters: Seq<(bool, char)>,
    present: Seq<(bool, char)>,
    min_len: nat,
    max_len: nat,
    max_repeats: Option<nat>,
    x: char,
    w: Seq<char>,
)
    requires
        exists|i: int| 0 <= i < letters.len() && (#[trigger] letters[i]).0 && letters[i].1 == x,
        !unmarked_of(letters).contains(x),
        admitted(words, marked_request(letters, present, min_len, max_len, max_repeats)).contains(w),
    ensures
        forall|i: int| 0 < i < w.len() ==> #[trigger] w[i] != x,
{
    let c = marked_request(letters, present, min_len, max_len, max_repeats);
    assert forall|i: int| 0 < i < w.len() implies #[trigger] w[i] != x by {
        assert(c.permits(i, w[i]));
    }
}

/// Solving the same request against the same index twice finds the same
/// words.
pub proof fn lemma_solve_repeatable(
    solver: Solver,
    dictionary: Dictionary,
    first: MatchSet,
    second: MatchSet,
)
    requires
        solver.config.letters is Some,
        solver.config.present is Some,
        first@ == admitted(dictionary@, request_of(solver.config)),
        second@ == admitted(dictionary@, request_of(solver.config)),
    ensures
        first@ == second@,
{
}

} // verus!
