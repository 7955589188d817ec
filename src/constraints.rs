//! The constraints of one search request.

use crate::error::SbsError;
use crate::text::{
    add_char, char_is_uppercase, chars_of, distinct, first_lowercase, folded, is_upper, lowercase_of,
    to_lowercase,
};
use vstd::prelude::*;

verus! {

/// How many times `c` occurs in `w`.
pub open spec fn occurrences(w: Seq<char>, c: char) -> nat
    decreases w.len(),
{
    if w.len() == 0 {
        0
    } else {
        occurrences(w.drop_last(), c) + if w.last() == c {
            1nat
        } else {
            0nat
        }
    }
}

/// A prefix of a word holds no more of a character than the word does.
pub proof fn lemma_occurrences_prefix(w: Seq<char>, n: int, c: char)
    requires
        0 <= n <= w.len(),
    ensures
        occurrences(w.subrange(0, n), c) <= occurrences(w, c),
    decreases w.len() - n,
{
    if n == w.len() {
        assert(w.subrange(0, n) =~= w);
    } else {
        assert(w.drop_last().subrange(0, n) =~= w.subrange(0, n));
        lemma_occurrences_prefix(w.drop_last(), n, c);
    }
}

/// A character occurs in a word exactly when its count there is not zero.
pub proof fn lemma_occurrences_contains(w: Seq<char>, c: char)
    ensures
        w.contains(c) <==> occurrences(w, c) > 0,
    decreases w.len(),
{
    if w.len() > 0 {
        lemma_occurrences_contains(w.drop_last(), c);
        if w.drop_last().contains(c) {
            let i = choose|i: int| 0 <= i < w.drop_last().len() && w.drop_last()[i] == c;
            assert(w[i] == c);
        }
        if w.contains(c) && w.last() != c {
            let i = choose|i: int| 0 <= i < w.len() && w[i] == c;
            assert(w.drop_last()[i] == c);
        }
    }
}

/// Appending `c` raises its count by one and leaves every other count alone.
pub proof fn lemma_occurrences_push(w: Seq<char>, c: char, d: char)
    ensures
        occurrences(w.push(c), d) == occurrences(w, d) + if c == d {
            1nat
        } else {
            0nat
        },
{
    assert(w.push(c).drop_last() =~= w);
}

/// A character occurs in a word at most as often as the word is long.
pub proof fn lemma_occurrences_len(w: Seq<char>, c: char)
    ensures
        occurrences(w, c) <= w.len(),
    decreases w.len(),
{
    if w.len() > 0 {
        lemma_occurrences_len(w.drop_last(), c);
    }
}

/// A repeat cap as a mathematical value.
pub open spec fn cap_of(max_repeats: Option<usize>) -> Option<nat> {
    match max_repeats {
        Some(k) => Some(k as nat),
        None => None,
    }
}

/// A request string read character by character as a mark and a letter: an
/// uppercase character is marked and stands for its lowercase form, any other
/// character is unmarked and stands for itself.
pub open spec fn marks(s: Seq<char>) -> Seq<(bool, char)> {
    s.map_values(|c: char| (is_upper(c), folded(c)))
}

/// The letters of a marked string.
pub open spec fn letters_of(m: Seq<(bool, char)>) -> Set<char> {
    Set::new(|x: char| exists|i: int| 0 <= i < m.len() && (#[trigger] m[i]).1 == x)
}

/// The letters of a marked string that stand unmarked.
pub open spec fn unmarked_of(m: Seq<(bool, char)>) -> Set<char> {
    Set::new(|x: char| exists|i: int| 0 <= i < m.len() && !(#[trigger] m[i]).0 && m[i].1 == x)
}

/// A marked string has two or more marked letters.
pub open spec fn two_marked(m: Seq<(bool, char)>) -> bool {
    exists|i: int, j: int| 0 <= i < j < m.len() && (#[trigger] m[i]).0 && (#[trigger] m[j]).0
}

/// The marked letter of a marked string, if it has one.
pub open spec fn leading_of(m: Seq<(bool, char)>) -> Option<char> {
    if exists|i: int| 0 <= i < m.len() && (#[trigger] m[i]).0 {
        Some(m[choose|i: int| 0 <= i < m.len() && (#[trigger] m[i]).0].1)
    } else {
        None
    }
}

/// The constraints of a case-sensitive request, its strings read as marked
/// letters: a marked letter of `letters` is permitted at the first position
/// only, an unmarked one anywhere; every letter of `present` is required, and
/// its marked letter is the required leading character.
pub open spec fn marked_request(
    letters: Seq<(bool, char)>,
    present: Seq<(bool, char)>,
    min_len: nat,
    max_len: nat,
    max_repeats: Option<nat>,
) -> Constraints {
    Constraints {
        allowed: letters_of(letters),
        anywhere: unmarked_of(letters),
        required: letters_of(present),
        required_start: leading_of(present),
        min_len,
        max_len,
        max_repeats,
    }
}

/// The constraints of a request whose strings were already taken to
/// lowercase: every character of `letters` is permitted anywhere, and every
/// character of `present` is required.
pub open spec fn lowered_request(
    letters: Seq<char>,
    present: Seq<char>,
    min_len: nat,
    max_len: nat,
    max_repeats: Option<nat>,
) -> Constraints {
    Constraints {
        allowed: letters.to_set(),
        anywhere: letters.to_set(),
        required: present.to_set(),
        required_start: None,
        min_len,
        max_len,
        max_repeats,
    }
}

/// The constraints that a request describes: with case sensitivity, of its
/// strings read as marked letters; without, of its strings taken to
/// lowercase.
pub open spec fn request(
    letters: Seq<char>,
    present: Seq<char>,
    case_sensitive: bool,
    min_len: nat,
    max_len: nat,
    max_repeats: Option<nat>,
) -> Constraints {
    if case_sensitive {
        marked_request(marks(letters), marks(present), min_len, max_len, max_repeats)
    } else {
        lowered_request(lowercase_of(letters), lowercase_of(present), min_len, max_len, max_repeats)
    }
}

/// Each character of `s` as a mark and a letter.
pub fn mark_chars(s: &str) -> (r: Vec<(bool, char)>)
    ensures
        r@ == marks(s@),
{
    let chars = chars_of(s);
    let mut r: Vec<(bool, char)> = Vec::new();
    let mut k: usize = 0;
    while k < chars.len()
        invariant
            k <= chars@.len(),
            chars@ == s@,
            r@ == marks(chars@.subrange(0, k as int)),
        decreases chars@.len() - k,
    {
        let c = chars[k];
        let upper = char_is_uppercase(c);
        let letter = if upper {
            first_lowercase(c)
        } else {
            c
        };
        r.push((upper, letter));
        k = k + 1;
        assert(r@ =~= marks(chars@.subrange(0, k as int)));
    }
    assert(chars@.subrange(0, k as int) =~= s@);
    r
}

/// A search request as sets of characters and bounds.
///
/// `allowed` are the characters permitted at the first position of a word,
/// `anywhere` those permitted at every later position, `required` those that
/// must occur somewhere in the word, and `required_start`, if set, the
/// character the word must begin with. A word's length must lie in
/// `[min_len, max_len]`, and with `max_repeats` set to `Some(k)` no character
/// may occur in it more than `k` times.
pub struct Constraints {
    pub allowed: Set<char>,
    pub anywhere: Set<char>,
    pub required: Set<char>,
    pub required_start: Option<char>,
    pub min_len: nat,
    pub max_len: nat,
    pub max_repeats: Option<nat>,
}

impl Constraints {
    /// Character `c` may stand at position `i` of a word.
    pub open spec fn permits(&self, i: int, c: char) -> bool {
        if i == 0 {
            self.allowed.contains(c)
        } else {
            self.anywhere.contains(c)
        }
    }

    /// Every character of `w` stands at a position that permits it.
    pub open spec fn placed(&self, w: Seq<char>) -> bool {
        forall|i: int| 0 <= i < w.len() ==> self.permits(i, #[trigger] w[i])
    }

    /// No character occurs in `w` more often than the repeat cap.
    pub open spec fn within_repeats(&self, w: Seq<char>) -> bool {
        match self.max_repeats {
            Some(k) => forall|c: char| #[trigger] occurrences(w, c) <= k,
            None => true,
        }
    }

    /// Every required character occurs in `w`.
    pub open spec fn covers_required(&self, w: Seq<char>) -> bool {
        forall|c: char| #[trigger] self.required.contains(c) ==> w.contains(c)
    }

    /// `w` begins with the required leading character, if one is set.
    pub open spec fn starts_right(&self, w: Seq<char>) -> bool {
        match self.required_start {
            Some(s) => w.len() > 0 && w[0] == s,
            None => true,
        }
    }

    /// `w` meets every constraint of the request.
    pub open spec fn admits(&self, w: Seq<char>) -> bool {
        &&& self.min_len <= w.len() <= self.max_len
        &&& self.placed(w)
        &&& self.within_repeats(w)
        &&& self.covers_required(w)
        &&& self.starts_right(w)
    }
}

/// The constraints of one search request, with each character set held as a
/// list.
pub struct ConstraintSet {
    pub allowed: Vec<char>,
    pub anywhere: Vec<char>,
    pub required: Vec<char>,
    pub required_start: Option<char>,
    pub min_len: usize,
    pub max_len: usize,
    pub max_repeats: Option<usize>,
}

impl View for ConstraintSet {
    type V = Constraints;

    open spec fn view(&self) -> Constraints {
        Constraints {
            allowed: self.allowed@.to_set(),
            anywhere: self.anywhere@.to_set(),
            required: self.required@.to_set(),
            required_start: self.required_start,
            min_len: self.min_len as nat,
            max_len: self.max_len as nat,
            max_repeats: cap_of(self.max_repeats),
        }
    }
}

impl ConstraintSet {
    /// `allowed` lists each character once and includes `anywhere`.
    pub open spec fn wf(&self) -> bool {
        &&& self.allowed@.no_duplicates()
        &&& forall|c: char| self.anywhere@.contains(c) ==> self.allowed@.contains(c)
    }

    /// The constraints of a case-sensitive request whose strings were read
    /// as marked letters.
    ///
    /// Fails with a configuration error exactly when `present` has more than
    /// one marked letter.
    pub fn from_marked(
        letters: &Vec<(bool, char)>,
        present: &Vec<(bool, char)>,
        min_len: usize,
        max_len: usize,
        max_repeats: Option<usize>,
    ) -> (r: Result<ConstraintSet, SbsError>)
        ensures
            (r is Err) <==> two_marked(present@),
            r matches Err(e) ==> e is ConfigError,
            r matches Ok(cs) ==> cs.wf() && cs@ == marked_request(
                letters@,
                present@,
                min_len as nat,
                max_len as nat,
                cap_of(max_repeats),
            ),
    {
        let ghost want = marked_request(letters@, present@, min_len as nat, max_len as nat, cap_of(max_repeats));
        let mut allowed: Vec<char> = Vec::new();
        let mut anywhere: Vec<char> = Vec::new();
        let mut k: usize = 0;
        while k < letters.len()
            invariant
                k <= letters@.len(),
                allowed@.no_duplicates(),
                forall|x: char| #[trigger] allowed@.contains(x) <==> exists|i: int| 0 <= i < k && letters@[i].1 == x,
                forall|x: char| #[trigger] anywhere@.contains(x) <==> exists|i: int| 0 <= i < k && !letters@[i].0 && letters@[i].1 == x,
                forall|x: char| anywhere@.contains(x) ==> allowed@.contains(x),
            decreases letters@.len() - k,
        {
            let (marked, c) = letters[k];
            add_char(&mut allowed, c);
            if !marked {
                add_char(&mut anywhere, c);
            }
            proof {
                assert forall|x: char| #[trigger] allowed@.contains(x) <==> exists|i: int| 0 <= i < k + 1 && letters@[i].1 == x by {
                    if x == c {
                        assert(0 <= k < k + 1 && letters@[k as int].1 == x);
                    }
                    if exists|i: int| 0 <= i < k + 1 && letters@[i].1 == x {
                        let i = choose|i: int| 0 <= i < k + 1 && letters@[i].1 == x;
                        if i < k {
                            assert(exists|i: int| 0 <= i < k && letters@[i].1 == x);
                        }
                    }
                }
                assert forall|x: char| #[trigger] anywhere@.contains(x) <==> exists|i: int| 0 <= i < k + 1 && !letters@[i].0 && letters@[i].1 == x by {
                    if x == c && !marked {
                        assert(0 <= k < k + 1 && !letters@[k as int].0 && letters@[k as int].1 == x);
                    }
                    if exists|i: int| 0 <= i < k + 1 && !letters@[i].0 && letters@[i].1 == x {
                        let i = choose|i: int| 0 <= i < k + 1 && !letters@[i].0 && letters@[i].1 == x;
                        if i < k {
                            assert(exists|i: int| 0 <= i < k && !letters@[i].0 && letters@[i].1 == x);
                        }
                    }
                }
            }
            k = k + 1;
        }
        let mut required: Vec<char> = Vec::new();
        let mut start: Option<char> = None;
        let mut k: usize = 0;
        while k < present.len()
            invariant
                k <= present@.len(),
                forall|x: char| #[trigger] required@.contains(x) <==> exists|i: int| 0 <= i < k && present@[i].1 == x,
                forall|i: int, j: int| 0 <= i < j < k ==> !((#[trigger] present@[i]).0 && (#[trigger] present@[j]).0),
                start is None <==> forall|i: int| 0 <= i < k ==> !(#[trigger] present@[i]).0,
                start matches Some(s) ==> exists|j: int| 0 <= j < k && (#[trigger] present@[j]).0 && present@[j].1 == s,
            decreases present@.len() - k,
        {
            let (marked, c) = present[k];
            if marked {
                if start.is_some() {
                    let message = "At most one uppercase required letter allowed in case-sensitive mode".to_owned();
                    proof {
                        let j = choose|j: int| 0 <= j < k && (#[trigger] present@[j]).0 && present@[j].1 == start->0;
                        assert(present@[j].0 && present@[k as int].0);
                        assert(two_marked(present@));
                    }
                    return Err(SbsError::ConfigError(message));
                }
                start = Some(c);
                proof {
                    assert(0 <= k < k + 1 && present@[k as int].0 && present@[k as int].1 == c);
                }
            }
            add_char(&mut required, c);
            proof {
                assert forall|x: char| #[trigger] required@.contains(x) <==> exists|i: int| 0 <= i < k + 1 && present@[i].1 == x by {
                    if x == c {
                        assert(0 <= k < k + 1 && present@[k as int].1 == x);
                    }
                    if exists|i: int| 0 <= i < k + 1 && present@[i].1 == x {
                        let i = choose|i: int| 0 <= i < k + 1 && present@[i].1 == x;
                        if i < k {
                            assert(exists|i: int| 0 <= i < k && present@[i].1 == x);
                        }
                    }
                }
            }
            k = k + 1;
        }
        let cs = ConstraintSet {
            allowed,
            anywhere,
            required,
            required_start: start,
            min_len,
            max_len,
            max_repeats,
        };
        proof {
            assert(cs@.allowed =~= want.allowed);
            assert(cs@.anywhere =~= want.anywhere);
            assert(cs@.required =~= want.required);
            if exists|i: int| 0 <= i < present@.len() && (#[trigger] present@[i]).0 {
                let i = choose|i: int| 0 <= i < present@.len() && (#[trigger] present@[i]).0;
                let j = choose|j: int| 0 <= j < present@.len() && (#[trigger] present@[j]).0 && present@[j].1 == start->0;
                if i < j {
                    assert(!(present@[i].0 && present@[j].0));
                } else if j < i {
                    assert(!(present@[j].0 && present@[i].0));
                }
            }
        }
        Ok(cs)
    }

    /// The constraints of a request whose strings were already taken to
    /// lowercase.
    pub fn from_lowered(
        letters: &str,
        present: &str,
        min_len: usize,
        max_len: usize,
        max_repeats: Option<usize>,
    ) -> (cs: ConstraintSet)
        ensures
            cs.wf(),
            cs@ == lowered_request(letters@, present@, min_len as nat, max_len as nat, cap_of(max_repeats)),
    {
        let lc = chars_of(letters);
        let pc = chars_of(present);
        let cs = ConstraintSet {
            allowed: distinct(&lc),
            anywhere: distinct(&lc),
            required: distinct(&pc),
            required_start: None,
            min_len,
            max_len,
            max_repeats,
        };
        let ghost want = lowered_request(letters@, present@, min_len as nat, max_len as nat, cap_of(max_repeats));
        assert(cs@.allowed =~= want.allowed);
        assert(cs@.anywhere =~= want.anywhere);
        assert(cs@.required =~= want.required);
        cs
    }

    /// Derives the constraints of a request from its raw strings.
    ///
    /// Fails with a configuration error exactly when the request is case
    /// sensitive and `present` holds more than one uppercase character.
    pub fn derive(
        letters: &str,
        present: &str,
        case_sensitive: bool,
        min_len: usize,
        max_len: usize,
        max_repeats: Option<usize>,
    ) -> (r: Result<ConstraintSet, SbsError>)
        ensures
            (r is Err) <==> (case_sensitive && two_marked(marks(present@))),
            r matches Err(e) ==> e is ConfigError,
            r matches Ok(cs) ==> cs.wf() && cs@ == request(
                letters@,
                present@,
                case_sensitive,
                min_len as nat,
                max_len as nat,
                cap_of(max_repeats),
            ),
    {
        if case_sensitive {
            let ml = mark_chars(letters);
            let mp = mark_chars(present);
            ConstraintSet::from_marked(&ml, &mp, min_len, max_len, max_repeats)
        } else {
            let lowered_letters = to_lowercase(letters);
            let lowered_present = to_lowercase(present);
            Ok(ConstraintSet::from_lowered(
                lowered_letters.as_str(),
                lowered_present.as_str(),
                min_len,
                max_len,
                max_repeats,
            ))
        }
    }
}

} // verus!
