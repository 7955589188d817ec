//! Characters of strings, and the case mappings that the search relies on.

use vstd::prelude::*;
use vstd::std_specs::iter::IteratorSpec;

verus! {

/// The characters of `s`, in order.
pub fn chars_of(s: &str) -> (r: Vec<char>)
    ensures
        r@ == s@,
{
    broadcast use vstd::string::group_string_axioms;
    let mut it = s.chars();
    let mut out: Vec<char> = Vec::new();
    loop
        invariant
            out@ + it.remaining() == s@,
            it.obeys_prophetic_iter_laws(),
            it.decrease() is Some,
        ensures
            out@ == s@,
        decreases it.decrease()->0,
    {
        match it.next() {
            Some(c) => {
                out.push(c);
            },
            None => {
                break;
            },
        }
    }
    out
}

/// The index in `v` at which `c` stands, if it does.
pub fn position_of(v: &Vec<char>, c: char) -> (r: Option<usize>)
    ensures
        match r {
            Some(i) => i < v@.len() && v@[i as int] == c,
            None => !v@.contains(c),
        },
{
    let mut i: usize = 0;
    while i < v.len()
        invariant
            i <= v@.len(),
            forall|j: int| 0 <= j < i ==> v@[j] != c,
        decreases v@.len() - i,
    {
        if v[i] == c {
            return Some(i);
        }
        i = i + 1;
    }
    None
}

/// Adds `c` to the list `v` unless it is already there.
pub fn add_char(v: &mut Vec<char>, c: char)
    ensures
        forall|x: char| #[trigger] final(v)@.contains(x) <==> old(v)@.contains(x) || x == c,
        old(v)@.no_duplicates() ==> final(v)@.no_duplicates(),
{
    if position_of(v, c).is_none() {
        v.push(c);
        proof {
            assert(v@.last() == c);
            assert forall|x: char| #[trigger] v@.contains(x) <==> old(v)@.contains(x) || x == c by {
                if v@.contains(x) {
                    let i = choose|i: int| 0 <= i < v@.len() && v@[i] == x;
                    if i < old(v)@.len() {
                        assert(old(v)@[i] == x);
                    }
                }
                if old(v)@.contains(x) {
                    let i = choose|i: int| 0 <= i < old(v)@.len() && old(v)@[i] == x;
                    assert(v@[i] == x);
                }
            }
        }
    }
}

/// The characters of `chars`, each listed once.
pub fn distinct(chars: &Vec<char>) -> (r: Vec<char>)
    ensures
        r@.no_duplicates(),
        forall|x: char| #[trigger] r@.contains(x) <==> chars@.contains(x),
{
    let mut r: Vec<char> = Vec::new();
    let mut k: usize = 0;
    while k < chars.len()
        invariant
            k <= chars@.len(),
            r@.no_duplicates(),
            forall|x: char| #[trigger] r@.contains(x) <==> exists|i: int| 0 <= i < k && chars@[i] == x,
        decreases chars@.len() - k,
    {
        add_char(&mut r, chars[k]);
        proof {
            assert forall|x: char| #[trigger] r@.contains(x) <==> exists|i: int| 0 <= i < k + 1 && chars@[i] == x by {
                if x == chars@[k as int] {
                    assert(0 <= k < k + 1 && chars@[k as int] == x);
                }
                if exists|i: int| 0 <= i < k + 1 && chars@[i] == x {
                    let i = choose|i: int| 0 <= i < k + 1 && chars@[i] == x;
                    if i < k {
                        assert(exists|i: int| 0 <= i < k && chars@[i] == x);
                    }
                }
            }
        }
        k = k + 1;
    }
    r
}

/// The string `s` with every character taken to lowercase, as
/// `str::to_lowercase` gives it.
pub uninterp spec fn lowercase_of(s: Seq<char>) -> Seq<char>;

/// Relies on `str::to_lowercase`: the lowercase mapping of a string, which
/// depends on its characters alone.
#[verifier::external_body]
pub(crate) fn to_lowercase(s: &str) -> (r: String)
    ensures
        r@ == lowercase_of(s@),
{
    s.to_lowercase()
}

/// Whether `c` has the Unicode `Uppercase` property.
pub uninterp spec fn is_upper(c: char) -> bool;

/// Relies on `char::is_uppercase`: whether `c` has the Unicode `Uppercase`
/// property.
#[verifier::external_body]
pub(crate) fn char_is_uppercase(c: char) -> (r: bool)
    ensures
        r == is_upper(c),
{
    c.is_uppercase()
}

/// The first character of the lowercase mapping of `c`.
pub uninterp spec fn lower_char(c: char) -> char;

/// Relies on `char::to_lowercase`, whose iterator yields at least one
/// character: the first of them.
#[verifier::external_body]
pub(crate) fn first_lowercase(c: char) -> (r: char)
    ensures
        r == lower_char(c),
{
    c.to_lowercase().next().unwrap()
}

/// The string `s` without its leading and trailing whitespace, as
/// `str::trim` gives it.
pub uninterp spec fn trimmed_of(s: Seq<char>) -> Seq<char>;

/// Relies on `str::trim`: `s` without leading and trailing whitespace, which
/// depends on its characters alone.
#[verifier::external_body]
pub(crate) fn trim(s: &str) -> (r: &str)
    ensures
        r@ == trimmed_of(s@),
{
    s.trim()
}

/// Whether `c` has the Unicode `Alphabetic` property.
pub uninterp spec fn is_alpha(c: char) -> bool;

/// Relies on `char::is_alphabetic`: whether `c` has the Unicode `Alphabetic`
/// property.
#[verifier::external_body]
pub(crate) fn char_is_alphabetic(c: char) -> (r: bool)
    ensures
        r == is_alpha(c),
{
    c.is_alphabetic()
}

/// `c`, taken to lowercase where it is an uppercase character.
pub open spec fn folded(c: char) -> char {
    if is_upper(c) {
        lower_char(c)
    } else {
        c
    }
}

} // verus!
