//! The depth-first backtracking search of the word index.

use crate::constraints::{
    lemma_occurrences_contains, lemma_occurrences_len, lemma_occurrences_prefix,
    lemma_occurrences_push, occurrences, ConstraintSet,
};
use crate::dictionary::{Dictionary, TrieNode};
use crate::text::position_of;
use vstd::prelude::*;

verus! {

/// `w` is the text of one of the strings of `results`.
pub open spec fn lists(results: Seq<String>, w: Seq<char>) -> bool {
    exists|i: int| 0 <= i < results.len() && (#[trigger] results[i])@ == w
}

/// `w` begins with `p`.
pub open spec fn extends(w: Seq<char>, p: Seq<char>) -> bool {
    p.len() <= w.len() && w.subrange(0, p.len() as int) == p
}

/// The texts of `results` from position `from` on are pairwise distinct.
pub open spec fn distinct_after(results: Seq<String>, from: int) -> bool {
    forall|a: int, b: int|
        from <= a < b < results.len() ==> (#[trigger] results[a])@ != (#[trigger] results[b])@
}

/// The texts of `results` from position `from` on all begin with `p`.
pub open spec fn all_extend(results: Seq<String>, from: int, p: Seq<char>) -> bool {
    forall|k: int| from <= k < results.len() ==> extends((#[trigger] results[k])@, p)
}

/// Each text of `results` from position `from` on is `p` itself, or extends
/// `p` through one of the first `i` edges of `node`.
spec fn segment_shape(results: Seq<String>, from: int, p: Seq<char>, node: TrieNode, i: int) -> bool {
    forall|k: int|
        from <= k < results.len() ==> ((#[trigger] results[k])@ == p || (extends(results[k]@, p)
            && p.len() < results[k]@.len() && exists|j: int|
            0 <= j < i && results[k]@[p.len() as int] == (#[trigger] node.children@[j]).0))
}

/// `w` extends `p` along a path below `node` to a word end, and meets `cs`.
pub open spec fn found_below(node: TrieNode, p: Seq<char>, cs: ConstraintSet, w: Seq<char>) -> bool {
    &&& p.len() <= w.len()
    &&& w.subrange(0, p.len() as int) == p
    &&& node.spells(w.subrange(p.len() as int, w.len() as int))
    &&& cs@.admits(w)
}

/// `w` extends `p` through the edge `j` of `node` to a word end, and meets `cs`.
pub open spec fn found_through(
    node: TrieNode,
    j: int,
    p: Seq<char>,
    cs: ConstraintSet,
    w: Seq<char>,
) -> bool {
    &&& p.len() < w.len()
    &&& w.subrange(0, p.len() as int) == p
    &&& w[p.len() as int] == node.children@[j].0
    &&& node.children@[j].1.spells(w.subrange(p.len() + 1int, w.len() as int))
    &&& cs@.admits(w)
}

/// What the search carries down a path: the built prefix `p` obeys the
/// position, repeat and length rules, `counts` holds how often each allowed
/// character occurs in it, and `slots` locates each required character among
/// the allowed ones.
pub open spec fn search_state(
    cs: ConstraintSet,
    slots: Seq<usize>,
    p: Seq<char>,
    counts: Seq<usize>,
) -> bool {
    &&& p.len() <= cs.max_len
    &&& cs@.placed(p)
    &&& cs@.within_repeats(p)
    &&& counts.len() == cs.allowed@.len()
    &&& forall|a: int| 0 <= a < counts.len() ==> #[trigger] counts[a] == occurrences(p, cs.allowed@[a])
    &&& slots.len() == cs.required@.len()
    &&& forall|r: int|
        0 <= r < slots.len() ==> #[trigger] slots[r] < cs.allowed@.len() && cs.allowed@[slots[r] as int]
            == cs.required@[r]
}

/// A word found below `node` is either the prefix itself, ending a word at
/// `node`, or found through one of its edges.
proof fn lemma_found_split(node: TrieNode, p: Seq<char>, cs: ConstraintSet, w: Seq<char>)
    ensures
        found_below(node, p, cs, w) <==> (w == p && node.is_end_of_word && cs@.admits(w)) || exists|j: int|
            0 <= j < node.children@.len() && #[trigger] found_through(node, j, p, cs, w),
{
    if p.len() <= w.len() && w.subrange(0, p.len() as int) == p {
        let t = w.subrange(p.len() as int, w.len() as int);
        if w.len() == p.len() {
            assert(t =~= Seq::<char>::empty());
            assert(w =~= p);
            assert forall|j: int| 0 <= j < node.children@.len() implies !found_through(node, j, p, cs, w) by {}
        } else {
            assert(t.drop_first() =~= w.subrange(p.len() + 1int, w.len() as int));
            assert(t[0] == w[p.len() as int]);
            if node.spells(t) {
                let j = choose|j: int|
                    0 <= j < node.children@.len() && (#[trigger] node.children@[j]).0 == t[0]
                        && node.children@[j].1.spells(t.drop_first());
                if cs@.admits(w) {
                    assert(found_through(node, j, p, cs, w));
                }
            }
            if exists|j: int| 0 <= j < node.children@.len() && #[trigger] found_through(node, j, p, cs, w) {
                let j = choose|j: int| 0 <= j < node.children@.len() && #[trigger] found_through(node, j, p, cs, w);
                assert(node.children@[j].0 == t[0]);
                assert(node.spells(t));
            }
        }
    } else {
        if w == p {
            assert(w.subrange(0, p.len() as int) =~= p);
        }
        if exists|j: int| 0 <= j < node.children@.len() && #[trigger] found_through(node, j, p, cs, w) {
            let j = choose|j: int| 0 <= j < node.children@.len() && #[trigger] found_through(node, j, p, cs, w);
        }
    }
}

/// A word found below the child at edge `j`, from the prefix extended by that
/// edge's character, is exactly one found through edge `j`.
proof fn lemma_found_child(node: TrieNode, j: int, p: Seq<char>, cs: ConstraintSet, w: Seq<char>)
    requires
        0 <= j < node.children@.len(),
    ensures
        found_below(node.children@[j].1, p.push(node.children@[j].0), cs, w) <==> found_through(node, j, p, cs, w),
{
    let c = node.children@[j].0;
    let q = p.push(c);
    if found_below(node.children@[j].1, q, cs, w) {
        assert(w.subrange(0, p.len() as int) =~= q.subrange(0, p.len() as int));
        assert(q.subrange(0, p.len() as int) =~= p);
        assert(w[p.len() as int] == q[p.len() as int]);
    }
    if found_through(node, j, p, cs, w) {
        assert forall|k: int| 0 <= k < q.len() implies w.subrange(0, q.len() as int)[k] == q[k] by {
            if k < p.len() {
                assert(w.subrange(0, p.len() as int)[k] == p[k]);
            }
        }
        assert(w.subrange(0, q.len() as int) =~= q);
    }
}

/// Relies on `String::from_iter`: the string holds the given characters in order.
#[verifier::external_body]
fn string_of(chars: &Vec<char>) -> (r: String)
    ensures
        r@ == chars@,
{
    String::from_iter(chars.iter())
}

/// Collects into `results` every word below `node` that extends the built
/// prefix `word` and meets `cs`; `word` and `counts` come back as they were.
fn find_words(
    node: &TrieNode,
    word: &mut Vec<char>,
    counts: &mut Vec<usize>,
    slots: &Vec<usize>,
    cs: &ConstraintSet,
    results: &mut Vec<String>,
)
    requires
        cs.wf(),
        node.wf(),
        search_state(*cs, slots@, old(word)@, old(counts)@),
    ensures
        final(word)@ == old(word)@,
        final(counts)@ == old(counts)@,
        old(results)@.len() <= final(results)@.len(),
        final(results)@.subrange(0, old(results)@.len() as int) == old(results)@,
        all_extend(final(results)@, old(results)@.len() as int, old(word)@),
        distinct_after(final(results)@, old(results)@.len() as int),
        forall|w: Seq<char>|
            #[trigger] lists(final(results)@, w) <==> lists(old(results)@, w) || found_below(
                *node,
                old(word)@,
                *cs,
                w,
            ),
    decreases node,
{
    let ghost p = word@;
    let ghost c0 = counts@;
    let ghost entry = results@;
    let depth = word.len();
    if node.is_end_of_word && depth >= cs.min_len {
        let mut ok = true;
        let mut r: usize = 0;
        while r < slots.len()
            invariant
                r <= slots@.len(),
                search_state(*cs, slots@, p, counts@),
                ok <==> forall|q: int| 0 <= q < r ==> counts@[#[trigger] slots@[q] as int] > 0,
            decreases slots@.len() - r,
        {
            if counts[slots[r]] == 0 {
                ok = false;
            }
            r = r + 1;
        }
        proof {
            assert forall|c: char| #[trigger] cs@.required.contains(c) implies (p.contains(c) <==> (
            occurrences(p, c) > 0)) by {
                lemma_occurrences_contains(p, c);
            }
            if ok {
                assert forall|c: char| #[trigger] cs@.required.contains(c) implies p.contains(c) by {
                    let q = choose|q: int| 0 <= q < cs.required@.len() && cs.required@[q] == c;
                    assert(counts@[slots@[q] as int] > 0);
                }
            } else {
                let q = choose|q: int| 0 <= q < slots@.len() && !(counts@[#[trigger] slots@[q] as int] > 0);
                assert(cs.required@.contains(cs.required@[q]));
                assert(cs@.required.contains(cs.required@[q]));
            }
        }
        if ok {
            match cs.required_start {
                Some(s) => {
                    if depth == 0 || word[0] != s {
                        ok = false;
                    }
                },
                None => {},
            }
        }
        if ok {
            let text = string_of(word);
            results.push(text);
            proof {
                assert(results@[results@.len() - 1]@ == p);
                assert forall|w: Seq<char>| #[trigger] lists(results@, w) <==> lists(entry, w) || w == p by {
                    if lists(results@, w) {
                        let i = choose|i: int| 0 <= i < results@.len() && (#[trigger] results@[i])@ == w;
                        if i < entry.len() {
                            assert(entry[i] == results@[i]);
                        }
                    }
                    if lists(entry, w) {
                        let i = choose|i: int| 0 <= i < entry.len() && (#[trigger] entry[i])@ == w;
                        assert(results@[i] == entry[i]);
                    }
                }
            }
        }
        assert(ok <==> cs@.admits(p));
    }
    assert(forall|w: Seq<char>| #[trigger] lists(results@, w) <==> lists(entry, w) || (w == p
        && node.is_end_of_word && cs@.admits(w)));
    assert(results@.subrange(0, entry.len() as int) =~= entry);
    assert(results@.len() <= entry.len() + 1);
    assert(segment_shape(results@, entry.len() as int, p, *node, 0));
    if depth < cs.max_len {
        let mut i: usize = 0;
        while i < node.children.len()
            invariant
                i <= node.children@.len(),
                cs.wf(),
                depth == p.len() < cs.max_len,
                word@ == p,
                counts@ == c0,
                search_state(*cs, slots@, p, c0),
                forall|w: Seq<char>| #[trigger] lists(results@, w) <==> lists(entry, w) || (w == p
                    && node.is_end_of_word && cs@.admits(w)) || exists|j: int|
                    0 <= j < i && #[trigger] found_through(*node, j, p, *cs, w),
                node.wf(),
                entry.len() <= results@.len(),
                results@.subrange(0, entry.len() as int) == entry,
                distinct_after(results@, entry.len() as int),
                segment_shape(results@, entry.len() as int, p, *node, i as int),
            decreases node.children@.len() - i,
        {
            let ch = node.children[i].0;
            let ghost before = results@;
            let mut descend = false;
            match position_of(&cs.allowed, ch) {
                Some(a) => {
                    let permitted = if depth == 0 {
                        true
                    } else {
                        position_of(&cs.anywhere, ch).is_some()
                    };
                    let under_cap = match cs.max_repeats {
                        Some(k) => counts[a] < k,
                        None => true,
                    };
                    if permitted && under_cap {
                        descend = true;
                        proof {
                            lemma_occurrences_len(p, ch);
                        }
                        word.push(ch);
                        counts.set(a, counts[a] + 1);
                        proof {
                            let q = p.push(ch);
                            assert(word@ == q);
                            assert forall|b: int| 0 <= b < counts@.len() implies #[trigger] counts@[b]
                                == occurrences(q, cs.allowed@[b]) by {
                                lemma_occurrences_push(p, ch, cs.allowed@[b]);
                            }
                            assert forall|k: int| 0 <= k < q.len() implies cs@.permits(k, #[trigger] q[k]) by {
                                if k < p.len() {
                                    assert(q[k] == p[k]);
                                }
                            }
                            if cs.max_repeats is Some {
                                assert forall|c: char| #[trigger] occurrences(q, c) <= cs@.max_repeats->0 by {
                                    lemma_occurrences_push(p, ch, c);
                                }
                            }
                        }
                        assert(node.children@[i as int].1.wf());
                        find_words(&node.children[i].1, word, counts, slots, cs, results);
                        word.pop();
                        counts.set(a, counts[a] - 1);
                        proof {
                            let after = results@;
                            let q = p.push(ch);
                            assert(after.subrange(0, entry.len() as int) =~= before.subrange(0, entry.len() as int)) by {
                                assert forall|k: int| 0 <= k < entry.len() implies after[k] == before[k] by {
                                    assert(after.subrange(0, before.len() as int)[k] == after[k]);
                                }
                            }
                            assert forall|k: int| before.len() <= k < after.len() implies p.len() < (#[trigger] after[k])@.len()
                                && extends(after[k]@, p) && after[k]@[p.len() as int] == ch by {
                                assert(extends(after[k]@, q));
                                assert(after[k]@.subrange(0, q.len() as int)[p.len() as int] == q[p.len() as int]);
                                assert(after[k]@.subrange(0, p.len() as int) =~= after[k]@.subrange(0, q.len() as int).subrange(0, p.len() as int));
                                assert(q.subrange(0, p.len() as int) =~= p);
                            }
                            assert forall|k: int| entry.len() <= k < before.len() implies #[trigger] after[k] == before[k] by {
                                assert(after.subrange(0, before.len() as int)[k] == after[k]);
                            }
                            assert forall|k: int| entry.len() <= k < after.len() implies ((#[trigger] after[k])@ == p || (extends(after[k]@, p)
                                && p.len() < after[k]@.len() && exists|j: int|
                                0 <= j < i + 1 && after[k]@[p.len() as int] == (#[trigger] node.children@[j]).0)) by {
                                if k < before.len() {
                                    assert(before[k] == after[k]);
                                    if before[k]@ != p {
                                        let j = choose|j: int| 0 <= j < i && before[k]@[p.len() as int] == (#[trigger] node.children@[j]).0;
                                        assert(0 <= j < i + 1);
                                    }
                                } else {
                                    assert(after[k]@[p.len() as int] == node.children@[i as int].0);
                                }
                            }
                            assert forall|x: int, y: int| entry.len() <= x < y < after.len() implies (#[trigger] after[x])@ != (#[trigger] after[y])@ by {
                                if y < before.len() {
                                    assert(before[x] == after[x] && before[y] == after[y]);
                                } else if x < before.len() {
                                    assert(before[x] == after[x]);
                                    if before[x]@ != p {
                                        let j = choose|j: int| 0 <= j < i && before[x]@[p.len() as int] == (#[trigger] node.children@[j]).0;
                                        assert(node.children@[j].0 != node.children@[i as int].0);
                                    }
                                }
                            }
                            assert(word@ =~= p);
                            assert(counts@ =~= c0);
                            assert forall|w: Seq<char>| found_below(node.children@[i as int].1, p.push(ch), *cs, w)
                                <==> #[trigger] found_through(*node, i as int, p, *cs, w) by {
                                lemma_found_child(*node, i as int, p, *cs, w);
                            }
                        }
                    }
                },
                None => {},
            }
            proof {
                assert forall|k: int| entry.len() <= k < results@.len() implies ((#[trigger] results@[k])@ == p || (extends(results@[k]@, p)
                    && p.len() < results@[k]@.len() && exists|j: int|
                    0 <= j < i + 1 && results@[k]@[p.len() as int] == (#[trigger] node.children@[j]).0)) by {
                    if !descend && results@[k]@ != p {
                        let j = choose|j: int| 0 <= j < i && results@[k]@[p.len() as int] == (#[trigger] node.children@[j]).0;
                        assert(0 <= j < i + 1);
                    }
                }
                if !descend {
                    assert forall|w: Seq<char>| !#[trigger] found_through(*node, i as int, p, *cs, w) by {
                        if found_through(*node, i as int, p, *cs, w) {
                            assert(w[p.len() as int] == ch);
                            assert(cs@.permits(p.len() as int, w[p.len() as int]));
                            if cs.allowed@.contains(ch) {
                                let a = choose|a: int| 0 <= a < cs.allowed@.len() && cs.allowed@[a] == ch;
                                assert(w.subrange(0, p.len() + 1int) =~= p.push(ch));
                                lemma_occurrences_prefix(w, p.len() + 1int, ch);
                                lemma_occurrences_push(p, ch, ch);
                                assert(c0[a] == occurrences(p, ch));
                            }
                        }
                    }
                }
                assert forall|w: Seq<char>| #[trigger] lists(results@, w) <==> lists(entry, w) || (w == p
                    && node.is_end_of_word && cs@.admits(w)) || exists|j: int|
                    0 <= j < i + 1 && #[trigger] found_through(*node, j, p, *cs, w) by {
                    if descend {
                        lemma_found_child(*node, i as int, p, *cs, w);
                    }
                    assert(lists(results@, w) <==> lists(before, w) || found_through(*node, i as int, p, *cs, w));
                    if exists|j: int| 0 <= j < i + 1 && #[trigger] found_through(*node, j, p, *cs, w) {
                        let j = choose|j: int| 0 <= j < i + 1 && #[trigger] found_through(*node, j, p, *cs, w);
                        if j < i {
                            assert(exists|j: int| 0 <= j < i && #[trigger] found_through(*node, j, p, *cs, w));
                        }
                    }
                    if exists|j: int| 0 <= j < i && #[trigger] found_through(*node, j, p, *cs, w) {
                        let j = choose|j: int| 0 <= j < i && #[trigger] found_through(*node, j, p, *cs, w);
                        assert(0 <= j < i + 1 && found_through(*node, j, p, *cs, w));
                    }
                }
            }
            i = i + 1;
        }
    }
    proof {
        assert forall|k: int| entry.len() <= k < results@.len() implies extends((#[trigger] results@[k])@, p) by {
            if results@[k]@ == p {
                assert(results@[k]@.subrange(0, p.len() as int) =~= p);
            }
        }
        assert forall|w: Seq<char>| #[trigger] lists(results@, w) <==> lists(entry, w) || found_below(*node, p, *cs, w) by {
            lemma_found_split(*node, p, *cs, w);
            if depth >= cs.max_len {
                assert forall|j: int| 0 <= j < node.children@.len() implies !#[trigger] found_through(*node, j, p, *cs, w) by {}
            }
        }
    }
}

/// Every word of `dict` that meets `cs`, each listed once.
pub fn search(dict: &Dictionary, cs: &ConstraintSet) -> (r: Vec<String>)
    requires
        cs.wf(),
        dict.wf(),
    ensures
        distinct_after(r@, 0),
        forall|w: Seq<char>| #[trigger] lists(r@, w) <==> dict@.contains(w) && cs@.admits(w),
{
    let mut slots: Vec<usize> = Vec::new();
    let mut r: usize = 0;
    while r < cs.required.len()
        invariant
            cs.wf(),
            r <= cs.required@.len(),
            slots@.len() == r,
            forall|q: int|
                0 <= q < r ==> #[trigger] slots@[q] < cs.allowed@.len() && cs.allowed@[slots@[q] as int]
                    == cs.required@[q],
        decreases cs.required@.len() - r,
    {
        match position_of(&cs.allowed, cs.required[r]) {
            Some(a) => {
                slots.push(a);
            },
            None => {
                let ghost c = cs.required@[r as int];
                assert forall|w: Seq<char>| !(#[trigger] cs@.admits(w)) by {
                    if cs@.admits(w) {
                        assert(cs.required@[r as int] == c);
                        assert(cs@.required.contains(c));
                        assert(w.contains(c));
                        let k = choose|k: int| 0 <= k < w.len() && w[k] == c;
                        assert(cs@.permits(k, w[k]));
                        if k > 0 {
                            assert(cs.anywhere@.contains(c));
                        }
                        assert(cs.allowed@.contains(c));
                    }
                }
                let empty: Vec<String> = Vec::new();
                assert(distinct_after(empty@, 0));
                return empty;
            },
        }
        r = r + 1;
    }
    let mut counts: Vec<usize> = Vec::new();
    while counts.len() < cs.allowed.len()
        invariant
            counts@.len() <= cs.allowed@.len(),
            forall|a: int| 0 <= a < counts@.len() ==> #[trigger] counts@[a] == 0,
        decreases cs.allowed@.len() - counts@.len(),
    {
        counts.push(0);
    }
    let mut word: Vec<char> = Vec::new();
    let mut results: Vec<String> = Vec::new();
    proof {
        let p = Seq::<char>::empty();
        assert(word@ == p);
        assert forall|c: char| #[trigger] occurrences(p, c) == 0 by {}
        assert forall|a: int| 0 <= a < counts@.len() implies #[trigger] counts@[a] == occurrences(p, cs.allowed@[a]) by {}
    }
    find_words(&dict.root, &mut word, &mut counts, &slots, cs, &mut results);
    proof {
        assert forall|w: Seq<char>| #[trigger] lists(results@, w) <==> dict@.contains(w) && cs@.admits(w) by {
            assert(w.subrange(0, 0) =~= Seq::<char>::empty());
            assert(w.subrange(0, w.len() as int) =~= w);
            assert(!lists(Seq::<String>::empty(), w));
        }
    }
    results
}

} // verus!
