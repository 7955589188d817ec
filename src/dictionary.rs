//! The word index: a prefix tree built once from a list of words.

use crate::text::{
    char_is_alphabetic, chars_of, is_alpha, lowercase_of, to_lowercase, trim, trimmed_of,
};
use vstd::prelude::*;

verus! {

/// One prefix position of the index: the edges to the next positions, each
/// labelled by one character, and whether a complete word ends here.
pub struct TrieNode {
    pub children: Vec<(char, TrieNode)>,
    pub is_end_of_word: bool,
}

impl TrieNode {
    /// The path spelled by `w` leads from this node to one that ends a word.
    pub open spec fn spells(&self, w: Seq<char>) -> bool
        decreases w.len(),
    {
        if w.len() == 0 {
            self.is_end_of_word
        } else {
            exists|i: int|
                0 <= i < self.children@.len() && (#[trigger] self.children@[i]).0 == w[0]
                    && self.children@[i].1.spells(w.drop_first())
        }
    }

    /// The words stored below this node.
    pub open spec fn words(&self) -> Set<Seq<char>> {
        Set::new(|w: Seq<char>| self.spells(w))
    }

    /// No two edges out of this node carry the same character.
    pub open spec fn keys_unique(&self) -> bool {
        forall|i: int, j: int|
            0 <= i < j < self.children@.len() ==> self.children@[i].0 != self.children@[j].0
    }

    /// Every node of the subtree has unique edge labels.
    pub open spec fn wf(&self) -> bool
        decreases self,
    {
        &&& self.keys_unique()
        &&& forall|i: int|
            0 <= i < self.children@.len() ==> (#[trigger] self.children@[i]).1.wf()
    }

    /// A node with no edges that ends no word.
    pub fn new() -> (r: TrieNode)
        ensures
            r.wf(),
            r.words() == Set::<Seq<char>>::empty(),
    {
        let r = TrieNode { children: Vec::new(), is_end_of_word: false };
        assert(r.words() =~= Set::<Seq<char>>::empty());
        r
    }

    /// The index of the edge labelled `c`, if there is one.
    fn child_index(&self, c: char) -> (r: Option<usize>)
        ensures
            match r {
                Some(i) => i < self.children@.len() && self.children@[i as int].0 == c,
                None => forall|j: int|
                    0 <= j < self.children@.len() ==> self.children@[j].0 != c,
            },
    {
        let mut i: usize = 0;
        while i < self.children.len()
            invariant
                i <= self.children@.len(),
                forall|j: int| 0 <= j < i ==> self.children@[j].0 != c,
            decreases self.children@.len() - i,
        {
            if self.children[i].0 == c {
                return Some(i);
            }
            i = i + 1;
        }
        None
    }

    /// Adds the characters of `word` from position `pos` on as a path below
    /// this node, creating nodes where none exist, and marks its end.
    fn insert_from(&mut self, word: &Vec<char>, pos: usize)
        requires
            old(self).wf(),
            pos <= word@.len(),
        ensures
            final(self).wf(),
            final(self).words() == old(self).words().insert(
                word@.subrange(pos as int, word@.len() as int),
            ),
        decreases word@.len() - pos,
    {
        let ghost rest = word@.subrange(pos as int, word@.len() as int);
        if pos == word.len() {
            self.is_end_of_word = true;
            assert forall|w: Seq<char>| #[trigger] self.spells(w) == (old(self).spells(w) || w == rest) by {
                if w.len() == 0 {
                    assert(rest =~= w);
                }
            }
            assert(self.words() =~= old(self).words().insert(rest));
        } else {
            let c = word[pos];
            let ghost tail = word@.subrange(pos + 1, word@.len() as int);
            assert(rest.drop_first() =~= tail);
            match self.child_index(c) {
                Some(i) => {
                    let ghost before = self.children@[i as int].1;
                    let child = &mut self.children[i].1;
                    child.insert_from(word, pos + 1);
                    assert(self.children@[i as int].1.words() == before.words().insert(tail));
                    assert(self.children@.len() == old(self).children@.len());
                    assert(self.children@[i as int].0 == c);
                    assert(forall|j: int|
                        0 <= j < self.children@.len() && j != i ==> self.children@[j]
                            == old(self).children@[j]);
                    assert(rest[0] == c);
                    assert forall|w: Seq<char>| #[trigger] self.spells(w) == (old(self).spells(w) || w == rest) by {
                        if w.len() > 0 && w[0] == c {
                            let t = w.drop_first();
                            assert(self.children@[i as int].1.words().contains(t) == self.children@[i as int].1.spells(t));
                            assert(before.words().contains(t) == before.spells(t));
                            if old(self).spells(w) {
                                let j = choose|j: int|
                                    0 <= j < old(self).children@.len() && (#[trigger] old(self).children@[j]).0 == w[0]
                                        && old(self).children@[j].1.spells(t);
                                assert(j == i);
                            }
                            if self.spells(w) {
                                let j = choose|j: int|
                                    0 <= j < self.children@.len() && (#[trigger] self.children@[j]).0 == w[0]
                                        && self.children@[j].1.spells(t);
                                assert(j == i);
                            }
                            if w == rest {
                                assert(t =~= tail);
                            }
                            if t == tail {
                                assert forall|k: int| 0 <= k < w.len() implies w[k] == rest[k] by {
                                    if k > 0 {
                                        assert(w[k] == t[k - 1]);
                                        assert(rest[k] == tail[k - 1]);
                                    }
                                }
                                assert(w =~= rest);
                            }
                        } else if w.len() > 0 {
                            assert(w != rest);
                            if old(self).spells(w) {
                                let j = choose|j: int|
                                    0 <= j < old(self).children@.len() && (#[trigger] old(self).children@[j]).0 == w[0]
                                        && old(self).children@[j].1.spells(w.drop_first());
                                assert(j != i);
                                assert(self.children@[j] == old(self).children@[j]);
                                assert(self.children@[j].1.spells(w.drop_first()));
                            }
                            if self.spells(w) {
                                let j = choose|j: int|
                                    0 <= j < self.children@.len() && (#[trigger] self.children@[j]).0 == w[0]
                                        && self.children@[j].1.spells(w.drop_first());
                                assert(j != i);
                                assert(self.children@[j] == old(self).children@[j]);
                                assert(old(self).children@[j].1.spells(w.drop_first()));
                            }
                        } else {
                            assert(w != rest);
                        }
                    }
                    assert(self.words() =~= old(self).words().insert(rest));
                },
                None => {
                    let mut child = TrieNode::new();
                    child.insert_from(word, pos + 1);
                    assert(child.words().contains(tail));
                    self.children.push((c, child));
                    let ghost k = self.children@.len() - 1;
                    assert(rest[0] == c);
                    assert forall|w: Seq<char>| #[trigger] self.spells(w) == (old(self).spells(w) || w == rest) by {
                        if w.len() > 0 {
                            let t = w.drop_first();
                            assert(child.words().contains(t) == child.spells(t));
                            if w == rest {
                                assert(t =~= tail);
                                assert(self.children@[k].1.spells(t));
                            }
                            if old(self).spells(w) {
                                let j = choose|j: int|
                                    0 <= j < old(self).children@.len() && (#[trigger] old(self).children@[j]).0 == w[0]
                                        && old(self).children@[j].1.spells(t);
                                assert(self.children@[j].1.spells(t));
                            }
                            if self.spells(w) {
                                let j = choose|j: int|
                                    0 <= j < self.children@.len() && (#[trigger] self.children@[j]).0 == w[0]
                                        && self.children@[j].1.spells(t);
                                if j == k {
                                    assert(t == tail);
                                    assert forall|m: int| 0 <= m < w.len() implies w[m] == rest[m] by {
                                        if m > 0 {
                                            assert(w[m] == t[m - 1]);
                                            assert(rest[m] == tail[m - 1]);
                                        }
                                    }
                                    assert(w =~= rest);
                                } else {
                                    assert(old(self).children@[j].1.spells(t));
                                }
                            }
                        } else {
                            assert(w != rest);
                        }
                    }
                    assert(self.words() =~= old(self).words().insert(rest));
                },
            }
        }
    }

    /// Adds `word` as a path below this node and marks its end.
    pub fn insert(&mut self, word: &str)
        requires
            old(self).wf(),
        ensures
            final(self).wf(),
            final(self).words() == old(self).words().insert(word@),
    {
        let chars = chars_of(word);
        self.insert_from(&chars, 0);
        assert(chars@.subrange(0, chars@.len() as int) =~= word@);
    }
}

/// The word that a line of a word source holds: the line trimmed and taken
/// to lowercase, if that leaves a non-empty run of alphabetic characters.
pub open spec fn entry_of(line: Seq<char>) -> Option<Seq<char>> {
    let w = lowercase_of(trimmed_of(line));
    if w.len() > 0 && forall|i: int| 0 <= i < w.len() ==> is_alpha(#[trigger] w[i]) {
        Some(w)
    } else {
        None
    }
}

/// The word that a line of a word source holds, if it holds one.
pub fn normalize_entry(line: &str) -> (r: Option<String>)
    ensures
        match entry_of(line@) {
            Some(w) => r matches Some(s) && s@ == w,
            None => r is None,
        },
{
    let lowered = to_lowercase(trim(line));
    let chars = chars_of(lowered.as_str());
    if chars.len() == 0 {
        return None;
    }
    let mut i: usize = 0;
    while i < chars.len()
        invariant
            i <= chars@.len(),
            chars@ == lowercase_of(trimmed_of(line@)),
            forall|j: int| 0 <= j < i ==> is_alpha(#[trigger] chars@[j]),
        decreases chars@.len() - i,
    {
        if !char_is_alphabetic(chars[i]) {
            return None;
        }
        i = i + 1;
    }
    Some(lowered)
}

/// A read-only index of words, held as a prefix tree.
pub struct Dictionary {
    pub root: TrieNode,
}

impl View for Dictionary {
    type V = Set<Seq<char>>;

    /// The indexed words.
    open spec fn view(&self) -> Set<Seq<char>> {
        self.root.words()
    }
}

impl Dictionary {
    pub open spec fn wf(&self) -> bool {
        self.root.wf()
    }

    /// An index that holds no word.
    pub fn new() -> (d: Dictionary)
        ensures
            d.wf(),
            d@ == Set::<Seq<char>>::empty(),
    {
        Dictionary { root: TrieNode::new() }
    }

    /// The index of exactly the given words.
    pub fn from_words(words: &[&str]) -> (d: Dictionary)
        ensures
            d.wf(),
            d@ == Set::new(|w: Seq<char>| exists|i: int| 0 <= i < words@.len() && w == (#[trigger] words@[i])@),
    {
        let mut root = TrieNode::new();
        let mut k: usize = 0;
        while k < words.len()
            invariant
                k <= words@.len(),
                root.wf(),
                root.words() == Set::new(|w: Seq<char>| exists|i: int| 0 <= i < k && w == (#[trigger] words@[i])@),
            decreases words@.len() - k,
        {
            root.insert(words[k]);
            k = k + 1;
            assert(root.words() =~= Set::new(|w: Seq<char>| exists|i: int| 0 <= i < k && w == (#[trigger] words@[i])@));
        }
        let d = Dictionary { root };
        assert(d@ =~= Set::new(|w: Seq<char>| exists|i: int| 0 <= i < words@.len() && w == (#[trigger] words@[i])@));
        d
    }

    /// The index of the words that the lines of a word source hold; lines
    /// that hold none are passed over.
    pub fn from_lines(lines: &[&str]) -> (d: Dictionary)
        ensures
            d.wf(),
            d@ == Set::new(|w: Seq<char>| exists|i: int| 0 <= i < lines@.len() && entry_of((#[trigger] lines@[i])@) == Some(w)),
    {
        let mut root = TrieNode::new();
        let mut k: usize = 0;
        while k < lines.len()
            invariant
                k <= lines@.len(),
                root.wf(),
                root.words() == Set::new(|w: Seq<char>| exists|i: int| 0 <= i < k && entry_of((#[trigger] lines@[i])@) == Some(w)),
            decreases lines@.len() - k,
        {
            let ghost before = root.words();
            match normalize_entry(lines[k]) {
                Some(word) => {
                    root.insert(word.as_str());
                },
                None => {},
            }
            k = k + 1;
            assert(root.words() =~= Set::new(|w: Seq<char>| exists|i: int| 0 <= i < k && entry_of((#[trigger] lines@[i])@) == Some(w))) by {
                assert forall|w: Seq<char>| #[trigger] root.words().contains(w) <==> exists|i: int| 0 <= i < k && entry_of((#[trigger] lines@[i])@) == Some(w) by {
                    if exists|i: int| 0 <= i < k && entry_of((#[trigger] lines@[i])@) == Some(w) {
                        let i = choose|i: int| 0 <= i < k && entry_of((#[trigger] lines@[i])@) == Some(w);
                        if i < k - 1 {
                            assert(before.contains(w));
                        }
                    }
                    if before.contains(w) {
                        let i = choose|i: int| 0 <= i < k - 1 && entry_of((#[trigger] lines@[i])@) == Some(w);
                        assert(0 <= i < k);
                    }
                }
            }
        }
        Dictionary { root }
    }
}

impl Default for Dictionary {
    fn default() -> (d: Dictionary)
        ensures
            d.wf(),
            d@ == Set::<Seq<char>>::empty(),
    {
        Dictionary::new()
    }
}

} // verus!
