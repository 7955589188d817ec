//! Rendering found words and confirmed entries as text.

use crate::validator::WordEntry;
use vstd::prelude::*;
use vstd::string::StringExecFns;

verus! {

/// `items` with `sep` between each two neighbours.
pub open spec fn joined(items: Seq<Seq<char>>, sep: Seq<char>) -> Seq<char>
    decreases items.len(),
{
    if items.len() == 0 {
        Seq::empty()
    } else if items.len() == 1 {
        items[0]
    } else {
        joined(items.drop_last(), sep) + sep + items.last()
    }
}

/// The texts of a list of strings.
pub open spec fn texts(words: Seq<String>) -> Seq<Seq<char>> {
    words.map_values(|s: String| s@)
}

/// A word set in bold, as markdown writes it.
pub open spec fn bold(w: Seq<char>) -> Seq<char> {
    "**"@ + w + "**"@
}

/// The pretty-printed JSON array of the given strings, as `serde_json` writes it.
pub uninterp spec fn pretty_json_of(words: Seq<Seq<char>>) -> Seq<char>;

/// Relies on `serde_json::to_string_pretty`: the pretty-printed JSON array of
/// the strings, which depends on them alone; a list of strings always
/// serialises.
#[verifier::external_body]
fn to_pretty_json(words: &[String]) -> (r: String)
    ensures
        r@ == pretty_json_of(texts(words@)),
{
    serde_json::to_string_pretty(words).unwrap()
}

/// Joins `parts` with `sep` between each two neighbours.
fn join(parts: &Vec<String>, sep: &str) -> (r: String)
    ensures
        r@ == joined(texts(parts@), sep@),
{
    let mut r = String::new();
    let mut k: usize = 0;
    while k < parts.len()
        invariant
            k <= parts@.len(),
            r@ == joined(texts(parts@.subrange(0, k as int)), sep@),
        decreases parts@.len() - k,
    {
        let ghost before = parts@.subrange(0, k as int);
        if k > 0 {
            r.append(sep);
        }
        r.append(parts[k].as_str());
        k = k + 1;
        proof {
            let now = texts(parts@.subrange(0, k as int));
            assert(now.drop_last() =~= texts(before));
            assert(now.last() == parts@[k - 1]@);
            if k == 1 {
                assert(texts(before) =~= Seq::<Seq<char>>::empty());
            }
        }
    }
    assert(parts@.subrange(0, k as int) =~= parts@);
    r
}

/// The found words in the given output format: `json` gives a pretty-printed
/// JSON array, `markdown` each word in bold with a blank line between, and
/// any other format one word per line.
pub fn format_unvalidated(words: &[String], format: &str) -> (r: String)
    ensures
        r@ == if format@ == "json"@ {
            pretty_json_of(texts(words@))
        } else if format@ == "markdown"@ {
            joined(texts(words@).map_values(|w: Seq<char>| bold(w)), "\n\n"@)
        } else {
            joined(texts(words@), "\n"@)
        },
{
    let name = format.to_owned();
    if name == "json".to_owned() {
        return to_pretty_json(words);
    }
    let markdown = name == "markdown".to_owned();
    let mut parts: Vec<String> = Vec::new();
    let mut k: usize = 0;
    while k < words.len()
        invariant
            k <= words@.len(),
            parts@.len() == k,
            forall|i: int| 0 <= i < k ==> (#[trigger] parts@[i])@ == if markdown {
                bold(words@[i]@)
            } else {
                words@[i]@
            },
        decreases words@.len() - k,
    {
        if markdown {
            parts.push("**".to_owned().concat(words[k].as_str()).concat("**"));
        } else {
            parts.push(words[k].clone());
        }
        k = k + 1;
    }
    let sep = if markdown {
        "\n\n"
    } else {
        "\n"
    };
    let r = join(&parts, sep);
    proof {
        if markdown {
            assert(texts(parts@) =~= texts(words@).map_values(|w: Seq<char>| bold(w)));
        } else {
            assert(texts(parts@) =~= texts(words@));
        }
    }
    r
}

/// Confirmed entries as plain text: one entry per line, the word and its
/// definition separated by a tab.
pub fn format_entries_plain(entries: &[WordEntry]) -> (r: String)
    ensures
        r@ == joined(entries@.map_values(|e: WordEntry| e.word@ + "\t"@ + e.definition@), "\n"@),
{
    let mut parts: Vec<String> = Vec::new();
    let mut k: usize = 0;
    while k < entries.len()
        invariant
            k <= entries@.len(),
            parts@.len() == k,
            forall|i: int| 0 <= i < k ==> (#[trigger] parts@[i])@ == entries@[i].word@ + "\t"@ + entries@[i].definition@,
        decreases entries@.len() - k,
    {
        let e = &entries[k];
        parts.push(e.word.clone().concat("\t").concat(e.definition.as_str()));
        k = k + 1;
    }
    let r = join(&parts, "\n");
    assert(texts(parts@) =~= entries@.map_values(|e: WordEntry| e.word@ + "\t"@ + e.definition@));
    r
}

/// Confirmed entries as markdown: each word in bold over its definition, a
/// blank line between entries.
pub fn format_entries_markdown(entries: &[WordEntry]) -> (r: String)
    ensures
        r@ == joined(entries@.map_values(|e: WordEntry| bold(e.word@) + "\n"@ + e.definition@), "\n\n"@),
{
    let mut parts: Vec<String> = Vec::new();
    let mut k: usize = 0;
    while k < entries.len()
        invariant
            k <= entries@.len(),
            parts@.len() == k,
            forall|i: int| 0 <= i < k ==> (#[trigger] parts@[i])@ == bold(entries@[i].word@) + "\n"@ + entries@[i].definition@,
        decreases entries@.len() - k,
    {
        let e = &entries[k];
        parts.push("**".to_owned().concat(e.word.as_str()).concat("**").concat("\n").concat(e.definition.as_str()));
        k = k + 1;
    }
    let r = join(&parts, "\n\n");
    assert(texts(parts@) =~= entries@.map_values(|e: WordEntry| bold(e.word@) + "\n"@ + e.definition@));
    r
}

} // verus!
