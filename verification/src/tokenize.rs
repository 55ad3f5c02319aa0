//! The tokenizer: splits raw text into word-like units and normalizes
//! each unit, discarding empty results, lone punctuation characters and
//! stop words.

use crate::stopwords::StopSet;
use crate::text::{
    canon, chars_vec, graphemes, is_punct_char, lower_of, lowercased, punct_char, remove_marks,
    split_word_bounds, trim_of, trimmed, word_bounds_of,
};
use vstd::prelude::*;

verus! {

/// A normalized result that is exactly one punctuation character.
pub open spec fn is_punct_token(t: Seq<char>) -> bool {
    t.len() == 1 && is_punct_char(t[0])
}

/// Whether a raw word survives normalization: its normalized form is
/// nonempty, is not a lone punctuation character, and is not a stop word.
pub open spec fn accepted(w: Seq<char>, stop: Set<Seq<char>>) -> bool {
    let t = canon(w);
    t.len() > 0 && !is_punct_token(t) && !stop.contains(t)
}

/// Normalizes one raw word: trims surrounding whitespace, deletes the
/// marker substrings `'s`, `,` and `.`, and lowercases the rest.  Returns
/// `None` when the result is empty, is a single punctuation grapheme, or
/// is a stop word; otherwise returns the normalized token, which is a
/// fixed point of lowercasing and holds no `,` or `.` character.
pub fn normalize(w: &str, stop: &StopSet) -> (r: Option<String>)
    ensures
        match r {
            Some(t) => t@ == canon(w@) && accepted(w@, stop.word_set()) && lower_of(t@) == t@
                && !t@.contains(',') && !t@.contains('.'),
            None => !accepted(w@, stop.word_set()),
        },
{
    proof {
        crate::text::lemma_strip_marks_free(trim_of(w@));
    }
    let t = lowercased(remove_marks(trimmed(w).as_str()).as_str());
    let cs = chars_vec(t.as_str());
    if cs.len() == 0 {
        return None;
    }
    let gs = graphemes(t.as_str());
    if gs.len() == 1 && cs.len() == 1 && punct_char(cs[0]) {
        return None;
    }
    if stop.contains(&t) {
        return None;
    }
    Some(t)
}

/// The distinct tokens of a sequence of raw words, each word normalized,
/// rejected words dropped, and repeated tokens kept only at their first
/// appearance.
pub open spec fn token_list(ws: Seq<Seq<char>>, stop: Set<Seq<char>>) -> Seq<Seq<char>>
    decreases ws.len(),
{
    if ws.len() == 0 {
        Seq::empty()
    } else {
        let pre = token_list(ws.drop_last(), stop);
        let w = ws.last();
        if accepted(w, stop) && !pre.contains(canon(w)) {
            pre.push(canon(w))
        } else {
            pre
        }
    }
}

/// The distinct tokens of one text: its word-boundary units, normalized
/// and deduplicated in order of first appearance.
pub open spec fn tokens_of(text: Seq<char>, stop: Set<Seq<char>>) -> Seq<Seq<char>> {
    token_list(word_bounds_of(text), stop)
}

/// A token list never holds the same token twice.
pub proof fn lemma_token_list_distinct(ws: Seq<Seq<char>>, stop: Set<Seq<char>>)
    ensures
        forall|i: int, j: int|
            0 <= i < j < token_list(ws, stop).len()
                ==> token_list(ws, stop)[i] != token_list(ws, stop)[j],
    decreases ws.len(),
{
    if ws.len() > 0 {
        lemma_token_list_distinct(ws.drop_last(), stop);
        let pre = token_list(ws.drop_last(), stop);
        let full = token_list(ws, stop);
        if accepted(ws.last(), stop) && !pre.contains(canon(ws.last())) {
            assert forall|i: int, j: int| 0 <= i < j < full.len() implies full[i] != full[j] by {
                if j == full.len() - 1 {
                    assert(full[j] == canon(ws.last()));
                    assert(full[i] == pre[i]);
                    assert(!pre.contains(canon(ws.last())));
                }
            }
        }
    }
}

/// Decides whether a token already stands in the collected list.
fn contains_string(v: &Vec<String>, t: &String) -> (r: bool)
    ensures
        r == v@.map_values(|s: String| s@).contains(t@),
{
    let mut i: usize = 0;
    while i < v.len()
        invariant
            0 <= i <= v@.len(),
            forall|j: int| 0 <= j < i ==> v@[j]@ != t@,
        decreases v@.len() - i,
    {
        if v[i] == *t {
            proof {
                assert(v@.map_values(|s: String| s@)[i as int] == t@);
            }
            return true;
        }
        i += 1;
    }
    proof {
        let ms = v@.map_values(|s: String| s@);
        if ms.contains(t@) {
            let k = choose|k: int| 0 <= k < ms.len() && ms[k] == t@;
            assert(v@[k]@ == t@);
        }
    }
    false
}

/// Splits a text at word boundaries and normalizes each unit, collecting
/// the distinct surviving tokens in order of first appearance.
pub fn distinct_tokens(text: &str, stop: &StopSet) -> (r: Vec<String>)
    ensures
        r@.map_values(|t: String| t@) == tokens_of(text@, stop.word_set()),
{
    let words = split_word_bounds(text);
    let ghost wseq = word_bounds_of(text@);
    let mut out: Vec<String> = Vec::new();
    let mut i: usize = 0;
    while i < words.len()
        invariant
            0 <= i <= words@.len(),
            words@.map_values(|w: String| w@) == wseq,
            out@.map_values(|t: String| t@) == token_list(wseq.take(i as int), stop.word_set()),
        decreases words@.len() - i,
    {
        let ghost pre = out@.map_values(|t: String| t@);
        proof {
            assert(wseq.take(i + 1).drop_last() =~= wseq.take(i as int));
            assert(wseq.take(i + 1).last() == wseq[i as int]);
            assert(words@.map_values(|w: String| w@)[i as int] == words@[i as int]@);
        }
        match normalize(words[i].as_str(), stop) {
            Some(t) => {
                if !contains_string(&out, &t) {
                    out.push(t);
                    proof {
                        assert(out@.map_values(|t: String| t@) =~= pre.push(
                            canon(wseq[i as int]),
                        ));
                    }
                }
            },
            None => {},
        }
        i += 1;
    }
    proof {
        assert(wseq.take(words@.len() as int) =~= wseq);
    }
    out
}

} // verus!
