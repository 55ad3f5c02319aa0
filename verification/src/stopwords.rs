//! The stop-word list: an immutable configuration object built once per
//! run and passed by reference into the tokenizer.

use vstd::prelude::*;

verus! {

/// An immutable collection of stop words.  A normalized token equal to
/// one of its words is discarded by the tokenizer.
pub struct StopSet {
    words: Vec<String>,
}

impl StopSet {
    /// The words the list holds, as a set of character sequences.
    pub closed spec fn word_set(self) -> Set<Seq<char>> {
        Set::new(|t: Seq<char>| exists|i: int| 0 <= i < self.words@.len() && self.words@[i]@ == t)
    }

    /// Builds a stop-word set from the given words.
    pub fn from_words(words: Vec<String>) -> (r: StopSet)
        ensures
            forall|t: Seq<char>|
                r.word_set().contains(t) <==> words@.map_values(|w: String| w@).contains(t),
    {
        let r = StopSet { words };
        proof {
            assert forall|t: Seq<char>|
                r.word_set().contains(t) <==> r.words@.map_values(
                    |w: String| w@,
                ).contains(t) by {
                if r.word_set().contains(t) {
                    let i = choose|i: int|
                        0 <= i < r.words@.len() && r.words@[i]@ == t;
                    assert(r.words@.map_values(|w: String| w@)[i] == t);
                }
                if r.words@.map_values(|w: String| w@).contains(t) {
                    let ms = r.words@.map_values(|w: String| w@);
                    let i = choose|i: int| 0 <= i < ms.len() && ms[i] == t;
                    assert(r.words@[i]@ == t);
                }
            }
        }
        r
    }

    /// Decides whether a word is in the set.
    pub fn contains(&self, w: &String) -> (r: bool)
        ensures
            r == self.word_set().contains(w@),
    {
        let mut i: usize = 0;
        while i < self.words.len()
            invariant
                0 <= i <= self.words@.len(),
                forall|j: int| 0 <= j < i ==> self.words@[j]@ != w@,
            decreases self.words@.len() - i,
        {
            if self.words[i] == *w {
                proof {
                    assert(self.words@[i as int]@ == w@);
                }
                return true;
            }
            i += 1;
        }
        false
    }
}

/// The words of the built-in English stop-word list, in order.  The list
/// is a compile-time constant of the stop-word crate, so naming it is
/// sound; the parameter is nominal (a name needs one) and every use
/// applies the name at 0.
pub uninterp spec fn english_stop_list(k: int) -> Seq<Seq<char>>;

/// Relies on `stop_words::get` with the English language code: it returns
/// the crate's built-in English stop-word list, a nonempty compile-time
/// constant.
#[verifier::external_body]
fn fetch_english_stop_words() -> (r: Vec<String>)
    ensures
        r@.map_values(|w: String| w@) == english_stop_list(0),
        r@.len() > 0,
{
    stop_words::get(stop_words::Language::English)
        .iter()
        .map(|w| w.to_string())
        .collect()
}

/// One word of the raw list with every double-quote character removed.
pub open spec fn without_quotes(w: Seq<char>) -> Seq<char> {
    w.filter(|c: char| c != '"')
}

/// The raw stop-word list with every double-quote character removed from
/// each of its words.
pub open spec fn quote_stripped(ws: Seq<Seq<char>>) -> Seq<Seq<char>> {
    ws.map_values(|w: Seq<char>| without_quotes(w))
}

/// Loads the English stop-word list and removes any double-quote
/// characters embedded in its entries, as the raw list may carry them:
/// the resulting set holds exactly the quote-stripped words of the
/// English list, none of which holds a double quote, and it is nonempty.
pub fn load_english_stop_words() -> (r: StopSet)
    ensures
        forall|t: Seq<char>|
            r.word_set().contains(t) <==> quote_stripped(english_stop_list(0)).contains(t),
        forall|t: Seq<char>| r.word_set().contains(t) ==> !t.contains('"'),
        exists|t: Seq<char>| r.word_set().contains(t),
{
    let raw = fetch_english_stop_words();
    let ghost rawseq = raw@.map_values(|s: String| s@);
    let mut cleaned: Vec<String> = Vec::new();
    let mut i: usize = 0;
    while i < raw.len()
        invariant
            0 <= i <= raw@.len(),
            raw@.map_values(|s: String| s@) == rawseq,
            cleaned@.map_values(|s: String| s@) == quote_stripped(rawseq.take(i as int)),
        decreases raw@.len() - i,
    {
        let ghost pre = cleaned@.map_values(|s: String| s@);
        proof {
            assert(raw@.map_values(|s: String| s@)[i as int] == raw@[i as int]@);
        }
        cleaned.push(strip_quotes(&raw[i]));
        proof {
            assert(cleaned@.map_values(|s: String| s@) =~= pre.push(without_quotes(
                rawseq[i as int],
            )));
            assert(quote_stripped(rawseq.take(i + 1)) =~= quote_stripped(
                rawseq.take(i as int),
            ).push(without_quotes(rawseq[i as int])));
        }
        i += 1;
    }
    proof {
        assert(rawseq.take(raw@.len() as int) =~= rawseq);
    }
    let r = StopSet::from_words(cleaned);
    proof {
        let stripped = quote_stripped(rawseq);
        assert forall|t: Seq<char>| r.word_set().contains(t) implies !t.contains('"') by {
            let k = choose|k: int| 0 <= k < stripped.len() && stripped[k] == t;
            assert(t == without_quotes(rawseq[k]));
            if t.contains('"') {
                let j = choose|j: int| 0 <= j < t.len() && t[j] == '"';
                rawseq[k].lemma_filter_pred(|c: char| c != '"', j);
            }
        }
        assert(stripped[0] == without_quotes(rawseq[0]));
        assert(stripped.contains(stripped[0]));
        assert(r.word_set().contains(stripped[0]));
    }
    r
}

/// Removes every double-quote character from a word.
pub fn strip_quotes(w: &String) -> (r: String)
    ensures
        r@ == without_quotes(w@),
{
    let cs = crate::text::chars_vec(w.as_str());
    let mut kept: Vec<char> = Vec::new();
    let mut i: usize = 0;
    while i < cs.len()
        invariant
            0 <= i <= cs@.len(),
            cs@ == w@,
            kept@ == cs@.take(i as int).filter(|c: char| c != '"'),
        decreases cs@.len() - i,
    {
        proof {
            reveal_with_fuel(Seq::filter, 2);
            assert(cs@.take(i + 1).drop_last() =~= cs@.take(i as int));
            assert(cs@.take(i + 1).last() == cs@[i as int]);
        }
        if cs[i] != '"' {
            kept.push(cs[i]);
        }
        i += 1;
    }
    proof {
        assert(cs@.take(cs@.len() as int) =~= cs@);
    }
    crate::text::string_of(&kept)
}

} // verus!
