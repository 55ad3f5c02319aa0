//! The predictor: sums the scores of a record's distinct tokens and
//! thresholds the sum, recording one prediction per record identifier
//! with first-write-wins insertion.

use crate::records::{UnlabeledRecord, NEGATIVE_LABEL, POSITIVE_LABEL};
use crate::scores::WordScores;
use crate::stopwords::StopSet;
use crate::tokenize::{distinct_tokens, tokens_of};
use vstd::prelude::*;

verus! {

/// The fixed decision boundary: a summed token score above this value
/// predicts positive sentiment, anything at or below it negative.
pub const SCORE_THRESHOLD: i64 = 50;

/// The label predicted for a summed token score.
pub open spec fn predicted_label(score: int) -> u8 {
    if score > SCORE_THRESHOLD as int {
        POSITIVE_LABEL
    } else {
        NEGATIVE_LABEL
    }
}

/// First-write-wins insertion: a key's value is set only if the key was
/// previously absent.
pub open spec fn fww_insert(m: Map<u64, u8>, id: u64, value: u8) -> Map<u64, u8> {
    if m.contains_key(id) {
        m
    } else {
        m.insert(id, value)
    }
}

/// The summed score of a token list: each token present in the score map
/// contributes its score, absent tokens contribute 0.
pub open spec fn tweet_score(toks: Seq<Seq<char>>, m: Map<Seq<char>, int>) -> int
    decreases toks.len(),
{
    if toks.len() == 0 {
        0
    } else {
        tweet_score(toks.drop_last(), m) + (if m.contains_key(toks.last()) {
            m[toks.last()]
        } else {
            0
        })
    }
}

/// The prediction map a test corpus yields: record by record, the
/// record's thresholded score is inserted first-write-wins under its
/// identifier.
pub open spec fn predictions_of(
    recs: Seq<UnlabeledRecord>,
    m: Map<Seq<char>, int>,
    stop: Set<Seq<char>>,
) -> Map<u64, u8>
    decreases recs.len(),
{
    if recs.len() == 0 {
        Map::empty()
    } else {
        let pre = predictions_of(recs.drop_last(), m, stop);
        fww_insert(
            pre,
            recs.last().id,
            predicted_label(tweet_score(tokens_of(recs.last().text@, stop), m)),
        )
    }
}

/// A mapping from record identifier to a sentiment label, with
/// first-write-wins insertion.  It serves both as the prediction map and
/// as the ground-truth map.
pub struct SentimentMap {
    entries: Vec<(u64, u8)>,
}

/// The entry list read as a map, later entries taking precedence.
spec fn map_of(es: Seq<(u64, u8)>) -> Map<u64, u8>
    decreases es.len(),
{
    if es.len() == 0 {
        Map::empty()
    } else {
        map_of(es.drop_last()).insert(es.last().0, es.last().1)
    }
}

/// No two entries share an identifier.
spec fn distinct_keys(es: Seq<(u64, u8)>) -> bool {
    forall|i: int, j: int| 0 <= i < j < es.len() ==> es[i].0 != es[j].0
}

proof fn lemma_map_of_contains(es: Seq<(u64, u8)>, id: u64)
    ensures
        map_of(es).contains_key(id) <==> exists|i: int| 0 <= i < es.len() && es[i].0 == id,
    decreases es.len(),
{
    if es.len() > 0 {
        lemma_map_of_contains(es.drop_last(), id);
        if es.last().0 == id {
            assert(es[es.len() - 1].0 == id);
        } else {
            if exists|i: int| 0 <= i < es.drop_last().len() && es.drop_last()[i].0 == id {
                let i = choose|i: int| 0 <= i < es.drop_last().len() && es.drop_last()[i].0 == id;
                assert(es[i].0 == id);
            }
            if exists|i: int| 0 <= i < es.len() && es[i].0 == id {
                let i = choose|i: int| 0 <= i < es.len() && es[i].0 == id;
                assert(i < es.len() - 1);
                assert(es.drop_last()[i].0 == id);
            }
        }
    }
}

proof fn lemma_map_of_at(es: Seq<(u64, u8)>, i: int)
    requires
        distinct_keys(es),
        0 <= i < es.len(),
    ensures
        map_of(es).contains_key(es[i].0),
        map_of(es)[es[i].0] == es[i].1,
    decreases es.len(),
{
    if i < es.len() - 1 {
        assert(distinct_keys(es.drop_last()));
        lemma_map_of_at(es.drop_last(), i);
        assert(es.drop_last()[i] == es[i]);
        assert(es.last().0 != es[i].0);
    }
}

impl View for SentimentMap {
    type V = Map<u64, u8>;

    closed spec fn view(&self) -> Map<u64, u8> {
        map_of(self.entries@)
    }
}

impl SentimentMap {
    /// The recorded entries, in insertion order.
    pub closed spec fn entry_seq(self) -> Seq<(u64, u8)> {
        self.entries@
    }

    /// The entry list holds each identifier at most once.
    pub closed spec fn wf(self) -> bool {
        distinct_keys(self.entries@)
    }

    /// An empty map.
    pub fn new() -> (r: SentimentMap)
        ensures
            r.wf(),
            r@ == Map::<u64, u8>::empty(),
            r.entry_seq() == Seq::<(u64, u8)>::empty(),
    {
        SentimentMap { entries: Vec::new() }
    }

    /// The number of recorded identifiers.
    pub fn len(&self) -> (r: usize)
        ensures
            r == self.entry_seq().len(),
    {
        self.entries.len()
    }

    /// The entry at a position, in insertion order.
    pub fn entry_at(&self, i: usize) -> (r: (u64, u8))
        requires
            i < self.entry_seq().len(),
        ensures
            r == self.entry_seq()[i as int],
    {
        self.entries[i]
    }

    /// Looks an identifier's recorded label up.
    pub fn get(&self, id: u64) -> (r: Option<u8>)
        requires
            self.wf(),
        ensures
            match r {
                Some(v) => self@.contains_key(id) && self@[id] == v,
                None => !self@.contains_key(id),
            },
    {
        let mut i: usize = 0;
        while i < self.entries.len()
            invariant
                0 <= i <= self.entries@.len(),
                self.wf(),
                forall|j: int| 0 <= j < i ==> self.entries@[j].0 != id,
            decreases self.entries@.len() - i,
        {
            if self.entries[i].0 == id {
                proof {
                    lemma_map_of_at(self.entries@, i as int);
                }
                return Some(self.entries[i].1);
            }
            i += 1;
        }
        proof {
            lemma_map_of_contains(self.entries@, id);
        }
        None
    }

    /// The map view and the entry list agree: every entry is a pair of
    /// the map, every key of the map stands in exactly one entry, and the
    /// number of entries equals the number of recorded identifiers.
    pub proof fn lemma_entries_agree(self)
        requires
            self.wf(),
        ensures
            self@.dom().finite(),
            self@.dom().len() == self.entry_seq().len(),
            forall|i: int|
                0 <= i < self.entry_seq().len() ==> self@.contains_key(
                    #[trigger] self.entry_seq()[i].0,
                ) && self@[self.entry_seq()[i].0] == self.entry_seq()[i].1,
            forall|k: u64|
                self@.contains_key(k) ==> exists|i: int|
                    0 <= i < self.entry_seq().len() && #[trigger] self.entry_seq()[i].0 == k,
    {
        Self::lemma_map_of_dom_len(self.entries@);
        assert forall|i: int| 0 <= i < self.entry_seq().len() implies self@.contains_key(
            #[trigger] self.entry_seq()[i].0,
        ) && self@[self.entry_seq()[i].0] == self.entry_seq()[i].1 by {
            lemma_map_of_at(self.entries@, i);
        }
        assert forall|k: u64| self@.contains_key(k) implies exists|i: int|
            0 <= i < self.entry_seq().len() && #[trigger] self.entry_seq()[i].0 == k by {
            lemma_map_of_contains(self.entries@, k);
            let i = choose|i: int| 0 <= i < self.entries@.len() && self.entries@[i].0 == k;
            assert(self.entry_seq()[i].0 == k);
        }
    }

    proof fn lemma_map_of_dom_len(es: Seq<(u64, u8)>)
        requires
            distinct_keys(es),
        ensures
            map_of(es).dom().finite(),
            map_of(es).dom().len() == es.len(),
        decreases es.len(),
    {
        if es.len() > 0 {
            assert(distinct_keys(es.drop_last()));
            Self::lemma_map_of_dom_len(es.drop_last());
            lemma_map_of_contains(es.drop_last(), es.last().0);
            assert(forall|i: int|
                0 <= i < es.drop_last().len() ==> es.drop_last()[i] == es[i]);
            assert(!map_of(es.drop_last()).contains_key(es.last().0));
            assert(map_of(es).dom() =~= map_of(es.drop_last()).dom().insert(es.last().0));
        }
    }

    /// Records a label for an identifier only if the identifier has no
    /// entry yet: a later write never changes an earlier one.
    pub fn insert_first(&mut self, id: u64, value: u8)
        requires
            old(self).wf(),
        ensures
            final(self).wf(),
            final(self)@ == fww_insert(old(self)@, id, value),
            final(self).entry_seq() == if old(self)@.contains_key(id) {
                old(self).entry_seq()
            } else {
                old(self).entry_seq().push((id, value))
            },
    {
        let n = self.entries.len();
        let mut i: usize = 0;
        while i < n
            invariant
                0 <= i <= n,
                n == self.entries@.len(),
                *self == *old(self),
                self.wf(),
                forall|j: int| 0 <= j < i ==> self.entries@[j].0 != id,
            decreases n - i,
        {
            if self.entries[i].0 == id {
                proof {
                    lemma_map_of_contains(self.entries@, id);
                    assert(self.entries@[i as int].0 == id);
                }
                return ;
            }
            i += 1;
        }
        proof {
            lemma_map_of_contains(self.entries@, id);
            assert(!old(self)@.contains_key(id));
        }
        self.entries.push((id, value));
        proof {
            assert(self.entries@.drop_last() =~= old(self).entries@);
            assert forall|a: int, b: int|
                0 <= a < b < self.entries@.len() implies self.entries@[a].0
                != self.entries@[b].0 by {
                if b < self.entries@.len() - 1 {
                    assert(old(self).entries@[a].0 != old(self).entries@[b].0);
                } else {
                    assert(old(self).entries@[a].0 != id);
                }
            }
        }
    }
}

/// Sums the scores of a text's distinct tokens: tokens absent from the
/// training vocabulary contribute 0, not a penalty.
pub fn score_text(text: &str, scores: &WordScores, stop: &StopSet) -> (r: i128)
    requires
        scores.wf(),
    ensures
        r == tweet_score(tokens_of(text@, stop.word_set()), scores@),
{
    let toks = distinct_tokens(text, stop);
    let ghost tseq = tokens_of(text@, stop.word_set());
    let mut acc: i128 = 0;
    let mut j: usize = 0;
    while j < toks.len()
        invariant
            0 <= j <= toks@.len(),
            toks@.map_values(|t: String| t@) == tseq,
            scores.wf(),
            acc == tweet_score(tseq.take(j as int), scores@),
            -(j as int) * 0x8000_0000_0000_0000 <= acc <= (j as int) * 0x7FFF_FFFF_FFFF_FFFF,
        decreases toks@.len() - j,
    {
        proof {
            assert(toks@.map_values(|t: String| t@)[j as int] == toks@[j as int]@);
            assert(tseq.take(j + 1).drop_last() =~= tseq.take(j as int));
            assert(tseq.take(j + 1).last() == tseq[j as int]);
            assert((j as int) + 1 <= 0x1_0000_0000_0000_0000) by {
                assert(j < toks@.len());
            }
            assert(((j as int) + 1) * 0x8000_0000_0000_0000 == (j as int) * 0x8000_0000_0000_0000
                + 0x8000_0000_0000_0000) by (nonlinear_arith);
            assert(((j as int) + 1) * 0x7FFF_FFFF_FFFF_FFFF == (j as int) * 0x7FFF_FFFF_FFFF_FFFF
                + 0x7FFF_FFFF_FFFF_FFFF) by (nonlinear_arith);
            assert(((j as int) + 1) * 0x8000_0000_0000_0000 <= 0x1_0000_0000_0000_0000
                * 0x8000_0000_0000_0000) by (nonlinear_arith)
                requires
                    (j as int) + 1 <= 0x1_0000_0000_0000_0000,
            ;
            assert(((j as int) + 1) * 0x7FFF_FFFF_FFFF_FFFF <= 0x1_0000_0000_0000_0000
                * 0x7FFF_FFFF_FFFF_FFFF) by (nonlinear_arith)
                requires
                    (j as int) + 1 <= 0x1_0000_0000_0000_0000,
            ;
        }
        match scores.get(&toks[j]) {
            Some(v) => {
                acc = acc + (v as i128);
            },
            None => {},
        }
        j += 1;
    }
    proof {
        assert(tseq.take(toks@.len() as int) =~= tseq);
    }
    acc
}

/// Classifies each test record: its summed token score above the
/// threshold predicts the positive label, otherwise the negative label,
/// recorded first-write-wins under the record's identifier.
pub fn predict(recs: &Vec<UnlabeledRecord>, scores: &WordScores, stop: &StopSet) -> (r:
    SentimentMap)
    requires
        scores.wf(),
    ensures
        r.wf(),
        r@ == predictions_of(recs@, scores@, stop.word_set()),
{
    let mut preds = SentimentMap::new();
    let ghost sset = stop.word_set();
    let mut i: usize = 0;
    while i < recs.len()
        invariant
            0 <= i <= recs@.len(),
            preds.wf(),
            preds@ == predictions_of(recs@.take(i as int), scores@, sset),
            sset == stop.word_set(),
            scores.wf(),
        decreases recs@.len() - i,
    {
        let score = score_text(recs[i].text.as_str(), scores, stop);
        let label: u8 = if score > SCORE_THRESHOLD as i128 {
            POSITIVE_LABEL
        } else {
            NEGATIVE_LABEL
        };
        proof {
            assert(recs@.take(i + 1).drop_last() =~= recs@.take(i as int));
            assert(recs@.take(i + 1).last() == recs@[i as int]);
        }
        preds.insert_first(recs[i].id, label);
        i += 1;
    }
    proof {
        assert(recs@.take(recs@.len() as int) =~= recs@);
    }
    preds
}

} // verus!
