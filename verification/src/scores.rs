//! The vocabulary scorer: consumes labeled records and accumulates a
//! mapping from normalized token to its polarity score.
//!
//! Every score is a whole number: each record adds 5 to each of its
//! distinct tokens when its sentiment is positive, and always subtracts a
//! baseline 1, so scores are kept as integers.

use crate::records::{LabeledRecord, POSITIVE_LABEL};
use crate::stopwords::StopSet;
use crate::text::word_bounds_of;
use crate::tokenize::{distinct_tokens, lemma_token_list_distinct, tokens_of};
use vstd::prelude::*;

verus! {

/// How one record changes the score of each of its distinct tokens:
/// plus 5 when the record's sentiment is the positive label, nothing
/// otherwise, and minus a baseline 1 regardless of sentiment.
pub open spec fn record_delta(sentiment: u8) -> int {
    (if sentiment == POSITIVE_LABEL {
        5int
    } else {
        0int
    }) - 1
}

/// The score a map assigns to a token, with missing tokens at 0.
pub open spec fn score_or_zero(m: Map<Seq<char>, int>, t: Seq<char>) -> int {
    if m.contains_key(t) {
        m[t]
    } else {
        0
    }
}

/// Adds `d` to the score of each listed token in turn, initializing
/// missing tokens at 0.
pub open spec fn apply_deltas(m: Map<Seq<char>, int>, toks: Seq<Seq<char>>, d: int) -> Map<
    Seq<char>,
    int,
>
    decreases toks.len(),
{
    if toks.len() == 0 {
        m
    } else {
        let pre = apply_deltas(m, toks.drop_last(), d);
        pre.insert(toks.last(), score_or_zero(pre, toks.last()) + d)
    }
}

/// The effect of one training record on the score map: each of its
/// distinct tokens moves by the record's delta.
pub open spec fn record_step(
    m: Map<Seq<char>, int>,
    r: LabeledRecord,
    stop: Set<Seq<char>>,
) -> Map<Seq<char>, int> {
    apply_deltas(m, tokens_of(r.text@, stop), record_delta(r.sentiment))
}

/// The score map that a training corpus yields, record by record.
pub open spec fn scores_of(recs: Seq<LabeledRecord>, stop: Set<Seq<char>>) -> Map<Seq<char>, int>
    decreases recs.len(),
{
    if recs.len() == 0 {
        Map::empty()
    } else {
        record_step(scores_of(recs.drop_last(), stop), recs.last(), stop)
    }
}

/// The sum, over the records whose text contains a token, of that
/// record's delta: the closed form of the token's final score.
pub open spec fn token_total(recs: Seq<LabeledRecord>, stop: Set<Seq<char>>, t: Seq<char>) -> int
    decreases recs.len(),
{
    if recs.len() == 0 {
        0
    } else {
        token_total(recs.drop_last(), stop, t) + (if tokens_of(
            recs.last().text@,
            stop,
        ).contains(t) {
            record_delta(recs.last().sentiment)
        } else {
            0
        })
    }
}

/// How `apply_deltas` acts pointwise: a listed token moves by `d` exactly
/// once (the list holds no duplicates), any other token keeps its score,
/// and the map's keys grow by exactly the listed tokens.
pub proof fn lemma_apply_deltas_at(m: Map<Seq<char>, int>, toks: Seq<Seq<char>>, d: int, t: Seq<char>)
    requires
        forall|i: int, j: int| 0 <= i < j < toks.len() ==> toks[i] != toks[j],
    ensures
        score_or_zero(apply_deltas(m, toks, d), t) == score_or_zero(m, t) + (if toks.contains(t) {
            d
        } else {
            0
        }),
        apply_deltas(m, toks, d).contains_key(t) <==> (m.contains_key(t) || toks.contains(t)),
    decreases toks.len(),
{
    if toks.len() > 0 {
        let rest = toks.drop_last();
        let last = toks.last();
        assert(forall|i: int, j: int| 0 <= i < j < rest.len() ==> rest[i] != rest[j]);
        lemma_apply_deltas_at(m, rest, d, t);
        // The last token does not appear earlier in the list.
        if rest.contains(last) {
            let i = choose|i: int| 0 <= i < rest.len() && rest[i] == last;
            assert(toks[i] == toks[toks.len() - 1]);
            assert(false);
        }
        // Membership in the whole list versus the shortened one.
        if rest.contains(t) {
            let i = choose|i: int| 0 <= i < rest.len() && rest[i] == t;
            assert(toks[i] == t);
        }
        if toks.contains(t) && t != last {
            let i = choose|i: int| 0 <= i < toks.len() && toks[i] == t;
            assert(i < toks.len() - 1);
            assert(rest[i] == t);
        }
    }
}

/// The score map built from a corpus, read pointwise: a token's score is
/// the sum of the deltas of the records containing it, and a token has an
/// entry exactly when some record's text contains it.
pub proof fn lemma_scores_at(recs: Seq<LabeledRecord>, stop: Set<Seq<char>>, t: Seq<char>)
    ensures
        score_or_zero(scores_of(recs, stop), t) == token_total(recs, stop, t),
        scores_of(recs, stop).contains_key(t) <==> exists|i: int|
            0 <= i < recs.len() && tokens_of(#[trigger] recs[i].text@, stop).contains(t),
    decreases recs.len(),
{
    if recs.len() > 0 {
        let rest = recs.drop_last();
        let last = recs.last();
        lemma_scores_at(rest, stop, t);
        lemma_token_list_distinct(word_bounds_of(last.text@), stop);
        lemma_apply_deltas_at(
            scores_of(rest, stop),
            tokens_of(last.text@, stop),
            record_delta(last.sentiment),
            t,
        );
        if exists|i: int| 0 <= i < rest.len() && tokens_of(#[trigger] rest[i].text@, stop).contains(t) {
            let i = choose|i: int|
                0 <= i < rest.len() && tokens_of(#[trigger] rest[i].text@, stop).contains(t);
            assert(tokens_of(recs[i].text@, stop).contains(t));
        }
        if scores_of(recs, stop).contains_key(t) {
            if !tokens_of(last.text@, stop).contains(t) {
                let i = choose|i: int|
                    0 <= i < rest.len() && tokens_of(#[trigger] rest[i].text@, stop).contains(t);
                assert(tokens_of(recs[i].text@, stop).contains(t));
            } else {
                assert(tokens_of(recs[recs.len() - 1].text@, stop).contains(t));
            }
        } else {
            assert(forall|i: int|
                0 <= i < rest.len() ==> rest[i] == recs[i]);
        }
    }
}

/// Every accumulated score lies between minus the number of records and
/// four times the number of records.
pub proof fn lemma_token_total_bound(recs: Seq<LabeledRecord>, stop: Set<Seq<char>>, t: Seq<char>)
    ensures
        -(recs.len() as int) <= token_total(recs, stop, t) <= 4 * recs.len(),
    decreases recs.len(),
{
    if recs.len() > 0 {
        lemma_token_total_bound(recs.drop_last(), stop, t);
    }
}

/// A mapping from normalized token to its accumulated polarity score.
/// Append-only while a training pass builds it; immutable thereafter.
pub struct WordScores {
    entries: Vec<(String, i64)>,
}

/// The entry list read as a map, later entries taking precedence.
spec fn map_of(es: Seq<(String, i64)>) -> Map<Seq<char>, int>
    decreases es.len(),
{
    if es.len() == 0 {
        Map::empty()
    } else {
        map_of(es.drop_last()).insert(es.last().0@, es.last().1 as int)
    }
}

/// No two entries share a token.
spec fn distinct_keys(es: Seq<(String, i64)>) -> bool {
    forall|i: int, j: int| 0 <= i < j < es.len() ==> es[i].0@ != es[j].0@
}

proof fn lemma_map_of_contains(es: Seq<(String, i64)>, t: Seq<char>)
    ensures
        map_of(es).contains_key(t) <==> exists|i: int| 0 <= i < es.len() && es[i].0@ == t,
    decreases es.len(),
{
    if es.len() > 0 {
        lemma_map_of_contains(es.drop_last(), t);
        if es.last().0@ == t {
            assert(es[es.len() - 1].0@ == t);
        } else {
            if exists|i: int| 0 <= i < es.drop_last().len() && es.drop_last()[i].0@ == t {
                let i = choose|i: int|
                    0 <= i < es.drop_last().len() && es.drop_last()[i].0@ == t;
                assert(es[i].0@ == t);
            }
            if exists|i: int| 0 <= i < es.len() && es[i].0@ == t {
                let i = choose|i: int| 0 <= i < es.len() && es[i].0@ == t;
                assert(i < es.len() - 1);
                assert(es.drop_last()[i].0@ == t);
            }
        }
    }
}

proof fn lemma_map_of_at(es: Seq<(String, i64)>, i: int)
    requires
        distinct_keys(es),
        0 <= i < es.len(),
    ensures
        map_of(es).contains_key(es[i].0@),
        map_of(es)[es[i].0@] == es[i].1 as int,
    decreases es.len(),
{
    if i < es.len() - 1 {
        assert(distinct_keys(es.drop_last()));
        lemma_map_of_at(es.drop_last(), i);
        assert(es.drop_last()[i] == es[i]);
        assert(es.last().0@ != es[i].0@);
    }
}

proof fn lemma_map_of_update(es: Seq<(String, i64)>, i: int, p: (String, i64))
    requires
        distinct_keys(es),
        0 <= i < es.len(),
        p.0@ == es[i].0@,
    ensures
        map_of(es.update(i, p)) == map_of(es).insert(p.0@, p.1 as int),
    decreases es.len(),
{
    let es2 = es.update(i, p);
    if i == es.len() - 1 {
        assert(es2.drop_last() =~= es.drop_last());
        assert(es2.last() == p);
        assert(map_of(es.drop_last()).insert(es.last().0@, es.last().1 as int).insert(
            p.0@,
            p.1 as int,
        ) =~= map_of(es.drop_last()).insert(p.0@, p.1 as int));
    } else {
        assert(es2.drop_last() =~= es.drop_last().update(i, p));
        assert(distinct_keys(es.drop_last()));
        assert(es.drop_last()[i] == es[i]);
        lemma_map_of_update(es.drop_last(), i, p);
        assert(es2.last() == es.last());
        assert(es.last().0@ != p.0@);
        assert(map_of(es.drop_last()).insert(p.0@, p.1 as int).insert(
            es.last().0@,
            es.last().1 as int,
        ) =~= map_of(es.drop_last()).insert(es.last().0@, es.last().1 as int).insert(
            p.0@,
            p.1 as int,
        ));
    }
}

impl View for WordScores {
    type V = Map<Seq<char>, int>;

    closed spec fn view(&self) -> Map<Seq<char>, int> {
        map_of(self.entries@)
    }
}

impl WordScores {
    /// The entry list holds each token at most once.
    pub closed spec fn wf(self) -> bool {
        distinct_keys(self.entries@)
    }

    /// An empty score map.
    pub fn new() -> (r: WordScores)
        ensures
            r.wf(),
            r@ == Map::<Seq<char>, int>::empty(),
    {
        WordScores { entries: Vec::new() }
    }

    /// The number of distinct scored tokens.
    pub fn token_count(&self) -> (r: usize)
        requires
            self.wf(),
        ensures
            r == self@.dom().len(),
    {
        proof {
            Self::lemma_dom_len(self.entries@);
        }
        self.entries.len()
    }

    proof fn lemma_dom_len(es: Seq<(String, i64)>)
        requires
            distinct_keys(es),
        ensures
            map_of(es).dom().finite(),
            map_of(es).dom().len() == es.len(),
        decreases es.len(),
    {
        if es.len() > 0 {
            assert(distinct_keys(es.drop_last()));
            Self::lemma_dom_len(es.drop_last());
            lemma_map_of_contains(es.drop_last(), es.last().0@);
            assert(forall|i: int|
                0 <= i < es.drop_last().len() ==> es.drop_last()[i] == es[i]);
            assert(!map_of(es.drop_last()).contains_key(es.last().0@));
            assert(map_of(es).dom() =~= map_of(es.drop_last()).dom().insert(es.last().0@));
        }
    }

    /// Looks a token's score up.
    pub fn get(&self, w: &String) -> (r: Option<i64>)
        requires
            self.wf(),
        ensures
            match r {
                Some(v) => self@.contains_key(w@) && self@[w@] == v as int,
                None => !self@.contains_key(w@),
            },
    {
        let mut i: usize = 0;
        while i < self.entries.len()
            invariant
                0 <= i <= self.entries@.len(),
                self.wf(),
                forall|j: int| 0 <= j < i ==> self.entries@[j].0@ != w@,
            decreases self.entries@.len() - i,
        {
            if self.entries[i].0 == *w {
                proof {
                    lemma_map_of_at(self.entries@, i as int);
                }
                return Some(self.entries[i].1);
            }
            i += 1;
        }
        proof {
            lemma_map_of_contains(self.entries@, w@);
        }
        None
    }

    /// Moves a token's score by `d`, initializing a missing token at 0.
    pub fn add_delta(&mut self, w: &String, d: i64)
        requires
            old(self).wf(),
            i64::MIN <= score_or_zero(old(self)@, w@) + d <= i64::MAX,
        ensures
            final(self).wf(),
            final(self)@ == old(self)@.insert(w@, score_or_zero(old(self)@, w@) + d),
    {
        let n = self.entries.len();
        let mut i: usize = 0;
        while i < n
            invariant
                0 <= i <= n,
                n == self.entries@.len(),
                *self == *old(self),
                self.wf(),
                i64::MIN <= score_or_zero(old(self)@, w@) + d <= i64::MAX,
                forall|j: int| 0 <= j < i ==> self.entries@[j].0@ != w@,
            decreases n - i,
        {
            if self.entries[i].0 == *w {
                proof {
                    lemma_map_of_at(self.entries@, i as int);
                }
                let cur = self.entries[i].1;
                let p = (w.clone(), cur + d);
                proof {
                    lemma_map_of_update(self.entries@, i as int, p);
                }
                self.entries[i] = p;
                proof {
                    assert forall|a: int, b: int|
                        0 <= a < b < self.entries@.len() implies self.entries@[a].0@
                        != self.entries@[b].0@ by {
                        assert(old(self).entries@[a].0@ != old(self).entries@[b].0@);
                    }
                }
                return ;
            }
            i += 1;
        }
        proof {
            lemma_map_of_contains(self.entries@, w@);
            assert(!old(self)@.contains_key(w@));
        }
        self.entries.push((w.clone(), d));
        proof {
            assert(self.entries@.drop_last() =~= old(self).entries@);
            assert(self.entries@.last().0@ == w@);
            assert forall|a: int, b: int|
                0 <= a < b < self.entries@.len() implies self.entries@[a].0@
                != self.entries@[b].0@ by {
                if b < self.entries@.len() - 1 {
                    assert(old(self).entries@[a].0@ != old(self).entries@[b].0@);
                } else {
                    assert(old(self).entries@[a].0@ != w@);
                }
            }
        }
    }
}

/// No training corpus longer than this is accepted: the bound keeps every
/// accumulated score well inside `i64`.
pub const MAX_TRAINING_RECORDS: u64 = 0x10_0000_0000_0000;

/// Builds the word-score map of a training corpus: for each record, each
/// of its distinct normalized tokens gains 5 when the record's sentiment
/// is the positive label and always loses the baseline 1.  Records are
/// processed independently; duplicate identifiers are not deduplicated.
/// A record whose text yields no token changes nothing.
pub fn build_scores(recs: &Vec<LabeledRecord>, stop: &StopSet) -> (r: WordScores)
    requires
        recs@.len() <= MAX_TRAINING_RECORDS,
    ensures
        r.wf(),
        r@ == scores_of(recs@, stop.word_set()),
{
    let mut ws = WordScores::new();
    let ghost sset = stop.word_set();
    let mut i: usize = 0;
    while i < recs.len()
        invariant
            0 <= i <= recs@.len(),
            recs@.len() <= MAX_TRAINING_RECORDS,
            ws.wf(),
            ws@ == scores_of(recs@.take(i as int), sset),
            sset == stop.word_set(),
        decreases recs@.len() - i,
    {
        let toks = distinct_tokens(recs[i].text.as_str(), stop);
        let ghost tseq = tokens_of(recs@[i as int].text@, sset);
        let ghost base = scores_of(recs@.take(i as int), sset);
        let ghost dd = record_delta(recs@[i as int].sentiment);
        let d: i64 = if recs[i].sentiment == POSITIVE_LABEL {
            4
        } else {
            -1
        };
        proof {
            assert(d as int == dd);
            lemma_token_list_distinct(word_bounds_of(recs@[i as int].text@), sset);
        }
        let mut j: usize = 0;
        while j < toks.len()
            invariant
                0 <= j <= toks@.len(),
                toks@.map_values(|t: String| t@) == tseq,
                forall|a: int, b: int| 0 <= a < b < tseq.len() ==> tseq[a] != tseq[b],
                ws.wf(),
                ws@ == apply_deltas(base, tseq.take(j as int), dd),
                d as int == dd,
                dd == record_delta(recs@[i as int].sentiment),
                i < recs@.len(),
                recs@.len() <= MAX_TRAINING_RECORDS,
                base == scores_of(recs@.take(i as int), sset),
                sset == stop.word_set(),
            decreases toks@.len() - j,
        {
            proof {
                let tj = tseq[j as int];
                assert(toks@.map_values(|t: String| t@)[j as int] == toks@[j as int]@);
                assert(toks@[j as int]@ == tj);
                assert forall|a: int, b: int|
                    0 <= a < b < tseq.take(j as int).len() implies tseq.take(j as int)[a]
                    != tseq.take(j as int)[b] by {
                    assert(tseq.take(j as int)[a] == tseq[a]);
                    assert(tseq.take(j as int)[b] == tseq[b]);
                }
                if tseq.take(j as int).contains(tj) {
                    let k = choose|k: int|
                        0 <= k < tseq.take(j as int).len() && tseq.take(j as int)[k] == tj;
                    assert(tseq.take(j as int)[k] == tseq[k]);
                    assert(tseq[k] == tseq[j as int]);
                    assert(false);
                }
                lemma_apply_deltas_at(base, tseq.take(j as int), dd, tj);
                lemma_scores_at(recs@.take(i as int), sset, tj);
                lemma_token_total_bound(recs@.take(i as int), sset, tj);
                assert(score_or_zero(ws@, tj) == score_or_zero(base, tj));
                assert(-(i as int) <= score_or_zero(base, tj) <= 4 * (i as int));
                assert(dd == 4 || dd == -1);
                assert((i as int) <= MAX_TRAINING_RECORDS as int);
                assert(score_or_zero(ws@, tj) + (d as int) <= 4 * (i as int) + 4);
                assert(score_or_zero(ws@, tj) + (d as int) >= -(i as int) - 1);
                assert(4 * (i as int) + 4 <= 0x40_0000_0000_0004);
                assert(i64::MIN <= score_or_zero(ws@, toks@[j as int]@) + d <= i64::MAX);
                assert(tseq.take(j + 1).drop_last() =~= tseq.take(j as int));
                assert(tseq.take(j + 1).last() == tj);
            }
            ws.add_delta(&toks[j], d);
            j += 1;
        }
        proof {
            assert(tseq.take(toks@.len() as int) =~= tseq);
            assert(recs@.take(i + 1).drop_last() =~= recs@.take(i as int));
            assert(recs@.take(i + 1).last() == recs@[i as int]);
        }
        i += 1;
    }
    proof {
        assert(recs@.take(recs@.len() as int) =~= recs@);
    }
    ws
}

} // verus!
