//! The accuracy evaluator: compares predicted labels against ground
//! truth keyed by record identifier and reports percentage accuracy.

use crate::predict::{fww_insert, SentimentMap};
use crate::records::TruthRecord;
use vstd::prelude::*;

verus! {

/// The ground-truth map a sequence of truth records yields, record by
/// record, with first-write-wins insertion per identifier.
pub open spec fn truth_of(recs: Seq<TruthRecord>) -> Map<u64, u8>
    decreases recs.len(),
{
    if recs.len() == 0 {
        Map::empty()
    } else {
        fww_insert(truth_of(recs.drop_last()), recs.last().id, recs.last().sentiment)
    }
}

/// How many recorded predictions agree with the ground truth: an entry
/// counts only when its identifier is present in the truth map with the
/// same label.
pub open spec fn correct_count(preds: Seq<(u64, u8)>, truth: Map<u64, u8>) -> nat
    decreases preds.len(),
{
    if preds.len() == 0 {
        0
    } else {
        correct_count(preds.drop_last(), truth) + (if truth.contains_key(preds.last().0)
            && truth[preds.last().0] == preds.last().1 {
            1nat
        } else {
            0nat
        })
    }
}

/// The outcome of an evaluation: how many predictions were made and how
/// many of them matched the ground truth.
pub struct Accuracy {
    pub correct: usize,
    pub total: usize,
}

/// Why an evaluation could not produce a figure.
#[derive(Debug, PartialEq, Eq, Structural)]
pub enum EvalError {
    /// The prediction map was empty, so a percentage would divide by
    /// zero.
    EmptyInput,
}

impl Accuracy {
    /// The accuracy as hundredths of a percent, rounded half-up: the
    /// denominator is the number of predictions made, whether or not the
    /// ground truth covers them.
    pub fn percent_hundredths(&self) -> (r: u64)
        requires
            self.total > 0,
            self.correct <= self.total,
        ensures
            r == (self.correct * 10000 + self.total / 2) / (self.total as int),
            r <= 10000,
    {
        let c = self.correct as u128;
        let t = self.total as u128;
        let v = (c * 10000 + t / 2) / t;
        proof {
            assert(c * 10000 + t / 2 < (t as int) * 10001) by (nonlinear_arith)
                requires
                    c <= t,
                    t > 0,
            ;
            assert((c * 10000 + t / 2) / (t as int) <= 10000) by (nonlinear_arith)
                requires
                    c * 10000 + t / 2 < (t as int) * 10001,
                    t > 0,
            ;
        }
        v as u64
    }
}

/// Builds the ground-truth map from the truth records, first-write-wins
/// per identifier, and counts how many recorded predictions agree with
/// it.  An identifier predicted but absent from the ground truth counts
/// in the total but never as correct.  An empty prediction map yields
/// `EvalError::EmptyInput` rather than a division by zero.
pub fn evaluate(truth_recs: &Vec<TruthRecord>, preds: &SentimentMap) -> (r: Result<
    Accuracy,
    EvalError,
>)
    requires
        preds.wf(),
    ensures
        match r {
            Ok(a) => preds.entry_seq().len() > 0 && a.total == preds.entry_seq().len() && a.correct
                == correct_count(preds.entry_seq(), truth_of(truth_recs@)) && a.correct <= a.total,
            Err(e) => e == EvalError::EmptyInput && preds.entry_seq().len() == 0,
        },
{
    if preds.len() == 0 {
        return Err(EvalError::EmptyInput);
    }
    let mut truth = SentimentMap::new();
    let mut i: usize = 0;
    while i < truth_recs.len()
        invariant
            0 <= i <= truth_recs@.len(),
            truth.wf(),
            truth@ == truth_of(truth_recs@.take(i as int)),
        decreases truth_recs@.len() - i,
    {
        proof {
            assert(truth_recs@.take(i + 1).drop_last() =~= truth_recs@.take(i as int));
            assert(truth_recs@.take(i + 1).last() == truth_recs@[i as int]);
        }
        truth.insert_first(truth_recs[i].id, truth_recs[i].sentiment);
        i += 1;
    }
    proof {
        assert(truth_recs@.take(truth_recs@.len() as int) =~= truth_recs@);
    }
    let total = preds.len();
    let mut correct: usize = 0;
    let mut k: usize = 0;
    while k < total
        invariant
            0 <= k <= total,
            total == preds.entry_seq().len(),
            preds.wf(),
            truth.wf(),
            truth@ == truth_of(truth_recs@),
            correct <= k,
            correct == correct_count(preds.entry_seq().take(k as int), truth@),
        decreases total - k,
    {
        proof {
            assert(preds.entry_seq().take(k + 1).drop_last() =~= preds.entry_seq().take(k as int));
            assert(preds.entry_seq().take(k + 1).last() == preds.entry_seq()[k as int]);
        }
        let (id, label) = preds.entry_at(k);
        match truth.get(id) {
            Some(actual) => {
                if label == actual {
                    correct += 1;
                }
            },
            None => {},
        }
        k += 1;
    }
    proof {
        assert(preds.entry_seq().take(preds.entry_seq().len() as int) =~= preds.entry_seq());
    }
    Ok(Accuracy { correct, total })
}

} // verus!
