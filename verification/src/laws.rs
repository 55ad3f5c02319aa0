//! General properties of the pipeline, stated over the same spec
//! functions the executable contracts use and proved once for all
//! inputs.

use crate::evaluate::correct_count;
use crate::predict::{fww_insert, predicted_label, SCORE_THRESHOLD};
use crate::records::{LabeledRecord, NEGATIVE_LABEL, POSITIVE_LABEL};
use crate::scores::scores_of;
use crate::text::{canon, lower_of, strip_marks, trim_of};
use crate::tokenize::accepted;
use vstd::prelude::*;

verus! {

/// Normalization is idempotent on words already in normalized form: when
/// a word's trimmed content is a fixed point of mark removal and of
/// lowercasing, the word normalizes to that content, normalizing the
/// result again changes nothing, and acceptance is unchanged.  That
/// trimming a trimmed word removes nothing is guaranteed by the trimming
/// function and stated where the library calls it; proofs know that
/// function only by name, so here it is a hypothesis.
pub proof fn lemma_normalize_idempotent(w: Seq<char>, stop: Set<Seq<char>>)
    ensures
        (strip_marks(trim_of(w)) == trim_of(w) && lower_of(trim_of(w)) == trim_of(w) && trim_of(
            trim_of(w),
        ) == trim_of(w)) ==> (canon(w) == trim_of(w) && canon(canon(w)) == canon(w) && (accepted(
            w,
            stop,
        ) <==> accepted(canon(w), stop)) && (trim_of(w) == w ==> canon(w) == w)),
{
}

/// A word whose normalized form is in the stop-word set is rejected; in
/// particular a stop word that is already in normalized form is
/// rejected.
pub proof fn lemma_stop_word_rejected(w: Seq<char>, stop: Set<Seq<char>>)
    ensures
        stop.contains(canon(w)) ==> !accepted(w, stop),
        (stop.contains(w) && trim_of(w) == w && strip_marks(w) == w && lower_of(w) == w)
            ==> !accepted(w, stop),
{
}

/// Building scores is deterministic: the score map is a function of the
/// training records and the stop-word set alone, so two runs over the
/// same corpus agree on every token's score.
pub proof fn lemma_build_scores_deterministic(
    m1: Map<Seq<char>, int>,
    m2: Map<Seq<char>, int>,
    recs: Seq<LabeledRecord>,
    stop: Set<Seq<char>>,
)
    ensures
        (m1 == scores_of(recs, stop) && m2 == scores_of(recs, stop)) ==> m1 == m2,
{
}

/// The decision boundary: a summed score at the threshold predicts the
/// negative label, and only a score strictly above it predicts the
/// positive label.
pub proof fn lemma_threshold_boundary()
    ensures
        predicted_label(SCORE_THRESHOLD as int) == NEGATIVE_LABEL,
        predicted_label(SCORE_THRESHOLD as int + 1) == POSITIVE_LABEL,
        forall|s: int| predicted_label(s) == POSITIVE_LABEL <==> s > SCORE_THRESHOLD as int,
{
}

/// First write wins: an insertion always leaves the key present, a later
/// insertion for a present key changes nothing, and an insertion for an
/// absent key records exactly the given value.
pub proof fn lemma_first_write_wins(m: Map<u64, u8>, id: u64, v1: u8, v2: u8)
    ensures
        fww_insert(m, id, v1).contains_key(id),
        !m.contains_key(id) ==> fww_insert(m, id, v1)[id] == v1,
        m.contains_key(id) ==> fww_insert(m, id, v1) == m,
        fww_insert(fww_insert(m, id, v1), id, v2) == fww_insert(m, id, v1),
{
}

/// A prediction whose identifier is absent from the ground truth never
/// counts as correct, while it still counts in the denominator.
pub proof fn lemma_missing_ground_truth(
    preds: Seq<(u64, u8)>,
    truth: Map<u64, u8>,
    id: u64,
    label: u8,
)
    ensures
        !truth.contains_key(id) ==> correct_count(preds.push((id, label)), truth) == correct_count(
            preds,
            truth,
        ),
        preds.push((id, label)).len() == preds.len() + 1,
{
    assert(preds.push((id, label)).drop_last() =~= preds);
    assert(preds.push((id, label)).last() == (id, label));
}

} // verus!
