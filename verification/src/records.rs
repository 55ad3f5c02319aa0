//! The record shapes the pipeline works on, already parsed into plain
//! values, and the two sentiment labels.

use vstd::prelude::*;

verus! {

/// The label that encodes positive sentiment in the datasets.
pub const POSITIVE_LABEL: u8 = 4;

/// The label that encodes negative sentiment in the datasets.
pub const NEGATIVE_LABEL: u8 = 0;

/// One training record: an identifier, its labeled sentiment and the raw
/// text.  Records are immutable once read.
pub struct LabeledRecord {
    pub id: u64,
    pub sentiment: u8,
    pub text: String,
}

/// One test record: an identifier and the raw text, sentiment unknown.
pub struct UnlabeledRecord {
    pub id: u64,
    pub text: String,
}

/// One ground-truth record: an identifier and its true sentiment.
pub struct TruthRecord {
    pub id: u64,
    pub sentiment: u8,
}

} // verus!
