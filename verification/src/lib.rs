//! A bag-of-words sentiment classifier for short social-media text.
//!
//! Raw text is split into word-like units, normalized (trimming,
//! removal of a few marker substrings, Unicode lowercasing) and filtered
//! against a stop-word list and a punctuation set.  A labeled training
//! corpus yields a per-word polarity score; unseen records are classified
//! by thresholding the sum of their words' scores, and predictions are
//! compared against ground truth to produce an accuracy figure.

pub mod evaluate;
pub mod laws;
pub mod predict;
pub mod records;
pub mod scores;
pub mod stopwords;
pub mod text;
pub mod tokenize;
