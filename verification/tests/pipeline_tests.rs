use tweet_sentiment::evaluate::{evaluate, EvalError};
use tweet_sentiment::predict::{predict, SentimentMap};
use tweet_sentiment::records::{LabeledRecord, TruthRecord, UnlabeledRecord};
use tweet_sentiment::scores::build_scores;
use tweet_sentiment::stopwords::StopSet;

fn empty_stop() -> StopSet {
    StopSet::from_words(Vec::new())
}

fn labeled(id: u64, sentiment: u8, text: &str) -> LabeledRecord {
    LabeledRecord {
        id,
        sentiment,
        text: text.to_string(),
    }
}

fn unlabeled(id: u64, text: &str) -> UnlabeledRecord {
    UnlabeledRecord {
        id,
        text: text.to_string(),
    }
}

#[test]
fn scores_accumulate_across_records() {
    let stop = empty_stop();
    let recs = vec![labeled(1, 4, "great day"), labeled(2, 0, "great loss")];
    let scores = build_scores(&recs, &stop);
    assert_eq!(scores.get(&"great".to_string()), Some(3));
    assert_eq!(scores.get(&"day".to_string()), Some(4));
    assert_eq!(scores.get(&"loss".to_string()), Some(-1));
    assert_eq!(scores.get(&"absent".to_string()), None);
}

#[test]
fn repeated_words_in_one_record_count_once() {
    let stop = empty_stop();
    let recs = vec![labeled(1, 4, "fun fun fun")];
    let scores = build_scores(&recs, &stop);
    assert_eq!(scores.get(&"fun".to_string()), Some(4));
    assert_eq!(scores.token_count(), 1);
}

#[test]
fn empty_and_all_stopword_texts_contribute_nothing() {
    let stop = StopSet::from_words(vec!["the".to_string()]);
    let recs = vec![labeled(1, 4, ""), labeled(2, 0, "the the")];
    let scores = build_scores(&recs, &stop);
    assert_eq!(scores.token_count(), 0);
}

#[test]
fn building_twice_gives_identical_scores() {
    let stop = empty_stop();
    let recs = vec![
        labeled(1, 4, "great day"),
        labeled(2, 0, "great loss"),
        labeled(3, 4, "calm sea"),
    ];
    let a = build_scores(&recs, &stop);
    let b = build_scores(&recs, &stop);
    for w in ["great", "day", "loss", "calm", "sea", "missing"] {
        assert_eq!(a.get(&w.to_string()), b.get(&w.to_string()));
    }
    assert_eq!(a.token_count(), b.token_count());
}

/// A corpus in which the word "calm" accumulates exactly the given score:
/// `pos` positive records and `neg` negative ones give 5 * pos - (pos + neg).
fn calm_corpus(pos: u64, neg: u64) -> Vec<LabeledRecord> {
    let mut recs = Vec::new();
    for i in 0..pos {
        recs.push(labeled(i, 4, "calm"));
    }
    for i in 0..neg {
        recs.push(labeled(1000 + i, 0, "calm"));
    }
    recs
}

#[test]
fn a_score_at_the_threshold_predicts_negative() {
    let stop = empty_stop();
    // 13 positive and 2 negative records: 65 - 15 == 50, exactly the threshold.
    let scores = build_scores(&calm_corpus(13, 2), &stop);
    assert_eq!(scores.get(&"calm".to_string()), Some(50));
    let preds = predict(&vec![unlabeled(7, "calm")], &scores, &stop);
    assert_eq!(preds.get(7), Some(0));
}

#[test]
fn a_score_above_the_threshold_predicts_positive() {
    let stop = empty_stop();
    // 13 positive and 1 negative record: 65 - 14 == 51, just above the threshold.
    let scores = build_scores(&calm_corpus(13, 1), &stop);
    assert_eq!(scores.get(&"calm".to_string()), Some(51));
    let preds = predict(&vec![unlabeled(7, "calm")], &scores, &stop);
    assert_eq!(preds.get(7), Some(4));
}

#[test]
fn unknown_words_contribute_nothing_to_a_tweet_score() {
    let stop = empty_stop();
    let scores = build_scores(&calm_corpus(13, 1), &stop);
    let preds = predict(&vec![unlabeled(7, "calm unheard words")], &scores, &stop);
    assert_eq!(preds.get(7), Some(4));
}

#[test]
fn first_prediction_for_an_identifier_wins() {
    let stop = empty_stop();
    let scores = build_scores(&calm_corpus(13, 1), &stop);
    // Both records share the identifier: the first scores 51 (positive),
    // the second would score 0 (negative) but must not overwrite.
    let recs = vec![unlabeled(7, "calm"), unlabeled(7, "quiet")];
    let preds = predict(&recs, &scores, &stop);
    assert_eq!(preds.get(7), Some(4));
}

#[test]
fn first_write_wins_on_the_map_itself() {
    let mut m = SentimentMap::new();
    m.insert_first(1, 4);
    m.insert_first(1, 0);
    assert_eq!(m.get(1), Some(4));
    assert_eq!(m.len(), 1);
}

#[test]
fn accuracy_counts_matches_over_all_predictions() {
    let mut preds = SentimentMap::new();
    preds.insert_first(1, 4);
    preds.insert_first(2, 0);
    preds.insert_first(3, 4);
    let truth = vec![
        TruthRecord { id: 1, sentiment: 4 },
        TruthRecord { id: 2, sentiment: 4 },
        TruthRecord { id: 3, sentiment: 4 },
    ];
    let a = evaluate(&truth, &preds).unwrap();
    assert_eq!(a.correct, 2);
    assert_eq!(a.total, 3);
    assert_eq!(a.percent_hundredths(), 6667);
}

#[test]
fn missing_ground_truth_counts_in_the_denominator_only() {
    let mut preds = SentimentMap::new();
    preds.insert_first(1, 4);
    preds.insert_first(99, 4);
    let truth = vec![TruthRecord { id: 1, sentiment: 4 }];
    let a = evaluate(&truth, &preds).unwrap();
    assert_eq!(a.correct, 1);
    assert_eq!(a.total, 2);
    assert_eq!(a.percent_hundredths(), 5000);
}

#[test]
fn duplicate_ground_truth_keeps_the_first_value() {
    let mut preds = SentimentMap::new();
    preds.insert_first(1, 4);
    let truth = vec![
        TruthRecord { id: 1, sentiment: 4 },
        TruthRecord { id: 1, sentiment: 0 },
    ];
    let a = evaluate(&truth, &preds).unwrap();
    assert_eq!(a.correct, 1);
    assert_eq!(a.total, 1);
    assert_eq!(a.percent_hundredths(), 10000);
}

#[test]
fn evaluating_no_predictions_is_an_error() {
    let preds = SentimentMap::new();
    let truth = vec![TruthRecord { id: 1, sentiment: 4 }];
    assert!(matches!(evaluate(&truth, &preds), Err(EvalError::EmptyInput)));
}

#[test]
fn rounding_is_half_up() {
    let mut preds = SentimentMap::new();
    preds.insert_first(1, 4);
    preds.insert_first(2, 4);
    preds.insert_first(3, 4);
    let truth = vec![TruthRecord { id: 1, sentiment: 4 }];
    let a = evaluate(&truth, &preds).unwrap();
    assert_eq!(a.correct, 1);
    assert_eq!(a.total, 3);
    // 33.333... percent rounds to 33.33.
    assert_eq!(a.percent_hundredths(), 3333);
}
