use tweet_sentiment::stopwords::{load_english_stop_words, strip_quotes, StopSet};
use tweet_sentiment::tokenize::{distinct_tokens, normalize};

fn empty_stop() -> StopSet {
    StopSet::from_words(Vec::new())
}

#[test]
fn lone_punctuation_is_rejected() {
    let stop = empty_stop();
    assert_eq!(normalize("!", &stop), None);
    assert_eq!(normalize(",", &stop), None);
}

#[test]
fn trailing_punctuation_alone_does_not_reject() {
    let stop = empty_stop();
    assert_eq!(normalize("ok!", &stop), Some("ok!".to_string()));
}

#[test]
fn empty_and_whitespace_are_rejected() {
    let stop = empty_stop();
    assert_eq!(normalize("", &stop), None);
    assert_eq!(normalize("   ", &stop), None);
}

#[test]
fn normalization_trims_strips_and_lowercases() {
    let stop = empty_stop();
    assert_eq!(normalize("  Hello  ", &stop), Some("hello".to_string()));
    assert_eq!(normalize("Great,", &stop), Some("great".to_string()));
    assert_eq!(normalize("It's", &stop), Some("it".to_string()));
    assert_eq!(normalize("a,b.c", &stop), Some("abc".to_string()));
}

#[test]
fn comma_and_dot_are_removed_everywhere() {
    let stop = empty_stop();
    assert_eq!(normalize("w.o.r.d", &stop), Some("word".to_string()));
}

#[test]
fn normalizing_a_normalized_word_changes_nothing() {
    let stop = empty_stop();
    let first = normalize("Great,", &stop).unwrap();
    assert_eq!(normalize(&first, &stop), Some(first.clone()));
}

#[test]
fn normalizing_an_untrimmed_normalized_word_is_stable() {
    let stop = empty_stop();
    let first = normalize(" ok", &stop).unwrap();
    assert_eq!(first, "ok".to_string());
    assert_eq!(normalize(&first, &stop), Some(first.clone()));
}

#[test]
fn english_stop_words_are_rejected() {
    let stop = load_english_stop_words();
    assert_eq!(normalize("the", &stop), None);
    assert_eq!(normalize("The", &stop), None);
    assert_eq!(normalize("and", &stop), None);
    assert_eq!(normalize("cat", &stop), Some("cat".to_string()));
}

#[test]
fn custom_stop_words_are_rejected() {
    let stop = StopSet::from_words(vec!["great".to_string()]);
    assert_eq!(normalize("Great", &stop), None);
    assert_eq!(normalize("day", &stop), Some("day".to_string()));
}

#[test]
fn quotes_are_stripped_from_raw_stop_words() {
    assert_eq!(strip_quotes(&"\"and\"".to_string()), "and".to_string());
    assert_eq!(strip_quotes(&"plain".to_string()), "plain".to_string());
}

#[test]
fn texts_are_split_at_word_boundaries() {
    let stop = empty_stop();
    assert_eq!(
        distinct_tokens("great day", &stop),
        vec!["great".to_string(), "day".to_string()]
    );
    assert_eq!(
        distinct_tokens("Good, better; best!", &stop),
        vec!["good".to_string(), "better".to_string(), "best".to_string()]
    );
}

#[test]
fn repeated_words_collapse_to_one_token() {
    let stop = empty_stop();
    assert_eq!(
        distinct_tokens("fun fun FUN fun.", &stop),
        vec!["fun".to_string()]
    );
}

#[test]
fn stop_words_vanish_from_token_lists() {
    let stop = load_english_stop_words();
    assert_eq!(
        distinct_tokens("the cat and the hat", &stop),
        vec!["cat".to_string(), "hat".to_string()]
    );
}
