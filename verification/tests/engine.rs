use swipe_engine::SwipeEngine;

#[test]
fn test_engine_creation() {
    let engine = SwipeEngine::new();
    assert_eq!(engine.word_count(), 0);
}

#[test]
fn test_dictionary_loading() {
    let mut engine = SwipeEngine::new();
    engine.load_dictionary("hello\t1000\nworld\t500\n");
    assert_eq!(engine.word_count(), 2);
}

#[test]
fn test_prediction() {
    let mut engine = SwipeEngine::new();
    engine.load_dictionary("hello\t1000\nhello\t1000\nhelp\t800\nhell\t600\n");

    let predictions = engine.predict("hello", 5);
    assert!(!predictions.is_empty());
    // The exact word "hello" should be among top predictions
    assert!(predictions.iter().any(|p| p.word == "hello"));
}

#[test]
fn unmapped_swipe_gives_no_predictions() {
    let mut engine = SwipeEngine::new();
    engine.load_dictionary("hello\t1000\nworld\t500\n");
    // digits and punctuation have no keys on the layout
    let predictions = engine.predict("0123!?", 5);
    assert!(predictions.is_empty());
}

#[test]
fn limit_zero_gives_no_predictions() {
    let mut engine = SwipeEngine::new();
    engine.load_dictionary("hello\t1000\nworld\t500\n");
    let predictions = engine.predict("hello", 0);
    assert!(predictions.is_empty());
}

#[test]
fn prediction_is_deterministic() {
    let mut engine = SwipeEngine::new();
    engine.load_dictionary("hello\t1000\nhelp\t800\nhell\t600\nworld\t500\n");
    let a = engine.predict("hela", 3);
    let b = engine.predict("hela", 3);
    assert_eq!(a.len(), b.len());
    for k in 0..a.len() {
        assert_eq!(a[k].word, b[k].word);
        assert_eq!(a[k].score, b[k].score);
        assert_eq!(a[k].freq, b[k].freq);
    }
}

#[test]
fn exact_spelling_ranks_at_top_against_dissimilar_words() {
    let mut engine = SwipeEngine::new();
    engine.load_dictionary("zebra\t900\nmummy\t900\nhello\t10\npopup\t900\n");
    let predictions = engine.predict("hello", 5);
    assert!(!predictions.is_empty());
    // recognizability: the perfectly traced word is among the top five
    // even though every rival carries a far larger frequency
    assert!(predictions.iter().any(|p| p.word == "hello"));
    // and its geometric cost is the best of all survivors: zero
    let hello = predictions.iter().find(|p| p.word == "hello").unwrap();
    assert_eq!(hello.score, 0);
    assert!(predictions.iter().all(|p| p.score >= hello.score));
}

#[test]
fn repeated_words_accumulate_counts() {
    let mut engine = SwipeEngine::new();
    engine.load_dictionary("a\t5\na\t7\n");
    assert_eq!(engine.word_count(), 1);
    let predictions = engine.predict("a", 1);
    assert_eq!(predictions.len(), 1);
    assert_eq!(predictions[0].word, "a");
    assert_eq!(predictions[0].freq, 12);
}

#[test]
fn repeated_loads_are_additive() {
    let mut engine = SwipeEngine::new();
    engine.load_dictionary("hello\t1000\nworld\t500\n");
    engine.load_dictionary("hello\t1000\nworld\t500\n");
    assert_eq!(engine.word_count(), 2);
    let predictions = engine.predict("hello", 1);
    assert_eq!(predictions.len(), 1);
    assert_eq!(predictions[0].freq, 2000);
}

#[test]
fn malformed_lines_are_skipped() {
    let mut engine = SwipeEngine::new();
    engine.load_dictionary("a\t5\nnotab\nb\tx9\n\nc\t7\n");
    // only "a" and "c" parse; the tabless, non-numeric and blank lines
    // are skipped without aborting the load
    assert_eq!(engine.word_count(), 2);
}

#[test]
fn count_of_nineteen_digits_parses_and_twenty_is_malformed() {
    let mut engine = SwipeEngine::new();
    engine.load_dictionary("a\t9999999999999999999\nb\t99999999999999999999\n");
    assert_eq!(engine.word_count(), 1);
    let predictions = engine.predict("a", 1);
    assert_eq!(predictions[0].freq, 9999999999999999999);
}

#[test]
fn empty_word_is_loaded_but_never_predicted() {
    let mut engine = SwipeEngine::new();
    engine.load_dictionary("\t5\nhello\t100\n");
    assert_eq!(engine.word_count(), 2);
    let predictions = engine.predict("hello", 5);
    assert!(predictions.iter().any(|p| p.word == "hello"));
    assert!(predictions.iter().all(|p| !p.word.is_empty()));
}

#[test]
fn raising_pop_weight_never_demotes_the_popular_candidate() {
    // The keys "f" and "h" sit at equal distance left and right of the
    // swiped key "g", so the two words tie geometrically; "h" carries
    // the larger frequency.
    let mut low = SwipeEngine::new();
    low.load_dictionary("f\t10\nh\t900\n");
    low.set_pop_weight(0);
    let before = low.predict("g", 5);
    let rank_before = before.iter().position(|p| p.word == "h").unwrap();

    let mut high = SwipeEngine::new();
    high.load_dictionary("f\t10\nh\t900\n");
    high.set_pop_weight(250);
    let after = high.predict("g", 5);
    let rank_after = after.iter().position(|p| p.word == "h").unwrap();

    assert_eq!(before[0].score, before[1].score);
    assert!(rank_after <= rank_before);
}

#[test]
fn empty_swipe_gives_no_predictions() {
    let mut engine = SwipeEngine::new();
    engine.load_dictionary("hello\t1000\n");
    assert!(engine.predict("", 5).is_empty());
}

#[test]
fn uppercase_edges_are_case_folded_for_penalties() {
    let mut engine = SwipeEngine::new();
    engine.load_dictionary("hello\t1000\nhelp\t800\nhell\t600\n");
    // 'H' has no key, so it contributes no path point, but the edge
    // penalty folds it to 'h' and still favours words starting there
    let predictions = engine.predict("Hello", 5);
    assert!(!predictions.is_empty());
    assert!(predictions.iter().any(|p| p.word == "hello"));
}

#[test]
fn default_engine_matches_new() {
    let engine = SwipeEngine::default();
    assert_eq!(engine.word_count(), 0);
}
