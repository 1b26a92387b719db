use application::search::{derived_tokens, find_term_sequence, PhraseMode};

fn tokens_of(text: &str) -> Vec<(std::ops::Range<u32>, String)> {
    derived_tokens(text).into_iter().map(|(range, token)| (range, token.to_string())).collect()
}

fn borrowed(tokens: &[(std::ops::Range<u32>, String)]) -> Vec<(std::ops::Range<u32>, &str)> {
    tokens.iter().map(|(range, token)| (range.clone(), token.as_str())).collect()
}

#[test]
fn ordered_modes_respect_gaps() {
    let tokens = tokens_of("a b c d");
    let terms = ["b".to_string(), "d".to_string()];
    assert!(find_term_sequence(&borrowed(&tokens), &terms, PhraseMode::OrderedExact, 0).is_none());
    let (start, end) = find_term_sequence(&borrowed(&tokens), &terms, PhraseMode::OrderedNear, 1)
        .expect("one gap allowed");
    assert_eq!((start, end), (2, 7));
    assert!(find_term_sequence(&borrowed(&tokens), &terms, PhraseMode::OrderedNear, 0).is_none());
}

#[test]
fn unordered_mode_ignores_order_within_window() {
    let tokens = tokens_of("x c a b y");
    let terms = ["a".to_string(), "b".to_string(), "c".to_string()];
    let (start, end) = find_term_sequence(&borrowed(&tokens), &terms, PhraseMode::UnorderedNear, 1)
        .expect("all terms within window");
    assert_eq!((start, end), (2, 7));
    assert!(find_term_sequence(&borrowed(&tokens), &terms, PhraseMode::UnorderedNear, 0).is_some());
}

#[test]
fn derived_token_offsets_track_characters() {
    let tokens = derived_tokens("بسم الله");
    assert_eq!(tokens.len(), 2);
    assert_eq!(tokens[0].0, 0..3);
    assert_eq!(tokens[1].0, 4..8);
}

#[test]
fn empty_term_list_matches_nothing() {
    let tokens = tokens_of("a b");
    assert!(find_term_sequence(&borrowed(&tokens), &[], PhraseMode::OrderedExact, 0).is_none());
}

#[test]
fn ordered_near_searches_all_placements() {
    let tokens = tokens_of("a b b x c");
    let terms = ["a".to_string(), "b".to_string(), "c".to_string()];
    assert_eq!(
        find_term_sequence(&borrowed(&tokens), &terms, PhraseMode::OrderedNear, 1),
        Some((0, 9))
    );
    assert!(find_term_sequence(&borrowed(&tokens), &terms, PhraseMode::OrderedNear, 0).is_none());
}

#[test]
fn ordered_near_reports_leftmost_start_and_earliest_end() {
    let tokens = tokens_of("x a b a b b");
    let terms = ["a".to_string(), "b".to_string()];
    assert_eq!(
        find_term_sequence(&borrowed(&tokens), &terms, PhraseMode::OrderedNear, 2),
        Some((2, 5))
    );
    assert_eq!(
        find_term_sequence(&borrowed(&tokens), &terms, PhraseMode::OrderedExact, 0),
        Some((2, 5))
    );
}

#[test]
fn unordered_mode_counts_repeated_terms() {
    let tokens = tokens_of("a x a y");
    let terms = ["a".to_string(), "a".to_string()];
    assert_eq!(
        find_term_sequence(&borrowed(&tokens), &terms, PhraseMode::UnorderedNear, 1),
        Some((0, 5))
    );
    assert!(find_term_sequence(&borrowed(&tokens), &terms, PhraseMode::UnorderedNear, 0).is_none());
    let once = tokens_of("a x y z");
    assert!(find_term_sequence(&borrowed(&once), &terms, PhraseMode::UnorderedNear, 5).is_none());
}
