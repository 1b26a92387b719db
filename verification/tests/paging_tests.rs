use application::paging::{
    is_truncated, order_candidates, page_candidates, phrase_recall, window_admitted,
};
use application::search::PhraseMode;

#[test]
fn candidates_come_out_sorted_without_duplicates() {
    let c = vec![(2, 5), (1, 7), (2, 5), (1, 3)];
    assert_eq!(order_candidates(&c), vec![(1, 3), (1, 7), (2, 5)]);
    assert!(order_candidates(&[]).is_empty());
}

#[test]
fn pages_slice_the_ordered_candidates() {
    let c = vec![(3, 1), (1, 1), (2, 1), (1, 2)];
    assert_eq!(page_candidates(&c, 1, 2), vec![(1, 2), (2, 1)]);
    assert_eq!(page_candidates(&c, 0, 0), vec![(1, 1)]);
    assert!(page_candidates(&c, 9, 2).is_empty());
}

#[test]
fn truncation_needs_a_full_page_and_more_matches() {
    assert!(is_truncated(10, 10, 11));
    assert!(!is_truncated(10, 10, 10));
    assert!(!is_truncated(9, 10, 50));
    assert!(is_truncated(1, 0, 2));
}

#[test]
fn phrase_recall_is_looser_than_verification() {
    assert_eq!(phrase_recall(PhraseMode::OrderedExact, 7, 3), (0, true));
    assert_eq!(phrase_recall(PhraseMode::OrderedNear, 1, 3), (2, false));
    assert_eq!(phrase_recall(PhraseMode::UnorderedNear, 2, 3), (5, false));
}

#[test]
fn windows_are_admitted_only_when_cross_ayah_search_allows() {
    assert!(window_admitted(4, 4, false, 0));
    assert!(!window_admitted(4, 5, false, 3));
    assert!(window_admitted(4, 6, true, 3));
    assert!(!window_admitted(4, 7, true, 3));
}
