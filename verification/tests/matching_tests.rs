use application::concat::{
    assemble_concatenated, check_ayah_span, join_window, merge_window_parts, verify_concatenated, verify_concatenated_window,
    verify_whole_token, AyahMatch,
};
use application::rows::TokenRow;
use application::serving::SearchError;
use application::scan::{canonical_slice, scan_offsets, MatchMode};
use application::spans::{overlapping_tokens, token_char_range, CanonicalSpan};

fn token(position: i64, surface: &str, start: i64, end: i64) -> TokenRow {
    TokenRow {
        edition_id: "ed-1".to_string(),
        surah: 1,
        ayah: 1,
        position,
        surface: surface.to_string(),
        surface_hash: String::new(),
        char_start: start,
        char_end: end,
        byte_start: 0,
        byte_end: 0,
        is_pause_mark: false,
        global_token_index: position,
    }
}

#[test]
fn scan_modes_report_character_offsets() {
    assert_eq!(scan_offsets("ab  cd ef", "cd", MatchMode::WholeToken), Some((3, 5)));
    assert_eq!(scan_offsets("ab cd", "c", MatchMode::WholeToken), None);
    assert_eq!(scan_offsets("ab cd", "b c", MatchMode::Substring), Some((1, 4)));
    assert_eq!(scan_offsets("ab cd", "ab", MatchMode::AyahPrefix), Some((0, 2)));
    assert_eq!(scan_offsets("ab cd", "cd", MatchMode::AyahPrefix), None);
    assert_eq!(scan_offsets("ab", "abc", MatchMode::Substring), None);
}

#[test]
fn canonical_slices_clip_to_the_text() {
    assert_eq!(canonical_slice("abcdef", 1, 4), "bcd");
    assert_eq!(canonical_slice("abcdef", 4, 99), "ef");
    assert_eq!(canonical_slice("abcdef", 4, 4), "");
    assert_eq!(canonical_slice("abc", 5, 9), "");
}

#[test]
fn token_ranges_count_clusters_not_scalars() {
    // "e" + combining acute is one cluster of two characters.
    let text = "e\u{301}x yz";
    assert_eq!(token_char_range(text, &token(1, "e\u{301}x", 0, 2)), Some(0..3));
    assert_eq!(token_char_range(text, &token(2, "yz", 3, 5)), Some(4..6));
    assert_eq!(token_char_range(text, &token(3, "?", 3, 9)), None);
    assert_eq!(token_char_range(text, &token(4, "?", 4, 3)), None);
}

#[test]
fn overlapping_tokens_are_listed_in_order() {
    let text = "ab cd ef";
    let tokens = vec![token(1, "ab", 0, 2), token(2, "cd", 3, 5), token(3, "ef", 6, 8)];
    let span = CanonicalSpan { start: 1, end: 4, exact: true };
    assert_eq!(overlapping_tokens(text, &tokens, &span), vec![0, 1]);
    let none = CanonicalSpan { start: 2, end: 3, exact: true };
    assert!(overlapping_tokens(text, &tokens, &none).is_empty());
}

#[test]
fn concatenated_match_is_segmented_by_token() {
    let text = "ab cd";
    let tokens = vec![token(1, "ab", 0, 2), token(2, "cd", 3, 5)];
    let span = CanonicalSpan { start: 0, end: 5, exact: true };
    let m = verify_concatenated(text, &tokens, "abcd", 0, span, "abcd", vec![0, 1, 3, 4])
        .expect("the slice reproduces the query");
    assert_eq!(m.span, span);
    assert_eq!(m.matched, vec![0, 1]);
    assert!(!m.spans_ayah_boundary);
    let parts: Vec<(String, u16, String)> = m
        .segmentation
        .iter()
        .map(|s| (s.query_part.clone(), s.canonical_token, s.canonical_surface.clone()))
        .collect();
    assert_eq!(
        parts,
        vec![("ab".to_string(), 1, "ab".to_string()), ("cd".to_string(), 2, "cd".to_string())]
    );
    assert!(verify_concatenated(text, &tokens, "abcd", 0, span, "abce", vec![0, 1, 3, 4]).is_none());
}

#[test]
fn window_matches_split_across_ayahs() {
    let ayahs = vec![(1u32, "ab".to_string()), (2u32, "cd".to_string())];
    let (joined, offsets) = join_window(&ayahs);
    assert_eq!(joined, "ab cd");
    assert_eq!(offsets, vec![0, 3]);
    let tokens = vec![vec![token(1, "ab", 0, 2)], vec![token(1, "cd", 0, 2)]];
    let span = CanonicalSpan { start: 0, end: 5, exact: true };
    let parts = verify_concatenated_window(&ayahs, &tokens, "abcd", 0, span, "abcd", &vec![0, 1, 3, 4])
        .expect("both ayahs carry a token");
    assert_eq!(parts.len(), 2);
    assert_eq!(parts[0].ayah, 1);
    assert_eq!(parts[0].ayah_match.span, CanonicalSpan { start: 0, end: 2, exact: true });
    assert_eq!(parts[1].ayah, 2);
    assert_eq!(parts[1].ayah_match.span, CanonicalSpan { start: 0, end: 2, exact: true });
    assert_eq!(parts[1].ayah_match.segmentation[0].query_part, "cd");
}

#[test]
fn window_parts_never_override_ayah_level_hits() {
    let ayahs = vec![(1u32, "ab".to_string()), (2u32, "cd".to_string())];
    let tokens = vec![vec![token(1, "ab", 0, 2)], vec![token(1, "cd", 0, 2)]];
    let span = CanonicalSpan { start: 0, end: 5, exact: true };
    let parts = verify_concatenated_window(&ayahs, &tokens, "abcd", 0, span, "abcd", &vec![0, 1, 3, 4])
        .expect("verified");
    let ayah_level = AyahMatch {
        span: CanonicalSpan { start: 0, end: 2, exact: true },
        matched: vec![0],
        segmentation: vec![],
        spans_ayah_boundary: false,
    };
    let mut verified = vec![((7u16, 2u32), ayah_level)];
    merge_window_parts(&mut verified, 7, parts);
    assert_eq!(verified.len(), 2);
    assert!(!verified[0].1.spans_ayah_boundary);
    assert_eq!(verified[1].0, (7, 1));
    assert!(verified[1].1.spans_ayah_boundary);
}

#[test]
fn whole_token_verification_spans_the_first_equal_token() {
    let text = "ab cd ab";
    let tokens = vec![token(1, "ab", 0, 2), token(2, "cd", 3, 5), token(3, "ab", 6, 8)];
    let normalized: Vec<String> = ["ab", "cd", "ab"].iter().map(|s| s.to_string()).collect();
    let m = verify_whole_token(text, &tokens, &normalized, "ab").expect("two tokens match");
    assert_eq!(m.span, CanonicalSpan { start: 0, end: 2, exact: true });
    assert_eq!(m.matched, vec![0, 2]);
    assert!(verify_whole_token(text, &tokens, &normalized, "zz").is_none());
    let broken = vec![token(1, "ab", 5, 2), token(2, "cd", 3, 5), token(3, "ab", 6, 8)];
    assert!(verify_whole_token(text, &broken, &normalized, "ab").is_none());
}

#[test]
fn concatenated_search_needs_a_span_of_one_ayah() {
    assert!(check_ayah_span(1).is_ok());
    assert!(check_ayah_span(3).is_ok());
    match check_ayah_span(0) {
        Err(SearchError::Index(fault)) => {
            assert_eq!(fault.code, "QAI-IDX-0002");
            assert_eq!(fault.message, "max_ayah_span must be >= 1");
            assert!(fault.remedy.is_none());
        }
        other => panic!("expected a refusal, got {other:?}"),
    }
}

#[test]
fn assembled_hits_keep_ayah_level_matches_and_count_locations() {
    let ayahs = vec![(1u32, "ab".to_string()), (2u32, "cd".to_string())];
    let tokens = vec![vec![token(1, "ab", 0, 2)], vec![token(1, "cd", 0, 2)]];
    let span = CanonicalSpan { start: 0, end: 5, exact: true };
    let parts = verify_concatenated_window(&ayahs, &tokens, "abcd", 0, span, "abcd", &vec![0, 1, 3, 4])
        .expect("verified");
    let level = |start: u32| AyahMatch {
        span: CanonicalSpan { start, end: start + 2, exact: true },
        matched: vec![0],
        segmentation: vec![],
        spans_ayah_boundary: false,
    };
    let hits = vec![((7u16, 2u32), level(0)), ((9u16, 4u32), level(1)), ((7u16, 2u32), level(3))];
    let (verified, total) = assemble_concatenated(hits, vec![(7, parts)]);
    assert_eq!(total, 3);
    assert_eq!(verified.len(), 3);
    assert_eq!(verified[0].0, (7, 2));
    assert_eq!(verified[0].1.span.start, 0);
    assert!(!verified[0].1.spans_ayah_boundary);
    assert_eq!(verified[1].0, (9, 4));
    assert_eq!(verified[2].0, (7, 1));
    assert!(verified[2].1.spans_ayah_boundary);
}
