use application::cooccurrence::{cooccurrence, pairings, rank_hits, tally_pairings, window_label};
use application::counting::CooccurrenceHit;
use application::filter::Filter;
use application::rows::AyahRow;
use application::scan::{scan_candidates, MatchMode};

fn tok(form: &str, surah: i64, ayah: i64) -> (String, i64, i64) {
    (form.to_string(), surah, ayah)
}

fn hit(form: &str, count: u64, spans: bool) -> CooccurrenceHit {
    CooccurrenceHit { form: form.to_string(), count, spans_ayah_boundary: spans }
}

fn view(h: &[CooccurrenceHit]) -> Vec<(String, u64, bool)> {
    h.iter().map(|h| (h.form.clone(), h.count, h.spans_ayah_boundary)).collect()
}

#[test]
fn pairings_follow_each_target_occurrence() {
    let stream = vec![tok("a", 1, 1), tok("t", 1, 1), tok("b", 1, 2), tok("t", 1, 2), tok("a", 2, 1)];
    let pairs = pairings(&stream, "t", 1);
    assert_eq!(
        pairs,
        vec![
            ("a".to_string(), false),
            ("b".to_string(), true),
            ("b".to_string(), false),
            ("a".to_string(), true)
        ]
    );
    let tally = tally_pairings(&pairs);
    assert_eq!(view(&tally), vec![("a".to_string(), 2, true), ("b".to_string(), 2, true)]);
}

#[test]
fn cooccurrence_ranks_by_count_then_form() {
    let stream = vec![
        tok("x", 1, 1),
        tok("t", 1, 1),
        tok("y", 1, 1),
        tok("t", 1, 1),
        tok("y", 1, 1),
        tok("z", 1, 2),
    ];
    let hits = cooccurrence(&stream, "t", 1, 10);
    assert_eq!(
        view(&hits),
        vec![("y".to_string(), 3, false), ("x".to_string(), 1, false)]
    );
    let wide = cooccurrence(&stream, "t", 2, 10);
    assert_eq!(
        view(&wide),
        vec![
            ("y".to_string(), 3, false),
            ("x".to_string(), 1, false),
            ("z".to_string(), 1, true)
        ]
    );
    assert_eq!(cooccurrence(&stream, "t", 0, 0).len(), 1);
    assert!(cooccurrence(&stream, "absent", 3, 10).is_empty());
    assert_eq!(window_label(0), "token:1");
    assert_eq!(window_label(5), "token:5");
}

#[test]
fn ranking_breaks_ties_by_form() {
    let ranked = rank_hits(&[hit("b", 2, false), hit("a", 2, true), hit("c", 5, false)], 2);
    assert_eq!(view(&ranked), vec![("c".to_string(), 5, false), ("a".to_string(), 2, true)]);
}

fn row(surah: i64, ayah: i64, juz: i64) -> AyahRow {
    AyahRow {
        edition_id: "ed-1".to_string(),
        surah,
        ayah,
        text: String::new(),
        text_hash: String::new(),
        char_count: 0,
        token_count: 0,
        global_ayah_index: 0,
        juz: Some(juz),
        hizb: None,
        rub: None,
        manzil: None,
        ruku: None,
        page: None,
        sajdah: None,
        provenance_id: String::new(),
    }
}

#[test]
fn scan_candidates_filter_then_match() {
    let rows = vec![row(2, 1, 1), row(1, 2, 1), row(1, 1, 1), row(3, 1, 2)];
    let places = vec![Some("madani".to_string()), None, Some("makki".to_string()), None];
    let derived: Vec<String> =
        ["ab cd", "xx cd", "cd", "cd ef"].iter().map(|s| s.to_string()).collect();
    assert_eq!(
        scan_candidates(&rows, &places, &derived, &[], "cd", MatchMode::WholeToken),
        vec![(1, 1), (1, 2), (2, 1), (3, 1)]
    );
    assert_eq!(
        scan_candidates(&rows, &places, &derived, &[Filter::JuzRange(1, 1)], "cd", MatchMode::AyahPrefix),
        vec![(1, 1)]
    );
    assert_eq!(
        scan_candidates(&rows, &places, &derived, &[], "b c", MatchMode::Substring),
        vec![(2, 1)]
    );
}
