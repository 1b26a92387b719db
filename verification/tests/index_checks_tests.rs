use application::doctor::CheckLevel;
use application::forms::CanonicalCheck;
use application::index_checks::{
    alignment_check, canonical_unchanged_check, coverage_check, dataset_active_check,
    forms_coverage_check, index_checks, index_drift_check, index_orphans_check, lexicon_integrity_check,
    lexicon_integrity_gate, longest_ayahs, no_edition_index_checks, pinned_reference, probe_cap,
    probe_slice, profiles_loaded_check, provenance_check, sample_ayahs, smoke_gate, smoke_probes,
    smoke_search_params, smoke_token_probes, smoke_tool, smoke_verdict, unification_queue_check,
    unverified_layer_d_check, MorphProbe, ProbedAnalysis, RuleSetVersion, SeededProfile,
    SmokeProbe, SmokeTool, INDEX_CHECK_IDS,
};
use application::rows::AyahRow;
use application::scan::MatchMode;

fn ayah(surah: i64, ayah: i64) -> AyahRow {
    AyahRow {
        edition_id: "ed-1".to_string(),
        surah,
        ayah,
        text: String::new(),
        text_hash: String::new(),
        char_count: 0,
        token_count: 0,
        global_ayah_index: 0,
        juz: None,
        hizb: None,
        rub: None,
        manzil: None,
        ruku: None,
        page: None,
        sajdah: None,
        provenance_id: String::new(),
    }
}

fn analysis(layer: &str, status: &str, lemma: Option<&str>, root: Option<&str>) -> ProbedAnalysis {
    ProbedAnalysis {
        layer: layer.to_string(),
        status: status.to_string(),
        lemma_id: lemma.map(str::to_string),
        root_id: root.map(str::to_string),
    }
}

#[test]
fn without_an_edition_all_nineteen_checks_skip_in_order() {
    let checks = no_edition_index_checks();
    assert_eq!(checks.len(), 19);
    for (check, id) in checks.iter().zip(INDEX_CHECK_IDS.iter()) {
        assert_eq!(check.id, *id);
        assert_eq!(check.status, CheckLevel::Skipped);
        assert_eq!(check.summary, "no active Arabic edition");
    }
    assert_eq!(checks[18].id, "quran.search.smoke");
}

#[test]
fn sampler_takes_every_seventh_row_and_the_last() {
    let rows: Vec<AyahRow> = (1..=15).map(|a| ayah(1, a)).collect();
    assert_eq!(sample_ayahs(&rows, false), vec![0, 7, 14]);
    let rows: Vec<AyahRow> = (1..=10).map(|a| ayah(1, a)).collect();
    assert_eq!(sample_ayahs(&rows, false), vec![0, 7, 9]);
    assert_eq!(sample_ayahs(&rows, true), (0..10).collect::<Vec<usize>>());
    assert!(sample_ayahs(&[], false).is_empty());
    let many: Vec<AyahRow> = (1..=2000).map(|a| ayah(2, a)).collect();
    let picks = sample_ayahs(&many, false);
    assert_eq!(picks.len(), 201);
    assert_eq!(picks[199], 1393);
    assert_eq!(picks[200], 1999);
}

#[test]
fn smoke_params_search_whole_tokens() {
    let p = smoke_search_params("بسم".to_string());
    assert_eq!(p.text, "بسم");
    assert_eq!(p.mode, MatchMode::WholeToken);
    assert_eq!(p.limit, 100);
    assert_eq!(p.offset, 0);
    assert!(p.filters.is_empty() && !p.explain && !p.highlight && p.edition.is_none());
}

#[test]
fn forms_coverage_levels() {
    let skipped = forms_coverage_check(10, 0, 0, 3);
    assert_eq!(skipped.status, CheckLevel::Skipped);
    let ok = forms_coverage_check(10, 10, 3, 3);
    assert_eq!(ok.status, CheckLevel::Pass);
    assert_eq!(ok.summary, "every token (10) and ayah (3) has derived forms");
    let partial = forms_coverage_check(10, 7, 3, 3);
    assert_eq!(partial.status, CheckLevel::Fail);
    assert_eq!(partial.summary, "forms cover 7/10 tokens and 3/3 ayahs");
    assert_eq!(partial.next_command.as_deref(), Some("qai quran forms rebuild"));
}

#[test]
fn dataset_and_queue_checks() {
    let active = dataset_active_check(Some(("qac", "0.4")), 2);
    assert_eq!(active.status, CheckLevel::Pass);
    assert_eq!(active.summary, "active morphology dataset qac@0.4");
    assert_eq!(dataset_active_check(None, 0).status, CheckLevel::Skipped);
    let staged = dataset_active_check(None, 2);
    assert_eq!(staged.status, CheckLevel::Warn);
    assert_eq!(staged.summary, "2 datasets staged but none active");
    let items = vec![
        ("root_unification".to_string(), "pending".to_string()),
        ("root_unification".to_string(), "done".to_string()),
        ("lemma_merge".to_string(), "pending".to_string()),
    ];
    assert_eq!(unification_queue_check(&items).summary, "1 pending root-unification suggestions");
}

#[test]
fn orphaned_generations_are_listed_ascending() {
    let names: Vec<String> = ["gen-3", "gen-1", "notes", "gen-x", "gen-7", "gen-3"]
        .iter()
        .map(|s| s.to_string())
        .collect();
    let check = index_orphans_check(&names, &[1, 2], Some(3));
    assert_eq!(check.status, CheckLevel::Warn);
    assert_eq!(check.summary, "orphaned on-disk generations: 7");
    let tidy = index_orphans_check(&names, &[1, 7], Some(3));
    assert_eq!(tidy.status, CheckLevel::Pass);
    assert_eq!(tidy.summary, "3 on-disk generations all tracked");
}

#[test]
fn drift_compares_served_inputs_with_current_ones() {
    assert_eq!(index_drift_check(None, &Ok((1, vec![])), 1).status, CheckLevel::Skipped);
    let corrupt = index_drift_check(Some(2), &Err("eof".to_string()), 1);
    assert_eq!(corrupt.status, CheckLevel::Fail);
    assert_eq!(corrupt.summary, "serving manifest corrupt: eof");
    let fresh = index_drift_check(Some(2), &Ok((5, vec![])), 5);
    assert_eq!(fresh.status, CheckLevel::Pass);
    assert_eq!(fresh.summary, "gen-2 inputs match corpus generation 5");
    let versions = vec![
        RuleSetVersion { profile: "L3".into(), indexed: "1.0.0".into(), current: "1.1.0".into() },
        RuleSetVersion { profile: "L5".into(), indexed: "1.0.0".into(), current: "1.0.0".into() },
    ];
    let stale = index_drift_check(Some(2), &Ok((4, versions)), 5);
    assert_eq!(stale.status, CheckLevel::Warn);
    assert_eq!(
        stale.summary,
        "stale index inputs: corpus generation 4 served, 5 active; L3 indexed at 1.0.0, registry at 1.1.0"
    );
}

#[test]
fn morphology_probe_counts_every_sampled_token() {
    assert_eq!(probe_cap(false), 2000);
    assert_eq!(probe_cap(true), usize::MAX);
    let inactive = MorphProbe::inactive();
    assert_eq!(alignment_check(&inactive).status, CheckLevel::Skipped);
    let mut probe = MorphProbe::started();
    probe.record(2, vec![]);
    probe.record(1, vec![]);
    probe.record(2, vec![]);
    probe.record(3, vec![analysis("B", "imported", Some("l1"), Some("r1"))]);
    probe.record(3, vec![]);
    assert_eq!(probe.tokens_sampled, 5);
    assert_eq!(probe.tokens_covered, 1);
    assert_eq!(probe.unmatched_by_surah, vec![(1, 1), (2, 2), (3, 1)]);
    let align = alignment_check(&probe);
    assert_eq!(align.status, CheckLevel::Fail);
    assert_eq!(align.summary, "4 unmatched tokens (surah 2: 2, surah 1: 1, surah 3: 1)");
    let cover = coverage_check(&probe);
    assert_eq!(cover.summary, "coverage 1/5 sampled tokens");
    assert_eq!(provenance_check(&probe).status, CheckLevel::Pass);
    let mut aligned = MorphProbe::started();
    aligned.record(1, vec![analysis("D", "machine", None, None), analysis("X", "machine", None, None)]);
    assert_eq!(alignment_check(&aligned).summary, "1 sampled tokens all aligned");
    assert_eq!(coverage_check(&aligned).summary, "1/1 sampled tokens covered");
    assert_eq!(provenance_check(&aligned).summary, "1 analyses lack Layer B/D provenance");
    assert_eq!(unverified_layer_d_check(&aligned).summary, "1 Layer-D analyses await review");
    assert_eq!(provenance_check(&MorphProbe::started()).status, CheckLevel::Warn);
    let mut broken = MorphProbe::started();
    broken.error = Some("locked".to_string());
    let failed = coverage_check(&broken);
    assert_eq!(failed.status, CheckLevel::Fail);
    assert_eq!(failed.summary, "morphology probe failed: locked");
    assert!(lexicon_integrity_gate(&broken).is_some());
    assert!(lexicon_integrity_gate(&aligned).is_none());
}

#[test]
fn lexicon_references_must_be_live() {
    let roots = vec!["r1".to_string()];
    let lemmas = vec!["l1".to_string()];
    let good = vec![analysis("B", "x", Some("l1"), Some("r1")), analysis("B", "x", None, None)];
    let ok = lexicon_integrity_check(&roots, &lemmas, &good);
    assert_eq!(ok.summary, "2 analyses reference live roots/lemmas");
    let bad = vec![
        analysis("B", "x", Some("l9"), Some("r9")),
        analysis("B", "x", Some("l8"), Some("r1")),
        analysis("B", "x", None, Some("r7")),
    ];
    let check = lexicon_integrity_check(&roots, &lemmas, &bad);
    assert_eq!(check.status, CheckLevel::Fail);
    assert_eq!(check.summary, "4 dangling references (lemma l9, root r9, lemma l8)");
}

fn tok(surface: &str, surah: i64, ayah: i64) -> (usize, String, i64, i64) {
    (surface.chars().count(), surface.to_string(), surah, ayah)
}

#[test]
fn smoke_suite_picks_long_tokens_and_long_ayahs() {
    let tokens = vec![
        tok("ab", 1, 1),
        tok("abcd", 2, 1),
        tok("abcd", 1, 5),
        tok("xyz", 1, 2),
        tok("wxyz", 1, 9),
        tok("q", 3, 3),
        tok("mn", 1, 1),
    ];
    let picked = smoke_token_probes(&tokens);
    let surfaces: Vec<&str> = picked.iter().map(|t| t.1.as_str()).collect();
    assert_eq!(surfaces, vec!["abcd", "wxyz", "abcd", "xyz"]);
    assert_eq!((picked[0].2, picked[0].3), (1, 5));
    let repeats = vec![tok("abcd", 2, 1), tok("abcd", 1, 5), tok("ab", 1, 1)];
    let picked = smoke_token_probes(&repeats);
    assert_eq!(picked.len(), 2);
    assert_eq!((picked[0].2, picked[0].3), (1, 5));
    assert_eq!(longest_ayahs(&[3, 9, 9, 1, 12, 0, 0, 0, 0, 5]), vec![4, 1, 2, 9, 0, 3, 5, 6]);
    assert_eq!(probe_slice("abcdefghij"), Some("cdefghij".to_string()));
    assert_eq!(probe_slice("abcdefghi"), None);
    assert_eq!(pinned_reference("hafs", "1.0.0", 2, 255), "quran:hafs@1.0.0:2:255");
    let probes = smoke_probes(
        "hafs",
        "1.0.0",
        &[("بِسْمِ".to_string(), "بسم".to_string(), 1, 1), ("x".to_string(), " ".to_string(), 1, 2)],
        &[("short".to_string(), 1, 3), ("abcdefghijkl".to_string(), 2, 4)],
    );
    let labels: Vec<&str> = probes.iter().map(|p| p.label.as_str()).collect();
    assert_eq!(labels, vec!["exact:بِسْمِ", "normalized:بسم", "exact:x", "concatenated:cdefghij"]);
    assert_eq!(probes[3].expected, "quran:hafs@1.0.0:2:4");
    assert_eq!(smoke_tool("exact:x"), SmokeTool::Exact);
    assert_eq!(smoke_tool("normalized:x"), SmokeTool::Normalized);
    assert_eq!(smoke_tool("concatenated:x"), SmokeTool::Concatenated);
}

#[test]
fn smoke_verdict_names_each_miss() {
    assert_eq!(smoke_gate(false, 10).unwrap().summary, "ayah index not built");
    assert_eq!(smoke_gate(true, 0).unwrap().summary, "corpus has no ayahs");
    assert!(smoke_gate(true, 1).is_none());
    assert_eq!(smoke_verdict(&[], &[]).status, CheckLevel::Skipped);
    let probes = vec![
        SmokeProbe { label: "exact:a".into(), query: "a".into(), expected: "quran:h@1:1:1".into() },
        SmokeProbe { label: "exact:b".into(), query: "b".into(), expected: "quran:h@1:1:2".into() },
        SmokeProbe { label: "exact:c".into(), query: "c".into(), expected: "quran:h@1:1:3".into() },
    ];
    let all_hit = vec![
        Ok(vec!["quran:h@1:1:1".to_string()]),
        Ok(vec!["quran:h@1:9:9".to_string(), "quran:h@1:1:2".to_string()]),
        Ok(vec!["quran:h@1:1:3".to_string()]),
    ];
    let pass = smoke_verdict(&probes, &all_hit);
    assert_eq!(pass.status, CheckLevel::Pass);
    assert_eq!(pass.summary, "3/3 smoke probes hit (exact + normalized + concatenated)");
    let mixed = vec![Ok(vec!["quran:h@1:1:1".to_string()]), Ok(vec![]), Err("timeout".to_string())];
    let fail = smoke_verdict(&probes, &mixed);
    assert_eq!(fail.status, CheckLevel::Fail);
    assert_eq!(
        fail.summary,
        "smoke probes missed: P2 missed exact:b (expected quran:h@1:1:2); P3 errored on exact:c: timeout"
    );
}

#[test]
fn profile_and_canonical_checks() {
    assert_eq!(profiles_loaded_check(&[]).summary, "no normalization profiles seeded");
    let rows = vec![
        SeededProfile { profile_id: "L3".into(), version: "1.0.0".into(), resolves: true },
        SeededProfile { profile_id: "L9".into(), version: "1.0.0".into(), resolves: false },
    ];
    assert_eq!(profiles_loaded_check(&rows).summary, "1 profiles do not resolve: L9@1.0.0");
    assert_eq!(profiles_loaded_check(&rows[..1]).summary, "1 seeded profiles resolve to known rules");
    let check = CanonicalCheck {
        edition_urn: "quran-edition:hafs@1.0.0".into(),
        expected_hash: "a".into(),
        actual_hash: "a".into(),
        unchanged: true,
    };
    assert_eq!(
        canonical_unchanged_check(&Ok(check)).summary,
        "MV-018: canonical hashes match quran-edition:hafs@1.0.0"
    );
    let failed = canonical_unchanged_check(&Err("io".to_string()));
    assert_eq!(failed.status, CheckLevel::Fail);
    assert_eq!(failed.summary, "MV-018 probe failed: io");
}

#[test]
fn index_report_always_holds_nineteen_checks_in_order() {
    let skipped = index_checks(false, Vec::new());
    assert_eq!(skipped.len(), 19);
    for (check, id) in skipped.iter().zip(INDEX_CHECK_IDS.iter()) {
        assert_eq!(check.id, *id);
        assert_eq!(check.status, CheckLevel::Skipped);
    }
    let mut computed = no_edition_index_checks();
    computed[4].status = CheckLevel::Pass;
    let report = index_checks(true, computed);
    assert_eq!(report.len(), 19);
    assert_eq!(report[4].status, CheckLevel::Pass);
    assert_eq!(report[18].id, INDEX_CHECK_IDS[18]);
}
