use application::cli::{morphology_exit, tool_exit};
use application::diagnostics::{EXIT_CONFLICT, EXIT_NOT_FOUND, EXIT_VALIDATION};
use application::morphology::{
    activation_gate, adapter_for, analysis_id, analysis_key, batch_id_for, browse_selection,
    cancel_check, cancel_outcome, dataset_urn, diff_keys, import_outcome, import_target, lemma_key, morpheme_id,
    next_checkpoint, none_if_empty, require_active, resolve_lexicon, root_key, supersedes, Adapter,
    ApprovalRecord, DiffSide, MorphologyErrorKind, MorphologyJobError, MorphologyToolError,
    StagedAnalysis, IMPORT_CHECKPOINTS,
};
use application::morphology::{
    alignment_plan, check_unification, diff_report, finding_counts, AnalysisRef, DiffEntry,
    MorphologyDiffKind, UnificationSides,
};
use std::sync::atomic::AtomicBool;

fn approved(subject: &str) -> ApprovalRecord {
    ApprovalRecord { decision: Some("approved".to_string()), subject_urn: subject.to_string() }
}

#[test]
fn activation_gate_checks_state_approval_findings_and_alignment() {
    let urn = "morphology-dataset:qac@0.4";
    let ok = approved(urn);
    assert!(activation_gate("b1", Some("staged"), "qac", "0.4", "ap-1", Some(&ok), &[], &[]).is_ok());
    match activation_gate("b1", None, "qac", "0.4", "ap-1", Some(&ok), &[], &[]) {
        Err(MorphologyJobError::BadState { actual, expected, .. }) => {
            assert_eq!(actual, "missing");
            assert_eq!(expected, "staged");
        }
        other => panic!("unexpected {other:?}"),
    }
    match activation_gate("b1", Some("staged"), "qac", "0.4", "ap-1", None, &[], &[]) {
        Err(MorphologyJobError::Approval(m)) => assert_eq!(m, "missing ap-1"),
        other => panic!("unexpected {other:?}"),
    }
    let denied = ApprovalRecord { decision: Some("denied".to_string()), subject_urn: urn.to_string() };
    match activation_gate("b1", Some("staged"), "qac", "0.4", "ap-1", Some(&denied), &[], &[]) {
        Err(MorphologyJobError::Approval(m)) => assert_eq!(m, "ap-1 not granted"),
        other => panic!("unexpected {other:?}"),
    }
    let other_subject = approved("morphology-dataset:qac@0.3");
    match activation_gate("b1", Some("staged"), "qac", "0.4", "ap-1", Some(&other_subject), &[], &[]) {
        Err(MorphologyJobError::Approval(m)) => {
            assert_eq!(m, "subject mismatch: morphology-dataset:qac@0.3 != morphology-dataset:qac@0.4")
        }
        other => panic!("unexpected {other:?}"),
    }
    let severities = vec!["fatal".to_string(), "warning".to_string(), "error".to_string(), "error".to_string()];
    assert!(matches!(
        activation_gate("b1", Some("staged"), "qac", "0.4", "ap-1", Some(&ok), &severities, &[]),
        Err(MorphologyJobError::BlockingFindings(1, 2))
    ));
    assert!(matches!(
        activation_gate("b1", Some("staged"), "qac", "0.4", "ap-1", Some(&ok), &[], &[2, 2, 7]),
        Err(MorphologyJobError::UnmatchedRemaining(3, 2))
    ));
}

#[test]
fn import_decisions() {
    assert_eq!(IMPORT_CHECKPOINTS.len(), 12);
    assert_eq!(next_checkpoint(None), Some(0));
    assert_eq!(next_checkpoint(Some(3)), Some(4));
    assert_eq!(next_checkpoint(Some(11)), None);
    assert_eq!(import_outcome(0), "staged");
    assert_eq!(import_outcome(2), "failed");
    assert_eq!(adapter_for("csv").unwrap(), Adapter::Csv);
    match adapter_for("xml") {
        Err(MorphologyJobError::Morphology { kind, detail }) => {
            assert_eq!(kind, MorphologyErrorKind::ValidationFailed);
            assert_eq!(detail, "unknown morphology adapter: xml");
        }
        other => panic!("unexpected {other:?}"),
    }
    assert_eq!(import_target(Some("ed-1"), Some("ed-1"), "hafs", "1.0.0").unwrap(), "ed-1");
    match import_target(Some("ed-1"), Some("ed-2"), "hafs", "1.0.0") {
        Err(MorphologyJobError::Storage(m)) => {
            assert_eq!(m, "edition hafs@1.0.0 is not active; imports target the active edition")
        }
        other => panic!("unexpected {other:?}"),
    }
    assert_eq!(batch_id_for(None, "qac", "abc"), "morph-qac-abc");
    assert_eq!(batch_id_for(Some("b-9".to_string()), "qac", "abc"), "b-9");
    assert!(cancel_check(&AtomicBool::new(false)).is_ok());
    assert!(matches!(cancel_check(&AtomicBool::new(true)), Err(MorphologyJobError::Cancelled)));
    assert_eq!(none_if_empty("  "), None);
    assert_eq!(none_if_empty("x"), Some("x".to_string()));
    assert!(supersedes(Some("d1"), "d2"));
    assert!(!supersedes(Some("d2"), "d2"));
    assert!(!supersedes(None, "d2"));
}

#[test]
fn lexicon_ids_and_keys() {
    assert_eq!(dataset_urn("qac", "0.4"), "morphology-dataset:qac@0.4");
    assert_eq!(root_key("d", "ktb"), "d\u{1f}ktb");
    assert_eq!(lemma_key("d\u{1f}ktb", "kataba"), "d\u{1f}ktb\u{1f}kataba");
    assert_eq!(analysis_id("d", 2, 255, 3, 0), "an:d:2:255:3#0");
    assert_eq!(morpheme_id("an:d:2:255:3#0", 1), "an:d:2:255:3#0:m1");
    assert_eq!(analysis_key(1, 2, 3, 4), "1:2:3#4");
}

#[test]
fn diff_keys_merge_both_versions_in_order() {
    let from: Vec<String> = ["b", "a", "c"].iter().map(|s| s.to_string()).collect();
    let to: Vec<String> = ["c", "d", "b"].iter().map(|s| s.to_string()).collect();
    let keys = diff_keys(&from, &to);
    assert_eq!(
        keys,
        vec![
            ("a".to_string(), DiffSide::OnlyFrom),
            ("b".to_string(), DiffSide::Both),
            ("c".to_string(), DiffSide::Both),
            ("d".to_string(), DiffSide::OnlyTo),
        ]
    );
}

#[test]
fn tool_errors_and_browse_pages() {
    assert_eq!(require_active(Some("d1".into()), "roots").unwrap(), "d1");
    let missing = require_active(None, "roots").unwrap_err();
    assert_eq!(missing.code().render(), "QAI-MORPH-0004");
    assert_eq!(tool_exit(&missing), EXIT_NOT_FOUND);
    assert_eq!(morphology_exit(&MorphologyJobError::Approval("x".into())), EXIT_CONFLICT);
    assert_eq!(morphology_exit(&MorphologyJobError::BlockingFindings(1, 0)), EXIT_VALIDATION);
    assert_eq!(
        MorphologyJobError::CanonicalChanged.code().render(),
        "QAI-IDX-0005"
    );
    let pattern = MorphologyToolError::UnavailablePatternField {
        dataset: "d".into(),
        fields: "pattern".into(),
    };
    assert_eq!(pattern.code().number, 6);
    let names: Vec<(String, String)> = [("ktb", "ktb"), ("qwl", "qwl"), ("kfr", "kfr")]
        .iter()
        .map(|(a, b)| (a.to_string(), b.to_string()))
        .collect();
    assert_eq!(browse_selection(&names, Some("k"), 10), vec![0, 2]);
    assert_eq!(browse_selection(&names, None, 0), vec![0]);
    assert_eq!(browse_selection(&names, None, 2), vec![0, 1]);
}

#[test]
fn alignment_rows_one_per_token_with_their_kind() {
    let a = |s: u32, ay: u32, p: u32, i: u32, key: &str, hash: Option<&str>| AnalysisRef {
        surah: s,
        ayah: ay,
        position: p,
        index: i,
        direct_key: key.to_string(),
        table_hash: hash.map(str::to_string),
    };
    let analyses = vec![
        a(1, 1, 1, 0, "1:1:1:x", None),
        a(1, 1, 1, 1, "1:1:1:x", None),
        a(1, 1, 2, 0, "1:1:2:y", Some("h9")),
        a(9, 9, 9, 0, "9:9:9:z", None),
    ];
    let rows = alignment_plan("b1", &analyses, &[(1, 1, 1), (1, 1, 2)]);
    let kinds: Vec<(&str, &str, &str)> =
        rows.iter().map(|r| (r.id.as_str(), r.kind, r.hash.as_str())).collect();
    assert_eq!(
        kinds,
        vec![
            ("al-b1-1-1-1-0", "direct_key", ""),
            ("al-b1-1-1-2-0", "table_mapped", "h9"),
            ("al-b1-9-9-9-0", "unmatched", "")
        ]
    );
    let sev: Vec<String> = ["warning", "fatal", "warning", "error"].iter().map(|s| s.to_string()).collect();
    assert_eq!(
        finding_counts(&sev),
        vec![("error".to_string(), 1), ("fatal".to_string(), 1), ("warning".to_string(), 2)]
    );
}

#[test]
fn dataset_diff_counts_each_kind() {
    let e = |key: &str, old: Option<&str>, new: Option<&str>, identical: bool| DiffEntry {
        key: key.to_string(),
        old: old.map(str::to_string),
        new: new.map(str::to_string),
        verdicts: vec!["pos: differs".to_string()],
        identical,
    };
    let entries = vec![
        e("1:1:1#0", Some("a"), Some("a"), true),
        e("1:1:2#0", None, Some("b"), false),
        e("1:1:3#0", Some("c"), None, false),
        e("1:1:4#0", Some("d"), Some("e"), false),
    ];
    let report = diff_report("qac@0.3".to_string(), "qac@0.4".to_string(), &entries);
    assert_eq!((report.added, report.removed, report.changed, report.unchanged), (1, 1, 1, 1));
    let kinds: Vec<(&str, MorphologyDiffKind, usize)> = report
        .changes
        .iter()
        .map(|c| (c.reference.as_str(), c.kind, c.verdicts.len()))
        .collect();
    assert_eq!(
        kinds,
        vec![
            ("1:1:2#0", MorphologyDiffKind::Added, 0),
            ("1:1:3#0", MorphologyDiffKind::Removed, 0),
            ("1:1:4#0", MorphologyDiffKind::Changed, 1)
        ]
    );
}

#[test]
fn unification_candidates_are_validated_in_order() {
    let sides = UnificationSides {
        left_dataset: "qac@0.4".into(),
        left_root_id: "r1".into(),
        left_root: "كتب".into(),
        left_normalized: "كتب".into(),
        left_convention: "triliteral".into(),
        right_dataset: "other@1".into(),
        right_root_id: "r7".into(),
        right_root: "كتب".into(),
        right_normalized: "كتب".into(),
        right_convention: "triliteral".into(),
    };
    assert!(check_unification(&sides, true, true).is_ok());
    let detail = |r: Result<(), MorphologyToolError>| match r {
        Err(MorphologyToolError::Morphology { detail, .. }) => detail,
        other => panic!("unexpected {other:?}"),
    };
    assert_eq!(
        detail(check_unification(&sides, false, true)),
        "root-unification confidence must be in [0,1]"
    );
    assert_eq!(
        detail(check_unification(&sides, true, false)),
        "root-unification evidence must be a JSON object"
    );
    let mut same = sides.clone();
    same.right_dataset = "qac@0.4".into();
    same.right_root_id = "r1".into();
    assert_eq!(
        detail(check_unification(&same, true, true)),
        "root-unification candidate must reference two distinct roots"
    );
    let mut blank = sides.clone();
    blank.left_convention = " ".into();
    assert_eq!(
        detail(check_unification(&blank, false, false)),
        "root-unification candidate fields must not be empty"
    );
}

#[test]
fn cancellation_answers_follow_the_flag() {
    assert!(cancel_outcome(false).is_ok());
    assert!(matches!(cancel_outcome(true), Err(MorphologyJobError::Cancelled)));
}

#[test]
fn activation_deduplicates_roots_and_lemmas_by_key() {
    let staged = |root: &str, lemma: &str, segments: usize| StagedAnalysis {
        root: root.to_string(),
        lemma: lemma.to_string(),
        segments,
    };
    let analyses = vec![
        staged("ktb", "kataba", 2),
        staged("ktb", "kitAb", 1),
        staged("ktb", "kataba", 3),
        staged("qwl", "qAla", 2),
    ];
    let resolved = resolve_lexicon("qac@1.0.0", &analyses);
    assert_eq!(resolved.promoted, (2, 3, 4, 8));
    assert_eq!(resolved.root_keys, vec!["qac@1.0.0\u{1f}ktb".to_string(), "qac@1.0.0\u{1f}qwl".to_string()]);
    assert_eq!(resolved.lemma_keys[1], "qac@1.0.0\u{1f}ktb\u{1f}kitAb");
}
