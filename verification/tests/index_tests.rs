use application::index::{
    add_lexicon_value, lexicon_text, project_morphology, ProjectedAnalysis, build_step, resolve_gate, BuildAction, BuildEvent, BuildStage, IndexBuildError,
    IndexErrorKind, build_run_id, LexiconProjection, doc_id, gc_plan, generation_dir, index_root_for_db, index_root_text, next_generation,
    rollback_target, rollback_transitions, trigram_sample, BuildRun,
};
use application::serving::{parse_doc_id, DocIdError};

fn run(id: &str, generation: i64, state: &str) -> BuildRun {
    BuildRun {
        id: id.to_string(),
        generation,
        state: state.to_string(),
        doc_count: 10,
        manifest_hash: format!("sha256:{generation}"),
    }
}

#[test]
fn index_root_sits_beside_the_database() {
    assert_eq!(index_root_text("data/qai.db"), "data/index");
    assert_eq!(index_root_text("qai.db"), "index");
}

#[test]
fn next_generation_is_one_past_the_highest_and_at_least_one() {
    assert_eq!(next_generation(0), 1);
    assert_eq!(next_generation(7), 8);
    assert_eq!(next_generation(-5), 1);
}

#[test]
fn run_ids_and_directories_are_spelled_out() {
    assert_eq!(build_run_id("quran.ayah.v1", 3, "job-9"), "index-build-quran.ayah.v1-g3-job-9");
    assert_eq!(generation_dir(12), "gen-12");
}

#[test]
fn doc_ids_round_trip_through_the_parser() {
    let id = doc_id("quran.ayah.v1", "ed-1", 2, 255);
    assert_eq!(id, "quran.ayah.v1:ed-1:2:255");
    assert_eq!(parse_doc_id(&id, "quran.ayah.v1", "ed-1"), Ok((2, 255)));
    assert_eq!(parse_doc_id(&id, "quran.ayah.v1", "ed-2"), Err(DocIdError::OutsideCorpus));
    assert_eq!(
        parse_doc_id("quran.ayah.v1:ed-1:x:1", "quran.ayah.v1", "ed-1"),
        Err(DocIdError::Unparseable)
    );
}

#[test]
fn trigram_sample_takes_all_small_sets_and_every_sixteenth_row_otherwise() {
    assert_eq!(trigram_sample(3), vec![0, 1, 2]);
    assert_eq!(trigram_sample(2000).len(), 2000);
    let big = trigram_sample(2001);
    assert_eq!(big.len(), 126);
    assert_eq!(big[0], 0);
    assert_eq!(big[1], 16);
    assert_eq!(big[125], 2000);
}

#[test]
fn gc_keeps_active_and_newest_and_removes_older_superseded() {
    let runs = vec![
        run("r1", 1, "superseded"),
        run("r2", 2, "superseded"),
        run("r3", 3, "superseded"),
        run("r4", 4, "active"),
        run("r5", 5, "failed"),
        run("r6", 6, "staging"),
    ];
    let plan = gc_plan(&runs, Some(4), 2);
    assert_eq!(plan.kept, vec![4, 3]);
    assert_eq!(plan.remove, vec![(1, "r1".to_string()), (2, "r2".to_string())]);
    assert_eq!(plan.sweep, vec![5]);
}

#[test]
fn gc_with_keep_zero_still_keeps_one_and_the_active_generation() {
    let runs = vec![run("r1", 1, "active"), run("r2", 2, "superseded"), run("r3", 3, "superseded")];
    let plan = gc_plan(&runs, Some(1), 0);
    assert_eq!(plan.kept, vec![3, 1]);
    assert_eq!(plan.remove, vec![(2, "r2".to_string())]);
    assert!(plan.sweep.is_empty());
}

#[test]
fn rollback_goes_to_the_newest_older_superseded_generation() {
    let runs = vec![
        run("r1", 1, "superseded"),
        run("r2", 2, "superseded"),
        run("r3", 3, "active"),
        run("r5", 5, "superseded"),
    ];
    assert_eq!(rollback_target(&runs, 3), Some(2));
    assert_eq!(rollback_target(&runs, 1), None);
    let changes = rollback_transitions(&runs, 3, 2);
    assert_eq!(
        changes,
        vec![
            ("r2".to_string(), "active".to_string()),
            ("r3".to_string(), "superseded".to_string())
        ]
    );
}

#[test]
fn index_root_path_holds_the_root_text() {
    assert_eq!(index_root_for_db("data/qai.db"), std::path::PathBuf::from("data/index"));
    assert_eq!(index_root_for_db("qai.db").to_str(), Some("index"));
}

#[test]
fn lexicon_values_are_trimmed_and_kept_once() {
    let mut projection = LexiconProjection::new();
    add_lexicon_value(&mut projection, (1, 1), "root", "  ktb ");
    add_lexicon_value(&mut projection, (1, 1), "root", "ktb");
    add_lexicon_value(&mut projection, (1, 1), "root", "   ");
    add_lexicon_value(&mut projection, (1, 1), "lemma", "");
    assert_eq!(projection.entries, vec![((1, 1), "root".to_string(), "ktb".to_string())]);
    add_lexicon_value(&mut projection, (1, 2), "root", "ktb");
    add_lexicon_value(&mut projection, (1, 1), "lemma", "kitab");
    assert_eq!(projection.entries.len(), 3);
}

fn drive(events: &[BuildEvent]) -> (BuildStage, Vec<BuildAction>) {
    let mut stage = BuildStage::Resolve;
    let mut actions = Vec::new();
    for event in events {
        let (next, action) = build_step(stage, *event);
        stage = next;
        actions.push(action);
    }
    (stage, actions)
}

#[test]
fn build_flips_only_after_every_step_succeeds() {
    let all_ok = [BuildEvent::Succeeded; 7];
    let (stage, actions) = drive(&all_ok);
    assert_eq!(stage, BuildStage::Active);
    assert_eq!(
        actions,
        vec![
            BuildAction::RunPreCheck,
            BuildAction::StageGeneration,
            BuildAction::BuildDocuments,
            BuildAction::BuildTrigrams,
            BuildAction::CommitAndVerify,
            BuildAction::RunPostCheck,
            BuildAction::FlipPointer,
        ]
    );
    // Cancellation seen right after verification: no flip, ever.
    let mut late_cancel = vec![BuildEvent::Succeeded; 5];
    late_cancel.push(BuildEvent::CancelSeen);
    late_cancel.push(BuildEvent::Succeeded);
    let (stage, actions) = drive(&late_cancel);
    assert_eq!(stage, BuildStage::Cancelled);
    assert_eq!(actions[5], BuildAction::AbortCancelled);
    assert_eq!(actions[6], BuildAction::Stop);
    assert!(!actions.contains(&BuildAction::FlipPointer));
    // A failed verification never flips either.
    let mut failed = vec![BuildEvent::Succeeded; 5];
    failed.push(BuildEvent::Failed);
    let (stage, actions) = drive(&failed);
    assert_eq!(stage, BuildStage::Failed);
    assert_eq!(actions[5], BuildAction::Abort);
    assert!(!actions.contains(&BuildAction::FlipPointer));
}

#[test]
fn resolve_gate_needs_the_active_edition() {
    assert!(resolve_gate(true, true, "hafs", "1.0.0").is_ok());
    match resolve_gate(false, false, "hafs", "1.0.0") {
        Err(IndexBuildError::Index { kind, stage, message, remedy }) => {
            assert_eq!(kind, IndexErrorKind::BuildFailed);
            assert_eq!(stage.as_deref(), Some("resolve"));
            assert_eq!(message, "no edition hafs@1.0.0");
            assert!(remedy.is_none());
        }
        other => panic!("expected a resolve failure, got {other:?}"),
    }
    match resolve_gate(true, false, "hafs", "1.0.0") {
        Err(IndexBuildError::Index { stage, message, .. }) => {
            assert_eq!(stage.as_deref(), Some("resolve"));
            assert_eq!(message, "edition hafs@1.0.0 is not active; builds target the active edition");
        }
        other => panic!("expected a resolve failure, got {other:?}"),
    }
}

fn analysis(edition: &str, ayah: i64, root: Option<&str>, stem: &str) -> ProjectedAnalysis {
    ProjectedAnalysis {
        edition_id: edition.to_string(),
        surah: 1,
        ayah,
        root_id: root.map(|r| r.to_string()),
        lemma_id: Some("lemma:x".to_string()),
        stem: stem.to_string(),
        pos_unified: "N".to_string(),
        pos_native: " ".to_string(),
        patterns: vec!["faEal".to_string(), "".to_string()],
    }
}

#[test]
fn morphology_projection_only_uses_the_indexed_edition() {
    let roots = vec![("root:a".to_string(), "ktb".to_string()), ("root:b".to_string(), "qwl".to_string())];
    let lemmas = vec![("lemma:x".to_string(), " kitAb ".to_string())];
    let analyses = vec![
        analysis("ed-1", 1, Some("root:a"), "kitab"),
        analysis("ed-2", 2, Some("root:b"), "qawl"),
        analysis("ed-1", 1, Some("root:missing"), "kitab"),
    ];
    let projection = project_morphology("ed-1", &analyses, &roots, &lemmas).expect("rows for ed-1");
    let mut entries = projection.entries.clone();
    entries.sort();
    let triple = |field: &str, value: &str| ((1i64, 1i64), field.to_string(), value.to_string());
    assert_eq!(
        entries,
        vec![
            triple("lemmas", "kitAb"),
            triple("patterns", "faEal"),
            triple("pos_tags", "N"),
            triple("roots", "ktb"),
            triple("stems", "kitab"),
        ]
    );
    assert!(project_morphology("ed-3", &analyses, &roots, &lemmas).is_none());
}

#[test]
fn lexicon_text_joins_sorted_distinct_values() {
    let mut projection = LexiconProjection::new();
    add_lexicon_value(&mut projection, (2, 5), "pos_tags", "V");
    add_lexicon_value(&mut projection, (2, 5), "pos_tags", "N");
    add_lexicon_value(&mut projection, (2, 5), "pos_tags", " V ");
    add_lexicon_value(&mut projection, (2, 6), "pos_tags", "P");
    add_lexicon_value(&mut projection, (2, 5), "roots", "ktb");
    assert_eq!(lexicon_text(&projection, (2, 5), "pos_tags"), "N V");
    assert_eq!(lexicon_text(&projection, (2, 5), "roots"), "ktb");
    assert_eq!(lexicon_text(&projection, (2, 7), "roots"), "");
}
