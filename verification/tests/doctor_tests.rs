use application::db::{catalog_page, latest_version, migration_status, DbProbe, CATALOG_LIMIT};
use application::doctor::{
    ayah_identifiers_dense, basmala_declared, division_coverage, no_active_edition, quran_checks,
    roundtrip_sample, short, CheckLevel, QuranCheckInputs, SurahRow, TranslationRow,
};
use application::forms::{
    canonical_check, rebuild_params, rebuild_target, surah_groups, FormsError, FormsRebuildPayload,
};
use application::quran::{staged_findings, staged_subject_urn, validation_outcome, ValidationOutcome};
use application::rows::AyahRow;

fn ayah(surah: i64, ayah: i64, juz: Option<i64>) -> AyahRow {
    AyahRow {
        edition_id: "ed-1".to_string(),
        surah,
        ayah,
        text: "text".to_string(),
        text_hash: String::new(),
        char_count: 4,
        token_count: 1,
        global_ayah_index: 0,
        juz,
        hizb: None,
        rub: None,
        manzil: None,
        ruku: None,
        page: None,
        sajdah: None,
        provenance_id: "prov-1".to_string(),
    }
}

fn surah(number: i64, ayah_count: i64) -> SurahRow {
    SurahRow { number, ayah_count, basmala: "standard".to_string(), revelation_place: None }
}

fn healthy() -> QuranCheckInputs {
    QuranCheckInputs {
        edition_id: "ed-1".to_string(),
        edition_slug: "hafs".to_string(),
        edition_version: "1.0.0".to_string(),
        text_hash: "sha256:0123456789abcdef0123".to_string(),
        text_hash_matches: true,
        structure_hash_matches: true,
        token_order_hash_matches: true,
        surahs: vec![surah(1, 2), surah(2, 1)],
        ayahs: vec![ayah(1, 1, Some(1)), ayah(1, 2, Some(1)), ayah(2, 1, Some(2))],
        stat_surah_count: 2,
        stat_ayah_count: 3,
        deep: false,
        roundtrip_ok: true,
        declared_form: "NFC".to_string(),
        bad_unicode: 0,
        juz_divisions: 2,
        basmala_policy: "standard".to_string(),
        translations: vec![TranslationRow {
            translator: "Sahih International".to_string(),
            aligned_edition_id: "ed-1".to_string(),
        }],
        orphans: 0,
        corpus_generation: 3,
        license_status: "Known".to_string(),
    }
}

#[test]
fn a_healthy_corpus_passes_all_but_the_reference_corpus_check() {
    let checks = quran_checks(&healthy());
    assert_eq!(checks.len(), 19);
    assert_eq!(checks[0].summary, "exactly one active edition: hafs@1.0.0");
    assert_eq!(checks[1].summary, "text_hash matches (sha256:012345678)");
    assert_eq!(checks[16].summary, "current generation is 3");
    for (k, check) in checks.iter().enumerate() {
        if k == 17 {
            assert_eq!(check.status, CheckLevel::Warn, "{}", check.id);
        } else {
            assert_eq!(check.status, CheckLevel::Pass, "{}", check.id);
        }
    }
}

#[test]
fn broken_corpora_fail_the_matching_checks() {
    let mut x = healthy();
    x.text_hash_matches = false;
    x.ayahs.push(ayah(2, 1, Some(4)));
    x.orphans = 2;
    x.license_status = "Unknown".to_string();
    let checks = quran_checks(&x);
    assert_eq!(checks[1].status, CheckLevel::Fail);
    assert_eq!(checks[5].summary, "4 ayahs vs 3 in statistics");
    assert_eq!(checks[6].status, CheckLevel::Fail);
    assert_eq!(checks[9].status, CheckLevel::Fail);
    assert_eq!(checks[15].summary, "2 orphaned staging rows");
    assert_eq!(checks[18].status, CheckLevel::Warn);
    assert_eq!(checks[1].next_command.as_deref(), Some("qai quran validate"));
}

#[test]
fn corpus_helpers() {
    assert!(ayah_identifiers_dense(&[surah(1, 2)], &[ayah(1, 2, None), ayah(1, 1, None)]));
    assert!(!ayah_identifiers_dense(&[surah(1, 2)], &[ayah(1, 1, None), ayah(1, 1, None)]));
    assert!(division_coverage(&[ayah(1, 1, Some(1)), ayah(1, 2, None), ayah(1, 3, Some(2))]));
    assert!(!division_coverage(&[ayah(1, 1, Some(2))]));
    assert!(!basmala_declared("", &[surah(1, 1)]));
    assert_eq!(roundtrip_sample(5, false), vec![0, 2, 4]);
    assert_eq!(roundtrip_sample(2, false), vec![0, 1]);
    assert_eq!(roundtrip_sample(3, true), vec![0, 1, 2]);
    assert_eq!(short("abc"), "abc");
    assert_eq!(short("0123456789abcdefXYZ"), "0123456789abcdef");
    let dangling = no_active_edition(true);
    assert_eq!(dangling.summary, "active pointer dangles");
    assert_eq!(no_active_edition(false).summary, "no active Arabic edition");
    assert_eq!(CheckLevel::Skipped.as_str(), "skipped");
}

#[test]
fn migrations_and_catalog_paging() {
    assert_eq!(latest_version(&[3, 9, 4]), 9);
    assert_eq!(latest_version(&[]), 0);
    let status = migration_status(&[1, 2, 3, 4], 2, 2);
    assert_eq!(status.latest_on_disk, 4);
    assert_eq!(status.pending, vec![3, 4]);
    assert!(!status.current);
    assert!(migration_status(&[], 0, 0).current);
    assert!(migration_status(&[1, 2], 2, 2).current);
    assert_eq!(catalog_page(5), (5, false));
    assert_eq!(catalog_page(CATALOG_LIMIT + 1), (CATALOG_LIMIT, true));
    let probe = DbProbe::default();
    assert!(!probe.reachable && probe.error.is_none() && probe.audit_events == 0);
}

#[test]
fn forms_rebuild_targets_only_the_active_edition() {
    let payload = FormsRebuildPayload {
        edition_slug: "hafs".to_string(),
        edition_version: "1.0.0".to_string(),
        invoked_by: "op".to_string(),
        run_tag: None,
    };
    assert_eq!(rebuild_params(payload, "job-7").run_tag, "job-7");
    assert_eq!(
        rebuild_target(Some(("ed-1", "hafs", "1.0.0")), Some("ed-1"), "hafs", "1.0.0").unwrap(),
        ("ed-1".to_string(), "quran-edition:hafs@1.0.0".to_string())
    );
    assert!(matches!(
        rebuild_target(Some(("ed-1", "hafs", "1.0.0")), Some("ed-2"), "hafs", "1.0.0"),
        Err(FormsError::NotActive { .. })
    ));
    assert!(matches!(
        rebuild_target(None, Some("ed-2"), "hafs", "1.0.0"),
        Err(FormsError::EditionNotFound { .. })
    ));
    let check = canonical_check("hafs", "1.0.0", "sha256:a", "sha256:b");
    assert!(!check.unchanged);
    assert_eq!(check.edition_urn, "quran-edition:hafs@1.0.0");
    let idx = FormsError::Index {
        code: "QAI-IDX-0005".to_string(),
        message: String::new(),
        remedy: None,
    };
    assert_eq!(idx.code().render(), "QAI-IDX-0005");
    assert_eq!(idx.remedy(), "See above.");
    assert_eq!(FormsError::Cancelled.remedy(), "Rerun the rebuild; it is idempotent.");
    assert_eq!(FormsError::Cancelled.next_command(), "qai doctor --indexes");
}

#[test]
fn staged_revalidation_findings() {
    assert!(staged_findings(3, 3, &[], true).is_empty());
    let findings = staged_findings(2, 3, &[(1, 2)], false);
    let codes: Vec<&str> = findings.iter().map(|f| f.code).collect();
    assert_eq!(codes, vec!["QV-004", "QV-011", "QV-014"]);
    assert_eq!(findings[0].message, "staged 2 ayahs, statistics say 3");
    assert_eq!(findings[1].location, "surah 1 ayah 2");
    assert_eq!(validation_outcome(findings.len() as u32, 0, 0), ValidationOutcome::Fail);
    assert_eq!(validation_outcome(0, 0, 1), ValidationOutcome::PassWithWarnings);
    assert_eq!(validation_outcome(0, 0, 0), ValidationOutcome::Pass);
    assert_eq!(staged_subject_urn("hafs", "1.0.0"), "quran-staged:hafs@1.0.0");
}

#[test]
fn rebuild_walks_rows_grouped_by_surah_in_canonical_order() {
    let rows = vec![ayah(2, 1, None), ayah(1, 2, None), ayah(1, 1, None), ayah(3, 5, None), ayah(2, 2, None)];
    let groups = surah_groups(&rows);
    assert_eq!(groups, vec![(1, vec![2, 1]), (2, vec![0, 4]), (3, vec![3])]);
    assert!(surah_groups(&[]).is_empty());
}
