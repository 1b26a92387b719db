use application::counting::{
    by_surah, check_target, distribution, frequency_canonical, hapax_select, missing_expected_form,
    numeric_report, NO_INTERPRETATION_NOTE,
    occurrence_summary, rules_for, unavailable, CountingError, FormColumn, FrequencyReport,
    MultiAnalysisHandling, TokenForm, MISSING_FORM_DISCLAIMER,
};

fn form(surah: i64, ayah: i64, bare: &str) -> TokenForm {
    TokenForm {
        surah,
        ayah,
        simple: bare.to_string(),
        bare: bare.to_string(),
        hamza_folded: bare.to_string(),
        folded: bare.to_string(),
        affix_stripped: bare.to_string(),
    }
}

fn report(count: u64) -> FrequencyReport {
    FrequencyReport {
        target: "ktb".to_string(),
        rules: rules_for("L3.diacritics", "1.0.0", None),
        count,
        by_surah: vec![],
        checksum: String::new(),
    }
}

#[test]
fn rules_name_the_stored_forms() {
    let rules = rules_for("L3.diacritics", "1.0.0", Some("ayah".to_string()));
    assert_eq!(rules.datasets, vec!["stored-forms".to_string()]);
    assert_eq!(rules.multi_analysis_handling, MultiAnalysisHandling::SingleSource);
    assert_eq!(rules.window.as_deref(), Some("ayah"));
    assert!(rules.exclusions.is_empty());
}

#[test]
fn hapax_forms_are_sorted_and_capped() {
    let distinct = vec![
        ("zz".to_string(), 1),
        ("aa".to_string(), 2),
        ("mm".to_string(), 1),
        ("bb".to_string(), 1),
    ];
    assert_eq!(
        hapax_select(&distinct, 2),
        vec![("bb".to_string(), 1), ("mm".to_string(), 1)]
    );
    assert_eq!(hapax_select(&distinct, 0), vec![("bb".to_string(), 1)]);
    assert_eq!(hapax_select(&distinct, 10).len(), 3);
}

#[test]
fn occurrences_span_distinct_ayahs_between_first_and_last() {
    let forms = vec![
        form(1, 1, "x"),
        form(1, 2, "ktb"),
        form(1, 2, "y"),
        form(1, 3, "z"),
        form(2, 1, "ktb"),
        form(2, 2, "ktb"),
    ];
    let s = occurrence_summary(&forms, FormColumn::Bare, "ktb");
    assert_eq!(s.first, Some((1, 2)));
    assert_eq!(s.last, Some((2, 2)));
    assert_eq!(s.ayah_span, Some(4));
    let none = occurrence_summary(&forms, FormColumn::Bare, "qwl");
    assert_eq!(none.first, None);
    assert_eq!(none.ayah_span, None);
}

#[test]
fn per_surah_counts_keep_the_last_report_and_clamp() {
    assert_eq!(by_surah(&[(3, 5), (1, 2), (3, 7), (2, -4)]), vec![(1, 2), (2, 0), (3, 7)]);
    assert!(by_surah(&[]).is_empty());
}

#[test]
fn targets_and_zero_proofs() {
    assert!(check_target("ktb").is_ok());
    assert!(matches!(check_target("  "), Err(CountingError::EmptyTarget)));
    assert_eq!(frequency_canonical("ktb", "{}", 12, 3), "ktb|{}|12|3");
    let zero = missing_expected_form(report(0)).unwrap();
    assert_eq!(zero.count, 0);
    assert_eq!(zero.disclaimer, MISSING_FORM_DISCLAIMER);
    match missing_expected_form(report(3)) {
        Err(CountingError::Storage(m)) => {
            assert_eq!(m, "target occurs 3 time(s); missing_expected_form needs a zero")
        }
        other => panic!("unexpected {other:?}"),
    }
    assert_eq!(unavailable("root frequency").code().render(), "QAI-CNT-0005");
}

#[test]
fn reports_carry_the_frequency_they_were_given() {
    let numeric = numeric_report(report(7));
    assert_eq!(numeric.frequency.count, 7);
    assert_eq!(numeric.frequency.target, "ktb");
    assert_eq!(numeric.note, NO_INTERPRETATION_NOTE);
    let spread = distribution(report(5));
    assert_eq!(spread.frequency.count, 5);
    assert_eq!(spread.frequency.target, "ktb");
}
