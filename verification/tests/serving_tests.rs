use application::cli::{
    ayah_span, dataset_spec, edition_spec, exact_field, parse_id_list, phrase_mode, regex_timeout,
    search_exit_code, search_limit, LOCAL_PRINCIPAL,
};
use application::diagnostics::{EXIT_INTERNAL, EXIT_NOT_FOUND, EXIT_POLICY, EXIT_USAGE};
use application::search::PhraseMode;
use application::serving::{
    empty_output, indexed_field_for, parse_script, ExactField, IndexFault,
    NormalizationFaultKind, ProfileId, Script, SearchError, SEARCH_INDEX_ID,
};

#[test]
fn exact_fields_and_profiles_name_index_fields() {
    assert_eq!(SEARCH_INDEX_ID, "quran.ayah.v1");
    assert_eq!(ExactField::TextExact.field_id(), "text_exact");
    assert_eq!(ExactField::TextWs.field_id(), "text_ws");
    assert_eq!(indexed_field_for(ProfileId::L3).as_deref(), Some("text_bare"));
    assert_eq!(indexed_field_for(ProfileId::L5).as_deref(), Some("text_folded"));
    assert_eq!(indexed_field_for(ProfileId::L6), None);
}

#[test]
fn scripts_parse_with_an_other_prefix() {
    assert_eq!(parse_script("uthmani"), Script::Uthmani);
    assert_eq!(parse_script("imlaei_simple"), Script::ImlaeiSimple);
    assert_eq!(parse_script("other:warsh"), Script::Other("warsh".to_string()));
    assert_eq!(parse_script("warsh"), Script::Other("warsh".to_string()));
}

#[test]
fn search_errors_carry_codes_and_remedies() {
    let rate = SearchError::RateLimited { retry_after_secs: 5 };
    assert_eq!(rate.code().render(), "QAI-IDX-0007");
    assert_eq!(rate.next_command(), "qai doctor --indexes");
    let engine = SearchError::Index(IndexFault {
        code: "QAI-IDX-0002".to_string(),
        message: "bad query".to_string(),
        remedy: Some("Fix the query.".to_string()),
    });
    assert_eq!(engine.code().render(), "QAI-IDX-0002");
    assert_eq!(engine.remedy(), "Fix the query.");
    let odd = SearchError::Index(IndexFault {
        code: "weird".to_string(),
        message: String::new(),
        remedy: None,
    });
    assert_eq!(odd.code().number, 3);
    assert_eq!(odd.remedy(), "See above.");
    let norm = SearchError::Normalization {
        kind: NormalizationFaultKind::UnknownProfile,
        message: "L9".to_string(),
    };
    assert_eq!(norm.code().render(), "QAI-NORM-0002");
    assert_eq!(
        SearchError::NoServingIndex { index_id: "x".into() }.remedy(),
        "Run `qai quran index rebuild` first."
    );
}

#[test]
fn search_failures_map_to_exit_codes() {
    assert_eq!(search_exit_code(&SearchError::RateLimited { retry_after_secs: 1 }), EXIT_POLICY);
    assert_eq!(search_exit_code(&SearchError::NoServingIndex { index_id: "x".into() }), EXIT_NOT_FOUND);
    assert_eq!(search_exit_code(&SearchError::Storage("db".into())), EXIT_INTERNAL);
    let rejected = SearchError::Index(IndexFault {
        code: "QAI-IDX-0002".to_string(),
        message: String::new(),
        remedy: None,
    });
    assert_eq!(search_exit_code(&rejected), EXIT_USAGE);
    let rule = SearchError::Normalization {
        kind: NormalizationFaultKind::UnknownRule,
        message: String::new(),
    };
    assert_eq!(search_exit_code(&rule), EXIT_USAGE);
}

#[test]
fn empty_queries_match_nothing() {
    let out = empty_output("L0.exact@1.0.0".to_string(), 4, vec!["no terms".to_string()]);
    assert!(out.hits.is_empty());
    assert_eq!(out.total_matches, 0);
    assert!(!out.truncated);
    assert_eq!(out.generation, 4);
    assert_eq!(out.warnings, vec!["no terms".to_string()]);
}

#[test]
fn command_line_values_are_clamped_and_parsed() {
    assert_eq!(LOCAL_PRINCIPAL, "00000000-0000-0000-0000-000000000000");
    assert_eq!(search_limit(0), 1);
    assert_eq!(search_limit(5000), 1000);
    assert_eq!(search_limit(20), 20);
    assert_eq!(regex_timeout(0), 1);
    assert_eq!(regex_timeout(20_000), 10_000);
    assert_eq!(ayah_span(0), 1);
    assert_eq!(ayah_span(3), 3);
    assert_eq!(exact_field(None), Ok(ExactField::TextExact));
    assert_eq!(exact_field(Some("text_ws")), Ok(ExactField::TextWs));
    assert_eq!(
        exact_field(Some("text_bare")),
        Err("unknown exact field `text_bare`; use `text_exact` or `text_ws`".to_string())
    );
    assert_eq!(phrase_mode("ordered_near"), Ok(PhraseMode::OrderedNear));
    assert!(phrase_mode("near").is_err());
    assert_eq!(
        edition_spec("hafs@1.0.0"),
        Ok(("hafs".to_string(), "1.0.0".to_string()))
    );
    assert_eq!(edition_spec("hafs"), Err("use --edition slug@version"));
    assert_eq!(dataset_spec("@1"), Err("use dataset slug@version"));
    assert_eq!(parse_id_list("1, 2,3", "surah"), Ok(vec![1, 2, 3]));
    assert_eq!(
        parse_id_list("1,x", "surah"),
        Err("bad surah list `1,x`; use `1,2,3`".to_string())
    );
    assert!(parse_id_list("70000", "surah").is_err());
}
