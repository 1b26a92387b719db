use application::counting::{
    countable_column, CountingError, FormColumn, INTERVAL_DISCLAIMER, MISSING_FORM_DISCLAIMER,
    NO_INTERPRETATION_NOTE,
};

#[test]
fn codes_carry_cnt_prefix() {
    for err in [
        CountingError::Storage("x".into()),
        CountingError::UnknownProfile("x".into()),
        CountingError::ProfileNotCountable("x".into()),
        CountingError::EmptyTarget,
        CountingError::UnavailableDataset { capability: "x".into() },
    ] {
        assert!(err.code().render().starts_with("QAI-CNT-"), "{}", err.code().render());
        assert!(!err.remedy().is_empty());
        assert!(!err.next_command().is_empty());
    }
}

#[test]
fn disclaimers_verbatim() {
    assert!(INTERVAL_DISCLAIMER.contains("no chronological"));
    assert!(MISSING_FORM_DISCLAIMER.contains("not evidence of absence"));
    assert_eq!(NO_INTERPRETATION_NOTE, "Numeric output only; no interpretive commentary is provided.");
}

#[test]
fn countable_columns_match_plan() {
    assert_eq!(countable_column("L3.diacritics", true).unwrap(), FormColumn::Bare);
    assert_eq!(countable_column("L5.codepoints", true).unwrap(), FormColumn::Folded);
    assert!(matches!(countable_column("L0.exact", true), Err(CountingError::ProfileNotCountable(_))));
    assert!(matches!(countable_column("L9.nope", false), Err(CountingError::UnknownProfile(_))));
}
