use application::quran::{import_idempotency_key, ActivationError, QURAN_IMPORT_KIND};

#[test]
fn idempotency_key_pins_source_adapter_parser() {
    assert_eq!(import_idempotency_key("sv-1"), "sv-1:1.0.0:1.0.0");
    assert_eq!(QURAN_IMPORT_KIND, "quran.import");
}

#[test]
fn activation_errors_carry_coded_diagnostics() {
    let err = ActivationError::NotStaged { slug: "s".into(), version: "v".into() };
    assert_eq!(err.code().render(), "QAI-QUR-0303");
    assert!(err.remedy().is_some());
}
