use application::counting::{checksum, frequency_canonical};
use application::forms::{forms_provenance_id, parameters_descriptor};
use application::index::manifest_hash;

#[test]
fn frequency_checksum_is_sha256_of_the_canonical_report() {
    let canonical = frequency_canonical("ktb", "{}", 3, 2);
    assert_eq!(canonical, "ktb|{}|3|2");
    assert_eq!(
        checksum(&canonical),
        "sha256:d6303df76f50256d4131aa8e150dc91de74d9d292744e5b88fcacc0088f35bbc"
    );
}

#[test]
fn manifest_hash_binds_the_build_identity() {
    assert_eq!(
        manifest_hash("quran-fts", 4, "hafs", "1.0.0", 6236, "1.2.0"),
        "sha256:aaaff6ed17183ff0900c32ff4ede89077aa2539fdc2aabc263f769c1b2043f0a"
    );
    assert_ne!(
        manifest_hash("quran-fts", 4, "hafs", "1.0.0", 6236, "1.2.0"),
        manifest_hash("quran-fts", 5, "hafs", "1.0.0", 6236, "1.2.0")
    );
}

#[test]
fn forms_provenance_id_is_content_addressed() {
    let profiles = vec![
        ("L0".to_string(), "1.0.0".to_string(), vec!["a".to_string(), "b".to_string()]),
        ("L1".to_string(), "1.1.0".to_string(), vec![]),
    ];
    let descriptor = parameters_descriptor(&profiles);
    assert_eq!(descriptor, "L0@1.0.0:[a,b];L1@1.1.0:[]");
    assert_eq!(
        forms_provenance_id("quran-edition:hafs@1.0.0", "hafs", "1.0.0", 3, &descriptor),
        "prov-forms-hafs-1.0.0-g3-4889b0d219b7"
    );
}
