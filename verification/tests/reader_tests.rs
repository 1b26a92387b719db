use application::reader::{
    cache_key, context_focus, context_takes, deep_link, division_bounds, division_kind, global_range, surah_bounds,
    trim_context, ContextBoundary, ReferenceLevel, ResolvedEdition, CONTEXT_NEEDS_AYAH,
};

#[test]
fn cache_key_changes_with_generation() {
    let first = ResolvedEdition {
        id: "ed-1".into(),
        slug: "s".into(),
        version: "1.0.0".into(),
        generation: 1,
    };
    let second = ResolvedEdition { generation: 2, ..first.clone() };
    let reference = "1";
    let options = "{}";
    assert_ne!(cache_key(&first, reference, options), cache_key(&second, reference, options));
}

#[test]
fn cache_key_lists_its_components() {
    let edition = ResolvedEdition {
        id: "ed-1".into(),
        slug: "s".into(),
        version: "1.0.0".into(),
        generation: -3,
    };
    assert_eq!(cache_key(&edition, "2:255", "{}"), "ed-1|1.0.0|-3|2:255|{}");
}

#[test]
fn boundaries_name_their_division_kind() {
    assert_eq!(division_kind(ContextBoundary::Unbounded), None);
    assert_eq!(division_kind(ContextBoundary::Surah), None);
    assert_eq!(division_kind(ContextBoundary::Juz), Some("juz"));
    assert_eq!(division_kind(ContextBoundary::Ruku), Some("ruku"));
    assert_eq!(division_kind(ContextBoundary::Page), Some("page"));
}

#[test]
fn surah_and_division_ranges() {
    assert_eq!(surah_bounds(8, 286), (8, 293));
    let divisions = vec![(1, 10), (11, 20), (15, 30)];
    assert_eq!(division_bounds(&divisions, 15), Some((11, 20)));
    assert_eq!(division_bounds(&divisions, 31), None);
}

#[test]
fn context_stays_inside_its_boundary_and_cap() {
    assert_eq!(context_takes(10, 8, 20, 5, 5), (2, 5));
    assert_eq!(context_takes(10, 1, 11, 3, 3), (3, 1));
    // After-context is dropped first, then before-context.
    assert_eq!(trim_context(3, 3, 5), (3, 1));
    assert_eq!(trim_context(6, 3, 5), (4, 0));
    assert_eq!(trim_context(2, 2, 0), (0, 0));
    assert_eq!(global_range(10, 2, 3), (8, 13));
}

#[test]
fn deep_links_name_edition_and_ayah() {
    assert_eq!(deep_link("hafs", "1.0.0", 2, 255), "/read/hafs@1.0.0/2:255");
}

#[test]
fn context_needs_an_ayah_level_reference() {
    assert_eq!(context_focus(ReferenceLevel::Ayah, 2, 255), Ok((2, 255)));
    assert_eq!(context_focus(ReferenceLevel::Token, 1, 1), Ok((1, 1)));
    assert_eq!(context_focus(ReferenceLevel::AyahRange, 2, 1), Ok((2, 1)));
    for level in [ReferenceLevel::Surah, ReferenceLevel::Division, ReferenceLevel::Edition] {
        assert_eq!(context_focus(level, 2, 255), Err(CONTEXT_NEEDS_AYAH.to_string()));
    }
}
