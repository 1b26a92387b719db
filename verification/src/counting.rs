//! Counting and discovery: countable columns per profile, counting
//! failures, hapax selection, first/last occurrence with the ayah span,
//! character shingles and shingle-set overlap, and the fixed disclaimers.

use vstd::prelude::*;
use crate::diagnostics::DiagnosticCode;
use crate::order::{sort_strings, sorted_distinct_strings, str_increasing, str_sorted, str_views};
use crate::text::{chars_of, concat2, concat3, decimal, owned, str_eq, string_of};

verus! {

/// Error namespace for counting tools.
pub const CODE_PREFIX: &'static str = "QAI-CNT";

/// Fixed disclaimer for interval analysis (verbatim).
pub const INTERVAL_DISCLAIMER: &'static str = "Intervals describe ayah positions only; no chronological or interpretive claim is made.";

/// Fixed disclaimer for missing-expected-form reports (verbatim).
pub const MISSING_FORM_DISCLAIMER: &'static str = "Absence under these counting rules is not evidence of absence under other rules; see the CountingRules block.";

/// Mandatory no-interpretation note on numeric reports.
pub const NO_INTERPRETATION_NOTE: &'static str = "Numeric output only; no interpretive commentary is provided.";

/// Minimum joint count for a collocation candidate.
pub const COLLOCATION_MIN_COUNT: u64 = 3;

/// How competing analyses are handled in a count.
#[derive(Debug, Clone, Copy, PartialEq, Eq)]
pub enum MultiAnalysisHandling {
    /// Single-source forms only.
    SingleSource,
    /// All dataset analyses, one vote each.
    AllAnalyses,
    /// One vote per token regardless of analysis count.
    OneVotePerToken,
}

/// Complete, reproducible counting rules (on every numeric output).
#[derive(Debug, Clone)]
pub struct CountingRules {
    /// Normalization profile id (e.g. `L3.diacritics`).
    pub profile: String,
    /// Profile ladder version.
    pub profile_version: String,
    /// Dataset slugs consulted.
    pub datasets: Vec<String>,
    /// Multi-analysis handling mode.
    pub multi_analysis_handling: MultiAnalysisHandling,
    /// Window definition for co-occurrence.
    pub window: Option<String>,
    /// Exclusions applied.
    pub exclusions: Vec<String>,
}

/// Rules for stored derived forms under `profile` at `version`.
pub fn rules_for(profile: &str, version: &str, window: Option<String>) -> (r: CountingRules)
    ensures
        r.profile@ == profile@,
        r.profile_version@ == version@,
        str_views(r.datasets@) == seq!["stored-forms"@],
        r.multi_analysis_handling == MultiAnalysisHandling::SingleSource,
        r.window == window,
        r.exclusions@.len() == 0,
{
    let mut datasets: Vec<String> = Vec::new();
    datasets.push(owned("stored-forms"));
    assert(str_views(datasets@) =~= seq!["stored-forms"@]);
    CountingRules {
        profile: owned(profile),
        profile_version: owned(version),
        datasets,
        multi_analysis_handling: MultiAnalysisHandling::SingleSource,
        window,
        exclusions: Vec::new(),
    }
}

/// Counting failures (`QAI-CNT-*`).
#[derive(Debug, Clone)]
pub enum CountingError {
    /// Storage failure.
    Storage(String),
    /// Unknown normalization profile.
    UnknownProfile(String),
    /// Profile has no countable token-form column.
    ProfileNotCountable(String),
    /// Empty target.
    EmptyTarget,
    /// Morphology-gated capability (no active lexicon dataset).
    UnavailableDataset { capability: String },
}

/// Number of a counting failure's code.
pub open spec fn counting_code_number(e: CountingError) -> nat {
    match e {
        CountingError::Storage(_) => 1,
        CountingError::UnknownProfile(_) => 2,
        CountingError::ProfileNotCountable(_) => 3,
        CountingError::EmptyTarget => 4,
        CountingError::UnavailableDataset { .. } => 5,
    }
}

impl CountingError {
    /// Diagnostic code `QAI-CNT-000N`.
    pub fn code(&self) -> (c: DiagnosticCode)
        ensures
            c.namespace@ == CODE_PREFIX@,
            c.number == counting_code_number(*self),
    {
        let n: u32 = match self {
            CountingError::Storage(_) => 1,
            CountingError::UnknownProfile(_) => 2,
            CountingError::ProfileNotCountable(_) => 3,
            CountingError::EmptyTarget => 4,
            CountingError::UnavailableDataset { .. } => 5,
        };
        DiagnosticCode::new(CODE_PREFIX, n)
    }

    /// Remedy shown with the failure.
    pub fn remedy(&self) -> (r: String)
        ensures
            r@ == (match *self {
                CountingError::Storage(_) => "Check the database and retry."@,
                CountingError::UnknownProfile(_) => "Use a registered profile (L2/L3/L4/L5/L7)."@,
                CountingError::ProfileNotCountable(_) =>
                    "Count under L3.diacritics (or L2/L4/L5) instead."@,
                CountingError::EmptyTarget => "Pass a non-empty target string."@,
                CountingError::UnavailableDataset { .. } =>
                    "Run `qai quran morphology import`, then `activate`."@,
            }),
    {
        match self {
            CountingError::Storage(_) => owned("Check the database and retry."),
            CountingError::UnknownProfile(_) => owned("Use a registered profile (L2/L3/L4/L5/L7)."),
            CountingError::ProfileNotCountable(_) => owned(
                "Count under L3.diacritics (or L2/L4/L5) instead.",
            ),
            CountingError::EmptyTarget => owned("Pass a non-empty target string."),
            CountingError::UnavailableDataset { .. } => owned(
                "Run `qai quran morphology import`, then `activate`.",
            ),
        }
    }

    /// Follow-up command: always the corpus doctor.
    pub fn next_command(&self) -> (r: String)
        ensures
            r@ == "qai doctor --quran"@,
    {
        owned("qai doctor --quran")
    }
}

/// Countable token-form columns.
#[derive(Debug, Clone, Copy, PartialEq, Eq)]
pub enum FormColumn {
    Simple,
    Bare,
    HamzaFolded,
    Folded,
    AffixStripped,
}

/// Column counted under a profile, or why there is none (`Err(true)`: a
/// registered profile without a countable column; `Err(false)`: unknown).
/// `recognized` says whether the profile id names a registered profile.
pub open spec fn column_for(profile: Seq<char>, recognized: bool) -> Result<FormColumn, bool> {
    if profile == "L2.marks"@ {
        Ok(FormColumn::Simple)
    } else if profile == "L3.diacritics"@ {
        Ok(FormColumn::Bare)
    } else if profile == "L4.hamza"@ {
        Ok(FormColumn::HamzaFolded)
    } else if profile == "L5.codepoints"@ {
        Ok(FormColumn::Folded)
    } else if profile == "L7.affix"@ {
        Ok(FormColumn::AffixStripped)
    } else {
        Err(recognized)
    }
}

/// Countable column of a profile: L2 to L5 and L7 count stored forms; any
/// other registered profile (`recognized`) has no countable column; an
/// unregistered one is unknown.
pub fn countable_column(profile: &str, recognized: bool) -> (r: Result<FormColumn, CountingError>)
    ensures
        match column_for(profile@, recognized) {
            Ok(c) => r == Ok::<FormColumn, CountingError>(c),
            Err(true) => r matches Err(CountingError::ProfileNotCountable(p)) && p@ == profile@,
            Err(false) => r matches Err(CountingError::UnknownProfile(p)) && p@ == profile@,
        },
{
    if str_eq(profile, "L2.marks") {
        Ok(FormColumn::Simple)
    } else if str_eq(profile, "L3.diacritics") {
        Ok(FormColumn::Bare)
    } else if str_eq(profile, "L4.hamza") {
        Ok(FormColumn::HamzaFolded)
    } else if str_eq(profile, "L5.codepoints") {
        Ok(FormColumn::Folded)
    } else if str_eq(profile, "L7.affix") {
        Ok(FormColumn::AffixStripped)
    } else if recognized {
        Err(CountingError::ProfileNotCountable(owned(profile)))
    } else {
        Err(CountingError::UnknownProfile(owned(profile)))
    }
}

/// A target that trims to nothing is refused.
pub fn check_target(target: &str) -> (r: Result<(), CountingError>)
    ensures
        r is Ok <==> !crate::text::is_blank(target@),
        r is Err ==> r matches Err(CountingError::EmptyTarget),
{
    if crate::text::str_is_blank(target) {
        Err(CountingError::EmptyTarget)
    } else {
        Ok(())
    }
}

/// Derived forms of one token, by column, with its location.
#[derive(Debug, Clone)]
pub struct TokenForm {
    pub surah: i64,
    pub ayah: i64,
    pub simple: String,
    pub bare: String,
    pub hamza_folded: String,
    pub folded: String,
    pub affix_stripped: String,
}

/// The form a column projects.
pub open spec fn form_of(f: TokenForm, column: FormColumn) -> Seq<char> {
    match column {
        FormColumn::Simple => f.simple@,
        FormColumn::Bare => f.bare@,
        FormColumn::HamzaFolded => f.hamza_folded@,
        FormColumn::Folded => f.folded@,
        FormColumn::AffixStripped => f.affix_stripped@,
    }
}

/// Project a token form onto a countable column.
pub fn form_value(form: &TokenForm, column: FormColumn) -> (r: &str)
    ensures
        r@ == form_of(*form, column),
{
    match column {
        FormColumn::Simple => form.simple.as_str(),
        FormColumn::Bare => form.bare.as_str(),
        FormColumn::HamzaFolded => form.hamza_folded.as_str(),
        FormColumn::Folded => form.folded.as_str(),
        FormColumn::AffixStripped => form.affix_stripped.as_str(),
    }
}

/// Forms occurring exactly once, in `distinct` order.
pub open spec fn once_forms(distinct: Seq<(String, i64)>, n: int) -> Seq<Seq<char>>
    decreases n,
{
    if n <= 0 {
        Seq::empty()
    } else if distinct[n - 1].1 == 1 {
        once_forms(distinct, n - 1).push(distinct[n - 1].0@)
    } else {
        once_forms(distinct, n - 1)
    }
}

/// Some entry among the first `n` reads `x` and was counted exactly once.
pub open spec fn counted_once(distinct: Seq<(String, i64)>, n: int, x: Seq<char>) -> bool {
    exists|k: int| 0 <= k < n && (#[trigger] distinct[k]).1 == 1 && distinct[k].0@ =~= x
}

/// The forms kept as counted once are exactly the forms whose count is
/// one: each kept form comes from an entry counted once, and every entry
/// counted once is kept.
pub proof fn once_forms_law(distinct: Seq<(String, i64)>, n: int)
    requires
        0 <= n <= distinct.len(),
    ensures
        forall|i: int|
            #![trigger once_forms(distinct, n)[i]]
            0 <= i < once_forms(distinct, n).len() ==> counted_once(distinct, n, once_forms(distinct, n)[i]),
        forall|k: int|
            0 <= k < n && (#[trigger] distinct[k]).1 == 1 ==> once_forms(distinct, n).contains(distinct[k].0@),
    decreases n,
{
    if n > 0 {
        once_forms_law(distinct, n - 1);
        let prev = once_forms(distinct, n - 1);
        let cur = once_forms(distinct, n);
        assert forall|i: int| #![trigger cur[i]] 0 <= i < cur.len() implies counted_once(distinct, n, cur[i]) by {
            if i < prev.len() {
                assert(cur[i] == prev[i]);
                assert(counted_once(distinct, n - 1, prev[i]));
                let k = choose|k: int| 0 <= k < n - 1 && (#[trigger] distinct[k]).1 == 1 && distinct[k].0@ =~= prev[i];
                assert(0 <= k < n && distinct[k].1 == 1 && distinct[k].0@ == cur[i]);
            } else {
                assert(distinct[n - 1].1 == 1 && distinct[n - 1].0@ == cur[i]);
            }
        }
        assert forall|k: int| 0 <= k < n && (#[trigger] distinct[k]).1 == 1 implies cur.contains(distinct[k].0@) by {
            if k < n - 1 {
                let j = choose|j: int| 0 <= j < prev.len() && prev[j] == distinct[k].0@;
                assert(cur[j] == prev[j]);
            } else {
                assert(cur[prev.len() as int] == distinct[k].0@);
            }
        }
    } else {
        assert(once_forms(distinct, n).len() == 0);
    }
}

/// Hapax legomena: the forms counted exactly once, in string order, at
/// most `max(limit, 1)` of them, each paired with its count of one.
pub fn hapax_select(distinct: &[(String, i64)], limit: usize) -> (r: Vec<(String, u64)>)
    ensures
        forall|i: int|
            0 <= i < r@.len() ==> counted_once(distinct@, distinct@.len() as int, (#[trigger] r@[i]).0@),
        r@.len() <= (if limit == 0 {
            1
        } else {
            limit as int
        }),
        r@.len() < (if limit == 0 {
            1
        } else {
            limit as int
        }) ==> forall|k: int|
            0 <= k < distinct@.len() && (#[trigger] distinct@[k]).1 == 1 ==> exists|i: int|
                0 <= i < r@.len() && r@[i].0@ =~= distinct@[k].0@,
        exists|sorted: Seq<Seq<char>>|
            str_sorted(sorted) && sorted.to_multiset() == once_forms(
                distinct@,
                distinct@.len() as int,
            ).to_multiset() && r@.map_values(|e: (String, u64)| e.0@) == sorted.take(
                if sorted.len() <= (if limit == 0 {
                    1
                } else {
                    limit as int
                }) {
                    sorted.len() as int
                } else if limit == 0 {
                    1
                } else {
                    limit as int
                },
            ),
        forall|i: int| 0 <= i < r@.len() ==> (#[trigger] r@[i]).1 == 1,
{
    let mut once: Vec<String> = Vec::new();
    let mut i: usize = 0;
    while i < distinct.len()
        invariant
            i <= distinct.len(),
            str_views(once@) == once_forms(distinct@, i as int),
        decreases distinct.len() - i,
    {
        if distinct[i].1 == 1 {
            let ghost before = once@;
            once.push(owned(distinct[i].0.as_str()));
            assert(str_views(once@) =~= str_views(before).push(distinct@[i as int].0@));
        }
        i = i + 1;
    }
    let sorted = sort_strings(once);
    let cap: usize = if limit == 0 {
        1
    } else {
        limit
    };
    let take: usize = if sorted.len() <= cap {
        sorted.len()
    } else {
        cap
    };
    let mut r: Vec<(String, u64)> = Vec::new();
    let mut k: usize = 0;
    while k < take
        invariant
            take <= sorted.len(),
            k <= take,
            r@.map_values(|e: (String, u64)| e.0@) == str_views(sorted@).take(k as int),
            forall|j: int| 0 <= j < r@.len() ==> (#[trigger] r@[j]).1 == 1,
        decreases take - k,
    {
        let ghost before = r@;
        let e = (owned(sorted[k].as_str()), 1u64);
        r.push(e);
        assert(r@ == before.push(e));
        assert(str_views(sorted@)[k as int] == sorted@[k as int]@);
        assert(r@.map_values(|e: (String, u64)| e.0@) =~= before.map_values(
            |e: (String, u64)| e.0@,
        ).push(e.0@));
        assert(r@.map_values(|e: (String, u64)| e.0@) =~= str_views(sorted@).take(k + 1));
        k = k + 1;
    }
    proof {
        broadcast use vstd::seq_lib::group_to_multiset_ensures;

        let all = once_forms(distinct@, distinct@.len() as int);
        let sv = str_views(sorted@);
        once_forms_law(distinct@, distinct@.len() as int);
        assert(str_views(once@) == all);
        assert forall|i: int| 0 <= i < r@.len() implies counted_once(distinct@, distinct@.len() as int, (#[trigger] r@[i]).0@) by {
            let x = r@[i].0@;
            assert(r@.map_values(|e: (String, u64)| e.0@)[i] == x);
            assert(sv[i] == x);
            assert(sv.contains(x));
            assert(sv.to_multiset().count(x) > 0);
            assert(all.to_multiset().count(x) > 0);
            assert(all.contains(x));
            let j = choose|j: int| 0 <= j < all.len() && all[j] == x;
            assert(counted_once(distinct@, distinct@.len() as int, all[j]));
        }
        if r@.len() < cap {
            assert forall|k: int| 0 <= k < distinct@.len() && (#[trigger] distinct@[k]).1 == 1 implies exists|i: int|
                0 <= i < r@.len() && r@[i].0@ =~= distinct@[k].0@ by {
                let x = distinct@[k].0@;
                assert(all.contains(x));
                assert(all.to_multiset().count(x) > 0);
                assert(sv.to_multiset().count(x) > 0);
                assert(sv.contains(x));
                let j = choose|j: int| 0 <= j < sv.len() && sv[j] == x;
                assert(r@.map_values(|e: (String, u64)| e.0@)[j] == sv[j]);
                assert(r@[j].0@ == x);
            }
        }
    }
    r
}

/// Location of a token form.
pub open spec fn loc_of(f: TokenForm) -> (i64, i64) {
    (f.surah, f.ayah)
}

/// Canonical order of `(surah, ayah)` pairs.
pub open spec fn loc_le(a: (i64, i64), b: (i64, i64)) -> bool {
    a.0 < b.0 || (a.0 == b.0 && a.1 <= b.1)
}

/// First occurrence (in scan order) of the target among the first `n` forms.
pub open spec fn first_match(forms: Seq<TokenForm>, column: FormColumn, t: Seq<char>, n: int) -> Option<(i64, i64)>
    decreases n,
{
    if n <= 0 {
        None
    } else {
        match first_match(forms, column, t, n - 1) {
            Some(l) => Some(l),
            None => if form_of(forms[n - 1], column) == t {
                Some((forms[n - 1].surah, forms[n - 1].ayah))
            } else {
                None
            },
        }
    }
}

/// Last occurrence (in scan order) of the target among the first `n` forms.
pub open spec fn last_match(forms: Seq<TokenForm>, column: FormColumn, t: Seq<char>, n: int) -> Option<(i64, i64)>
    decreases n,
{
    if n <= 0 {
        None
    } else if form_of(forms[n - 1], column) == t {
        Some((forms[n - 1].surah, forms[n - 1].ayah))
    } else {
        last_match(forms, column, t, n - 1)
    }
}

/// Form `k` of the scan reads the target `t` in `column`.
pub open spec fn form_hits(forms: Seq<TokenForm>, column: FormColumn, t: Seq<char>, k: int) -> bool {
    form_of(forms[k], column) == t
}

/// The first occurrence is the location of the earliest form (in scan
/// order) that reads the target, and the last one that of the latest;
/// neither exists exactly when no form reads it.
pub proof fn occurrence_law(forms: Seq<TokenForm>, column: FormColumn, t: Seq<char>, n: int)
    requires
        0 <= n <= forms.len(),
    ensures
        match first_match(forms, column, t, n) {
            Some(l) => exists|k: int|
                0 <= k < n && #[trigger] form_hits(forms, column, t, k) && loc_of(forms[k]) == l && forall|j: int|
                    0 <= j < k ==> !form_hits(forms, column, t, j),
            None => forall|k: int| 0 <= k < n ==> !#[trigger] form_hits(forms, column, t, k),
        },
        match last_match(forms, column, t, n) {
            Some(l) => exists|k: int|
                0 <= k < n && #[trigger] form_hits(forms, column, t, k) && loc_of(forms[k]) == l && forall|j: int|
                    k < j < n ==> !form_hits(forms, column, t, j),
            None => forall|k: int| 0 <= k < n ==> !#[trigger] form_hits(forms, column, t, k),
        },
    decreases n,
{
    if n > 0 {
        occurrence_law(forms, column, t, n - 1);
        if form_hits(forms, column, t, n - 1) {
            assert(form_hits(forms, column, t, n - 1));
        }
        if last_match(forms, column, t, n - 1) is Some && !form_hits(forms, column, t, n - 1) {
            let l = last_match(forms, column, t, n - 1)->0;
            let k = choose|k: int|
                0 <= k < n - 1 && #[trigger] form_hits(forms, column, t, k) && loc_of(forms[k]) == l && forall|j: int|
                    k < j < n - 1 ==> !form_hits(forms, column, t, j);
            assert(forall|j: int| k < j < n ==> !form_hits(forms, column, t, j));
        }
    }
}

/// Locations of forms lying between `first` and `last` (inclusive).
pub open spec fn locs_between(forms: Seq<TokenForm>, first: (i64, i64), last: (i64, i64)) -> Set<(i64, i64)> {
    Set::new(
        |l: (i64, i64)|
            exists|i: int|
                0 <= i < forms.len() && #[trigger] loc_of(forms[i]) == l && loc_le(
                    first,
                    l,
                ) && loc_le(l, last),
    )
}

/// First and last occurrence with the number of distinct ayahs between
/// them (inclusive).
pub struct OccurrenceSummary {
    pub first: Option<(i64, i64)>,
    pub last: Option<(i64, i64)>,
    pub ayah_span: Option<u64>,
}

/// First/last occurrence of a normalized target in an ordered token-form
/// scan, and the count of distinct ayahs from first to last.
pub fn occurrence_summary(forms: &[TokenForm], column: FormColumn, normalized: &str) -> (r: OccurrenceSummary)
    ensures
        r.first == first_match(forms@, column, normalized@, forms@.len() as int),
        r.last == last_match(forms@, column, normalized@, forms@.len() as int),
        match r.first {
            Some(l) => exists|k: int|
                0 <= k < forms@.len() && #[trigger] form_hits(forms@, column, normalized@, k) && loc_of(forms@[k])
                    == l && forall|j: int| 0 <= j < k ==> !form_hits(forms@, column, normalized@, j),
            None => forall|k: int| 0 <= k < forms@.len() ==> !#[trigger] form_hits(forms@, column, normalized@, k),
        },
        match r.last {
            Some(l) => exists|k: int|
                0 <= k < forms@.len() && #[trigger] form_hits(forms@, column, normalized@, k) && loc_of(forms@[k])
                    == l && forall|j: int| k < j < forms@.len() ==> !form_hits(forms@, column, normalized@, j),
            None => forall|k: int| 0 <= k < forms@.len() ==> !#[trigger] form_hits(forms@, column, normalized@, k),
        },
        r.first is None <==> r.ayah_span is None,
        r.first matches Some(f) ==> r.last matches Some(l) && r.ayah_span == Some(
            locs_between(forms@, f, l).len() as u64,
        ),
{
    let mut first: Option<(i64, i64)> = None;
    let mut last: Option<(i64, i64)> = None;
    let mut i: usize = 0;
    while i < forms.len()
        invariant
            i <= forms.len(),
            first == first_match(forms@, column, normalized@, i as int),
            last == last_match(forms@, column, normalized@, i as int),
            first is None <==> last is None,
        decreases forms.len() - i,
    {
        if str_eq(form_value(&forms[i], column), normalized) {
            let loc = (forms[i].surah, forms[i].ayah);
            if first.is_none() {
                first = Some(loc);
            }
            last = Some(loc);
        }
        i = i + 1;
    }
    proof {
        occurrence_law(forms@, column, normalized@, forms@.len() as int);
    }
    match (first, last) {
        (Some(f), Some(l)) => {
            let span = distinct_between(forms, f, l);
            OccurrenceSummary { first, last, ayah_span: Some(span) }
        },
        _ => OccurrenceSummary { first, last, ayah_span: None },
    }
}

fn loc_before_eq(a: (i64, i64), b: (i64, i64)) -> (r: bool)
    ensures
        r == loc_le(a, b),
{
    a.0 < b.0 || (a.0 == b.0 && a.1 <= b.1)
}

fn distinct_between(forms: &[TokenForm], first: (i64, i64), last: (i64, i64)) -> (r: u64)
    ensures
        r == locs_between(forms@, first, last).len(),
{
    let mut seen: Vec<(i64, i64)> = Vec::new();
    let mut i: usize = 0;
    while i < forms.len()
        invariant
            i <= forms.len(),
            seen@.no_duplicates(),
            seen@.len() <= i,
            forall|l: (i64, i64)|
                #![trigger seen@.contains(l)]
                seen@.contains(l) <==> exists|k: int|
                    0 <= k < i && #[trigger] loc_of(forms@[k]) == l && loc_le(
                        first,
                        l,
                    ) && loc_le(l, last),
        decreases forms.len() - i,
    {
        let loc = (forms[i].surah, forms[i].ayah);
        if loc_before_eq(first, loc) && loc_before_eq(loc, last) {
            let mut present = false;
            let mut j: usize = 0;
            while j < seen.len()
                invariant
                    j <= seen.len(),
                    present <==> exists|m: int| 0 <= m < j && seen@[m] == loc,
                decreases seen.len() - j,
            {
                if seen[j].0 == loc.0 && seen[j].1 == loc.1 {
                    present = true;
                }
                j = j + 1;
            }
            let ghost before = seen@;
            if !present {
                seen.push(loc);
                proof {
                    assert forall|a: int, b: int| 0 <= a < b < seen@.len() implies seen@[a]
                        != seen@[b] by {
                        if b == before.len() {
                            assert(seen@[a] == before[a]);
                        }
                    }
                    assert(loc_of(forms@[i as int]) == loc);
                    assert forall|l: (i64, i64)| #![trigger seen@.contains(l)] seen@.contains(l)
                        <==> exists|k: int|
                        0 <= k < i + 1 && #[trigger] loc_of(forms@[k]) == l && loc_le(first, l)
                            && loc_le(l, last) by {
                        if l == loc {
                            assert(seen@[before.len() as int] == l);
                            assert(0 <= i < i + 1 && loc_of(forms@[i as int]) == l);
                        } else {
                            if seen@.contains(l) {
                                let m = choose|m: int| 0 <= m < seen@.len() && seen@[m] == l;
                                assert(m < before.len());
                                assert(before[m] == l);
                                assert(before.contains(l));
                            }
                            if exists|k: int|
                                0 <= k < i + 1 && #[trigger] loc_of(forms@[k]) == l && loc_le(
                                    first,
                                    l,
                                ) && loc_le(l, last) {
                                let k = choose|k: int|
                                    0 <= k < i + 1 && #[trigger] loc_of(forms@[k]) == l && loc_le(
                                        first,
                                        l,
                                    ) && loc_le(l, last);
                                assert(k != i);
                                assert(before.contains(l));
                                let m = choose|m: int| 0 <= m < before.len() && before[m] == l;
                                assert(seen@[m] == l);
                            }
                        }
                    }
                }
            } else {
                proof {
                    assert(seen@.contains(loc));
                }
            }
        }
        i = i + 1;
    }
    proof {
        seen@.unique_seq_to_set();
        assert(seen@.to_set() =~= locs_between(forms@, first, last)) by {
            assert forall|l: (i64, i64)| seen@.to_set().contains(l) <==> locs_between(
                forms@,
                first,
                last,
            ).contains(l) by {
                assert(seen@.to_set().contains(l) <==> seen@.contains(l));
            }
        }
    }
    seen.len() as u64
}

/// Exact token frequency of one target under its counting rules.
#[derive(Debug, Clone)]
pub struct FrequencyReport {
    /// Normalized target actually counted.
    pub target: String,
    /// Mandatory rules block.
    pub rules: CountingRules,
    /// Exact total.
    pub count: u64,
    /// Per-surah breakdown (surah, count), ascending by surah.
    pub by_surah: Vec<(i64, u64)>,
    /// Checksum over the canonical report.
    pub checksum: String,
}

/// Frequency partitioned by surah, with provenance and warnings.
#[derive(Debug, Clone)]
pub struct DistributionReport {
    pub frequency: FrequencyReport,
    pub partition_provenance: String,
    pub warnings: Vec<String>,
}

/// Forms occurring exactly once under a profile.
#[derive(Debug, Clone)]
pub struct HapaxReport {
    /// Profile the counts are relative to.
    pub profile: String,
    pub rules: CountingRules,
    /// (form, 1) pairs, ordered by form.
    pub hapax: Vec<(String, u64)>,
}

/// Numeric report: frequency plus the no-interpretation note.
#[derive(Debug, Clone)]
pub struct NumericReport {
    pub frequency: FrequencyReport,
    pub note: String,
}

/// First/last occurrence with the interval disclaimer.
#[derive(Debug, Clone)]
pub struct OccurrenceSpan {
    pub first: Option<(i64, i64)>,
    pub last: Option<(i64, i64)>,
    pub ayah_span: Option<u64>,
    pub rules: CountingRules,
    pub disclaimer: String,
}

/// Proof of a zero count under stated rules.
#[derive(Debug, Clone)]
pub struct MissingFormReport {
    pub target: String,
    pub rules: CountingRules,
    /// Always 0.
    pub count: u64,
    pub disclaimer: String,
}

/// One co-occurring form.
#[derive(Debug, Clone)]
pub struct CooccurrenceHit {
    /// Co-occurring form.
    pub form: String,
    /// Windows containing both.
    pub count: u64,
    /// The pair spans an ayah boundary somewhere.
    pub spans_ayah_boundary: bool,
}

/// Canonical report text the frequency checksum covers:
/// `<target>|<rules json>|<count>|<surahs>`.
pub fn frequency_canonical(normalized: &str, rules_json: &str, count: u64, surahs: u64) -> (r: String)
    ensures
        r@ == normalized@ + "|"@ + rules_json@ + "|"@ + decimal(count as nat) + "|"@ + decimal(
            surahs as nat,
        ),
{
    let mut r = concat3(normalized, "|", rules_json);
    crate::text::append_str(&mut r, "|");
    crate::text::push_decimal(&mut r, count);
    crate::text::append_str(&mut r, "|");
    crate::text::push_decimal(&mut r, surahs);
    r
}

/// Checksum of a canonical report: `sha256:` and the hex SHA-256 of it.
pub fn checksum(canonical: &str) -> (r: String)
    ensures
        r@ == "sha256:"@ + crate::neardup::sha256_hex_of(canonical@),
{
    let hex = crate::neardup::sha256_hex(canonical);
    concat2("sha256:", hex.as_str())
}

/// A stored count, never below zero.
pub open spec fn clamp_count(c: i64) -> u64 {
    if c < 0 {
        0
    } else {
        c as u64
    }
}

/// Value of the last entry for `key` among the first `n` parts.
pub open spec fn last_count(parts: Seq<(i64, i64)>, key: i64, n: int) -> Option<i64>
    decreases n,
{
    if n <= 0 {
        None
    } else if parts[n - 1].0 == key {
        Some(parts[n - 1].1)
    } else {
        last_count(parts, key, n - 1)
    }
}

/// Per-surah counts keyed by surah (ascending, each surah once, the last
/// reported count winning), negative counts read as zero.
pub fn by_surah(parts: &[(i64, i64)]) -> (r: Vec<(i64, u64)>)
    ensures
        forall|i: int, j: int| 0 <= i < j < r@.len() ==> (#[trigger] r@[i]).0 < (#[trigger] r@[j]).0,
        forall|k: i64|
            #![trigger last_count(parts@, k, parts@.len() as int)]
            match last_count(parts@, k, parts@.len() as int) {
                Some(c) => exists|i: int|
                    0 <= i < r@.len() && (#[trigger] r@[i]) == (k, clamp_count(c)),
                None => forall|i: int| 0 <= i < r@.len() ==> (#[trigger] r@[i]).0 != k,
            },
{
    let mut r: Vec<(i64, u64)> = Vec::new();
    let mut n: usize = 0;
    while n < parts.len()
        invariant
            n <= parts.len(),
            forall|i: int, j: int| 0 <= i < j < r@.len() ==> (#[trigger] r@[i]).0 < (#[trigger] r@[j]).0,
            forall|k: i64|
                #![trigger last_count(parts@, k, n as int)]
                match last_count(parts@, k, n as int) {
                    Some(c) => exists|i: int|
                        0 <= i < r@.len() && (#[trigger] r@[i]) == (k, clamp_count(c)),
                    None => forall|i: int| 0 <= i < r@.len() ==> (#[trigger] r@[i]).0 != k,
                },
        decreases parts.len() - n,
    {
        let (key, raw) = parts[n];
        let value: u64 = if raw < 0 {
            0
        } else {
            raw as u64
        };
        let mut p: usize = 0;
        while p < r.len() && r[p].0 < key
            invariant
                p <= r.len(),
                forall|j: int| 0 <= j < p ==> (#[trigger] r@[j]).0 < key,
            decreases r.len() - p,
        {
            p = p + 1;
        }
        let ghost before = r@;
        if p < r.len() && r[p].0 == key {
            r.set(p, (key, value));
            proof {
                assert forall|a: int, b: int| 0 <= a < b < r@.len() implies (#[trigger] r@[a]).0 < (
                #[trigger] r@[b]).0 by {
                    assert(r@[a].0 == before[a].0 && r@[b].0 == before[b].0);
                }
                assert forall|k: i64| #![trigger last_count(parts@, k, n + 1)] match last_count(
                    parts@,
                    k,
                    n + 1,
                ) {
                    Some(c) => exists|i: int| 0 <= i < r@.len() && (#[trigger] r@[i]) == (k, clamp_count(c)),
                    None => forall|i: int| 0 <= i < r@.len() ==> (#[trigger] r@[i]).0 != k,
                } by {
                    if k == key {
                        assert(r@[p as int] == (k, clamp_count(raw)));
                    } else {
                        assert(last_count(parts@, k, n + 1) == last_count(parts@, k, n as int));
                        match last_count(parts@, k, n as int) {
                            Some(c) => {
                                let i = choose|i: int| 0 <= i < before.len() && (#[trigger] before[i]) == (k, clamp_count(c));
                                assert(i != p);
                                assert(r@[i] == before[i]);
                            },
                            None => {
                                assert forall|i: int| 0 <= i < r@.len() implies (#[trigger] r@[i]).0 != k by {
                                    if i != p {
                                        assert(r@[i] == before[i]);
                                    }
                                }
                            },
                        }
                    }
                }
            }
        } else {
            r.insert(p, (key, value));
            proof {
                assert forall|a: int, b: int| 0 <= a < b < r@.len() implies (#[trigger] r@[a]).0 < (
                #[trigger] r@[b]).0 by {
                    if b < p {
                        assert(r@[a] == before[a] && r@[b] == before[b]);
                    } else if b == p {
                        assert(r@[a] == before[a]);
                    } else if a < p {
                        assert(r@[a] == before[a] && r@[b] == before[b - 1]);
                    } else if a == p {
                        assert(r@[b] == before[b - 1]);
                        assert(before[p as int].0 != key);
                        assert(!(before[p as int].0 < key));
                    } else {
                        assert(r@[a] == before[a - 1] && r@[b] == before[b - 1]);
                    }
                }
                assert forall|k: i64| #![trigger last_count(parts@, k, n + 1)] match last_count(
                    parts@,
                    k,
                    n + 1,
                ) {
                    Some(c) => exists|i: int| 0 <= i < r@.len() && (#[trigger] r@[i]) == (k, clamp_count(c)),
                    None => forall|i: int| 0 <= i < r@.len() ==> (#[trigger] r@[i]).0 != k,
                } by {
                    if k == key {
                        assert(r@[p as int] == (k, clamp_count(raw)));
                    } else {
                        assert(last_count(parts@, k, n + 1) == last_count(parts@, k, n as int));
                        match last_count(parts@, k, n as int) {
                            Some(c) => {
                                let i = choose|i: int| 0 <= i < before.len() && (#[trigger] before[i]) == (k, clamp_count(c));
                                if i < p {
                                    assert(r@[i] == before[i]);
                                } else {
                                    assert(r@[i + 1] == before[i]);
                                }
                            },
                            None => {
                                assert forall|i: int| 0 <= i < r@.len() implies (#[trigger] r@[i]).0 != k by {
                                    if i < p {
                                        assert(r@[i] == before[i]);
                                    } else if i > p {
                                        assert(r@[i] == before[i - 1]);
                                    }
                                }
                            },
                        }
                    }
                }
            }
        }
        n = n + 1;
    }
    r
}

/// Distribution view of a frequency report.
pub fn distribution(frequency: FrequencyReport) -> (r: DistributionReport)
    ensures
        r.frequency == frequency,
        r.partition_provenance@ == "partitions keyed by surah number (canonical structure)"@,
        str_views(r.warnings@) == seq![
            "single-source counts over stored derived forms; cross-dataset distributions need an active lexicon"@,
        ],
{
    let mut warnings: Vec<String> = Vec::new();
    warnings.push(
        owned(
            "single-source counts over stored derived forms; cross-dataset distributions need an active lexicon",
        ),
    );
    assert(str_views(warnings@) =~= seq![
        "single-source counts over stored derived forms; cross-dataset distributions need an active lexicon"@,
    ]);
    DistributionReport {
        frequency,
        partition_provenance: owned("partitions keyed by surah number (canonical structure)"),
        warnings,
    }
}

/// Numeric report: the frequency with the mandatory note, verbatim.
pub fn numeric_report(frequency: FrequencyReport) -> (r: NumericReport)
    ensures
        r.frequency == frequency,
        r.note@ == NO_INTERPRETATION_NOTE@,
{
    NumericReport { frequency, note: owned(NO_INTERPRETATION_NOTE) }
}

/// Proof of a zero: refused when the target occurs.
pub fn missing_expected_form(report: FrequencyReport) -> (r: Result<MissingFormReport, CountingError>)
    ensures
        report.count == 0 <==> r is Ok,
        r matches Ok(m) ==> m.count == 0 && m.disclaimer@ == MISSING_FORM_DISCLAIMER@
            && m.target@ == report.target@ && m.rules == report.rules,
        report.count != 0 ==> (r matches Err(CountingError::Storage(msg)) && msg@ == "target occurs "@
            + decimal(report.count as nat) + " time(s); missing_expected_form needs a zero"@),
{
    if report.count != 0 {
        let mut m = owned("target occurs ");
        crate::text::push_decimal(&mut m, report.count);
        crate::text::append_str(&mut m, " time(s); missing_expected_form needs a zero");
        return Err(CountingError::Storage(m));
    }
    let target = owned(report.target.as_str());
    Ok(
        MissingFormReport {
            target,
            rules: report.rules,
            count: 0,
            disclaimer: owned(MISSING_FORM_DISCLAIMER),
        },
    )
}

/// Occurrence span report with the interval disclaimer, verbatim.
pub fn occurrence_span(summary: OccurrenceSummary, rules: CountingRules) -> (r: OccurrenceSpan)
    ensures
        r.first == summary.first,
        r.last == summary.last,
        r.ayah_span == summary.ayah_span,
        r.rules == rules,
        r.disclaimer@ == INTERVAL_DISCLAIMER@,
{
    OccurrenceSpan {
        first: summary.first,
        last: summary.last,
        ayah_span: summary.ayah_span,
        rules,
        disclaimer: owned(INTERVAL_DISCLAIMER),
    }
}

/// Morphology-gated capability: refused until a lexicon is active.
pub fn unavailable(capability: &str) -> (r: CountingError)
    ensures
        r matches CountingError::UnavailableDataset { capability: c } && c@ == capability@,
{
    CountingError::UnavailableDataset { capability: owned(capability) }
}

/// Some part among the first `n` is keyed `key`.
pub open spec fn has_part(parts: Seq<(i64, i64)>, key: i64, n: int) -> bool {
    exists|k: int| 0 <= k < n && (#[trigger] parts[k]).0 == key
}

/// The count kept for a key is that of its last part; there is none
/// exactly when no part has the key.
pub proof fn last_count_law(parts: Seq<(i64, i64)>, key: i64, n: int)
    requires
        0 <= n <= parts.len(),
    ensures
        last_count(parts, key, n) is None <==> !has_part(parts, key, n),
        last_count(parts, key, n) matches Some(c) ==> exists|k: int|
            0 <= k < n && (#[trigger] parts[k]).0 == key && parts[k].1 == c && forall|j: int|
                k < j < n ==> parts[j].0 != key,
    decreases n,
{
    if n > 0 {
        last_count_law(parts, key, n - 1);
        if parts[n - 1].0 == key {
            assert(has_part(parts, key, n) && parts[n - 1].0 == key);
        } else {
            if has_part(parts, key, n) {
                let k = choose|k: int| 0 <= k < n && (#[trigger] parts[k]).0 == key;
                assert(has_part(parts, key, n - 1) && parts[k].0 == key);
            }
        }
    }
}

} // verus!
