//! `doctor --quran`: the corpus integrity checks over the active edition's
//! rows, with their severities, summaries and remedies.

use vstd::prelude::*;
use crate::counts::{kept_from, kept_values, kept_values_law, positions_where};
use crate::rows::AyahRow;
use crate::text::{append_str, concat2, concat3, decimal, is_blank, owned, push_decimal, push_signed, signed_decimal, str_eq, str_is_blank};

verus! {

/// Check severity.
#[derive(Debug, Clone, Copy, PartialEq, Eq)]
pub enum CheckLevel {
    /// Healthy.
    Pass,
    /// Needs attention.
    Warn,
    /// Broken.
    Fail,
    /// Not applicable.
    Skipped,
}

impl CheckLevel {
    /// Stable string for rendering.
    pub fn as_str(self) -> (r: &'static str)
        ensures
            r@ == (match self {
                CheckLevel::Pass => "pass"@,
                CheckLevel::Warn => "warn"@,
                CheckLevel::Fail => "fail"@,
                CheckLevel::Skipped => "skipped"@,
            }),
    {
        match self {
            CheckLevel::Pass => "pass",
            CheckLevel::Warn => "warn",
            CheckLevel::Fail => "fail",
            CheckLevel::Skipped => "skipped",
        }
    }
}

/// One doctor check result.
#[derive(Debug, Clone)]
pub struct QuranDoctorCheck {
    /// Check id (`quran.*`).
    pub id: &'static str,
    /// Severity.
    pub status: CheckLevel,
    /// Human summary.
    pub summary: String,
    /// Remedy, when actionable.
    pub remedy: Option<String>,
    /// Next command.
    pub next_command: Option<String>,
}

/// Plain view of a check.
pub open spec fn check_view(c: QuranDoctorCheck) -> (
    Seq<char>,
    CheckLevel,
    Seq<char>,
    Option<Seq<char>>,
    Option<Seq<char>>,
) {
    (
        c.id@,
        c.status,
        c.summary@,
        match c.remedy {
            Some(r) => Some(r@),
            None => None,
        },
        match c.next_command {
            Some(n) => Some(n@),
            None => None,
        },
    )
}

/// A passing check.
pub open spec fn passed(id: Seq<char>, summary: Seq<char>) -> (
    Seq<char>,
    CheckLevel,
    Seq<char>,
    Option<Seq<char>>,
    Option<Seq<char>>,
) {
    (id, CheckLevel::Pass, summary, None, None)
}

/// A failing or warning check pointing at corpus validation.
pub open spec fn flagged(id: Seq<char>, level: CheckLevel, summary: Seq<char>, remedy: Seq<char>) -> (
    Seq<char>,
    CheckLevel,
    Seq<char>,
    Option<Seq<char>>,
    Option<Seq<char>>,
) {
    (id, level, summary, Some(remedy), Some("qai quran validate"@))
}

/// Passing check.
pub fn pass(id: &'static str, summary: String) -> (c: QuranDoctorCheck)
    ensures
        check_view(c) == passed(id@, summary@),
{
    QuranDoctorCheck { id, status: CheckLevel::Pass, summary, remedy: None, next_command: None }
}

/// Failing check.
pub fn fail(id: &'static str, summary: String, remedy: &str) -> (c: QuranDoctorCheck)
    ensures
        check_view(c) == flagged(id@, CheckLevel::Fail, summary@, remedy@),
{
    QuranDoctorCheck {
        id,
        status: CheckLevel::Fail,
        summary,
        remedy: Some(owned(remedy)),
        next_command: Some(owned("qai quran validate")),
    }
}

/// Warning check.
pub fn warn(id: &'static str, summary: String, remedy: &str) -> (c: QuranDoctorCheck)
    ensures
        check_view(c) == flagged(id@, CheckLevel::Warn, summary@, remedy@),
{
    QuranDoctorCheck {
        id,
        status: CheckLevel::Warn,
        summary,
        remedy: Some(owned(remedy)),
        next_command: Some(owned("qai quran validate")),
    }
}

/// The first sixteen characters of a hash.
pub fn short(hash: &str) -> (r: String)
    ensures
        r@ == hash@.take(if hash@.len() < 16 {
            hash@.len() as int
        } else {
            16
        }),
{
    let chars = crate::text::chars_of(hash);
    let n: usize = if chars.len() < 16 {
        chars.len()
    } else {
        16
    };
    let part = crate::text::slice_chars(chars.as_slice(), 0, n);
    assert(part@ =~= hash@.take(n as int));
    crate::text::string_of(part.as_slice())
}

/// One surah row as the checks read it.
#[derive(Debug, Clone)]
pub struct SurahRow {
    /// Surah number.
    pub number: i64,
    /// Recorded ayah count.
    pub ayah_count: i64,
    /// Basmala policy of the surah.
    pub basmala: String,
    /// Revelation place, when recorded.
    pub revelation_place: Option<String>,
}

/// One translation edition as the checks read it.
#[derive(Debug, Clone)]
pub struct TranslationRow {
    /// Translator.
    pub translator: String,
    /// Edition the translation aligns to.
    pub aligned_edition_id: String,
}

/// Ayah numbers of surah `s`, in row order.
pub open spec fn numbers_of(ayahs: Seq<AyahRow>, s: i64, n: int) -> Seq<i64>
    decreases n,
{
    if n <= 0 {
        Seq::empty()
    } else if ayahs[n - 1].surah == s {
        numbers_of(ayahs, s, n - 1).push(ayahs[n - 1].ayah)
    } else {
        numbers_of(ayahs, s, n - 1)
    }
}

/// The numbers are exactly `1..=count`, each once (in any order).
pub open spec fn dense(numbers: Seq<i64>, count: i64) -> bool {
    &&& numbers.len() == (if count > 0 {
        count as int
    } else {
        0
    })
    &&& numbers.no_duplicates()
    &&& forall|i: int| 0 <= i < numbers.len() ==> 1 <= #[trigger] numbers[i] <= count
}

/// Every surah's ayah numbers are dense.
pub open spec fn identifiers_dense(surahs: Seq<SurahRow>, ayahs: Seq<AyahRow>) -> bool {
    forall|k: int|
        0 <= k < surahs.len() ==> dense(
            numbers_of(ayahs, (#[trigger] surahs[k]).number, ayahs.len() as int),
            surahs[k].ayah_count,
        )
}

fn surah_numbers(ayahs: &[AyahRow], s: i64) -> (r: Vec<i64>)
    ensures
        r@ == numbers_of(ayahs@, s, ayahs@.len() as int),
{
    let mut r: Vec<i64> = Vec::new();
    let mut i: usize = 0;
    while i < ayahs.len()
        invariant
            i <= ayahs.len(),
            r@ == numbers_of(ayahs@, s, i as int),
        decreases ayahs.len() - i,
    {
        if ayahs[i].surah == s {
            r.push(ayahs[i].ayah);
        }
        i = i + 1;
    }
    r
}

fn is_dense(numbers: &[i64], count: i64) -> (r: bool)
    ensures
        r == dense(numbers@, count),
{
    let want: u64 = if count > 0 {
        count as u64
    } else {
        0
    };
    if numbers.len() as u64 != want {
        return false;
    }
    let mut i: usize = 0;
    while i < numbers.len()
        invariant
            i <= numbers.len(),
            forall|a: int| 0 <= a < i ==> 1 <= #[trigger] numbers@[a] <= count,
            forall|a: int, b: int| 0 <= a < b < i ==> numbers@[a] != numbers@[b],
        decreases numbers.len() - i,
    {
        if numbers[i] < 1 || numbers[i] > count {
            return false;
        }
        let mut j: usize = 0;
        while j < i
            invariant
                j <= i < numbers.len(),
                forall|a: int| 0 <= a < j ==> numbers@[a] != numbers@[i as int],
            decreases i - j,
        {
            if numbers[j] == numbers[i] {
                assert(!numbers@.no_duplicates());
                return false;
            }
            j = j + 1;
        }
        i = i + 1;
    }
    true
}

/// Ayah numbers are dense (`1..=ayah_count`, no gap, no duplicate) in
/// every surah.
pub fn ayah_identifiers_dense(surahs: &[SurahRow], ayahs: &[AyahRow]) -> (r: bool)
    ensures
        r == identifiers_dense(surahs@, ayahs@),
{
    let mut k: usize = 0;
    while k < surahs.len()
        invariant
            k <= surahs.len(),
            forall|j: int|
                0 <= j < k ==> dense(
                    numbers_of(ayahs@, (#[trigger] surahs@[j]).number, ayahs@.len() as int),
                    surahs@[j].ayah_count,
                ),
        decreases surahs.len() - k,
    {
        let numbers = surah_numbers(ayahs, surahs[k].number);
        if !is_dense(numbers.as_slice(), surahs[k].ayah_count) {
            return false;
        }
        k = k + 1;
    }
    true
}

/// Ayahs whose tokens the round-trip check rebuilds: all with `deep`, else
/// the first, the middle (when more than two) and the last (when more than
/// one).
pub fn roundtrip_sample(n: usize, deep: bool) -> (r: Vec<usize>)
    ensures
        deep ==> r@ == Seq::new(n as nat, |i: int| i as usize),
        !deep && n == 0 ==> r@.len() == 0,
        !deep && n == 1 ==> r@ == seq![0usize],
        !deep && n == 2 ==> r@ == seq![0usize, 1usize],
        !deep && n > 2 ==> r@ == seq![0usize, n / 2, (n - 1) as usize],
{
    let mut r: Vec<usize> = Vec::new();
    if deep {
        let mut i: usize = 0;
        while i < n
            invariant
                i <= n,
                r@ == Seq::new(i as nat, |k: int| k as usize),
            decreases n - i,
        {
            r.push(i);
            i = i + 1;
            assert(r@ =~= Seq::new(i as nat, |k: int| k as usize));
        }
        assert(r@ =~= Seq::new(n as nat, |i: int| i as usize));
        return r;
    }
    if n == 0 {
        return r;
    }
    r.push(0);
    if n > 2 {
        r.push(n / 2);
    }
    if n > 1 {
        r.push(n - 1);
    }
    r
}

/// Juz values present, in row order.
pub open spec fn juz_values(ayahs: Seq<AyahRow>, n: int) -> Seq<i64>
    decreases n,
{
    if n <= 0 {
        Seq::empty()
    } else {
        match ayahs[n - 1].juz {
            Some(j) => juz_values(ayahs, n - 1).push(j),
            None => juz_values(ayahs, n - 1),
        }
    }
}

/// Juz coverage starts at 1 and never skips: each next value repeats or
/// adds one.
pub open spec fn juz_contiguous(juz: Seq<i64>) -> bool {
    &&& juz.len() > 0
    &&& juz[0] == 1
    &&& forall|i: int| 0 <= i < juz.len() - 1 ==> #[trigger] juz[i + 1] == juz[i] || juz[i + 1] == juz[i] + 1
}

/// Juz coverage is contiguous over the ayahs that record a juz.
pub fn division_coverage(ayahs: &[AyahRow]) -> (r: bool)
    ensures
        r == juz_contiguous(juz_values(ayahs@, ayahs@.len() as int)),
{
    let mut juz: Vec<i64> = Vec::new();
    let mut i: usize = 0;
    while i < ayahs.len()
        invariant
            i <= ayahs.len(),
            juz@ == juz_values(ayahs@, i as int),
        decreases ayahs.len() - i,
    {
        match ayahs[i].juz {
            Some(j) => juz.push(j),
            None => {},
        }
        i = i + 1;
    }
    if juz.len() == 0 || juz[0] != 1 {
        return false;
    }
    let mut k: usize = 0;
    while k + 1 < juz.len()
        invariant
            juz@ == juz_values(ayahs@, ayahs@.len() as int),
            juz@.len() > 0 && juz@[0] == 1,
            k + 1 <= juz.len(),
            forall|a: int| 0 <= a < k ==> #[trigger] juz@[a + 1] == juz@[a] || juz@[a + 1] == juz@[a] + 1,
        decreases juz.len() - k,
    {
        let a = juz[k];
        let b = juz[k + 1];
        if b != a && (a == i64::MAX || b != a + 1) {
            assert(!(juz@[k + 1] == juz@[k as int] || juz@[k + 1] == juz@[k as int] + 1));
            assert(!juz_contiguous(juz@)) by {
                assert(0 <= k < juz@.len() - 1);
                if juz_contiguous(juz@) {
                    assert(juz@[k + 1] == juz@[k as int] || juz@[k + 1] == juz@[k as int] + 1);
                }
            }
            return false;
        }
        k = k + 1;
    }
    true
}

/// Every ayah carries a non-blank provenance id.
pub fn provenance_complete(ayahs: &[AyahRow]) -> (r: bool)
    ensures
        r == forall|i: int| 0 <= i < ayahs@.len() ==> !is_blank((#[trigger] ayahs@[i]).provenance_id@),
{
    let mut i: usize = 0;
    while i < ayahs.len()
        invariant
            i <= ayahs.len(),
            forall|k: int| 0 <= k < i ==> !is_blank((#[trigger] ayahs@[k]).provenance_id@),
        decreases ayahs.len() - i,
    {
        if str_is_blank(ayahs[i].provenance_id.as_str()) {
            return false;
        }
        i = i + 1;
    }
    true
}

/// The edition states a basmala policy and so does every surah.
pub fn basmala_declared(policy: &str, surahs: &[SurahRow]) -> (r: bool)
    ensures
        r == (policy@.len() > 0 && forall|i: int|
            0 <= i < surahs@.len() ==> (#[trigger] surahs@[i]).basmala@.len() > 0),
{
    let p = crate::text::chars_of(policy);
    if p.len() == 0 {
        return false;
    }
    let mut i: usize = 0;
    while i < surahs.len()
        invariant
            i <= surahs.len(),
            forall|k: int| 0 <= k < i ==> (#[trigger] surahs@[k]).basmala@.len() > 0,
        decreases surahs.len() - i,
    {
        if crate::text::chars_of(surahs[i].basmala.as_str()).len() == 0 {
            return false;
        }
        i = i + 1;
    }
    true
}

/// Every translation names a translator.
pub fn translations_attributed(translations: &[TranslationRow]) -> (r: bool)
    ensures
        r == forall|i: int|
            0 <= i < translations@.len() ==> !is_blank((#[trigger] translations@[i]).translator@),
{
    let mut i: usize = 0;
    while i < translations.len()
        invariant
            i <= translations.len(),
            forall|k: int| 0 <= k < i ==> !is_blank((#[trigger] translations@[k]).translator@),
        decreases translations.len() - i,
    {
        if str_is_blank(translations[i].translator.as_str()) {
            return false;
        }
        i = i + 1;
    }
    true
}

/// Every translation aligns to the active edition.
pub fn translations_aligned(translations: &[TranslationRow], edition_id: &str) -> (r: bool)
    ensures
        r == forall|i: int|
            0 <= i < translations@.len() ==> (#[trigger] translations@[i]).aligned_edition_id@
                == edition_id@,
{
    let mut i: usize = 0;
    while i < translations.len()
        invariant
            i <= translations.len(),
            forall|k: int|
                0 <= k < i ==> (#[trigger] translations@[k]).aligned_edition_id@ == edition_id@,
        decreases translations.len() - i,
    {
        if !str_eq(translations[i].aligned_edition_id.as_str(), edition_id) {
            return false;
        }
        i = i + 1;
    }
    true
}

/// What the corpus checks read: the active edition's rows and the values
/// only outside code can compute (hash recomputations, token
/// reconstruction, Unicode form, recorded statistics).
#[derive(Debug, Clone)]
pub struct QuranCheckInputs {
    pub edition_id: String,
    pub edition_slug: String,
    pub edition_version: String,
    /// Stored tagged text hash.
    pub text_hash: String,
    pub text_hash_matches: bool,
    pub structure_hash_matches: bool,
    pub token_order_hash_matches: bool,
    pub surahs: Vec<SurahRow>,
    pub ayahs: Vec<AyahRow>,
    /// Surah count recorded in the edition statistics.
    pub stat_surah_count: u64,
    /// Ayah count recorded in the edition statistics.
    pub stat_ayah_count: u64,
    /// Full-corpus round-trip instead of the sample.
    pub deep: bool,
    /// The sampled (or full) token reconstruction matched.
    pub roundtrip_ok: bool,
    /// Declared Unicode normalization form.
    pub declared_form: String,
    /// Ayahs not in the declared form.
    pub bad_unicode: u64,
    /// Juz division rows.
    pub juz_divisions: u64,
    /// Edition basmala policy.
    pub basmala_policy: String,
    pub translations: Vec<TranslationRow>,
    /// Orphaned staging rows.
    pub orphans: u64,
    pub corpus_generation: i64,
    /// License status recorded for the edition (empty when unknown).
    pub license_status: String,
}

/// A failing check pointing at corpus validation.
pub open spec fn fail_view(id: Seq<char>, summary: Seq<char>, remedy: Seq<char>) -> (
    Seq<char>,
    CheckLevel,
    Seq<char>,
    Option<Seq<char>>,
    Option<Seq<char>>,
) {
    flagged(id, CheckLevel::Fail, summary, remedy)
}

/// Check number `k` for `x`.
pub open spec fn quran_check(x: QuranCheckInputs, k: int) -> (
    Seq<char>,
    CheckLevel,
    Seq<char>,
    Option<Seq<char>>,
    Option<Seq<char>>,
) {
    let reimport_canonical = "re-import the edition; do not edit canonical rows"@;
    let n_surahs = x.surahs@.len();
    let n_ayahs = x.ayahs@.len();
    let attributed = forall|i: int|
        0 <= i < x.translations@.len() ==> !is_blank((#[trigger] x.translations@[i]).translator@);
    if k == 0 {
        passed(
            "quran.edition_active"@,
            "exactly one active edition: "@ + x.edition_slug@ + "@"@ + x.edition_version@,
        )
    } else if k == 1 {
        if x.text_hash_matches {
            passed(
                "quran.edition_checksum"@,
                "text_hash matches ("@ + x.text_hash@.take(
                    if x.text_hash@.len() < 16 {
                        x.text_hash@.len() as int
                    } else {
                        16
                    },
                ) + ")"@,
            )
        } else {
            fail_view(
                "quran.edition_checksum"@,
                "stored text_hash differs from recomputation"@,
                reimport_canonical,
            )
        }
    } else if k == 2 {
        if x.structure_hash_matches {
            passed("quran.structure_hash"@, "structural skeleton hash matches"@)
        } else {
            fail_view(
                "quran.structure_hash"@,
                "stored structure_hash differs from recomputation"@,
                reimport_canonical,
            )
        }
    } else if k == 3 {
        if x.token_order_hash_matches {
            passed("quran.token_order_hash"@, "token order hash matches"@)
        } else {
            fail_view(
                "quran.token_order_hash"@,
                "stored token_order_hash differs from recomputation"@,
                reimport_canonical,
            )
        }
    } else if k == 4 {
        if n_surahs == x.stat_surah_count {
            passed("quran.surah_count"@, decimal(n_surahs) + " surahs match statistics"@)
        } else {
            fail_view(
                "quran.surah_count"@,
                decimal(n_surahs) + " surahs vs "@ + decimal(x.stat_surah_count as nat)
                    + " in statistics"@,
                "re-import the edition"@,
            )
        }
    } else if k == 5 {
        if n_ayahs == x.stat_ayah_count {
            passed("quran.ayah_count"@, decimal(n_ayahs) + " ayahs match statistics"@)
        } else {
            fail_view(
                "quran.ayah_count"@,
                decimal(n_ayahs) + " ayahs vs "@ + decimal(x.stat_ayah_count as nat)
                    + " in statistics"@,
                "re-import the edition"@,
            )
        }
    } else if k == 6 {
        if identifiers_dense(x.surahs@, x.ayahs@) {
            passed("quran.ayah_identifiers"@, "ayah numbers dense in every surah"@)
        } else {
            fail_view(
                "quran.ayah_identifiers"@,
                "gaps or duplicates in ayah numbering"@,
                "re-import the edition"@,
            )
        }
    } else if k == 7 {
        if x.roundtrip_ok {
            passed(
                "quran.token_roundtrip"@,
                if x.deep {
                    "full-corpus round-trip over "@ + decimal(n_ayahs) + " ayahs"@
                } else {
                    "sampled round-trip holds (use --deep for full scan)"@
                },
            )
        } else {
            fail_view(
                "quran.token_roundtrip"@,
                "token reconstruction mismatch"@,
                "re-import the edition"@,
            )
        }
    } else if k == 8 {
        if x.bad_unicode == 0 {
            passed(
                "quran.unicode_form"@,
                "all ayahs in declared "@ + x.declared_form@ + " form"@,
            )
        } else {
            fail_view(
                "quran.unicode_form"@,
                decimal(x.bad_unicode as nat) + " ayahs not in "@ + x.declared_form@ + " form"@,
                "re-import from NFC-normalized sources"@,
            )
        }
    } else if k == 9 {
        if juz_contiguous(juz_values(x.ayahs@, n_ayahs as int)) {
            passed(
                "quran.division_coverage"@,
                "juz coverage contiguous ("@ + decimal(x.juz_divisions as nat) + " divisions)"@,
            )
        } else {
            fail_view(
                "quran.division_coverage"@,
                "juz coverage has gaps"@,
                "re-import with complete division metadata"@,
            )
        }
    } else if k == 10 {
        if x.basmala_policy@.len() > 0 && forall|i: int|
            0 <= i < x.surahs@.len() ==> (#[trigger] x.surahs@[i]).basmala@.len() > 0 {
            passed("quran.basmala_policy"@, "basmala policy declared for every surah"@)
        } else {
            fail_view(
                "quran.basmala_policy"@,
                "missing basmala policy"@,
                "re-import with declared policies"@,
            )
        }
    } else if k == 11 {
        if forall|i: int| 0 <= i < n_ayahs ==> !is_blank((#[trigger] x.ayahs@[i]).provenance_id@) {
            passed("quran.provenance_complete"@, "every ayah carries canonical provenance"@)
        } else {
            fail_view(
                "quran.provenance_complete"@,
                "ayahs without provenance"@,
                "re-import; the importer assigns provenance to every row"@,
            )
        }
    } else if k == 12 {
        if attributed {
            passed(
                "quran.metadata_layering"@,
                "layer separation holds; translations attributed"@,
            )
        } else {
            fail_view(
                "quran.metadata_layering"@,
                "unattributed translation edition present"@,
                "re-import translations with named translators"@,
            )
        }
    } else if k == 13 {
        if forall|i: int|
            0 <= i < x.translations@.len() ==> (#[trigger] x.translations@[i]).aligned_edition_id@
                == x.edition_id@ {
            passed("quran.translations_aligned"@, "translations align to existing editions"@)
        } else {
            fail_view(
                "quran.translations_aligned"@,
                "a translation aligns to an unknown edition"@,
                "re-import the translation against the right edition"@,
            )
        }
    } else if k == 14 {
        if attributed {
            passed("quran.translation_attribution"@, "every translation names a translator"@)
        } else {
            fail_view(
                "quran.translation_attribution"@,
                "unattributed translation edition present"@,
                "re-import translations with named translators"@,
            )
        }
    } else if k == 15 {
        if x.orphans == 0 {
            passed("quran.staging_orphans"@, "no leftover staging rows"@)
        } else {
            fail_view(
                "quran.staging_orphans"@,
                decimal(x.orphans as nat) + " orphaned staging rows"@,
                "cancel or retry the owning import runs"@,
            )
        }
    } else if k == 16 {
        passed(
            "quran.corpus_generation"@,
            "current generation is "@ + signed_decimal(x.corpus_generation as int),
        )
    } else if k == 17 {
        flagged(
            "quran.reference_corpus"@,
            CheckLevel::Warn,
            "no reference corpus configured; QV-015 skips (ADR-0114 pending)"@,
            "configure a reference corpus and sign-off procedure"@,
        )
    } else {
        if x.license_status@ != "Unknown"@ && x.license_status@.len() > 0 {
            passed("quran.license_status"@, "active edition license: "@ + x.license_status@)
        } else {
            flagged(
                "quran.license_status"@,
                CheckLevel::Warn,
                "active edition license is unknown"@,
                "record the dataset license (ADR-0101)"@,
            )
        }
    }
}

/// The checks, in order, for `x`.
pub open spec fn quran_check_views(x: QuranCheckInputs) -> Seq<
    (Seq<char>, CheckLevel, Seq<char>, Option<Seq<char>>, Option<Seq<char>>),
> {
    Seq::new(19, |k: int| quran_check(x, k))
}

/// Views of a list of checks.
pub open spec fn check_views(v: Seq<QuranDoctorCheck>) -> Seq<
    (Seq<char>, CheckLevel, Seq<char>, Option<Seq<char>>, Option<Seq<char>>),
> {
    v.map_values(|c: QuranDoctorCheck| check_view(c))
}

fn pass_or_fail(ok: bool, id: &'static str, good: String, bad: String, remedy: &str) -> (c: QuranDoctorCheck)
    ensures
        check_view(c) == (if ok {
            passed(id@, good@)
        } else {
            fail_view(id@, bad@, remedy@)
        }),
{
    if ok {
        pass(id, good)
    } else {
        fail(id, bad, remedy)
    }
}

fn with_decimal(n: u64, tail: &str) -> (r: String)
    ensures
        r@ == decimal(n as nat) + tail@,
{
    let mut r = String::new();
    push_decimal(&mut r, n);
    append_str(&mut r, tail);
    r
}

fn checks_head(x: &QuranCheckInputs) -> (r: Vec<QuranDoctorCheck>)
    ensures
        r@.len() == 10,
        forall|k: int| 0 <= k < 10 ==> check_view(#[trigger] r@[k]) == quran_check(*x, k),
{
    let reimport_canonical = "re-import the edition; do not edit canonical rows";
    let mut r: Vec<QuranDoctorCheck> = Vec::new();
    let mut head = concat3("exactly one active edition: ", x.edition_slug.as_str(), "@");
    append_str(&mut head, x.edition_version.as_str());
    r.push(pass("quran.edition_active", head));
    assert(check_view(r@[0]) == quran_check(*x, 0));
    let mut good = concat2("text_hash matches (", short(x.text_hash.as_str()).as_str());
    append_str(&mut good, ")");
    r.push(
        pass_or_fail(
            x.text_hash_matches,
            "quran.edition_checksum",
            good,
            owned("stored text_hash differs from recomputation"),
            reimport_canonical,
        ),
    );
    assert(check_view(r@[1]) == quran_check(*x, 1));
    r.push(
        pass_or_fail(
            x.structure_hash_matches,
            "quran.structure_hash",
            owned("structural skeleton hash matches"),
            owned("stored structure_hash differs from recomputation"),
            reimport_canonical,
        ),
    );
    assert(check_view(r@[2]) == quran_check(*x, 2));
    r.push(
        pass_or_fail(
            x.token_order_hash_matches,
            "quran.token_order_hash",
            owned("token order hash matches"),
            owned("stored token_order_hash differs from recomputation"),
            reimport_canonical,
        ),
    );
    assert(check_view(r@[3]) == quran_check(*x, 3));
    let n_surahs = x.surahs.len() as u64;
    let mut bad = with_decimal(n_surahs, " surahs vs ");
    push_decimal(&mut bad, x.stat_surah_count);
    append_str(&mut bad, " in statistics");
    r.push(
        pass_or_fail(
            n_surahs == x.stat_surah_count,
            "quran.surah_count",
            with_decimal(n_surahs, " surahs match statistics"),
            bad,
            "re-import the edition",
        ),
    );
    assert(check_view(r@[4]) == quran_check(*x, 4));
    let n_ayahs = x.ayahs.len() as u64;
    let mut bad = with_decimal(n_ayahs, " ayahs vs ");
    push_decimal(&mut bad, x.stat_ayah_count);
    append_str(&mut bad, " in statistics");
    r.push(
        pass_or_fail(
            n_ayahs == x.stat_ayah_count,
            "quran.ayah_count",
            with_decimal(n_ayahs, " ayahs match statistics"),
            bad,
            "re-import the edition",
        ),
    );
    assert(check_view(r@[5]) == quran_check(*x, 5));
    r.push(
        pass_or_fail(
            ayah_identifiers_dense(x.surahs.as_slice(), x.ayahs.as_slice()),
            "quran.ayah_identifiers",
            owned("ayah numbers dense in every surah"),
            owned("gaps or duplicates in ayah numbering"),
            "re-import the edition",
        ),
    );
    assert(check_view(r@[6]) == quran_check(*x, 6));
    let good = if x.deep {
        let mut g = owned("full-corpus round-trip over ");
        push_decimal(&mut g, n_ayahs);
        append_str(&mut g, " ayahs");
        g
    } else {
        owned("sampled round-trip holds (use --deep for full scan)")
    };
    r.push(
        pass_or_fail(
            x.roundtrip_ok,
            "quran.token_roundtrip",
            good,
            owned("token reconstruction mismatch"),
            "re-import the edition",
        ),
    );
    assert(check_view(r@[7]) == quran_check(*x, 7));
    let good = concat3("all ayahs in declared ", x.declared_form.as_str(), " form");
    let mut bad = with_decimal(x.bad_unicode, " ayahs not in ");
    append_str(&mut bad, x.declared_form.as_str());
    append_str(&mut bad, " form");
    r.push(
        pass_or_fail(
            x.bad_unicode == 0,
            "quran.unicode_form",
            good,
            bad,
            "re-import from NFC-normalized sources",
        ),
    );
    assert(check_view(r@[8]) == quran_check(*x, 8));
    let mut good = owned("juz coverage contiguous (");
    push_decimal(&mut good, x.juz_divisions);
    append_str(&mut good, " divisions)");
    r.push(
        pass_or_fail(
            division_coverage(x.ayahs.as_slice()),
            "quran.division_coverage",
            good,
            owned("juz coverage has gaps"),
            "re-import with complete division metadata",
        ),
    );
    assert(check_view(r@[9]) == quran_check(*x, 9));
    r
}

fn checks_tail(x: &QuranCheckInputs) -> (r: Vec<QuranDoctorCheck>)
    ensures
        r@.len() == 9,
        forall|k: int| 0 <= k < 9 ==> check_view(#[trigger] r@[k]) == quran_check(*x, k + 10),
{
    let mut r: Vec<QuranDoctorCheck> = Vec::new();
    r.push(
        pass_or_fail(
            basmala_declared(x.basmala_policy.as_str(), x.surahs.as_slice()),
            "quran.basmala_policy",
            owned("basmala policy declared for every surah"),
            owned("missing basmala policy"),
            "re-import with declared policies",
        ),
    );
    assert(check_view(r@[0]) == quran_check(*x, 10));
    r.push(
        pass_or_fail(
            provenance_complete(x.ayahs.as_slice()),
            "quran.provenance_complete",
            owned("every ayah carries canonical provenance"),
            owned("ayahs without provenance"),
            "re-import; the importer assigns provenance to every row",
        ),
    );
    assert(check_view(r@[1]) == quran_check(*x, 11));
    let attributed = translations_attributed(x.translations.as_slice());
    r.push(
        pass_or_fail(
            attributed,
            "quran.metadata_layering",
            owned("layer separation holds; translations attributed"),
            owned("unattributed translation edition present"),
            "re-import translations with named translators",
        ),
    );
    assert(check_view(r@[2]) == quran_check(*x, 12));
    r.push(
        pass_or_fail(
            translations_aligned(x.translations.as_slice(), x.edition_id.as_str()),
            "quran.translations_aligned",
            owned("translations align to existing editions"),
            owned("a translation aligns to an unknown edition"),
            "re-import the translation against the right edition",
        ),
    );
    assert(check_view(r@[3]) == quran_check(*x, 13));
    r.push(
        pass_or_fail(
            attributed,
            "quran.translation_attribution",
            owned("every translation names a translator"),
            owned("unattributed translation edition present"),
            "re-import translations with named translators",
        ),
    );
    assert(check_view(r@[4]) == quran_check(*x, 14));
    r.push(
        pass_or_fail(
            x.orphans == 0,
            "quran.staging_orphans",
            owned("no leftover staging rows"),
            with_decimal(x.orphans, " orphaned staging rows"),
            "cancel or retry the owning import runs",
        ),
    );
    assert(check_view(r@[5]) == quran_check(*x, 15));
    let mut gen = owned("current generation is ");
    push_signed(&mut gen, x.corpus_generation);
    r.push(pass("quran.corpus_generation", gen));
    assert(check_view(r@[6]) == quran_check(*x, 16));
    r.push(
        warn(
            "quran.reference_corpus",
            owned("no reference corpus configured; QV-015 skips (ADR-0114 pending)"),
            "configure a reference corpus and sign-off procedure",
        ),
    );
    assert(check_view(r@[7]) == quran_check(*x, 17));
    let known = !str_eq(x.license_status.as_str(), "Unknown") && crate::text::chars_of(
        x.license_status.as_str(),
    ).len() > 0;
    if known {
        r.push(
            pass(
                "quran.license_status",
                concat2("active edition license: ", x.license_status.as_str()),
            ),
        );
    } else {
        r.push(
            warn(
                "quran.license_status",
                owned("active edition license is unknown"),
                "record the dataset license (ADR-0101)",
            ),
        );
    }
    assert(check_view(r@[8]) == quran_check(*x, 18));
    r
}


/// The corpus integrity checks over the active edition, in order.
pub fn quran_checks(x: &QuranCheckInputs) -> (r: Vec<QuranDoctorCheck>)
    ensures
        check_views(r@) == quran_check_views(*x),
{
    let mut r = checks_head(x);
    let mut t = checks_tail(x);
    let ghost h = r@;
    let ghost tv = t@;
    r.append(&mut t);
    assert(check_views(r@) =~= quran_check_views(*x)) by {
        assert forall|k: int| 0 <= k < 19 implies check_views(r@)[k] == quran_check(*x, k) by {
            if k < 10 {
                assert(r@[k] == h[k]);
            } else {
                assert(r@[k] == tv[k - 10]);
            }
        }
    }
    r
}

/// The single check reported when no edition is active (`dangling`: the
/// active pointer names a missing edition).
pub fn no_active_edition(dangling: bool) -> (r: QuranDoctorCheck)
    ensures
        check_view(r) == (if dangling {
            (
                "quran.edition_active"@,
                CheckLevel::Fail,
                "active pointer dangles"@,
                Some("inspect quran_active_edition"@),
                Some("qai doctor --quran"@),
            )
        } else {
            (
                "quran.edition_active"@,
                CheckLevel::Fail,
                "no active Arabic edition"@,
                Some("import and activate an edition"@),
                Some("qai quran import --help"@),
            )
        }),
{
    if dangling {
        QuranDoctorCheck {
            id: "quran.edition_active",
            status: CheckLevel::Fail,
            summary: owned("active pointer dangles"),
            remedy: Some(owned("inspect quran_active_edition")),
            next_command: Some(owned("qai doctor --quran")),
        }
    } else {
        QuranDoctorCheck {
            id: "quran.edition_active",
            status: CheckLevel::Fail,
            summary: owned("no active Arabic edition"),
            remedy: Some(owned("import and activate an edition")),
            next_command: Some(owned("qai quran import --help")),
        }
    }
}

/// Ayahs of surah `s`.
pub open spec fn in_surah(ayahs: Seq<AyahRow>, s: i64) -> spec_fn(int) -> bool {
    |k: int| ayahs[k].surah == s
}

/// The ayah number of each row.
pub open spec fn ayah_number(ayahs: Seq<AyahRow>, s: i64) -> spec_fn(int) -> i64 {
    |k: int| ayahs[k].ayah
}

proof fn lemma_numbers_of_kept(ayahs: Seq<AyahRow>, s: i64, n: int)
    ensures
        numbers_of(ayahs, s, n) == kept_values(in_surah(ayahs, s), ayah_number(ayahs, s), n),
    decreases n,
{
    if n > 0 {
        lemma_numbers_of_kept(ayahs, s, n - 1);
    }
}

/// The numbers gathered for surah `s` are the ayah numbers of exactly its
/// rows, one per row.
pub proof fn numbers_of_law(ayahs: Seq<AyahRow>, s: i64, n: int)
    requires
        0 <= n,
    ensures
        numbers_of(ayahs, s, n).len() == positions_where(in_surah(ayahs, s), n).len(),
        forall|i: int|
            0 <= i < numbers_of(ayahs, s, n).len() ==> kept_from(
                in_surah(ayahs, s),
                ayah_number(ayahs, s),
                n,
                #[trigger] numbers_of(ayahs, s, n)[i],
            ),
        forall|k: int| 0 <= k < n && #[trigger] in_surah(ayahs, s)(k) ==> numbers_of(ayahs, s, n).contains(ayah_number(ayahs, s)(k)),
{
    lemma_numbers_of_kept(ayahs, s, n);
    kept_values_law(in_surah(ayahs, s), ayah_number(ayahs, s), n);
}

/// Rows that record a juz.
pub open spec fn has_juz(ayahs: Seq<AyahRow>) -> spec_fn(int) -> bool {
    |k: int| ayahs[k].juz is Some
}

/// The juz a row records.
pub open spec fn juz_of(ayahs: Seq<AyahRow>) -> spec_fn(int) -> i64 {
    |k: int| ayahs[k].juz->0
}

proof fn lemma_juz_values_kept(ayahs: Seq<AyahRow>, n: int)
    ensures
        juz_values(ayahs, n) == kept_values(has_juz(ayahs), juz_of(ayahs), n),
    decreases n,
{
    if n > 0 {
        lemma_juz_values_kept(ayahs, n - 1);
    }
}

/// The juz values are those of exactly the rows that record one, one per
/// row.
pub proof fn juz_values_law(ayahs: Seq<AyahRow>, n: int)
    requires
        0 <= n,
    ensures
        juz_values(ayahs, n).len() == positions_where(has_juz(ayahs), n).len(),
        forall|i: int|
            0 <= i < juz_values(ayahs, n).len() ==> kept_from(
                has_juz(ayahs),
                juz_of(ayahs),
                n,
                #[trigger] juz_values(ayahs, n)[i],
            ),
        forall|k: int| 0 <= k < n && #[trigger] has_juz(ayahs)(k) ==> juz_values(ayahs, n).contains(juz_of(ayahs)(k)),
{
    lemma_juz_values_kept(ayahs, n);
    kept_values_law(has_juz(ayahs), juz_of(ayahs), n);
}

} // verus!
