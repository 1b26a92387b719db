//! Edition identifiers, the approval gate in front of every canonical
//! mutation, and the structural checks applied to translation and word-gloss
//! imports before anything is stored.

use vstd::prelude::*;
use crate::diagnostics::DiagnosticCode;
use crate::text::{
    append_str, chars_of, concat2, concat3, decimal, is_blank, owned, push_char, push_decimal,
    push_signed, signed_decimal, split_once, split_once_chars, str_eq, str_is_blank, string_of,
};

verus! {

/// Job kind for canonical imports.
pub const QURAN_IMPORT_KIND: &'static str = "quran.import";

/// Adapter version pinned into idempotency keys.
pub const ADAPTER_VERSION: &'static str = "1.0.0";

/// Parser version pinned into idempotency keys.
pub const PARSER_VERSION: &'static str = "1.0.0";

/// `source:adapter:parser`, the identity of one import.
pub open spec fn idempotency_key_spec(source_version_id: Seq<char>) -> Seq<char> {
    source_version_id + seq![':'] + ADAPTER_VERSION@ + seq![':'] + PARSER_VERSION@
}

/// Idempotency key for an import: same source + adapter + parser gives one job.
pub fn import_idempotency_key(source_version_id: &str) -> (r: String)
    ensures
        r@ == idempotency_key_spec(source_version_id@),
{
    let mut r = owned(source_version_id);
    push_char(&mut r, ':');
    append_str(&mut r, ADAPTER_VERSION);
    push_char(&mut r, ':');
    append_str(&mut r, PARSER_VERSION);
    r
}

/// `quran-edition:<slug>@<version>`.
pub open spec fn edition_urn_spec(slug: Seq<char>, version: Seq<char>) -> Seq<char> {
    "quran-edition:"@ + slug + seq!['@'] + version
}

/// URN naming one edition version (the subject every approval must cover).
pub fn edition_urn(slug: &str, version: &str) -> (r: String)
    ensures
        r@ == edition_urn_spec(slug@, version@),
{
    let mut r = owned("quran-edition:");
    append_str(&mut r, slug);
    push_char(&mut r, '@');
    append_str(&mut r, version);
    r
}

/// Errors from the approval-gated Quran services.
#[derive(Debug, Clone)]
pub enum ActivationError {
    /// No approval row with that id.
    ApprovalMissing { id: String },
    /// The approval was not granted.
    ApprovalNotGranted { id: String },
    /// The approval covers a different subject.
    ApprovalSubjectMismatch { id: String, actual: String, expected: String },
    /// No staged edition for that slug and version.
    NotStaged { slug: String, version: String },
    /// That version is already active.
    AlreadyActive { slug: String, version: String },
    /// The verifier name or method is empty.
    EmptyVerifier,
    /// Storage failure (also carries rejected manifests).
    Storage(String),
    /// Audit failure.
    Audit(String),
}

/// Number of each activation error within `QAI-QUR`.
pub open spec fn activation_code_number(e: ActivationError) -> u32 {
    match e {
        ActivationError::ApprovalMissing { .. } => 300,
        ActivationError::ApprovalNotGranted { .. } => 301,
        ActivationError::ApprovalSubjectMismatch { .. } => 302,
        ActivationError::NotStaged { .. } => 303,
        ActivationError::AlreadyActive { .. } => 313,
        ActivationError::EmptyVerifier => 306,
        ActivationError::Storage(_) => 304,
        ActivationError::Audit(_) => 305,
    }
}

/// Human summary of each activation error.
pub open spec fn activation_message(e: ActivationError) -> Seq<char> {
    match e {
        ActivationError::ApprovalMissing { id } => "approval not found: "@ + id@,
        ActivationError::ApprovalNotGranted { id } => "approval "@ + id@ + " is not granted"@,
        ActivationError::ApprovalSubjectMismatch { id, actual, expected } => "approval "@ + id@
            + " covers "@ + actual@ + ", not "@ + expected@,
        ActivationError::NotStaged { slug, version } => "no staged edition "@ + slug@ + seq!['@']
            + version@,
        ActivationError::AlreadyActive { slug, version } => slug@ + seq!['@'] + version@
            + " is already active"@,
        ActivationError::EmptyVerifier => "verified_by must name who verified the edition"@,
        ActivationError::Storage(detail) => "storage failed: "@ + detail@,
        ActivationError::Audit(detail) => "audit failed: "@ + detail@,
    }
}

/// Remedy text of each activation error.
pub open spec fn activation_remedy(e: ActivationError) -> Seq<char> {
    match e {
        ActivationError::ApprovalMissing { .. } => "Record a human approval first."@,
        ActivationError::ApprovalNotGranted { .. } => "Only a granted approval can activate."@,
        ActivationError::ApprovalSubjectMismatch {
            ..
        } => "Approve the exact edition URN being activated."@,
        ActivationError::NotStaged { .. } => "Import the edition to Staged first."@,
        ActivationError::AlreadyActive { .. } => "That edition version is already active."@,
        ActivationError::EmptyVerifier => "Pass the name of whoever verified the edition (OD-02)."@,
        ActivationError::Storage(_) => "Check the database and retry."@,
        ActivationError::Audit(_) => "Check the audit chain and retry."@,
    }
}

impl ActivationError {
    /// Diagnostic code (`QAI-QUR-03xx`).
    pub fn code(&self) -> (c: DiagnosticCode)
        ensures
            c.namespace@ == "QAI-QUR"@,
            c.number == activation_code_number(*self),
    {
        let number: u32 = match self {
            ActivationError::ApprovalMissing { .. } => 300,
            ActivationError::ApprovalNotGranted { .. } => 301,
            ActivationError::ApprovalSubjectMismatch { .. } => 302,
            ActivationError::NotStaged { .. } => 303,
            ActivationError::AlreadyActive { .. } => 313,
            ActivationError::EmptyVerifier => 306,
            ActivationError::Storage(_) => 304,
            ActivationError::Audit(_) => 305,
        };
        DiagnosticCode::new("QAI-QUR", number)
    }

    /// Human summary.
    pub fn summary(&self) -> (r: String)
        ensures
            r@ == activation_message(*self),
    {
        match self {
            ActivationError::ApprovalMissing { id } => concat2("approval not found: ", id.as_str()),
            ActivationError::ApprovalNotGranted { id } => concat3(
                "approval ",
                id.as_str(),
                " is not granted",
            ),
            ActivationError::ApprovalSubjectMismatch { id, actual, expected } => {
                let mut r = concat3("approval ", id.as_str(), " covers ");
                append_str(&mut r, actual.as_str());
                append_str(&mut r, ", not ");
                append_str(&mut r, expected.as_str());
                r
            },
            ActivationError::NotStaged { slug, version } => {
                let mut r = concat2("no staged edition ", slug.as_str());
                push_char(&mut r, '@');
                append_str(&mut r, version.as_str());
                r
            },
            ActivationError::AlreadyActive { slug, version } => {
                let mut r = owned(slug.as_str());
                push_char(&mut r, '@');
                append_str(&mut r, version.as_str());
                append_str(&mut r, " is already active");
                r
            },
            ActivationError::EmptyVerifier => owned("verified_by must name who verified the edition"),
            ActivationError::Storage(detail) => concat2("storage failed: ", detail.as_str()),
            ActivationError::Audit(detail) => concat2("audit failed: ", detail.as_str()),
        }
    }

    /// Remedy (always present).
    pub fn remedy(&self) -> (r: Option<String>)
        ensures
            r matches Some(t) && t@ == activation_remedy(*self),
    {
        let text = match self {
            ActivationError::ApprovalMissing { .. } => "Record a human approval first.",
            ActivationError::ApprovalNotGranted { .. } => "Only a granted approval can activate.",
            ActivationError::ApprovalSubjectMismatch {
                ..
            } => "Approve the exact edition URN being activated.",
            ActivationError::NotStaged { .. } => "Import the edition to Staged first.",
            ActivationError::AlreadyActive { .. } => "That edition version is already active.",
            ActivationError::EmptyVerifier => "Pass the name of whoever verified the edition (OD-02).",
            ActivationError::Storage(_) => "Check the database and retry.",
            ActivationError::Audit(_) => "Check the audit chain and retry.",
        };
        Some(owned(text))
    }

    /// Next command to run.
    pub fn next_command(&self) -> (r: Option<String>)
        ensures
            r matches Some(t) && t@ == "qai quran activate --help"@,
    {
        Some(owned("qai quran activate --help"))
    }
}

/// An approval as activation sees it: its decision and the subject it covers.
#[derive(Debug, Clone)]
pub struct ApprovalView {
    /// Recorded decision (`approved` grants).
    pub decision: Option<String>,
    /// URN the approval covers.
    pub subject_urn: String,
}

/// The decision grants (`decision == Some("approved")`).
pub open spec fn is_granted(decision: Option<String>) -> bool {
    decision matches Some(d) && d@ == "approved"@
}

/// What the approval gate answers for `approval` (looked up by `id`) when
/// `expected` is the subject being changed.
pub open spec fn approval_gate(
    approval: Option<ApprovalView>,
    id: Seq<char>,
    expected: Seq<char>,
    r: Result<(), ActivationError>,
) -> bool {
    match approval {
        None => r matches Err(ActivationError::ApprovalMissing { id: got }) && got@ == id,
        Some(a) => if !is_granted(a.decision) {
            r matches Err(ActivationError::ApprovalNotGranted { id: got }) && got@ == id
        } else if a.subject_urn@ != expected {
            r matches Err(ActivationError::ApprovalSubjectMismatch { id: got, actual, expected: want })
                && got@ == id && actual@ == a.subject_urn@ && want@ == expected
        } else {
            r is Ok
        },
    }
}

/// The approval gate in front of activation, rollback, deprecation and
/// verification: the approval must exist, be granted, and cover exactly the
/// expected subject.
pub fn check_approval(approval: Option<&ApprovalView>, approval_id: &str, expected_subject: &str) -> (r:
    Result<(), ActivationError>)
    ensures
        approval_gate(
            match approval {
                Some(a) => Some(*a),
                None => None,
            },
            approval_id@,
            expected_subject@,
            r,
        ),
{
    match approval {
        None => Err(ActivationError::ApprovalMissing { id: owned(approval_id) }),
        Some(a) => {
            let granted = match &a.decision {
                Some(d) => str_eq(d.as_str(), "approved"),
                None => false,
            };
            if !granted {
                return Err(ActivationError::ApprovalNotGranted { id: owned(approval_id) });
            }
            if !str_eq(a.subject_urn.as_str(), expected_subject) {
                return Err(
                    ActivationError::ApprovalSubjectMismatch {
                        id: owned(approval_id),
                        actual: a.subject_urn.clone(),
                        expected: owned(expected_subject),
                    },
                );
            }
            Ok(())
        },
    }
}

/// Editorial verification claim recorded on an edition: both fields are
/// operator-supplied and recorded verbatim.
#[derive(Debug, Clone, Copy)]
pub struct EditionVerification<'a> {
    /// Verifier name, recorded in `verified_by`.
    pub verifier: &'a str,
    /// Comparison method, recorded in `verification_method`.
    pub method: &'a str,
}

/// Empty verifier names or methods fail closed before any approval is read.
pub fn check_verification(verification: &EditionVerification) -> (r: Result<(), ActivationError>)
    ensures
        r is Ok <==> !is_blank(verification.verifier@) && !is_blank(verification.method@),
        r is Err ==> r matches Err(ActivationError::EmptyVerifier),
{
    if str_is_blank(verification.verifier) || str_is_blank(verification.method) {
        Err(ActivationError::EmptyVerifier)
    } else {
        Ok(())
    }
}

/// Outcome of a validation report.
#[derive(Debug, Clone, Copy, PartialEq, Eq)]
pub enum ValidationOutcome {
    /// No findings above informational.
    Pass,
    /// Warnings only.
    PassWithWarnings,
    /// At least one fatal or error finding.
    Fail,
}

/// Outcome for the given finding counts.
pub open spec fn outcome_spec(fatal: nat, error: nat, warning: nat) -> ValidationOutcome {
    if fatal > 0 || error > 0 {
        ValidationOutcome::Fail
    } else if warning > 0 {
        ValidationOutcome::PassWithWarnings
    } else {
        ValidationOutcome::Pass
    }
}

/// Re-validation outcome of staged rows: any fatal or error fails, warnings
/// alone pass with warnings.
pub fn validation_outcome(fatal: u32, error: u32, warning: u32) -> (r: ValidationOutcome)
    ensures
        r == outcome_spec(fatal as nat, error as nat, warning as nat),
{
    if fatal > 0 || error > 0 {
        ValidationOutcome::Fail
    } else if warning > 0 {
        ValidationOutcome::PassWithWarnings
    } else {
        ValidationOutcome::Pass
    }
}

/// A fatal finding of the staged-edition re-validation: its code, where
/// it applies and what it says.
#[derive(Debug, Clone)]
pub struct StagedFinding {
    /// Finding code (`QV-004`, `QV-011`, `QV-014`).
    pub code: &'static str,
    /// Where it applies (`edition`, or `surah <s> ayah <a>`).
    pub location: String,
    /// What is wrong.
    pub message: String,
}

/// Plain view of a finding.
pub open spec fn finding_view(f: StagedFinding) -> (Seq<char>, Seq<char>, Seq<char>) {
    (f.code@, f.location@, f.message@)
}

/// Findings for ayahs whose staged tokens do not reconstruct the text.
pub open spec fn reconstruct_findings(bad: Seq<(i64, i64)>) -> Seq<(Seq<char>, Seq<char>, Seq<char>)> {
    bad.map_values(
        |l: (i64, i64)|
            (
                "QV-011"@,
                "surah "@ + signed_decimal(l.0 as int) + " ayah "@ + signed_decimal(l.1 as int),
                "staged tokens do not reconstruct the ayah text"@,
            ),
    )
}

/// What re-validating a staged edition finds, in order: a count that
/// disagrees with the stored statistics, each ayah whose staged tokens do
/// not reconstruct its text, and a recomputed text hash that differs. All
/// are fatal.
pub open spec fn staged_findings_spec(
    staged_ayahs: usize,
    stated_ayahs: u32,
    unreconstructed: Seq<(i64, i64)>,
    hash_matches: bool,
) -> Seq<(Seq<char>, Seq<char>, Seq<char>)> {
    let count = if (staged_ayahs as u32) != stated_ayahs {
        seq![
            (
                "QV-004"@,
                "edition"@,
                "staged "@ + decimal(staged_ayahs as nat) + " ayahs, statistics say "@ + decimal(
                    stated_ayahs as nat,
                ),
            ),
        ]
    } else {
        Seq::empty()
    };
    let hash = if hash_matches {
        Seq::empty()
    } else {
        seq![("QV-014"@, "edition"@, "text_hash recomputed from staged rows differs"@)]
    };
    count + reconstruct_findings(unreconstructed) + hash
}

/// Findings of a staged-edition re-validation (see `staged_findings_spec`).
pub fn staged_findings(
    staged_ayahs: usize,
    stated_ayahs: u32,
    unreconstructed: &[(i64, i64)],
    hash_matches: bool,
) -> (r: Vec<StagedFinding>)
    ensures
        r@.map_values(|f: StagedFinding| finding_view(f)) == staged_findings_spec(
            staged_ayahs,
            stated_ayahs,
            unreconstructed@,
            hash_matches,
        ),
{
    let mut r: Vec<StagedFinding> = Vec::new();
    if staged_ayahs as u32 != stated_ayahs {
        let mut m = owned("staged ");
        push_decimal(&mut m, staged_ayahs as u64);
        append_str(&mut m, " ayahs, statistics say ");
        push_decimal(&mut m, stated_ayahs as u64);
        r.push(StagedFinding { code: "QV-004", location: owned("edition"), message: m });
    }
    let ghost head = r@.map_values(|f: StagedFinding| finding_view(f));
    let mut i: usize = 0;
    while i < unreconstructed.len()
        invariant
            i <= unreconstructed@.len(),
            r@.map_values(|f: StagedFinding| finding_view(f)) == head + reconstruct_findings(
                unreconstructed@.take(i as int),
            ),
        decreases unreconstructed.len() - i,
    {
        let (surah, ayah) = unreconstructed[i];
        let mut loc = owned("surah ");
        push_signed(&mut loc, surah);
        append_str(&mut loc, " ayah ");
        push_signed(&mut loc, ayah);
        let f = StagedFinding {
            code: "QV-011",
            location: loc,
            message: owned("staged tokens do not reconstruct the ayah text"),
        };
        let ghost before = r@;
        r.push(f);
        proof {
            assert(unreconstructed@.take(i + 1) =~= unreconstructed@.take(i as int).push(
                unreconstructed@[i as int],
            ));
            assert(r@.map_values(|f: StagedFinding| finding_view(f)) =~= before.map_values(
                |f: StagedFinding| finding_view(f),
            ).push(finding_view(f)));
            assert(reconstruct_findings(unreconstructed@.take(i + 1)) =~= reconstruct_findings(
                unreconstructed@.take(i as int),
            ).push(finding_view(f)));
        }
        i = i + 1;
    }
    assert(unreconstructed@.take(unreconstructed@.len() as int) =~= unreconstructed@);
    if !hash_matches {
        let ghost before = r@;
        let f = StagedFinding {
            code: "QV-014",
            location: owned("edition"),
            message: owned("text_hash recomputed from staged rows differs"),
        };
        r.push(f);
        assert(r@.map_values(|f: StagedFinding| finding_view(f)) =~= before.map_values(
            |f: StagedFinding| finding_view(f),
        ).push(finding_view(f)));
    }
    proof {
        let v = r@.map_values(|f: StagedFinding| finding_view(f));
        assert(v =~= staged_findings_spec(staged_ayahs, stated_ayahs, unreconstructed@, hash_matches));
    }
    r
}

/// Subject of a staged-edition validation report:
/// `quran-staged:<slug>@<version>`.
pub fn staged_subject_urn(slug: &str, version: &str) -> (r: String)
    ensures
        r@ == "quran-staged:"@ + slug@ + "@"@ + version@,
{
    let mut r = concat2("quran-staged:", slug);
    append_str(&mut r, "@");
    append_str(&mut r, version);
    r
}

/// Translation edition metadata in an import manifest.
#[derive(Debug, Clone)]
pub struct TranslationMeta {
    /// Slug (unique with version).
    pub slug: String,
    /// Version.
    pub version: String,
    /// Display name.
    pub name: String,
    /// Named human translator (required).
    pub translator: String,
    /// BCP-47 language.
    pub language: String,
    /// Aligned Arabic edition `slug@version`.
    pub aligned_edition: String,
    /// Numbering scheme.
    pub numbering_scheme: String,
    /// SPDX license id, when known.
    pub spdx_id: Option<String>,
}

/// One translated passage.
#[derive(Debug, Clone)]
pub struct TranslationPassage {
    /// Surah number.
    pub surah: u16,
    /// Ayah number.
    pub ayah: u32,
    /// Translated text.
    pub text: String,
}

/// Translation import manifest (v1 shape).
#[derive(Debug, Clone)]
pub struct TranslationManifest {
    /// Translation edition metadata.
    pub translation: TranslationMeta,
    /// Verse passages.
    pub passages: Vec<TranslationPassage>,
}

/// Surah numbers run from 1 to 114.
pub open spec fn valid_surah(n: nat) -> bool {
    1 <= n <= 114
}

/// Ayah numbers are 1-based.
pub open spec fn valid_ayah(n: nat) -> bool {
    n >= 1
}

/// `<surah>:<ayah>`.
pub open spec fn location_text(surah: nat, ayah: nat) -> Seq<char> {
    decimal(surah) + seq![':'] + decimal(ayah)
}

/// `<slug>@<version>`.
pub open spec fn at_text(slug: Seq<char>, version: Seq<char>) -> Seq<char> {
    slug + seq!['@'] + version
}

/// Detail of an `aligned_edition` that is not `slug@version`.
pub open spec fn bad_alignment_detail() -> Seq<char> {
    "aligned_edition must be `slug@version`"@
}

/// Translator and alignment checks on the manifest header; on success the
/// aligned edition's slug and version.
pub open spec fn translation_meta_result(
    meta: TranslationMeta,
    r: Result<(String, String), ActivationError>,
) -> bool {
    if is_blank(meta.translator@) {
        r matches Err(ActivationError::Storage(m)) && m@
            == "translation requires a non-empty translator (principle 5)"@
    } else {
        match split_once(meta.aligned_edition@, '@') {
            None => r matches Err(ActivationError::Storage(m)) && m@ == bad_alignment_detail(),
            Some((slug, version)) => r matches Ok((a, b)) && a@ == slug && b@ == version,
        }
    }
}

/// Splits `slug@version` at its first `@`.
pub fn split_at_sign(raw: &str) -> (r: Option<(String, String)>)
    ensures
        r.is_some() == split_once(raw@, '@').is_some(),
        r matches Some((a, b)) ==> split_once(raw@, '@') == Some((a@, b@)),
{
    let v = chars_of(raw);
    match split_once_chars(v.as_slice(), '@') {
        Some((a, b)) => Some((string_of(a.as_slice()), string_of(b.as_slice()))),
        None => None,
    }
}

/// Header checks of a translation manifest (translator named, alignment
/// target written as `slug@version`).
pub fn check_translation_meta(meta: &TranslationMeta) -> (r: Result<(String, String), ActivationError>)
    ensures
        translation_meta_result(*meta, r),
{
    if str_is_blank(meta.translator.as_str()) {
        return Err(
            ActivationError::Storage(
                owned("translation requires a non-empty translator (principle 5)"),
            ),
        );
    }
    match split_at_sign(meta.aligned_edition.as_str()) {
        Some(parts) => Ok(parts),
        None => Err(ActivationError::Storage(owned("aligned_edition must be `slug@version`"))),
    }
}

/// What is wrong with passage `k` given the passages before it, if anything.
pub open spec fn passage_fault(
    passages: Seq<TranslationPassage>,
    exists: Seq<bool>,
    k: int,
    aligned: Seq<char>,
) -> Option<Seq<char>> {
    let p = passages[k];
    if !valid_surah(p.surah as nat) {
        Some("bad surah "@ + decimal(p.surah as nat))
    } else if !valid_ayah(p.ayah as nat) {
        Some("bad ayah "@ + decimal(p.ayah as nat))
    } else if is_blank(p.text@) {
        Some("empty translation for "@ + location_text(p.surah as nat, p.ayah as nat))
    } else if exists|j: int|
        0 <= j < k && #[trigger] passages[j].surah == p.surah && passages[j].ayah == p.ayah {
        Some("duplicate translation passage for "@ + location_text(p.surah as nat, p.ayah as nat))
    } else if !exists[k] {
        Some("aligned edition "@ + aligned + " has no ayah "@ + location_text(
            p.surah as nat,
            p.ayah as nat,
        ))
    } else {
        None
    }
}

/// The first faulty passage decides the error; no fault means success.
pub open spec fn passages_result(
    passages: Seq<TranslationPassage>,
    exists: Seq<bool>,
    aligned: Seq<char>,
    r: Result<(), ActivationError>,
) -> bool {
    &&& r is Ok <==> forall|k: int|
        0 <= k < passages.len() ==> passage_fault(passages, exists, k, aligned) is None
    &&& r matches Err(e) ==> exists|k: int|
        0 <= k < passages.len() && (forall|j: int|
            0 <= j < k ==> passage_fault(passages, exists, j, aligned) is None) && (
        e matches ActivationError::Storage(m) && #[trigger] passage_fault(passages, exists, k, aligned)
            == Some(m@))
}

/// Appends `<surah>:<ayah>`.
fn push_location(s: &mut String, surah: u64, ayah: u64)
    ensures
        final(s)@ == old(s)@ + location_text(surah as nat, ayah as nat),
{
    let ghost start = s@;
    push_decimal(s, surah);
    push_char(s, ':');
    push_decimal(s, ayah);
    assert(s@ =~= start + location_text(surah as nat, ayah as nat));
}

/// Passage-level checks of a translation import: well-formed numbers,
/// non-empty text, one passage per ayah, and an existing ayah of the
/// aligned edition (`exists[k]` says whether passage `k`'s ayah exists).
pub fn check_translation_passages(
    passages: &[TranslationPassage],
    exists: &[bool],
    aligned_slug: &str,
    aligned_version: &str,
) -> (r: Result<(), ActivationError>)
    requires
        exists.len() == passages.len(),
    ensures
        passages_result(passages@, exists@, at_text(aligned_slug@, aligned_version@), r),
{
    let ghost aligned = at_text(aligned_slug@, aligned_version@);
    let mut k: usize = 0;
    while k < passages.len()
        invariant
            k <= passages.len(),
            exists.len() == passages.len(),
            aligned == at_text(aligned_slug@, aligned_version@),
            forall|j: int| 0 <= j < k ==> passage_fault(passages@, exists@, j, aligned) is None,
        decreases passages.len() - k,
    {
        let p = &passages[k];
        let mut msg: Option<String> = None;
        if !(1 <= p.surah && p.surah <= 114) {
            let mut m = owned("bad surah ");
            push_decimal(&mut m, p.surah as u64);
            msg = Some(m);
        } else if p.ayah == 0 {
            let mut m = owned("bad ayah ");
            push_decimal(&mut m, p.ayah as u64);
            msg = Some(m);
        } else if str_is_blank(p.text.as_str()) {
            let mut m = owned("empty translation for ");
            push_location(&mut m, p.surah as u64, p.ayah as u64);
            msg = Some(m);
        } else {
            let mut dup = false;
            let mut j: usize = 0;
            let ps = p.surah;
            let pa = p.ayah;
            while j < k
                invariant
                    j <= k < passages.len(),
                    ps == passages@[k as int].surah,
                    pa == passages@[k as int].ayah,
                    !dup ==> forall|i: int|
                        0 <= i < j ==> !(#[trigger] passages@[i].surah == passages@[k as int].surah
                            && passages@[i].ayah == passages@[k as int].ayah),
                    dup ==> exists|i: int|
                        0 <= i < k && #[trigger] passages@[i].surah == passages@[k as int].surah
                            && passages@[i].ayah == passages@[k as int].ayah,
                decreases k - j,
            {
                if !dup && passages[j].surah == ps && passages[j].ayah == pa {
                    dup = true;
                }
                j = j + 1;
            }
            if dup {
                let mut m = owned("duplicate translation passage for ");
                push_location(&mut m, p.surah as u64, p.ayah as u64);
                msg = Some(m);
            } else if !exists[k] {
                let mut m = owned("aligned edition ");
                append_str(&mut m, aligned_slug);
                push_char(&mut m, '@');
                append_str(&mut m, aligned_version);
                append_str(&mut m, " has no ayah ");
                push_location(&mut m, p.surah as u64, p.ayah as u64);
                msg = Some(m);
            }
        }
        match msg {
            Some(m) => {
                assert(passage_fault(passages@, exists@, k as int, aligned) == Some(m@));
                return Err(ActivationError::Storage(m));
            },
            None => {},
        }
        assert(passage_fault(passages@, exists@, k as int, aligned) is None);
        k = k + 1;
    }
    Ok(())
}

/// `tr-<slug>-<version>`: storage id of a translation edition.
pub fn translation_edition_id(meta: &TranslationMeta) -> (r: String)
    ensures
        r@ == "tr-"@ + meta.slug@ + seq!['-'] + meta.version@,
{
    let mut r = concat2("tr-", meta.slug.as_str());
    push_char(&mut r, '-');
    append_str(&mut r, meta.version.as_str());
    r
}

/// `prov-<id>`: provenance record of a translation edition.
pub fn translation_provenance_id(edition_id: &str) -> (r: String)
    ensures
        r@ == "prov-"@ + edition_id@,
{
    concat2("prov-", edition_id)
}

/// `quran-translation:<slug>@<version>`.
pub fn translation_urn(meta: &TranslationMeta) -> (r: String)
    ensures
        r@ == "quran-translation:"@ + at_text(meta.slug@, meta.version@),
{
    let mut r = concat2("quran-translation:", meta.slug.as_str());
    push_char(&mut r, '@');
    append_str(&mut r, meta.version.as_str());
    r
}

/// Word-gloss dataset metadata in a manifest.
#[derive(Debug, Clone)]
pub struct GlossDatasetMeta {
    /// Dataset id; must name an existing source row.
    pub id: String,
    /// Aligned Arabic edition `slug@version`.
    pub aligned_edition: String,
}

/// One word gloss aligned to a canonical token position.
#[derive(Debug, Clone)]
pub struct WordGlossEntry {
    /// Surah number.
    pub surah: u16,
    /// Ayah number.
    pub ayah: u32,
    /// 1-based token position within the ayah.
    pub position: u32,
    /// BCP-47 language.
    pub language: String,
    /// Gloss text.
    pub gloss: String,
}

/// Word-gloss import manifest (v1 shape).
#[derive(Debug, Clone)]
pub struct GlossManifest {
    /// Gloss dataset metadata.
    pub dataset: GlossDatasetMeta,
    /// Word glosses.
    pub glosses: Vec<WordGlossEntry>,
}

/// Header checks of a gloss manifest; on success the aligned edition's slug
/// and version.
pub open spec fn gloss_meta_result(meta: GlossDatasetMeta, r: Result<(String, String), ActivationError>) -> bool {
    if is_blank(meta.id@) {
        r matches Err(ActivationError::Storage(m)) && m@ == "gloss dataset requires a non-empty id"@
    } else {
        match split_once(meta.aligned_edition@, '@') {
            None => r matches Err(ActivationError::Storage(m)) && m@ == bad_alignment_detail(),
            Some((slug, version)) => r matches Ok((a, b)) && a@ == slug && b@ == version,
        }
    }
}

/// Header checks of a gloss manifest (non-empty dataset id, alignment target
/// written as `slug@version`).
pub fn check_gloss_meta(meta: &GlossDatasetMeta) -> (r: Result<(String, String), ActivationError>)
    ensures
        gloss_meta_result(*meta, r),
{
    if str_is_blank(meta.id.as_str()) {
        return Err(ActivationError::Storage(owned("gloss dataset requires a non-empty id")));
    }
    match split_at_sign(meta.aligned_edition.as_str()) {
        Some(parts) => Ok(parts),
        None => Err(ActivationError::Storage(owned("aligned_edition must be `slug@version`"))),
    }
}

/// `<surah>:<ayah>#<position>`.
pub open spec fn token_text(e: WordGlossEntry) -> Seq<char> {
    location_text(e.surah as nat, e.ayah as nat) + seq!['#'] + decimal(e.position as nat)
}

/// What is wrong with gloss `k` given the glosses before it. `language_ok[k]`
/// says whether its language tag parses; `token_counts[k]` is the number of
/// tokens of its ayah in the aligned edition.
pub open spec fn gloss_fault(
    glosses: Seq<WordGlossEntry>,
    language_ok: Seq<bool>,
    token_counts: Seq<u64>,
    k: int,
    aligned: Seq<char>,
) -> Option<Seq<char>> {
    let e = glosses[k];
    if !valid_surah(e.surah as nat) {
        Some("bad surah "@ + decimal(e.surah as nat))
    } else if !valid_ayah(e.ayah as nat) {
        Some("bad ayah "@ + decimal(e.ayah as nat))
    } else if !language_ok[k] {
        Some("bad language `"@ + e.language@ + seq!['`'])
    } else if is_blank(e.gloss@) {
        Some("empty gloss for "@ + token_text(e))
    } else if e.position == 0 {
        Some("bad token position "@ + decimal(e.position as nat) + " (positions are 1-based)"@)
    } else if e.position > token_counts[k] {
        Some("aligned edition "@ + aligned + " ayah "@ + location_text(e.surah as nat, e.ayah as nat)
            + " has "@ + decimal(token_counts[k] as nat) + " tokens; no position "@ + decimal(
            e.position as nat,
        ))
    } else if exists|j: int|
        0 <= j < k && #[trigger] glosses[j].surah == e.surah && glosses[j].ayah == e.ayah
            && glosses[j].position == e.position && glosses[j].language@ == e.language@ {
        Some("duplicate gloss for "@ + token_text(e) + " ["@ + e.language@ + seq![']'])
    } else {
        None
    }
}

/// The first faulty gloss decides the error; no fault means success.
pub open spec fn glosses_result(
    glosses: Seq<WordGlossEntry>,
    language_ok: Seq<bool>,
    token_counts: Seq<u64>,
    aligned: Seq<char>,
    r: Result<(), ActivationError>,
) -> bool {
    &&& r is Ok <==> forall|k: int|
        0 <= k < glosses.len() ==> gloss_fault(glosses, language_ok, token_counts, k, aligned) is None
    &&& r matches Err(e) ==> exists|k: int|
        0 <= k < glosses.len() && (forall|j: int|
            0 <= j < k ==> gloss_fault(glosses, language_ok, token_counts, j, aligned) is None) && (
        e matches ActivationError::Storage(m) && #[trigger] gloss_fault(
            glosses,
            language_ok,
            token_counts,
            k,
            aligned,
        ) == Some(m@))
}

/// Appends `<surah>:<ayah>#<position>`.
fn push_token_ref(s: &mut String, e: &WordGlossEntry)
    ensures
        final(s)@ == old(s)@ + token_text(*e),
{
    let ghost start = s@;
    push_location(s, e.surah as u64, e.ayah as u64);
    push_char(s, '#');
    push_decimal(s, e.position as u64);
    assert(s@ =~= start + token_text(*e));
}

/// Entry-level checks of a gloss import: well-formed numbers and language,
/// non-empty gloss, a real 1-based token position, and one gloss per token
/// and language.
pub fn check_gloss_entries(
    glosses: &[WordGlossEntry],
    language_ok: &[bool],
    token_counts: &[u64],
    aligned_slug: &str,
    aligned_version: &str,
) -> (r: Result<(), ActivationError>)
    requires
        language_ok.len() == glosses.len(),
        token_counts.len() == glosses.len(),
    ensures
        glosses_result(
            glosses@,
            language_ok@,
            token_counts@,
            at_text(aligned_slug@, aligned_version@),
            r,
        ),
{
    let ghost aligned = at_text(aligned_slug@, aligned_version@);
    let mut k: usize = 0;
    while k < glosses.len()
        invariant
            k <= glosses.len(),
            language_ok.len() == glosses.len(),
            token_counts.len() == glosses.len(),
            aligned == at_text(aligned_slug@, aligned_version@),
            forall|j: int|
                0 <= j < k ==> gloss_fault(glosses@, language_ok@, token_counts@, j, aligned) is None,
        decreases glosses.len() - k,
    {
        let e = &glosses[k];
        let mut msg: Option<String> = None;
        if !(1 <= e.surah && e.surah <= 114) {
            let mut m = owned("bad surah ");
            push_decimal(&mut m, e.surah as u64);
            msg = Some(m);
        } else if e.ayah == 0 {
            let mut m = owned("bad ayah ");
            push_decimal(&mut m, e.ayah as u64);
            msg = Some(m);
        } else if !language_ok[k] {
            let mut m = concat2("bad language `", e.language.as_str());
            push_char(&mut m, '`');
            msg = Some(m);
        } else if str_is_blank(e.gloss.as_str()) {
            let mut m = owned("empty gloss for ");
            push_token_ref(&mut m, e);
            msg = Some(m);
        } else if e.position == 0 {
            let mut m = owned("bad token position ");
            push_decimal(&mut m, e.position as u64);
            append_str(&mut m, " (positions are 1-based)");
            msg = Some(m);
        } else if e.position as u64 > token_counts[k] {
            let mut m = owned("aligned edition ");
            append_str(&mut m, aligned_slug);
            push_char(&mut m, '@');
            append_str(&mut m, aligned_version);
            append_str(&mut m, " ayah ");
            push_location(&mut m, e.surah as u64, e.ayah as u64);
            append_str(&mut m, " has ");
            push_decimal(&mut m, token_counts[k]);
            append_str(&mut m, " tokens; no position ");
            push_decimal(&mut m, e.position as u64);
            msg = Some(m);
        } else {
            let mut dup = false;
            let mut j: usize = 0;
            let es = e.surah;
            let ea = e.ayah;
            let ep = e.position;
            while j < k
                invariant
                    j <= k < glosses.len(),
                    es == glosses@[k as int].surah,
                    ea == glosses@[k as int].ayah,
                    ep == glosses@[k as int].position,
                    e.language@ == glosses@[k as int].language@,
                    !dup ==> forall|i: int|
                        0 <= i < j ==> !(#[trigger] glosses@[i].surah == glosses@[k as int].surah
                            && glosses@[i].ayah == glosses@[k as int].ayah && glosses@[i].position
                            == glosses@[k as int].position && glosses@[i].language@
                            == glosses@[k as int].language@),
                    dup ==> exists|i: int|
                        0 <= i < k && #[trigger] glosses@[i].surah == glosses@[k as int].surah
                            && glosses@[i].ayah == glosses@[k as int].ayah && glosses@[i].position
                            == glosses@[k as int].position && glosses@[i].language@
                            == glosses@[k as int].language@,
                decreases k - j,
            {
                if !dup && glosses[j].surah == es && glosses[j].ayah == ea && glosses[j].position
                    == ep && str_eq(glosses[j].language.as_str(), e.language.as_str()) {
                    dup = true;
                }
                j = j + 1;
            }
            if dup {
                let mut m = owned("duplicate gloss for ");
                push_token_ref(&mut m, e);
                append_str(&mut m, " [");
                append_str(&mut m, e.language.as_str());
                push_char(&mut m, ']');
                msg = Some(m);
            }
        }
        match msg {
            Some(m) => {
                assert(gloss_fault(glosses@, language_ok@, token_counts@, k as int, aligned) == Some(
                    m@,
                ));
                return Err(ActivationError::Storage(m));
            },
            None => {},
        }
        assert(gloss_fault(glosses@, language_ok@, token_counts@, k as int, aligned) is None);
        k = k + 1;
    }
    Ok(())
}

/// `prov-gloss-<dataset>-<slug>-<version>`: provenance record of a gloss dataset.
pub fn gloss_provenance_id(dataset_id: &str, aligned_slug: &str, aligned_version: &str) -> (r: String)
    ensures
        r@ == "prov-gloss-"@ + dataset_id@ + seq!['-'] + aligned_slug@ + seq!['-'] + aligned_version@,
{
    let mut r = concat2("prov-gloss-", dataset_id);
    push_char(&mut r, '-');
    append_str(&mut r, aligned_slug);
    push_char(&mut r, '-');
    append_str(&mut r, aligned_version);
    r
}

/// `quran-gloss:<dataset>`.
pub fn gloss_urn(dataset_id: &str) -> (r: String)
    ensures
        r@ == "quran-gloss:"@ + dataset_id@,
{
    concat2("quran-gloss:", dataset_id)
}

} // verus!
