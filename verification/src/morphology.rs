//! Morphology datasets: import checkpoints and their order, job failures
//! and codes, the activation gate (approval, findings, alignment), the
//! content-addressed lexicon ids, and alignment rows of an import.

use vstd::prelude::*;
use crate::counts::{kept_from, kept_values, kept_values_law, lemma_positions_step, positions_where};
use crate::diagnostics::DiagnosticCode;
use crate::text::{
    append_str, concat2, concat3, decimal, is_blank, owned, push_char, push_decimal, push_signed,
    signed_decimal, str_eq, str_is_blank,
};

verus! {

/// The import checkpoints, in the order an import passes them.
pub const IMPORT_CHECKPOINTS: [&'static str; 12] = [
    "read_manifest",
    "parse",
    "normalize_refs",
    "load_inventory",
    "direct_key",
    "alignment_table",
    "unmatched_report",
    "mv_validate",
    "coverage_report",
    "build_lexicon_rows",
    "write_staging",
    "finalize",
];

/// Job kind for morphology imports.
pub const MORPHOLOGY_IMPORT_KIND: &'static str = "quran.morphology.import";

/// Failure kinds the morphology crate reports.
#[derive(Debug, Clone, Copy, PartialEq, Eq)]
pub enum MorphologyErrorKind {
    UnknownDataset,
    ValidationFailed,
    AlignmentFailed,
    UnavailableDataset,
    ReviewViolation,
}

/// Morphology job failures.
#[derive(Debug, Clone)]
pub enum MorphologyJobError {
    /// Storage failure.
    Storage(String),
    /// Crate-level failure (parse, validation, alignment, review).
    Morphology { kind: MorphologyErrorKind, detail: String },
    /// Canonical drift.
    CanonicalChanged,
    /// Approval missing, denied or mismatched.
    Approval(String),
    /// Batch not in the required state.
    BadState { id: String, actual: String, expected: String },
    /// Blocking findings: fatal count, error count.
    BlockingFindings(usize, usize),
    /// Unmatched tokens remain: token count, surah count.
    UnmatchedRemaining(usize, usize),
    /// Cancellation requested.
    Cancelled,
}

/// Namespace and number of a job failure's code.
pub open spec fn job_code(e: MorphologyJobError) -> (Seq<char>, nat) {
    match e {
        MorphologyJobError::Morphology { kind, .. } => (
            "QAI-MORPH"@,
            match kind {
                MorphologyErrorKind::UnknownDataset => 1,
                MorphologyErrorKind::ValidationFailed => 2,
                MorphologyErrorKind::AlignmentFailed => 3,
                MorphologyErrorKind::UnavailableDataset => 4,
                MorphologyErrorKind::ReviewViolation => 5,
            },
        ),
        MorphologyJobError::CanonicalChanged => ("QAI-IDX"@, 5),
        MorphologyJobError::Approval(_) => ("QAI-MORPH"@, 5),
        _ => ("QAI-MORPH"@, 2),
    }
}

impl MorphologyJobError {
    /// Diagnostic code.
    pub fn code(&self) -> (c: DiagnosticCode)
        ensures
            (c.namespace@, c.number as nat) == job_code(*self),
    {
        match self {
            MorphologyJobError::Morphology { kind, .. } => {
                let n: u32 = match kind {
                    MorphologyErrorKind::UnknownDataset => 1,
                    MorphologyErrorKind::ValidationFailed => 2,
                    MorphologyErrorKind::AlignmentFailed => 3,
                    MorphologyErrorKind::UnavailableDataset => 4,
                    MorphologyErrorKind::ReviewViolation => 5,
                };
                DiagnosticCode::new("QAI-MORPH", n)
            },
            MorphologyJobError::CanonicalChanged => DiagnosticCode::new("QAI-IDX", 5),
            MorphologyJobError::Approval(_) => DiagnosticCode::new("QAI-MORPH", 5),
            _ => DiagnosticCode::new("QAI-MORPH", 2),
        }
    }

    /// Remedy shown with the failure.
    pub fn remedy(&self) -> (r: String)
        ensures
            r@ == (match *self {
                MorphologyJobError::Storage(_) => "Check the database and retry."@,
                MorphologyJobError::Morphology { .. } => "Fix the dataset document and re-import."@,
                MorphologyJobError::CanonicalChanged =>
                    "Canonical drift blocks imports; run `qai doctor`."@,
                MorphologyJobError::Approval(_) => "Request approval for the dataset URN first."@,
                MorphologyJobError::BadState { .. } =>
                    "Import to Staged (zero fatals) before activating."@,
                MorphologyJobError::BlockingFindings(..) =>
                    "Resolve fatal/error findings, then re-import."@,
                MorphologyJobError::UnmatchedRemaining(..) =>
                    "Fix alignment gaps (per-surah report), then re-import."@,
                MorphologyJobError::Cancelled =>
                    "Re-run the import; staging resumes from checkpoints."@,
            }),
    {
        match self {
            MorphologyJobError::Storage(_) => owned("Check the database and retry."),
            MorphologyJobError::Morphology { .. } => owned("Fix the dataset document and re-import."),
            MorphologyJobError::CanonicalChanged => owned(
                "Canonical drift blocks imports; run `qai doctor`.",
            ),
            MorphologyJobError::Approval(_) => owned("Request approval for the dataset URN first."),
            MorphologyJobError::BadState { .. } => owned(
                "Import to Staged (zero fatals) before activating.",
            ),
            MorphologyJobError::BlockingFindings(..) => owned(
                "Resolve fatal/error findings, then re-import.",
            ),
            MorphologyJobError::UnmatchedRemaining(..) => owned(
                "Fix alignment gaps (per-surah report), then re-import.",
            ),
            MorphologyJobError::Cancelled => owned(
                "Re-run the import; staging resumes from checkpoints.",
            ),
        }
    }

    /// Follow-up command: always the corpus doctor.
    pub fn next_command(&self) -> (r: String)
        ensures
            r@ == "qai doctor --quran"@,
    {
        owned("qai doctor --quran")
    }
}

/// The answer to a cancellation probe: `Cancelled` exactly when
/// cancellation was requested.
pub fn cancel_outcome(requested: bool) -> (r: Result<(), MorphologyJobError>)
    ensures
        r is Ok <==> !requested,
        requested ==> r matches Err(MorphologyJobError::Cancelled),
{
    if requested {
        Err(MorphologyJobError::Cancelled)
    } else {
        Ok(())
    }
}

/// Stop with `Cancelled` when cancellation was requested. The flag is set
/// by another thread, so what it reads is not known here; the answer to
/// each reading is `cancel_outcome`'s.
pub fn cancel_check(cancel: &std::sync::atomic::AtomicBool) -> (r: Result<(), MorphologyJobError>)
    ensures
        r is Ok || r matches Err(MorphologyJobError::Cancelled),
{
    let requested = cancel.load(std::sync::atomic::Ordering::SeqCst);
    cancel_outcome(requested)
}

/// Dataset URN for approval subjects: `morphology-dataset:<slug>@<version>`.
pub fn dataset_urn(slug: &str, version: &str) -> (r: String)
    ensures
        r@ == "morphology-dataset:"@ + slug@ + "@"@ + version@,
{
    let mut r = concat2("morphology-dataset:", slug);
    append_str(&mut r, "@");
    append_str(&mut r, version);
    r
}

/// Dataset identity `<slug>@<version>`.
pub fn dataset_id(slug: &str, version: &str) -> (r: String)
    ensures
        r@ == slug@ + "@"@ + version@,
{
    concat3(slug, "@", version)
}

/// `None` for a value that trims to nothing, else the value.
pub fn none_if_empty(value: &str) -> (r: Option<String>)
    ensures
        r is None <==> is_blank(value@),
        r matches Some(v) ==> v@ == value@,
{
    if str_is_blank(value) {
        None
    } else {
        Some(owned(value))
    }
}

/// Position of checkpoint `name` in the import order.
pub open spec fn checkpoint_index(name: Seq<char>) -> Option<int> {
    if exists|i: int| 0 <= i < 12 && IMPORT_CHECKPOINTS@[i]@ == name {
        Some(choose|i: int| 0 <= i < 12 && IMPORT_CHECKPOINTS@[i]@ == name)
    } else {
        None
    }
}

/// The checkpoint an import records after `current` (the first one when
/// nothing is recorded yet); `None` past the last.
pub fn next_checkpoint(current: Option<usize>) -> (r: Option<usize>)
    ensures
        current is None ==> r == Some(0usize),
        current matches Some(i) ==> (i + 1 < 12 ==> r == Some((i + 1) as usize)) && (i + 1 >= 12
            ==> r is None),
        r matches Some(j) ==> j < 12 && (current matches Some(i) ==> j > i),
{
    match current {
        None => Some(0),
        Some(i) => if i < 11 {
            Some(i + 1)
        } else {
            None
        },
    }
}

/// Import targets the active edition only: the edition row resolved by
/// slug and version must be the active one.
pub fn import_target(
    edition_id: Option<&str>,
    active_edition_id: Option<&str>,
    edition_slug: &str,
    edition_version: &str,
) -> (r: Result<String, MorphologyJobError>)
    ensures
        match (edition_id, active_edition_id) {
            (Some(e), Some(a)) if e@ == a@ => r matches Ok(id) && id@ == e@,
            _ => r matches Err(MorphologyJobError::Storage(m)) && m@ == "edition "@ + edition_slug@
                + "@"@ + edition_version@ + " is not active; imports target the active edition"@,
        },
{
    match (edition_id, active_edition_id) {
        (Some(e), Some(a)) => {
            if str_eq(e, a) {
                return Ok(owned(e));
            }
        },
        _ => {},
    }
    let mut m = concat3("edition ", edition_slug, "@");
    append_str(&mut m, edition_version);
    append_str(&mut m, " is not active; imports target the active edition");
    Err(MorphologyJobError::Storage(m))
}

/// Input document adapters.
#[derive(Debug, Clone, Copy, PartialEq, Eq)]
pub enum Adapter {
    Json,
    Csv,
}

/// The adapter named `json` or `csv`; any other name fails validation.
pub fn adapter_for(name: &str) -> (r: Result<Adapter, MorphologyJobError>)
    ensures
        name@ == "json"@ ==> r == Ok::<Adapter, MorphologyJobError>(Adapter::Json),
        name@ == "csv"@ ==> r == Ok::<Adapter, MorphologyJobError>(Adapter::Csv),
        name@ != "json"@ && name@ != "csv"@ ==> (r matches Err(
            MorphologyJobError::Morphology { kind: MorphologyErrorKind::ValidationFailed, detail },
        ) && detail@ == "unknown morphology adapter: "@ + name@),
{
    proof {
        reveal_strlit("json");
        reveal_strlit("csv");
        assert("json"@.len() != "csv"@.len());
    }
    if str_eq(name, "json") {
        Ok(Adapter::Json)
    } else if str_eq(name, "csv") {
        Ok(Adapter::Csv)
    } else {
        Err(
            MorphologyJobError::Morphology {
                kind: MorphologyErrorKind::ValidationFailed,
                detail: concat2("unknown morphology adapter: ", name),
            },
        )
    }
}

/// Terminal batch state of an import: staged with zero fatal findings.
pub fn import_outcome(fatal: usize) -> (r: &'static str)
    ensures
        r@ == (if fatal == 0 {
            "staged"@
        } else {
            "failed"@
        }),
{
    if fatal == 0 {
        "staged"
    } else {
        "failed"
    }
}

/// An approval as the activation gate reads it.
#[derive(Debug, Clone)]
pub struct ApprovalRecord {
    /// Decision, when one was made.
    pub decision: Option<String>,
    /// Subject URN the approval covers.
    pub subject_urn: String,
}

/// Number of entries with value `v`.
pub open spec fn count_of(s: Seq<String>, v: Seq<char>, n: int) -> nat
    decreases n,
{
    if n <= 0 {
        0
    } else {
        count_of(s, v, n - 1) + (if s[n - 1]@ == v {
            1nat
        } else {
            0nat
        })
    }
}

fn count_equal(s: &[String], v: &str) -> (r: usize)
    ensures
        r == count_of(s@, v@, s@.len() as int),
{
    let mut r: usize = 0;
    let mut i: usize = 0;
    while i < s.len()
        invariant
            i <= s.len(),
            r == count_of(s@, v@, i as int),
            r <= i,
        decreases s.len() - i,
    {
        if str_eq(s[i].as_str(), v) {
            r = r + 1;
        }
        i = i + 1;
    }
    r
}

/// Distinct surahs among `surahs`.
pub open spec fn distinct_count(surahs: Seq<i64>) -> nat {
    surahs.to_set().len()
}

fn count_distinct(v: &[i64]) -> (r: usize)
    ensures
        r == distinct_count(v@),
{
    let mut seen: Vec<i64> = Vec::new();
    let mut i: usize = 0;
    while i < v.len()
        invariant
            i <= v.len(),
            seen@.no_duplicates(),
            seen@.len() <= i,
            seen@.to_set() == v@.take(i as int).to_set(),
        decreases v.len() - i,
    {
        let x = v[i];
        let mut present = false;
        let mut j: usize = 0;
        while j < seen.len()
            invariant
                j <= seen.len(),
                present <==> exists|m: int| 0 <= m < j && seen@[m] == x,
            decreases seen.len() - j,
        {
            if seen[j] == x {
                present = true;
            }
            j = j + 1;
        }
        let ghost before = seen@;
        if !present {
            seen.push(x);
            proof {
                assert forall|a: int, b: int| 0 <= a < b < seen@.len() implies seen@[a] != seen@[b] by {
                    if b == before.len() {
                        assert(seen@[a] == before[a]);
                    }
                }
                before.lemma_push_to_set_commute(x);
            }
        } else {
            proof {
                assert(before.contains(x));
                assert(before.to_set() =~= before.to_set().insert(x));
            }
        }
        proof {
            assert(v@.take(i + 1) =~= v@.take(i as int).push(x));
            v@.take(i as int).lemma_push_to_set_commute(x);
        }
        i = i + 1;
    }
    proof {
        assert(v@.take(v.len() as int) =~= v@);
        seen@.unique_seq_to_set();
    }
    seen.len()
}

/// Outcome of the activation gate, in the order its conditions are tested.
pub open spec fn gate_spec(
    batch_state: Option<Seq<char>>,
    approval: Option<(Option<Seq<char>>, Seq<char>)>,
    urn: Seq<char>,
    fatal: nat,
    error: nat,
    unmatched: nat,
) -> int {
    match batch_state {
        None => 1,
        Some(s) => if s != "staged"@ {
            1
        } else {
            match approval {
                None => 2,
                Some((decision, subject)) => if decision != Some("approved"@) {
                    3
                } else if subject != urn {
                    4
                } else if fatal + error > 0 {
                    5
                } else if unmatched > 0 {
                    6
                } else {
                    0
                },
            }
        },
    }
}

/// The activation gate: the batch must be staged; the approval must exist,
/// be granted and cover exactly this dataset's URN; no fatal or error
/// finding may remain; every token must be aligned.
pub fn activation_gate(
    batch_id: &str,
    batch_state: Option<&str>,
    dataset_slug: &str,
    dataset_version: &str,
    approval_id: &str,
    approval: Option<&ApprovalRecord>,
    severities: &[String],
    unmatched_surahs: &[i64],
) -> (r: Result<(), MorphologyJobError>)
    ensures
        ({
            let urn = "morphology-dataset:"@ + dataset_slug@ + "@"@ + dataset_version@;
            let bs = match batch_state {
                Some(s) => Some(s@),
                None => None,
            };
            let ap = match approval {
                Some(a) => Some(
                    (
                        match a.decision {
                            Some(d) => Some(d@),
                            None => None,
                        },
                        a.subject_urn@,
                    ),
                ),
                None => None,
            };
            let subject = match approval {
                Some(a) => a.subject_urn@,
                None => Seq::<char>::empty(),
            };
            let fatal = count_of(severities@, "fatal"@, severities@.len() as int);
            let error = count_of(severities@, "error"@, severities@.len() as int);
            let outcome = gate_spec(bs, ap, urn, fatal, error, unmatched_surahs@.len() as nat);
            &&& r is Ok <==> outcome == 0
            &&& outcome == 1 ==> (r matches Err(MorphologyJobError::BadState { id, actual, expected })
                && id@ == batch_id@ && expected@ == "staged"@ && actual@ == (match batch_state {
                Some(s) => s@,
                None => "missing"@,
            }))
            &&& outcome == 2 ==> (r matches Err(MorphologyJobError::Approval(m)) && m@ == "missing "@
                + approval_id@)
            &&& outcome == 3 ==> (r matches Err(MorphologyJobError::Approval(m)) && m@
                == approval_id@ + " not granted"@)
            &&& outcome == 4 ==> (r matches Err(MorphologyJobError::Approval(m)) && m@
                == "subject mismatch: "@ + subject + " != "@ + urn)
            &&& outcome == 5 ==> r == Err::<(), MorphologyJobError>(
                MorphologyJobError::BlockingFindings(fatal as usize, error as usize),
            )
            &&& outcome == 6 ==> r == Err::<(), MorphologyJobError>(
                MorphologyJobError::UnmatchedRemaining(
                    unmatched_surahs@.len() as usize,
                    distinct_count(unmatched_surahs@) as usize,
                ),
            )
        }),
{
    let state = match batch_state {
        None => {
            return Err(
                MorphologyJobError::BadState {
                    id: owned(batch_id),
                    actual: owned("missing"),
                    expected: owned("staged"),
                },
            );
        },
        Some(s) => s,
    };
    if !str_eq(state, "staged") {
        return Err(
            MorphologyJobError::BadState {
                id: owned(batch_id),
                actual: owned(state),
                expected: owned("staged"),
            },
        );
    }
    let urn = dataset_urn(dataset_slug, dataset_version);
    let a = match approval {
        None => {
            return Err(MorphologyJobError::Approval(concat2("missing ", approval_id)));
        },
        Some(a) => a,
    };
    let granted = match &a.decision {
        Some(d) => str_eq(d.as_str(), "approved"),
        None => false,
    };
    if !granted {
        return Err(MorphologyJobError::Approval(concat2(approval_id, " not granted")));
    }
    if !str_eq(a.subject_urn.as_str(), urn.as_str()) {
        let mut m = concat3("subject mismatch: ", a.subject_urn.as_str(), " != ");
        append_str(&mut m, urn.as_str());
        return Err(MorphologyJobError::Approval(m));
    }
    let fatal = count_equal(severities, "fatal");
    let error = count_equal(severities, "error");
    if fatal > 0 || error > 0 {
        return Err(MorphologyJobError::BlockingFindings(fatal, error));
    }
    if unmatched_surahs.len() > 0 {
        let surahs = count_distinct(unmatched_surahs);
        return Err(MorphologyJobError::UnmatchedRemaining(unmatched_surahs.len(), surahs));
    }
    Ok(())
}

/// Parameters for a morphology import.
#[derive(Debug, Clone)]
pub struct MorphologyImportParams {
    pub dataset_slug: String,
    pub dataset_version: String,
    /// Adapter name (`json` or `csv`).
    pub adapter: String,
    /// Intermediate document text.
    pub document_text: String,
    /// Edition to align against (must be active).
    pub edition_slug: String,
    pub edition_version: String,
    pub invoked_by: String,
    /// Batch id (resuming reuses it).
    pub batch_id: Option<String>,
    pub attribution: String,
    pub license_status: String,
    pub license_json: String,
}

/// Payload of a morphology-import job (the same fields as the parameters).
#[derive(Debug, Clone)]
pub struct MorphologyImportPayload {
    pub dataset_slug: String,
    pub dataset_version: String,
    pub adapter: String,
    pub document_text: String,
    pub edition_slug: String,
    pub edition_version: String,
    pub invoked_by: String,
    pub batch_id: Option<String>,
    pub attribution: String,
    pub license_status: String,
    pub license_json: String,
}

/// Import parameters of a job payload, field for field.
pub fn import_params(p: MorphologyImportPayload) -> (r: MorphologyImportParams)
    ensures
        r.dataset_slug == p.dataset_slug && r.dataset_version == p.dataset_version && r.adapter
            == p.adapter && r.document_text == p.document_text && r.edition_slug == p.edition_slug
            && r.edition_version == p.edition_version && r.invoked_by == p.invoked_by && r.batch_id
            == p.batch_id && r.attribution == p.attribution && r.license_status == p.license_status
            && r.license_json == p.license_json,
{
    MorphologyImportParams {
        dataset_slug: p.dataset_slug,
        dataset_version: p.dataset_version,
        adapter: p.adapter,
        document_text: p.document_text,
        edition_slug: p.edition_slug,
        edition_version: p.edition_version,
        invoked_by: p.invoked_by,
        batch_id: p.batch_id,
        attribution: p.attribution,
        license_status: p.license_status,
        license_json: p.license_json,
    }
}

/// Batch id of an import: the given one (resume), else
/// `morph-<slug>-<fresh id>`.
pub fn batch_id_for(given: Option<String>, slug: &str, fresh: &str) -> (r: String)
    ensures
        given matches Some(g) ==> r@ == g@,
        given is None ==> r@ == "morph-"@ + slug@ + "-"@ + fresh@,
{
    match given {
        Some(g) => g,
        None => {
            let mut r = concat3("morph-", slug, "-");
            append_str(&mut r, fresh);
            r
        },
    }
}

/// Report for one completed import.
#[derive(Debug, Clone)]
pub struct MorphologyImportReport {
    pub batch_id: String,
    /// Dataset `slug@version`.
    pub dataset: String,
    /// Direct-key matches.
    pub matched: usize,
    /// Table-mapped rows.
    pub table_mapped: usize,
    /// Unmatched rows per surah, ascending by surah.
    pub unmatched_by_surah: Vec<(u32, usize)>,
    /// Findings by severity, ascending by severity name.
    pub findings: Vec<(String, usize)>,
    /// Terminal state (`staged` or `failed`).
    pub state: String,
    /// Canonical text unchanged after the import.
    pub mv018_unchanged: bool,
}

/// Parameters for activation.
#[derive(Debug, Clone)]
pub struct MorphologyActivateParams {
    /// Staging batch id (must be staged).
    pub batch_id: String,
    /// Approval covering the dataset URN.
    pub approval_id: String,
    pub invoked_by: String,
}

/// Report for one activation.
#[derive(Debug)]
pub struct MorphologyActivateReport {
    /// Dataset `slug@version` now active.
    pub dataset: String,
    /// Rows promoted: roots, lemmas, analyses, morphemes.
    pub promoted: (usize, usize, usize, usize),
    /// Previously active dataset, if any (now superseded).
    pub previous_dataset: Option<String>,
}

/// The previously active dataset steps aside unless it is the one being
/// (re)activated.
pub fn supersedes(previous_id: Option<&str>, dataset_id: &str) -> (r: bool)
    ensures
        r == (match previous_id {
            Some(p) => p@ != dataset_id@,
            None => false,
        }),
{
    match previous_id {
        Some(p) => !str_eq(p, dataset_id),
        None => false,
    }
}

/// Content-addressed lexicon keys: a root is keyed by its dataset and
/// spelling, a lemma by its root key and spelling (unit separator between
/// parts).
pub fn root_key(dataset_id: &str, root: &str) -> (r: String)
    ensures
        r@ == dataset_id@ + seq!['\u{1f}'] + root@,
{
    let mut r = owned(dataset_id);
    push_char(&mut r, '\u{1f}');
    append_str(&mut r, root);
    r
}

/// Lemma key under a root key.
pub fn lemma_key(root_key: &str, lemma: &str) -> (r: String)
    ensures
        r@ == root_key@ + seq!['\u{1f}'] + lemma@,
{
    let mut r = owned(root_key);
    push_char(&mut r, '\u{1f}');
    append_str(&mut r, lemma);
    r
}

/// Analysis id: `an:<dataset>:<surah>:<ayah>:<position>#<index>`.
pub fn analysis_id(dataset_id: &str, surah: i64, ayah: i64, position: i64, index: i64) -> (r: String)
    ensures
        r@ == "an:"@ + dataset_id@ + seq![':'] + signed_decimal(surah as int) + seq![':']
            + signed_decimal(ayah as int) + seq![':'] + signed_decimal(position as int) + seq!['#']
            + signed_decimal(index as int),
{
    let mut r = concat2("an:", dataset_id);
    push_char(&mut r, ':');
    push_signed(&mut r, surah);
    push_char(&mut r, ':');
    push_signed(&mut r, ayah);
    push_char(&mut r, ':');
    push_signed(&mut r, position);
    push_char(&mut r, '#');
    push_signed(&mut r, index);
    r
}

/// Morpheme id: `<analysis>:m<i>`.
pub fn morpheme_id(analysis_id: &str, i: u64) -> (r: String)
    ensures
        r@ == analysis_id@ + ":m"@ + decimal(i as nat),
{
    let mut r = concat2(analysis_id, ":m");
    push_decimal(&mut r, i);
    r
}

/// Read-tool failures.
#[derive(Debug, Clone)]
pub enum MorphologyToolError {
    /// Storage failure.
    Storage(String),
    /// No active dataset.
    UnavailableDataset { capability: String },
    /// The active dataset has no pattern metadata.
    UnavailablePatternField { dataset: String, fields: String },
    /// Crate-level failure.
    Morphology { kind: MorphologyErrorKind, detail: String },
}

impl MorphologyToolError {
    /// Diagnostic code number (namespace `QAI-MORPH`).
    pub fn code(&self) -> (c: DiagnosticCode)
        ensures
            c.namespace@ == "QAI-MORPH"@,
            c.number == (match *self {
                MorphologyToolError::Storage(_) => 2u32,
                MorphologyToolError::UnavailableDataset { .. } => 4u32,
                MorphologyToolError::UnavailablePatternField { .. } => 6u32,
                MorphologyToolError::Morphology { .. } => 5u32,
            }),
    {
        let n: u32 = match self {
            MorphologyToolError::Storage(_) => 2,
            MorphologyToolError::UnavailableDataset { .. } => 4,
            MorphologyToolError::UnavailablePatternField { .. } => 6,
            MorphologyToolError::Morphology { .. } => 5,
        };
        DiagnosticCode::new("QAI-MORPH", n)
    }

    /// Remedy shown with the failure.
    pub fn remedy(&self) -> (r: String)
        ensures
            r@ == (match *self {
                MorphologyToolError::Storage(_) => "Check the database and retry."@,
                MorphologyToolError::UnavailableDataset { .. } =>
                    "Run `qai quran morphology import`, then `activate`."@,
                MorphologyToolError::UnavailablePatternField { .. } =>
                    "Use a dataset that explicitly supplies pattern, verb_form, or morphological_pattern metadata; do not infer patterns."@,
                MorphologyToolError::Morphology { .. } =>
                    "Check the request against the dataset inventory."@,
            }),
    {
        match self {
            MorphologyToolError::Storage(_) => owned("Check the database and retry."),
            MorphologyToolError::UnavailableDataset { .. } => owned(
                "Run `qai quran morphology import`, then `activate`.",
            ),
            MorphologyToolError::UnavailablePatternField { .. } => owned(
                "Use a dataset that explicitly supplies pattern, verb_form, or morphological_pattern metadata; do not infer patterns.",
            ),
            MorphologyToolError::Morphology { .. } => owned(
                "Check the request against the dataset inventory.",
            ),
        }
    }

    /// Follow-up command.
    pub fn next_command(&self) -> (r: String)
        ensures
            r@ == "qai quran morphology --help"@,
    {
        owned("qai quran morphology --help")
    }
}

/// The active dataset a read tool needs, or `UnavailableDataset`.
pub fn require_active(active: Option<String>, capability: &str) -> (r: Result<String, MorphologyToolError>)
    ensures
        active matches Some(a) ==> r == Ok::<String, MorphologyToolError>(a),
        active is None ==> (r matches Err(MorphologyToolError::UnavailableDataset { capability: c })
            && c@ == capability@),
{
    match active {
        Some(a) => Ok(a),
        None => Err(MorphologyToolError::UnavailableDataset { capability: owned(capability) }),
    }
}

/// How one analysis key differs between two dataset versions.
#[derive(Debug, Clone, Copy, PartialEq, Eq)]
pub enum MorphologyDiffKind {
    /// Only in the destination.
    Added,
    /// Only in the source.
    Removed,
    /// In both, with at least one field differing.
    Changed,
}

/// One analysis-key change between two dataset versions (the analyses
/// themselves are carried as their serialized text).
#[derive(Debug, Clone)]
pub struct MorphologyDiffChange {
    /// Stable `surah:ayah:position#index` key.
    pub reference: String,
    pub kind: MorphologyDiffKind,
    pub old: Option<String>,
    pub new: Option<String>,
    /// Per-field verdicts of a changed key.
    pub verdicts: Vec<String>,
}

/// Comparison of two dataset versions.
#[derive(Debug, Clone)]
pub struct MorphologyDiffReport {
    pub from_dataset: String,
    pub to_dataset: String,
    pub added: usize,
    pub removed: usize,
    pub changed: usize,
    pub unchanged: usize,
    /// Changes ordered by key.
    pub changes: Vec<MorphologyDiffChange>,
}

/// Key of an analysis: `<surah>:<ayah>:<position>#<index>`.
pub fn analysis_key(surah: i64, ayah: i64, position: i64, index: i64) -> (r: String)
    ensures
        r@ == signed_decimal(surah as int) + seq![':'] + signed_decimal(ayah as int) + seq![':']
            + signed_decimal(position as int) + seq!['#'] + signed_decimal(index as int),
{
    let mut r = String::new();
    push_signed(&mut r, surah);
    push_char(&mut r, ':');
    push_signed(&mut r, ayah);
    push_char(&mut r, ':');
    push_signed(&mut r, position);
    push_char(&mut r, '#');
    push_signed(&mut r, index);
    r
}

/// Where a key lives in a comparison.
#[derive(Debug, Clone, Copy, PartialEq, Eq)]
pub enum DiffSide {
    /// Only in the source.
    OnlyFrom,
    /// Only in the destination.
    OnlyTo,
    /// In both.
    Both,
}

/// Keys of both versions, in string order, each once, with where it lives.
pub fn diff_keys(from_keys: &[String], to_keys: &[String]) -> (r: Vec<(String, DiffSide)>)
    ensures
        crate::order::str_increasing(r@.map_values(|e: (String, DiffSide)| e.0@)),
        r@.map_values(|e: (String, DiffSide)| e.0@).to_set() == crate::order::str_views(from_keys@).to_set().union(
            crate::order::str_views(to_keys@).to_set(),
        ),
        forall|i: int|
            0 <= i < r@.len() ==> (#[trigger] r@[i]).1 == (if crate::order::str_views(
                from_keys@,
            ).contains(r@[i].0@) && crate::order::str_views(to_keys@).contains(r@[i].0@) {
                DiffSide::Both
            } else if crate::order::str_views(from_keys@).contains(r@[i].0@) {
                DiffSide::OnlyFrom
            } else {
                DiffSide::OnlyTo
            }),
{
    let mut all: Vec<String> = Vec::new();
    let mut i: usize = 0;
    while i < from_keys.len()
        invariant
            i <= from_keys.len(),
            crate::order::str_views(all@) == crate::order::str_views(from_keys@).take(i as int),
        decreases from_keys.len() - i,
    {
        let ghost before = all@;
        let x = owned(from_keys[i].as_str());
        all.push(x);
        assert(all@ == before.push(x));
        assert(crate::order::str_views(all@) =~= crate::order::str_views(before).push(x@));
        assert(crate::order::str_views(from_keys@)[i as int] == from_keys@[i as int]@);
        assert(crate::order::str_views(all@) =~= crate::order::str_views(from_keys@).take(i + 1));
        i = i + 1;
    }
    let mut j: usize = 0;
    while j < to_keys.len()
        invariant
            j <= to_keys.len(),
            crate::order::str_views(all@) == crate::order::str_views(from_keys@) + crate::order::str_views(
                to_keys@,
            ).take(j as int),
        decreases to_keys.len() - j,
    {
        let ghost before = all@;
        let x = owned(to_keys[j].as_str());
        all.push(x);
        assert(all@ == before.push(x));
        assert(crate::order::str_views(all@) =~= crate::order::str_views(before).push(x@));
        assert(crate::order::str_views(to_keys@)[j as int] == to_keys@[j as int]@);
        assert(crate::order::str_views(all@) =~= crate::order::str_views(from_keys@)
            + crate::order::str_views(to_keys@).take(j + 1));
        j = j + 1;
    }
    assert(crate::order::str_views(to_keys@).take(to_keys.len() as int) =~= crate::order::str_views(
        to_keys@,
    ));
    let keys = crate::order::sorted_distinct_strings(all.as_slice());
    proof {
        let fv = crate::order::str_views(from_keys@);
        let tv = crate::order::str_views(to_keys@);
        assert((fv + tv).to_set() =~= fv.to_set().union(tv.to_set())) by {
            assert forall|x: Seq<char>| (fv + tv).to_set().contains(x) <==> fv.to_set().union(
                tv.to_set(),
            ).contains(x) by {
                if (fv + tv).contains(x) {
                    let k = choose|k: int| 0 <= k < (fv + tv).len() && (fv + tv)[k] == x;
                    if k < fv.len() {
                        assert(fv[k] == x);
                    } else {
                        assert(tv[k - fv.len()] == x);
                    }
                }
                if fv.contains(x) {
                    let k = choose|k: int| 0 <= k < fv.len() && fv[k] == x;
                    assert((fv + tv)[k] == x);
                }
                if tv.contains(x) {
                    let k = choose|k: int| 0 <= k < tv.len() && tv[k] == x;
                    assert((fv + tv)[fv.len() + k] == x);
                }
            }
        }
    }
    let mut r: Vec<(String, DiffSide)> = Vec::new();
    let mut k: usize = 0;
    while k < keys.len()
        invariant
            k <= keys.len(),
            r@.map_values(|e: (String, DiffSide)| e.0@) == crate::order::str_views(keys@).take(
                k as int,
            ),
            forall|i: int|
                0 <= i < r@.len() ==> (#[trigger] r@[i]).1 == (if crate::order::str_views(
                    from_keys@,
                ).contains(r@[i].0@) && crate::order::str_views(to_keys@).contains(r@[i].0@) {
                    DiffSide::Both
                } else if crate::order::str_views(from_keys@).contains(r@[i].0@) {
                    DiffSide::OnlyFrom
                } else {
                    DiffSide::OnlyTo
                }),
        decreases keys.len() - k,
    {
        let key = keys[k].as_str();
        let in_from = contains_str(from_keys, key);
        let in_to = contains_str(to_keys, key);
        let side = if in_from && in_to {
            DiffSide::Both
        } else if in_from {
            DiffSide::OnlyFrom
        } else {
            DiffSide::OnlyTo
        };
        let ghost before = r@;
        let e = (owned(key), side);
        r.push(e);
        assert(r@.map_values(|e: (String, DiffSide)| e.0@) =~= before.map_values(
            |e: (String, DiffSide)| e.0@,
        ).push(e.0@));
        assert(crate::order::str_views(keys@).take(k + 1) =~= crate::order::str_views(keys@).take(
            k as int,
        ).push(keys@[k as int]@));
        k = k + 1;
    }
    assert(crate::order::str_views(keys@).take(keys.len() as int) =~= crate::order::str_views(keys@));
    r
}

fn contains_str(v: &[String], x: &str) -> (r: bool)
    ensures
        r == crate::order::str_views(v@).contains(x@),
{
    let mut i: usize = 0;
    while i < v.len()
        invariant
            i <= v.len(),
            forall|j: int| 0 <= j < i ==> v@[j]@ != x@,
        decreases v.len() - i,
    {
        if str_eq(v[i].as_str(), x) {
            assert(crate::order::str_views(v@)[i as int] == x@);
            return true;
        }
        i = i + 1;
    }
    proof {
        if crate::order::str_views(v@).contains(x@) {
            let k = choose|k: int| 0 <= k < v@.len() && crate::order::str_views(v@)[k] == x@;
            assert(v@[k]@ == x@);
        }
    }
    false
}

/// One attributed token analysis (read-tool view).
#[derive(Debug, Clone)]
pub struct AttributedAnalysis {
    /// Dataset `slug@version`.
    pub dataset: String,
    /// Analysis index (competing analyses coexist).
    pub analysis_index: i64,
    pub lemma: Option<String>,
    pub root: Option<String>,
    pub stem: String,
    pub pos_unified: String,
    /// Native POS verbatim.
    pub pos_native: String,
    pub provenance_layer: String,
    /// Algorithm name for derived analyses.
    pub algorithm: Option<String>,
    /// Who verified the analysis, when verified.
    pub verified_by: Option<String>,
}

/// One root occurrence.
#[derive(Debug, Clone)]
pub struct RootOccurrence {
    pub surah: i64,
    pub ayah: i64,
    pub position: i64,
    /// Dataset attribution.
    pub dataset: String,
}

/// One root-browse result.
#[derive(Debug, Clone)]
pub struct RootBrowseItem {
    pub dataset: String,
    /// Native root spelling.
    pub root: String,
    /// Convention-normalized spelling.
    pub normalized: String,
    pub status: String,
}

/// One lemma-browse result.
#[derive(Debug, Clone)]
pub struct LemmaBrowseItem {
    pub dataset: String,
    pub lemma: String,
    pub pos_unified: String,
    pub pos_native: String,
    pub status: String,
}

/// One affix hit with the backend that answered.
#[derive(Debug, Clone)]
pub struct AffixHit {
    pub surah: i64,
    pub ayah: i64,
    pub position: i64,
    /// Which backend answered.
    pub backend: String,
}

/// One word-family member.
#[derive(Debug, Clone)]
pub struct FamilyMemberView {
    pub id: String,
    pub kind: String,
    /// Relation to the query member.
    pub relation: String,
    /// Mandatory explanation.
    pub explanation: String,
    /// Dataset attribution.
    pub dataset: Option<String>,
}

/// `s` starts with `p`.
pub open spec fn starts_with(s: Seq<char>, p: Seq<char>) -> bool {
    p.len() <= s.len() && s.take(p.len() as int) == p
}

fn has_prefix(s: &str, p: &str) -> (r: bool)
    ensures
        r == starts_with(s@, p@),
{
    let a = crate::text::chars_of(s);
    let b = crate::text::chars_of(p);
    if b.len() > a.len() {
        return false;
    }
    let head = crate::text::slice_chars(a.as_slice(), 0, b.len());
    assert(head@ =~= s@.take(p@.len() as int));
    crate::text::chars_eq(head.as_slice(), b.as_slice())
}

/// Browse page size: `limit` clamped to `1..=500`.
pub open spec fn browse_cap(limit: usize) -> int {
    if limit < 1 {
        1
    } else if limit > 500 {
        500
    } else {
        limit as int
    }
}

/// Indexes of the first entries (in order) whose spelling or normalized
/// spelling starts with `prefix`, among the first `n`.
pub open spec fn prefix_hits(names: Seq<(String, String)>, prefix: Seq<char>, n: int) -> Seq<usize>
    decreases n,
{
    if n <= 0 {
        Seq::empty()
    } else if starts_with(names[n - 1].0@, prefix) || starts_with(names[n - 1].1@, prefix) {
        prefix_hits(names, prefix, n - 1).push((n - 1) as usize)
    } else {
        prefix_hits(names, prefix, n - 1)
    }
}

/// The prefix a browse filters by (empty when none is given).
pub open spec fn prefix_text(prefix: Option<&str>) -> Seq<char> {
    match prefix {
        Some(p) => p@,
        None => Seq::<char>::empty(),
    }
}

/// `s` begins with `p`.
pub open spec fn begins_with(s: Seq<char>, p: Seq<char>) -> bool {
    p.len() <= s.len() && s.subrange(0, p.len() as int) =~= p
}

/// Entry `k`'s spelling or its normalized spelling begins with `p`.
pub open spec fn entry_matches(names: Seq<(String, String)>, k: int, p: Seq<char>) -> bool {
    begins_with(names[k].0@, p) || begins_with(names[k].1@, p)
}

/// The prefix hits are the entries whose spelling or normalized spelling
/// begins with the prefix: each hit is such an entry, hits come in entry
/// order, and no such entry is missing.
pub proof fn prefix_hits_law(names: Seq<(String, String)>, p: Seq<char>, n: int)
    requires
        0 <= n <= names.len(),
        names.len() <= usize::MAX,
    ensures
        forall|i: int|
            0 <= i < prefix_hits(names, p, n).len() ==> (#[trigger] prefix_hits(names, p, n)[i]) < n
                && entry_matches(names, prefix_hits(names, p, n)[i] as int, p),
        forall|i: int, j: int|
            0 <= i < j < prefix_hits(names, p, n).len() ==> #[trigger] prefix_hits(names, p, n)[i]
                < #[trigger] prefix_hits(names, p, n)[j],
        forall|k: int|
            0 <= k < n && #[trigger] entry_matches(names, k, p) ==> prefix_hits(names, p, n).contains(k as usize),
    decreases n,
{
    if n > 0 {
        prefix_hits_law(names, p, n - 1);
        let prev = prefix_hits(names, p, n - 1);
        let cur = prefix_hits(names, p, n);
        let k = n - 1;
        assert(starts_with(names[k].0@, p) == begins_with(names[k].0@, p)) by {
            if p.len() <= names[k].0@.len() {
                assert(names[k].0@.take(p.len() as int) =~= names[k].0@.subrange(0, p.len() as int));
            }
        }
        assert(starts_with(names[k].1@, p) == begins_with(names[k].1@, p)) by {
            if p.len() <= names[k].1@.len() {
                assert(names[k].1@.take(p.len() as int) =~= names[k].1@.subrange(0, p.len() as int));
            }
        }
        assert forall|i: int| 0 <= i < cur.len() implies (#[trigger] cur[i]) < n && entry_matches(names, cur[i] as int, p) by {
            if i < prev.len() {
                assert(cur[i] == prev[i]);
            }
        }
        assert forall|i: int, j: int| 0 <= i < j < cur.len() implies #[trigger] cur[i] < #[trigger] cur[j] by {
            if j < prev.len() {
                assert(cur[i] == prev[i] && cur[j] == prev[j]);
            } else {
                assert(cur[i] == prev[i]);
            }
        }
        assert forall|m: int| 0 <= m < n && #[trigger] entry_matches(names, m, p) implies cur.contains(m as usize) by {
            if m < n - 1 {
                let q = choose|q: int| 0 <= q < prev.len() && prev[q] == m as usize;
                assert(cur[q] == prev[q]);
            } else {
                assert(cur[prev.len() as int] == m as usize);
            }
        }
    }
}

/// Browse selection: entries whose spelling (or normalized spelling)
/// starts with the prefix (empty when none is given), in order, at most
/// `limit` clamped to `1..=500`.
pub fn browse_selection(names: &[(String, String)], prefix: Option<&str>, limit: usize) -> (r: Vec<usize>)
    ensures
        ({
            let p = match prefix {
                Some(p) => p@,
                None => Seq::<char>::empty(),
            };
            let all = prefix_hits(names@, p, names@.len() as int);
            r@ == all.take(if all.len() <= browse_cap(limit) {
                all.len() as int
            } else {
                browse_cap(limit)
            })
        }),
        r@.len() <= browse_cap(limit),
        forall|i: int|
            0 <= i < r@.len() ==> (#[trigger] r@[i]) < names@.len() && entry_matches(
                names@,
                r@[i] as int,
                prefix_text(prefix),
            ),
        forall|i: int, j: int| 0 <= i < j < r@.len() ==> #[trigger] r@[i] < #[trigger] r@[j],
        forall|i: int, k: int|
            0 <= i < r@.len() && 0 <= k < #[trigger] r@[i] && #[trigger] entry_matches(
                names@,
                k,
                prefix_text(prefix),
            ) ==> r@.contains(k as usize),
        r@.len() < browse_cap(limit) ==> forall|k: int|
            0 <= k < names@.len() && #[trigger] entry_matches(
                names@,
                k,
                prefix_text(prefix),
            ) ==> r@.contains(k as usize),
{
    let p = match prefix {
        Some(p) => p,
        None => "",
    };
    proof {
        reveal_strlit("");
        assert(""@ =~= Seq::<char>::empty());
        assert(p@ == (match prefix {
            Some(q) => q@,
            None => Seq::<char>::empty(),
        }));
    }
    let cap: usize = if limit < 1 {
        1
    } else if limit > 500 {
        500
    } else {
        limit
    };
    let mut r: Vec<usize> = Vec::new();
    let mut i: usize = 0;
    while i < names.len() && r.len() < cap
        invariant
            i <= names.len(),
            r@ == prefix_hits(names@, p@, i as int),
            r@.len() <= cap,
        decreases names.len() - i,
    {
        if has_prefix(names[i].0.as_str(), p) || has_prefix(names[i].1.as_str(), p) {
            r.push(i);
        }
        i = i + 1;
    }
    proof {
        lemma_prefix_hits_extend(names@, p@, i as int, names@.len() as int);
        let all = prefix_hits(names@, p@, names@.len() as int);
        if r@.len() < cap {
            assert(i == names.len());
            assert(all == r@);
            assert(all.take(all.len() as int) =~= all);
        } else {
            assert(all.take(cap as int) =~= r@);
        }
        assert(names@.len() == names.len());
        prefix_hits_law(names@, p@, names@.len() as int);
        assert forall|a: int| 0 <= a < r@.len() implies r@[a] == all[a] by {}
        assert forall|a: int, k: int|
            0 <= a < r@.len() && 0 <= k < #[trigger] r@[a] && #[trigger] entry_matches(names@, k, p@) implies r@.contains(
            k as usize) by {
            assert(r@[a] == all[a]);
            let j = choose|j: int| 0 <= j < all.len() && all[j] == k as usize;
            if j >= a {
                if j > a {
                    assert(all[a] < all[j]);
                }
            }
            assert(j < a);
            assert(r@[j] == all[j]);
        }
    }
    r
}

proof fn lemma_prefix_hits_extend(names: Seq<(String, String)>, prefix: Seq<char>, k: int, n: int)
    requires
        0 <= k <= n,
    ensures
        prefix_hits(names, prefix, n).len() >= prefix_hits(names, prefix, k).len(),
        prefix_hits(names, prefix, n).take(prefix_hits(names, prefix, k).len() as int)
            == prefix_hits(names, prefix, k),
    decreases n - k,
{
    if n > k {
        lemma_prefix_hits_extend(names, prefix, k, n - 1);
        let a = prefix_hits(names, prefix, n - 1);
        let b = prefix_hits(names, prefix, n);
        let m = prefix_hits(names, prefix, k).len() as int;
        if b != a {
            assert(b == a.push((n - 1) as usize));
            assert(b.take(m) =~= a.take(m));
        }
    } else {
        let a = prefix_hits(names, prefix, k);
        assert(a.take(a.len() as int) =~= a);
    }
}

/// One imported analysis as alignment reads it: its token location, its
/// index among the token's analyses, its direct key, and the alignment
/// table's hash for that key (when the table maps it).
#[derive(Debug, Clone)]
pub struct AnalysisRef {
    pub surah: u32,
    pub ayah: u32,
    pub position: u32,
    pub index: u32,
    /// Direct key of the token (`surah:ayah:position:surface` form).
    pub direct_key: String,
    /// Alignment-table hash of the key, when mapped.
    pub table_hash: Option<String>,
}

/// One alignment row to stage.
#[derive(Debug, Clone)]
pub struct AlignmentPlan {
    /// `al-<batch>-<surah>-<ayah>-<position>-<index>`.
    pub id: String,
    pub direct_key: String,
    pub surah: u32,
    pub ayah: u32,
    pub position: u32,
    /// `direct_key`, `table_mapped` or `unmatched`.
    pub kind: &'static str,
    /// Alignment hash (empty unless table-mapped).
    pub hash: String,
}

/// Whether an analysis before position `n` has direct key `key`.
pub open spec fn key_seen(a: Seq<AnalysisRef>, key: Seq<char>, n: int) -> bool {
    exists|j: int| 0 <= j < n && (#[trigger] a[j]).direct_key@ == key
}

/// Whether the edition's token inventory holds this location.
pub open spec fn in_inventory(inventory: Seq<(u32, u32, u32)>, x: AnalysisRef) -> bool {
    inventory.contains((x.surah, x.ayah, x.position))
}

/// View of a planned row: id, key, location, kind, hash.
pub open spec fn plan_view(p: AlignmentPlan) -> (Seq<char>, Seq<char>, (u32, u32, u32), Seq<char>, Seq<char>) {
    (p.id@, p.direct_key@, (p.surah, p.ayah, p.position), p.kind@, p.hash@)
}

/// The row planned for analysis `x` of batch `batch`.
pub open spec fn planned_row(batch: Seq<char>, inventory: Seq<(u32, u32, u32)>, x: AnalysisRef) -> (
    Seq<char>,
    Seq<char>,
    (u32, u32, u32),
    Seq<char>,
    Seq<char>,
) {
    let kind = if !in_inventory(inventory, x) {
        "unmatched"@
    } else if x.table_hash is Some {
        "table_mapped"@
    } else {
        "direct_key"@
    };
    let hash = match x.table_hash {
        Some(h) => h@,
        None => Seq::empty(),
    };
    (
        "al-"@ + batch + "-"@ + decimal(x.surah as nat) + "-"@ + decimal(x.ayah as nat) + "-"@
            + decimal(x.position as nat) + "-"@ + decimal(x.index as nat),
        x.direct_key@,
        (x.surah, x.ayah, x.position),
        kind,
        hash,
    )
}

/// Rows for the first `n` analyses: one per direct key (its first
/// analysis), kind by inventory and table.
pub open spec fn alignment_plan_spec(
    batch: Seq<char>,
    a: Seq<AnalysisRef>,
    inventory: Seq<(u32, u32, u32)>,
    n: int,
) -> Seq<(Seq<char>, Seq<char>, (u32, u32, u32), Seq<char>, Seq<char>)>
    decreases n,
{
    if n <= 0 {
        Seq::empty()
    } else if key_seen(a, a[n - 1].direct_key@, n - 1) {
        alignment_plan_spec(batch, a, inventory, n - 1)
    } else {
        alignment_plan_spec(batch, a, inventory, n - 1).push(planned_row(batch, inventory, a[n - 1]))
    }
}

fn inventory_holds(inventory: &[(u32, u32, u32)], x: &AnalysisRef) -> (r: bool)
    ensures
        r == in_inventory(inventory@, *x),
{
    let mut i: usize = 0;
    while i < inventory.len()
        invariant
            i <= inventory@.len(),
            forall|j: int| 0 <= j < i ==> inventory@[j] != (x.surah, x.ayah, x.position),
        decreases inventory.len() - i,
    {
        let e = inventory[i];
        if e.0 == x.surah && e.1 == x.ayah && e.2 == x.position {
            assert(inventory@[i as int] == (x.surah, x.ayah, x.position));
            return true;
        }
        i = i + 1;
    }
    false
}

/// Alignment rows of an import batch: one per token position (the first
/// analysis of each direct key), `unmatched` when the edition has no such
/// token, else `table_mapped` (with the table's hash) or `direct_key`.
pub fn alignment_plan(batch_id: &str, analyses: &[AnalysisRef], inventory: &[(u32, u32, u32)]) -> (r: Vec<AlignmentPlan>)
    ensures
        r@.map_values(|p: AlignmentPlan| plan_view(p)) == alignment_plan_spec(
            batch_id@,
            analyses@,
            inventory@,
            analyses@.len() as int,
        ),
{
    let mut r: Vec<AlignmentPlan> = Vec::new();
    let mut i: usize = 0;
    while i < analyses.len()
        invariant
            i <= analyses@.len(),
            r@.map_values(|p: AlignmentPlan| plan_view(p)) == alignment_plan_spec(
                batch_id@,
                analyses@,
                inventory@,
                i as int,
            ),
        decreases analyses.len() - i,
    {
        let x = &analyses[i];
        let mut seen = false;
        let mut j: usize = 0;
        while j < i
            invariant
                j <= i < analyses@.len(),
                seen == key_seen(analyses@, analyses@[i as int].direct_key@, j as int),
            decreases i - j,
        {
            let same = str_eq(analyses[j].direct_key.as_str(), analyses[i].direct_key.as_str());
            proof {
                let a = analyses@;
                let k = a[i as int].direct_key@;
                if same {
                    assert(a[j as int].direct_key@ == k);
                    assert(key_seen(a, k, j + 1));
                }
                if key_seen(a, k, j as int) {
                    let w = choose|w: int| 0 <= w < j && (#[trigger] a[w]).direct_key@ == k;
                    assert(key_seen(a, k, j + 1));
                }
                if key_seen(a, k, j + 1) && !same {
                    let w = choose|w: int| 0 <= w < j + 1 && (#[trigger] a[w]).direct_key@ == k;
                    assert(w != j);
                    assert(key_seen(a, k, j as int));
                }
            }
            if same {
                seen = true;
            }
            j = j + 1;
        }
        if !seen {
            let kind: &'static str = if !inventory_holds(inventory, x) {
                "unmatched"
            } else if x.table_hash.is_some() {
                "table_mapped"
            } else {
                "direct_key"
            };
            proof {
                reveal_strlit("unmatched");
                reveal_strlit("table_mapped");
                reveal_strlit("direct_key");
            }
            let hash = match &x.table_hash {
                Some(h) => owned(h.as_str()),
                None => String::new(),
            };
            let mut id = concat2("al-", batch_id);
            append_str(&mut id, "-");
            push_decimal(&mut id, x.surah as u64);
            append_str(&mut id, "-");
            push_decimal(&mut id, x.ayah as u64);
            append_str(&mut id, "-");
            push_decimal(&mut id, x.position as u64);
            append_str(&mut id, "-");
            push_decimal(&mut id, x.index as u64);
            let row = AlignmentPlan {
                id,
                direct_key: owned(x.direct_key.as_str()),
                surah: x.surah,
                ayah: x.ayah,
                position: x.position,
                kind,
                hash,
            };
            let ghost before = r@;
            r.push(row);
            assert(r@.map_values(|p: AlignmentPlan| plan_view(p)) =~= before.map_values(
                |p: AlignmentPlan| plan_view(p),
            ).push(plan_view(row)));
        }
        i = i + 1;
    }
    r
}

/// Findings counted per severity name, in name order (each name once).
pub fn finding_counts(severities: &[String]) -> (r: Vec<(String, usize)>)
    ensures
        ({
            let list = severities@.map_values(|v: String| (v@, false));
            &&& crate::order::str_increasing(r@.map_values(|e: (String, usize)| e.0@))
            &&& r@.map_values(|e: (String, usize)| e.0@).to_set() == crate::cooccurrence::pair_forms(list).to_set()
            &&& forall|k: int|
                0 <= k < r@.len() ==> (#[trigger] r@[k]).1 == crate::cooccurrence::pair_count(
                    list,
                    r@[k].0@,
                    list.len() as int,
                )
        }),
{
    let mut pairs: Vec<(String, bool)> = Vec::new();
    let mut i: usize = 0;
    while i < severities.len()
        invariant
            i <= severities@.len(),
            pairs@.map_values(|p: (String, bool)| (p.0@, p.1)) == severities@.take(i as int).map_values(
                |v: String| (v@, false),
            ),
        decreases severities.len() - i,
    {
        let ghost before = pairs@;
        let e = (owned(severities[i].as_str()), false);
        pairs.push(e);
        proof {
            assert(severities@.take(i + 1) =~= severities@.take(i as int).push(severities@[i as int]));
            assert(pairs@.map_values(|p: (String, bool)| (p.0@, p.1)) =~= before.map_values(
                |p: (String, bool)| (p.0@, p.1),
            ).push((e.0@, false)));
        }
        i = i + 1;
    }
    assert(severities@.take(severities@.len() as int) =~= severities@);
    let ghost list = severities@.map_values(|v: String| (v@, false));
    let tally = crate::cooccurrence::tally_pairings(pairs.as_slice());
    let mut r: Vec<(String, usize)> = Vec::new();
    let mut k: usize = 0;
    while k < tally.len()
        invariant
            k <= tally@.len(),
            crate::cooccurrence::is_tally(list, tally@),
            list.len() == severities@.len(),
            severities@.len() <= usize::MAX,
            r@.len() == k,
            forall|j: int| 0 <= j < k ==> (#[trigger] r@[j]).0@ == tally@[j].form@ && r@[j].1 == tally@[j].count,
        decreases tally.len() - k,
    {
        assert(tally@[k as int].count <= list.len());
        let c: usize = tally[k].count as usize;
        assert(c == tally@[k as int].count);
        r.push((owned(tally[k].form.as_str()), c));
        k = k + 1;
    }
    proof {
        assert(r@.map_values(|e: (String, usize)| e.0@) =~= crate::cooccurrence::hit_forms(tally@));
    }
    r
}

/// One key of a dataset comparison: its analysis in each version (as
/// serialized text), the per-field verdicts and whether every field is
/// identical.
#[derive(Debug, Clone)]
pub struct DiffEntry {
    pub key: String,
    pub old: Option<String>,
    pub new: Option<String>,
    pub verdicts: Vec<String>,
    pub identical: bool,
}

/// Kind of change of an entry, `None` when it is unchanged (or absent from
/// both sides).
pub open spec fn entry_kind(e: DiffEntry) -> Option<MorphologyDiffKind> {
    match (e.old, e.new) {
        (None, Some(_)) => Some(MorphologyDiffKind::Added),
        (Some(_), None) => Some(MorphologyDiffKind::Removed),
        (Some(_), Some(_)) => if e.identical {
            None
        } else {
            Some(MorphologyDiffKind::Changed)
        },
        (None, None) => None,
    }
}

/// Entries among the first `n` of kind `k`.
pub open spec fn kind_count(v: Seq<DiffEntry>, k: MorphologyDiffKind, n: int) -> nat
    decreases n,
{
    if n <= 0 {
        0
    } else {
        kind_count(v, k, n - 1) + if entry_kind(v[n - 1]) == Some(k) {
            1nat
        } else {
            0nat
        }
    }
}

/// Entries among the first `n` present in both versions and identical.
pub open spec fn unchanged_count(v: Seq<DiffEntry>, n: int) -> nat
    decreases n,
{
    if n <= 0 {
        0
    } else {
        unchanged_count(v, n - 1) + if v[n - 1].old is Some && v[n - 1].new is Some && v[n - 1].identical {
            1nat
        } else {
            0nat
        }
    }
}

/// Keys of the changes among the first `n` entries, with their kinds.
pub open spec fn change_list(v: Seq<DiffEntry>, n: int) -> Seq<(Seq<char>, MorphologyDiffKind)>
    decreases n,
{
    if n <= 0 {
        Seq::empty()
    } else {
        match entry_kind(v[n - 1]) {
            Some(k) => change_list(v, n - 1).push((v[n - 1].key@, k)),
            None => change_list(v, n - 1),
        }
    }
}

/// Entries only the newer version has.
pub open spec fn added_at(v: Seq<DiffEntry>) -> spec_fn(int) -> bool {
    |k: int| v[k].old is None && v[k].new is Some
}

/// Entries only the older version has.
pub open spec fn removed_at(v: Seq<DiffEntry>) -> spec_fn(int) -> bool {
    |k: int| v[k].old is Some && v[k].new is None
}

/// Entries both versions have, with different analyses.
pub open spec fn changed_at(v: Seq<DiffEntry>) -> spec_fn(int) -> bool {
    |k: int| v[k].old is Some && v[k].new is Some && !v[k].identical
}

/// Entries both versions have, identical.
pub open spec fn unchanged_at(v: Seq<DiffEntry>) -> spec_fn(int) -> bool {
    |k: int| v[k].old is Some && v[k].new is Some && v[k].identical
}

/// Entries at least one version has.
pub open spec fn present_at(v: Seq<DiffEntry>) -> spec_fn(int) -> bool {
    |k: int| v[k].old is Some || v[k].new is Some
}

/// The diff counts: added entries are those only the newer version has,
/// removed those only the older has, changed those both have with
/// different analyses, unchanged those both have identical; together they
/// account for every entry that either version has.
pub proof fn diff_counts_law(v: Seq<DiffEntry>, n: int)
    requires
        0 <= n,
    ensures
        kind_count(v, MorphologyDiffKind::Added, n) == positions_where(added_at(v), n).len(),
        kind_count(v, MorphologyDiffKind::Removed, n) == positions_where(removed_at(v), n).len(),
        kind_count(v, MorphologyDiffKind::Changed, n) == positions_where(changed_at(v), n).len(),
        unchanged_count(v, n) == positions_where(unchanged_at(v), n).len(),
        kind_count(v, MorphologyDiffKind::Added, n) + kind_count(v, MorphologyDiffKind::Removed, n)
            + kind_count(v, MorphologyDiffKind::Changed, n) + unchanged_count(v, n) == positions_where(
            present_at(v),
            n,
        ).len(),
    decreases n,
{
    lemma_positions_step(added_at(v), 0);
    lemma_positions_step(removed_at(v), 0);
    lemma_positions_step(changed_at(v), 0);
    lemma_positions_step(unchanged_at(v), 0);
    lemma_positions_step(present_at(v), 0);
    if n > 0 {
        diff_counts_law(v, n - 1);
        lemma_positions_step(added_at(v), n - 1);
        lemma_positions_step(removed_at(v), n - 1);
        lemma_positions_step(changed_at(v), n - 1);
        lemma_positions_step(unchanged_at(v), n - 1);
        lemma_positions_step(present_at(v), n - 1);
    }
}

/// The comparison report of two dataset versions from their merged keys
/// (in key order): added, removed, changed and unchanged counts, and one
/// change per added, removed or changed key, in order. Added and removed
/// changes carry no verdicts.
pub fn diff_report(from_dataset: String, to_dataset: String, entries: &[DiffEntry]) -> (r: MorphologyDiffReport)
    ensures
        r.from_dataset == from_dataset,
        r.to_dataset == to_dataset,
        r.added == kind_count(entries@, MorphologyDiffKind::Added, entries@.len() as int),
        r.removed == kind_count(entries@, MorphologyDiffKind::Removed, entries@.len() as int),
        r.changed == kind_count(entries@, MorphologyDiffKind::Changed, entries@.len() as int),
        r.unchanged == unchanged_count(entries@, entries@.len() as int),
        r.added == positions_where(added_at(entries@), entries@.len() as int).len(),
        r.removed == positions_where(removed_at(entries@), entries@.len() as int).len(),
        r.changed == positions_where(changed_at(entries@), entries@.len() as int).len(),
        r.unchanged == positions_where(unchanged_at(entries@), entries@.len() as int).len(),
        r.added + r.removed + r.changed + r.unchanged == positions_where(present_at(entries@), entries@.len() as int).len(),
        r.changes@.map_values(|c: MorphologyDiffChange| (c.reference@, c.kind)) == change_list(
            entries@,
            entries@.len() as int,
        ),
{
    proof {
        diff_counts_law(entries@, entries@.len() as int);
    }
    let mut added: usize = 0;
    let mut removed: usize = 0;
    let mut changed: usize = 0;
    let mut unchanged: usize = 0;
    let mut changes: Vec<MorphologyDiffChange> = Vec::new();
    let mut i: usize = 0;
    while i < entries.len()
        invariant
            i <= entries@.len(),
            added == kind_count(entries@, MorphologyDiffKind::Added, i as int),
            removed == kind_count(entries@, MorphologyDiffKind::Removed, i as int),
            changed == kind_count(entries@, MorphologyDiffKind::Changed, i as int),
            unchanged == unchanged_count(entries@, i as int),
            added + removed + changed + unchanged <= i,
            changes@.map_values(|c: MorphologyDiffChange| (c.reference@, c.kind)) == change_list(
                entries@,
                i as int,
            ),
        decreases entries.len() - i,
    {
        let e = &entries[i];
        let ghost before = changes@;
        let kind: Option<MorphologyDiffKind> = match (&e.old, &e.new) {
            (None, Some(_)) => Some(MorphologyDiffKind::Added),
            (Some(_), None) => Some(MorphologyDiffKind::Removed),
            (Some(_), Some(_)) => if e.identical {
                None
            } else {
                Some(MorphologyDiffKind::Changed)
            },
            (None, None) => None,
        };
        match kind {
            Some(k) => {
                let verdicts: Vec<String> = match k {
                    MorphologyDiffKind::Changed => e.verdicts.clone(),
                    _ => Vec::new(),
                };
                let c = MorphologyDiffChange {
                    reference: owned(e.key.as_str()),
                    kind: k,
                    old: e.old.clone(),
                    new: e.new.clone(),
                    verdicts,
                };
                changes.push(c);
                assert(changes@.map_values(|c: MorphologyDiffChange| (c.reference@, c.kind)) =~= before.map_values(
                    |c: MorphologyDiffChange| (c.reference@, c.kind),
                ).push((c.reference@, c.kind)));
                match k {
                    MorphologyDiffKind::Added => {
                        added = added + 1;
                    },
                    MorphologyDiffKind::Removed => {
                        removed = removed + 1;
                    },
                    MorphologyDiffKind::Changed => {
                        changed = changed + 1;
                    },
                }
            },
            None => {
                if e.old.is_some() && e.new.is_some() {
                    unchanged = unchanged + 1;
                }
            },
        }
        i = i + 1;
    }
    MorphologyDiffReport { from_dataset, to_dataset, added, removed, changed, unchanged, changes }
}

/// The two roots of an explicitly supplied root-unification candidate.
#[derive(Debug, Clone)]
pub struct UnificationSides {
    pub left_dataset: String,
    pub left_root_id: String,
    pub left_root: String,
    pub left_normalized: String,
    pub left_convention: String,
    pub right_dataset: String,
    pub right_root_id: String,
    pub right_root: String,
    pub right_normalized: String,
    pub right_convention: String,
}

/// Some field of the candidate is blank.
pub open spec fn has_blank_field(c: UnificationSides) -> bool {
    is_blank(c.left_dataset@) || is_blank(c.left_root_id@) || is_blank(c.left_root@) || is_blank(
        c.left_normalized@,
    ) || is_blank(c.left_convention@) || is_blank(c.right_dataset@) || is_blank(c.right_root_id@)
        || is_blank(c.right_root@) || is_blank(c.right_normalized@) || is_blank(c.right_convention@)
}

/// The refusal detail of a candidate, in checking order; `None` when it
/// may be queued.
pub open spec fn unification_refusal(c: UnificationSides, confidence_in_range: bool, evidence_is_object: bool) -> Option<Seq<char>> {
    if has_blank_field(c) {
        Some("root-unification candidate fields must not be empty"@)
    } else if c.left_dataset@ == c.right_dataset@ && c.left_root_id@ == c.right_root_id@ {
        Some("root-unification candidate must reference two distinct roots"@)
    } else if !confidence_in_range {
        Some("root-unification confidence must be in [0,1]"@)
    } else if !evidence_is_object {
        Some("root-unification evidence must be a JSON object"@)
    } else {
        None
    }
}

/// Validate a root-unification candidate before it is queued: no blank
/// field, two distinct roots, a confidence in `[0, 1]` and object evidence
/// (the last two as judged by the caller, which holds the float and the
/// JSON value).
pub fn check_unification(c: &UnificationSides, confidence_in_range: bool, evidence_is_object: bool) -> (r: Result<(), MorphologyToolError>)
    ensures
        match unification_refusal(*c, confidence_in_range, evidence_is_object) {
            None => r is Ok,
            Some(d) => r matches Err(MorphologyToolError::Morphology { kind, detail }) && kind
                == MorphologyErrorKind::ValidationFailed && detail@ == d,
        },
{
    let blank = str_is_blank(c.left_dataset.as_str()) || str_is_blank(c.left_root_id.as_str())
        || str_is_blank(c.left_root.as_str()) || str_is_blank(c.left_normalized.as_str())
        || str_is_blank(c.left_convention.as_str()) || str_is_blank(c.right_dataset.as_str())
        || str_is_blank(c.right_root_id.as_str()) || str_is_blank(c.right_root.as_str())
        || str_is_blank(c.right_normalized.as_str()) || str_is_blank(c.right_convention.as_str());
    let detail = if blank {
        "root-unification candidate fields must not be empty"
    } else if str_eq(c.left_dataset.as_str(), c.right_dataset.as_str()) && str_eq(
        c.left_root_id.as_str(),
        c.right_root_id.as_str(),
    ) {
        "root-unification candidate must reference two distinct roots"
    } else if !confidence_in_range {
        "root-unification confidence must be in [0,1]"
    } else if !evidence_is_object {
        "root-unification evidence must be a JSON object"
    } else {
        return Ok(());
    };
    Err(MorphologyToolError::Morphology { kind: MorphologyErrorKind::ValidationFailed, detail: owned(detail) })
}


/// A staged analysis as activation resolves it: its root, its lemma and
/// how many segments (morphemes) it has.
#[derive(Debug, Clone)]
pub struct StagedAnalysis {
    pub root: String,
    pub lemma: String,
    pub segments: usize,
}

/// Lexicon rows an activation promotes: one root row per distinct root key,
/// one lemma row per distinct lemma key, and the counts it reports
/// (roots, lemmas, analyses, morphemes).
#[derive(Debug)]
pub struct LexiconResolution {
    pub root_keys: Vec<String>,
    pub lemma_keys: Vec<String>,
    pub promoted: (usize, usize, usize, usize),
}

/// Some string of `v` reads `k`.
pub open spec fn holds_key(v: Seq<String>, k: Seq<char>) -> bool {
    exists|j: int| 0 <= j < v.len() && (#[trigger] v[j])@ == k
}

/// No two strings of `v` read the same.
pub open spec fn distinct_strings(v: Seq<String>) -> bool {
    forall|i: int, j: int| 0 <= i < j < v.len() ==> (#[trigger] v[i])@ != (#[trigger] v[j])@
}

/// Root key of a staged analysis in dataset `dataset`.
pub open spec fn staged_root_key(dataset: Seq<char>, a: StagedAnalysis) -> Seq<char> {
    dataset + seq!['\u{1f}'] + a.root@
}

/// Lemma key of a staged analysis in dataset `dataset`.
pub open spec fn staged_lemma_key(dataset: Seq<char>, a: StagedAnalysis) -> Seq<char> {
    staged_root_key(dataset, a) + seq!['\u{1f}'] + a.lemma@
}

/// Segments of the first `n` analyses.
pub open spec fn segment_total(a: Seq<StagedAnalysis>, n: int) -> int
    decreases n,
{
    if n <= 0 {
        0
    } else {
        segment_total(a, n - 1) + a[n - 1].segments
    }
}

proof fn lemma_segment_total_grows(a: Seq<StagedAnalysis>, m: int, n: int)
    requires
        0 <= m <= n,
    ensures
        segment_total(a, m) <= segment_total(a, n),
    decreases n - m,
{
    if m < n {
        lemma_segment_total_grows(a, m, n - 1);
    }
}

/// Add `key` unless a string reading the same is already there.
fn add_distinct(keys: &mut Vec<String>, key: String)
    requires
        distinct_strings(old(keys)@),
    ensures
        distinct_strings(final(keys)@),
        forall|k: Seq<char>| holds_key(final(keys)@, k) <==> (holds_key(old(keys)@, k) || k == key@),
{
    let mut j: usize = 0;
    while j < keys.len()
        invariant
            *keys == *old(keys),
            distinct_strings(keys@),
            j <= keys@.len(),
            forall|q: int| 0 <= q < j ==> (#[trigger] keys@[q])@ != key@,
        decreases keys.len() - j,
    {
        if str_eq(keys[j].as_str(), key.as_str()) {
            proof {
                assert forall|k: Seq<char>| holds_key(keys@, k) <==> (holds_key(keys@, k) || k == key@) by {
                    if k == key@ {
                        assert(keys@[j as int]@ == k);
                    }
                }
            }
            return;
        }
        j = j + 1;
    }
    let ghost before = keys@;
    keys.push(key);
    proof {
        let after = keys@;
        assert forall|a: int, b: int| 0 <= a < b < after.len() implies (#[trigger] after[a])@
            != (#[trigger] after[b])@ by {
            assert(after[a] == before[a]);
            if b < before.len() {
                assert(after[b] == before[b]);
            }
        }
        assert forall|k: Seq<char>| holds_key(after, k) <==> (holds_key(before, k) || k == key@) by {
            if holds_key(after, k) {
                let q = choose|q: int| 0 <= q < after.len() && (#[trigger] after[q])@ == k;
                if q < before.len() {
                    assert(after[q] == before[q]);
                }
            }
            if holds_key(before, k) {
                let q = choose|q: int| 0 <= q < before.len() && (#[trigger] before[q])@ == k;
                assert(after[q] == before[q]);
            }
            if k == key@ {
                assert(after[before.len() as int]@ == k);
            }
        }
    }
}

/// Resolve the staged analyses of dataset `dataset_id` into lexicon rows:
/// roots and lemmas de-duplicated by their keys (the first occurrence
/// makes the row), every analysis kept, one morpheme per segment; the
/// promoted counts are the rows of each kind.
pub fn resolve_lexicon(dataset_id: &str, analyses: &[StagedAnalysis]) -> (r: LexiconResolution)
    requires
        segment_total(analyses@, analyses@.len() as int) <= usize::MAX,
    ensures
        distinct_strings(r.root_keys@),
        distinct_strings(r.lemma_keys@),
        forall|k: Seq<char>|
            holds_key(r.root_keys@, k) <==> exists|i: int|
                0 <= i < analyses@.len() && staged_root_key(dataset_id@, #[trigger] analyses@[i]) == k,
        forall|k: Seq<char>|
            holds_key(r.lemma_keys@, k) <==> exists|i: int|
                0 <= i < analyses@.len() && staged_lemma_key(dataset_id@, #[trigger] analyses@[i]) == k,
        r.promoted == (
            r.root_keys@.len() as usize,
            r.lemma_keys@.len() as usize,
            analyses@.len() as usize,
            segment_total(analyses@, analyses@.len() as int) as usize,
        ),
{
    let mut root_keys: Vec<String> = Vec::new();
    let mut lemma_keys: Vec<String> = Vec::new();
    let mut morphemes: usize = 0;
    let mut i: usize = 0;
    while i < analyses.len()
        invariant
            i <= analyses@.len(),
            segment_total(analyses@, analyses@.len() as int) <= usize::MAX,
            morphemes == segment_total(analyses@, i as int),
            distinct_strings(root_keys@),
            distinct_strings(lemma_keys@),
            forall|k: Seq<char>|
                holds_key(root_keys@, k) <==> exists|j: int|
                    0 <= j < i && staged_root_key(dataset_id@, #[trigger] analyses@[j]) == k,
            forall|k: Seq<char>|
                holds_key(lemma_keys@, k) <==> exists|j: int|
                    0 <= j < i && staged_lemma_key(dataset_id@, #[trigger] analyses@[j]) == k,
        decreases analyses.len() - i,
    {
        let a = &analyses[i];
        let rk = root_key(dataset_id, a.root.as_str());
        let lk = lemma_key(rk.as_str(), a.lemma.as_str());
        proof {
            lemma_segment_total_grows(analyses@, i + 1, analyses@.len() as int);
        }
        morphemes = morphemes + a.segments;
        let ghost rkv = rk@;
        let ghost lkv = lk@;
        let ghost roots_before = root_keys@;
        let ghost lemmas_before = lemma_keys@;
        add_distinct(&mut root_keys, rk);
        add_distinct(&mut lemma_keys, lk);
        proof {
            assert(rkv == staged_root_key(dataset_id@, analyses@[i as int]));
            assert(lkv == staged_lemma_key(dataset_id@, analyses@[i as int]));
            assert forall|k: Seq<char>|
                holds_key(root_keys@, k) <==> exists|j: int|
                    0 <= j < i + 1 && staged_root_key(dataset_id@, #[trigger] analyses@[j]) == k by {
                if k == rkv {
                    assert(staged_root_key(dataset_id@, analyses@[i as int]) == k);
                }
                if exists|j: int| 0 <= j < i + 1 && staged_root_key(dataset_id@, #[trigger] analyses@[j]) == k {
                    let j = choose|j: int| 0 <= j < i + 1 && staged_root_key(dataset_id@, #[trigger] analyses@[j]) == k;
                    if j < i {
                        assert(holds_key(roots_before, k));
                    }
                }
            }
            assert forall|k: Seq<char>|
                holds_key(lemma_keys@, k) <==> exists|j: int|
                    0 <= j < i + 1 && staged_lemma_key(dataset_id@, #[trigger] analyses@[j]) == k by {
                if k == lkv {
                    assert(staged_lemma_key(dataset_id@, analyses@[i as int]) == k);
                }
                if exists|j: int| 0 <= j < i + 1 && staged_lemma_key(dataset_id@, #[trigger] analyses@[j]) == k {
                    let j = choose|j: int| 0 <= j < i + 1 && staged_lemma_key(dataset_id@, #[trigger] analyses@[j]) == k;
                    if j < i {
                        assert(holds_key(lemmas_before, k));
                    }
                }
            }
        }
        i = i + 1;
    }
    let promoted = (root_keys.len(), lemma_keys.len(), analyses.len(), morphemes);
    LexiconResolution { root_keys, lemma_keys, promoted }
}

/// Entries reading `v`.
pub open spec fn reads(s: Seq<String>, v: Seq<char>) -> spec_fn(int) -> bool {
    |k: int| s[k]@ == v
}

/// The count of a value is the number of entries (among the first `n`)
/// reading it.
pub proof fn count_of_law(s: Seq<String>, v: Seq<char>, n: int)
    requires
        0 <= n,
    ensures
        count_of(s, v, n) == positions_where(reads(s, v), n).len(),
    decreases n,
{
    lemma_positions_step(reads(s, v), 0);
    if n > 0 {
        count_of_law(s, v, n - 1);
        lemma_positions_step(reads(s, v), n - 1);
    }
}

/// Entries that were added, removed or changed.
pub open spec fn has_change(v: Seq<DiffEntry>) -> spec_fn(int) -> bool {
    |k: int| entry_kind(v[k]) is Some
}

/// An entry's key with its kind of change.
pub open spec fn change_of(v: Seq<DiffEntry>) -> spec_fn(int) -> (Seq<char>, MorphologyDiffKind) {
    |k: int| (v[k].key@, entry_kind(v[k])->0)
}

proof fn lemma_change_list_kept(v: Seq<DiffEntry>, n: int)
    ensures
        change_list(v, n) == kept_values(has_change(v), change_of(v), n),
    decreases n,
{
    if n > 0 {
        lemma_change_list_kept(v, n - 1);
    }
}

/// The change list holds one change per added, removed or changed entry,
/// and none for the others.
pub proof fn change_list_law(v: Seq<DiffEntry>, n: int)
    requires
        0 <= n,
    ensures
        change_list(v, n).len() == positions_where(has_change(v), n).len(),
        forall|i: int|
            0 <= i < change_list(v, n).len() ==> kept_from(
                has_change(v),
                change_of(v),
                n,
                #[trigger] change_list(v, n)[i],
            ),
        forall|k: int| 0 <= k < n && #[trigger] has_change(v)(k) ==> change_list(v, n).contains(change_of(v)(k)),
{
    lemma_change_list_kept(v, n);
    kept_values_law(has_change(v), change_of(v), n);
}

/// Analyses whose direct key no earlier analysis has.
pub open spec fn first_of_key(batch: Seq<char>, a: Seq<AnalysisRef>, inventory: Seq<(u32, u32, u32)>) -> spec_fn(int) -> bool {
    |k: int| !key_seen(a, a[k].direct_key@, k)
}

/// The alignment row planned for an analysis.
pub open spec fn plan_row(batch: Seq<char>, a: Seq<AnalysisRef>, inventory: Seq<(u32, u32, u32)>) -> spec_fn(int) -> (Seq<char>, Seq<char>, (u32, u32, u32), Seq<char>, Seq<char>) {
    |k: int| planned_row(batch, inventory, a[k])
}

proof fn lemma_alignment_plan_spec_kept(batch: Seq<char>, a: Seq<AnalysisRef>, inventory: Seq<(u32, u32, u32)>, n: int)
    ensures
        alignment_plan_spec(batch, a, inventory, n) == kept_values(first_of_key(batch, a, inventory), plan_row(batch, a, inventory), n),
    decreases n,
{
    if n > 0 {
        lemma_alignment_plan_spec_kept(batch, a, inventory, n - 1);
    }
}

/// The alignment plan holds one row per direct key, for the first analysis
/// with that key, and none for the later ones.
pub proof fn alignment_plan_spec_law(batch: Seq<char>, a: Seq<AnalysisRef>, inventory: Seq<(u32, u32, u32)>, n: int)
    requires
        0 <= n,
    ensures
        alignment_plan_spec(batch, a, inventory, n).len() == positions_where(first_of_key(batch, a, inventory), n).len(),
        forall|i: int|
            0 <= i < alignment_plan_spec(batch, a, inventory, n).len() ==> kept_from(
                first_of_key(batch, a, inventory),
                plan_row(batch, a, inventory),
                n,
                #[trigger] alignment_plan_spec(batch, a, inventory, n)[i],
            ),
        forall|k: int| 0 <= k < n && #[trigger] first_of_key(batch, a, inventory)(k) ==> alignment_plan_spec(batch, a, inventory, n).contains(plan_row(batch, a, inventory)(k)),
{
    lemma_alignment_plan_spec_kept(batch, a, inventory, n);
    kept_values_law(first_of_key(batch, a, inventory), plan_row(batch, a, inventory), n);
}

} // verus!
