//! Derived-forms rebuild: parameters and reports, failures and their
//! codes, the active-edition requirement, and the canonical-text check.

use vstd::prelude::*;
use crate::diagnostics::DiagnosticCode;
use crate::rows::AyahRow;
use crate::index_checks::{indices_below, lemma_insert_ordered, ordered_by};
use crate::serving::after_last;
use crate::text::{
    append_str, chars_of, concat2, concat3, join_strings, joined_with, owned, parse_unsigned,
    push_signed, signed_decimal, slice_chars, str_eq, string_of, string_views,
};

verus! {

/// Job kind for derived-forms rebuilds.
pub const QURAN_FORMS_REBUILD_KIND: &'static str = "quran.forms.rebuild";

/// Rule-set id stamped on every derived row.
pub const RULE_SET_ID: &'static str = "quran-normalization";

/// Parameters for a forms rebuild.
#[derive(Debug, Clone)]
pub struct RebuildParams {
    /// Edition slug (must be the active edition).
    pub edition_slug: String,
    /// Edition version (must be the active edition).
    pub edition_version: String,
    /// Operator principal id.
    pub invoked_by: String,
    /// Unique tag for this run.
    pub run_tag: String,
}

/// Payload of a forms-rebuild job.
#[derive(Debug, Clone)]
pub struct FormsRebuildPayload {
    pub edition_slug: String,
    pub edition_version: String,
    pub invoked_by: String,
    /// Unique run tag (defaults to the job id).
    pub run_tag: Option<String>,
}

/// Rebuild parameters of a job: the job id as run tag unless one is given.
pub fn rebuild_params(payload: FormsRebuildPayload, job_id: &str) -> (r: RebuildParams)
    ensures
        r.edition_slug == payload.edition_slug,
        r.edition_version == payload.edition_version,
        r.invoked_by == payload.invoked_by,
        r.run_tag@ == (match payload.run_tag {
            Some(t) => t@,
            None => job_id@,
        }),
{
    let run_tag = match payload.run_tag {
        Some(t) => t,
        None => owned(job_id),
    };
    RebuildParams {
        edition_slug: payload.edition_slug,
        edition_version: payload.edition_version,
        invoked_by: payload.invoked_by,
        run_tag,
    }
}

/// Canonical-text check: the recomputed text hash against the stored one.
#[derive(Debug, Clone)]
pub struct CanonicalCheck {
    /// Edition URN checked.
    pub edition_urn: String,
    /// Stored hash the build expected.
    pub expected_hash: String,
    /// Recomputed hash found.
    pub actual_hash: String,
    /// Whether they agree.
    pub unchanged: bool,
}

/// The check of one edition: unchanged exactly when the hashes agree.
pub fn canonical_check(slug: &str, version: &str, stored_hash: &str, recomputed_hash: &str) -> (r: CanonicalCheck)
    ensures
        r.edition_urn@ == "quran-edition:"@ + slug@ + "@"@ + version@,
        r.expected_hash@ == stored_hash@,
        r.actual_hash@ == recomputed_hash@,
        r.unchanged == (stored_hash@ == recomputed_hash@),
{
    let mut urn = concat3("quran-edition:", slug, "@");
    append_str(&mut urn, version);
    CanonicalCheck {
        edition_urn: urn,
        expected_hash: owned(stored_hash),
        actual_hash: owned(recomputed_hash),
        unchanged: str_eq(stored_hash, recomputed_hash),
    }
}

/// Report for one completed rebuild.
#[derive(Debug, Clone)]
pub struct RebuildReport {
    pub edition_id: String,
    pub edition_urn: String,
    /// Corpus generation stamped on every row.
    pub generation: i64,
    /// Profile ladder version stamped on every row.
    pub rule_set_version: String,
    pub ayahs: usize,
    pub tokens: usize,
    pub token_forms: usize,
    pub ayah_forms: usize,
    pub skeletons: usize,
    /// Provenance record shared by all rows.
    pub provenance_id: String,
    /// Canonical-text check before commit.
    pub mv018: CanonicalCheck,
}

/// Forms-rebuild failures.
#[derive(Debug, Clone)]
pub enum FormsError {
    /// Storage failure.
    Storage(String),
    /// Normalization failure, with its rendered code.
    Normalization { code: String, message: String },
    /// Index-build failure (including canonical drift), with its rendered
    /// code and remedy.
    Index { code: String, message: String, remedy: Option<String> },
    /// Edition is not the active one.
    NotActive { slug: String, version: String },
    /// No such edition.
    EditionNotFound { slug: String, version: String },
    /// Cancellation was requested; nothing was committed.
    Cancelled,
}

/// Number after the last `-` of a rendered code, 3 when it does not parse.
pub open spec fn code_number(rendered: Seq<char>) -> nat {
    match parse_unsigned(after_last(rendered, '-'), u32::MAX as nat) {
        Some(n) => n,
        None => 3,
    }
}

fn code_number_of(rendered: &str) -> (r: u32)
    ensures
        r == code_number(rendered@),
{
    let chars = crate::text::chars_of(rendered);
    let tail = crate::serving::after_last_exec(chars.as_slice(), '-');
    match crate::text::parse_unsigned_chars(tail.as_slice(), 4294967295) {
        Some(n) => n as u32,
        None => 3,
    }
}

/// Namespace and number of a forms failure's code.
pub open spec fn forms_code(e: FormsError) -> (Seq<char>, nat) {
    match e {
        FormsError::Normalization { code, .. } => ("QAI-NORM"@, code_number(code@)),
        FormsError::Index { code, .. } => ("QAI-IDX"@, code_number(code@)),
        _ => ("QAI-IDX"@, 3),
    }
}

impl FormsError {
    /// Diagnostic code; wrapped failures keep their own number.
    pub fn code(&self) -> (c: DiagnosticCode)
        ensures
            (c.namespace@, c.number as nat) == forms_code(*self),
    {
        match self {
            FormsError::Normalization { code, .. } => DiagnosticCode::new(
                "QAI-NORM",
                code_number_of(code.as_str()),
            ),
            FormsError::Index { code, .. } => DiagnosticCode::new(
                "QAI-IDX",
                code_number_of(code.as_str()),
            ),
            _ => DiagnosticCode::new("QAI-IDX", 3),
        }
    }

    /// Remedy shown with the failure.
    pub fn remedy(&self) -> (r: String)
        ensures
            r@ == (match *self {
                FormsError::Storage(_) => "Check the database and retry the rebuild."@,
                FormsError::Normalization { .. } => "Check the profile seed against the code, then retry."@,
                FormsError::Index { remedy, .. } => match remedy {
                    Some(m) => m@,
                    None => "See above."@,
                },
                FormsError::EditionNotFound { .. } => "Import and activate the edition first."@,
                FormsError::NotActive { .. } => "Rebuild the active edition, or activate this one first."@,
                FormsError::Cancelled => "Rerun the rebuild; it is idempotent."@,
            }),
    {
        match self {
            FormsError::Storage(_) => owned("Check the database and retry the rebuild."),
            FormsError::Normalization { .. } => owned("Check the profile seed against the code, then retry."),
            FormsError::Index { remedy, .. } => match remedy {
                Some(m) => owned(m.as_str()),
                None => owned("See above."),
            },
            FormsError::EditionNotFound { .. } => owned("Import and activate the edition first."),
            FormsError::NotActive { .. } => owned("Rebuild the active edition, or activate this one first."),
            FormsError::Cancelled => owned("Rerun the rebuild; it is idempotent."),
        }
    }

    /// Follow-up command: always the index doctor.
    pub fn next_command(&self) -> (r: String)
        ensures
            r@ == "qai doctor --indexes"@,
    {
        owned("qai doctor --indexes")
    }
}

/// Rebuild target: the edition named by slug and version must exist and be
/// the active one; its id and URN.
pub fn rebuild_target(
    edition: Option<(&str, &str, &str)>,
    active_edition_id: Option<&str>,
    slug: &str,
    version: &str,
) -> (r: Result<(String, String), FormsError>)
    ensures
        match edition {
            None => r matches Err(FormsError::EditionNotFound { slug: s, version: v }) && s@ == slug@
                && v@ == version@,
            Some((id, eslug, eversion)) => match active_edition_id {
                Some(a) if a@ == id@ => r matches Ok((rid, urn)) && rid@ == id@ && urn@
                    == "quran-edition:"@ + eslug@ + "@"@ + eversion@,
                _ => r matches Err(FormsError::NotActive { slug: s, version: v }) && s@ == slug@ && v@
                    == version@,
            },
        },
{
    match edition {
        None => Err(FormsError::EditionNotFound { slug: owned(slug), version: owned(version) }),
        Some((id, eslug, eversion)) => {
            let active = match active_edition_id {
                Some(a) => str_eq(a, id),
                None => false,
            };
            if active {
                let mut urn = concat3("quran-edition:", eslug, "@");
                append_str(&mut urn, eversion);
                Ok((owned(id), urn))
            } else {
                Err(FormsError::NotActive { slug: owned(slug), version: owned(version) })
            }
        },
    }
}

/// Row `i` comes before row `j` in canonical order (surah, then ayah, then
/// row position).
pub open spec fn row_before(rows: Seq<AyahRow>, i: usize, j: usize) -> bool {
    let a = rows[i as int];
    let b = rows[j as int];
    a.surah < b.surah || (a.surah == b.surah && (a.ayah < b.ayah || (a.ayah == b.ayah && i < j)))
}

/// `order` lists every row index once, in canonical order.
pub open spec fn in_canonical_order(rows: Seq<AyahRow>, order: Seq<usize>) -> bool {
    &&& ordered_by(order, |i: usize, j: usize| row_before(rows, i, j))
    &&& order.to_set() == indices_below(rows.len() as int)
    &&& forall|k: int| 0 <= k < order.len() ==> (#[trigger] order[k]) < rows.len()
}

/// Row indexes of a grouping, group after group.
pub open spec fn flattened(groups: Seq<(i64, Vec<usize>)>) -> Seq<usize>
    decreases groups.len(),
{
    if groups.len() == 0 {
        Seq::empty()
    } else {
        flattened(groups.drop_last()) + groups.last().1@
    }
}

/// A grouping of rows by surah: no empty group, every row of a group in
/// its surah, surahs strictly ascending from group to group.
pub open spec fn grouped_by_surah(rows: Seq<AyahRow>, groups: Seq<(i64, Vec<usize>)>) -> bool {
    &&& forall|g: int| 0 <= g < groups.len() ==> (#[trigger] groups[g]).1@.len() > 0
    &&& forall|g: int, k: int|
        0 <= g < groups.len() && 0 <= k < groups[g].1@.len() ==> (#[trigger] groups[g].1@[k]) < rows.len()
            && rows[groups[g].1@[k] as int].surah == groups[g].0
    &&& forall|g: int, h: int| 0 <= g < h < groups.len() ==> (#[trigger] groups[g]).0 < (#[trigger] groups[h]).0
}

/// Canonical rows grouped by surah, as a forms rebuild walks them: rows in
/// (surah, ayah) order, split into one group per surah.
pub fn surah_groups(rows: &[AyahRow]) -> (r: Vec<(i64, Vec<usize>)>)
    ensures
        exists|order: Seq<usize>| #[trigger] in_canonical_order(rows@, order) && flattened(r@) == order,
        grouped_by_surah(rows@, r@),
{
    let ghost lt = |i: usize, j: usize| row_before(rows@, i, j);
    let mut order: Vec<usize> = Vec::new();
    let mut i: usize = 0;
    assert(order@.to_set() =~= indices_below(0));
    while i < rows.len()
        invariant
            i <= rows@.len(),
            lt == (|i: usize, j: usize| row_before(rows@, i, j)),
            ordered_by(order@, lt),
            order@.to_set() == indices_below(i as int),
            forall|k: int| 0 <= k < order@.len() ==> (#[trigger] order@[k]) < i,
        decreases rows.len() - i,
    {
        let mut p: usize = 0;
        while p < order.len() && (rows[order[p]].surah < rows[i].surah || (rows[order[p]].surah
            == rows[i].surah && (rows[order[p]].ayah < rows[i].ayah || (rows[order[p]].ayah
            == rows[i].ayah && order[p] < i))))
            invariant
                p <= order@.len(),
                i < rows@.len(),
                forall|k: int| 0 <= k < order@.len() ==> (#[trigger] order@[k]) < i,
                forall|j: int| 0 <= j < p ==> lt(#[trigger] order@[j], i),
                lt == (|i: usize, j: usize| row_before(rows@, i, j)),
            decreases order.len() - p,
        {
            p = p + 1;
        }
        let ghost before = order@;
        proof {
            if p < before.len() {
                assert(before[p as int] < i);
                assert(lt(i, before[p as int]));
            }
            assert forall|x: usize, y: usize, z: usize| #[trigger] lt(x, y) && #[trigger] lt(y, z) implies lt(x, z) by {
            }
            lemma_insert_ordered(before, p as int, i, lt);
        }
        order.insert(p, i);
        proof {
            assert(order@.to_set() =~= indices_below(i + 1));
            assert forall|k: int| 0 <= k < order@.len() implies (#[trigger] order@[k]) < i + 1 by {
                if k < p {
                    assert(order@[k] == before[k]);
                } else if k > p {
                    assert(order@[k] == before[k - 1]);
                }
            }
        }
        i = i + 1;
    }
    assert(in_canonical_order(rows@, order@));
    let mut groups: Vec<(i64, Vec<usize>)> = Vec::new();
    let mut current: Vec<usize> = Vec::new();
    let mut surah: i64 = 0;
    let mut k: usize = 0;
    while k < order.len()
        invariant
            k <= order@.len(),
            in_canonical_order(rows@, order@),
            flattened(groups@) + current@ == order@.take(k as int),
            grouped_by_surah(rows@, groups@),
            forall|j: int| 0 <= j < current@.len() ==> (#[trigger] current@[j]) < rows@.len() && rows@[current@[j] as int].surah == surah,
            current@.len() > 0 ==> forall|g: int| 0 <= g < groups@.len() ==> (#[trigger] groups@[g]).0 < surah,
            k > 0 ==> current@.len() > 0 && rows@[order@[k - 1] as int].surah == surah,
            k == 0 ==> current@.len() == 0 && groups@.len() == 0,
        decreases order.len() - k,
    {
        let idx = order[k];
        let s = rows[idx].surah;
        proof {
            assert(order@.take(k + 1) =~= order@.take(k as int).push(idx));
        }
        if k > 0 && s == surah {
            current.push(idx);
        } else {
            proof {
                if k > 0 {
                    let prev = order@[k - 1];
                    assert(row_before(rows@, prev, idx));
                    assert(surah < s);
                }
            }
            if current.len() > 0 {
                let ghost g0 = groups@;
                let ghost c0 = current@;
                let done = (surah, current);
                groups.push(done);
                proof {
                    assert(groups@.drop_last() =~= g0);
                    assert(flattened(groups@) =~= flattened(g0) + c0);
                    assert forall|g: int, h: int| 0 <= g < h < groups@.len() implies (#[trigger] groups@[g]).0 < (#[trigger] groups@[h]).0 by {
                        if h < g0.len() {
                            assert(groups@[g] == g0[g] && groups@[h] == g0[h]);
                        } else {
                            assert(groups@[g] == g0[g]);
                        }
                    }
                    assert forall|g: int, q: int| 0 <= g < groups@.len() && 0 <= q < groups@[g].1@.len() implies (#[trigger] groups@[g].1@[q]) < rows@.len()
                        && rows@[groups@[g].1@[q] as int].surah == groups@[g].0 by {
                        if g < g0.len() {
                            assert(groups@[g] == g0[g]);
                        }
                    }
                    assert forall|g: int| 0 <= g < groups@.len() implies (#[trigger] groups@[g]).1@.len() > 0 by {
                        if g < g0.len() {
                            assert(groups@[g] == g0[g]);
                        }
                    }
                }
            }
            current = Vec::new();
            current.push(idx);
            surah = s;
        }
        k = k + 1;
    }
    if current.len() > 0 {
        let ghost g0 = groups@;
        let ghost c0 = current@;
        groups.push((surah, current));
        proof {
            assert(groups@.drop_last() =~= g0);
            assert(flattened(groups@) =~= flattened(g0) + c0);
            assert forall|g: int, h: int| 0 <= g < h < groups@.len() implies (#[trigger] groups@[g]).0 < (#[trigger] groups@[h]).0 by {
                if h < g0.len() {
                    assert(groups@[g] == g0[g] && groups@[h] == g0[h]);
                } else {
                    assert(groups@[g] == g0[g]);
                }
            }
            assert forall|g: int, q: int| 0 <= g < groups@.len() && 0 <= q < groups@[g].1@.len() implies (#[trigger] groups@[g].1@[q]) < rows@.len()
                && rows@[groups@[g].1@[q] as int].surah == groups@[g].0 by {
                if g < g0.len() {
                    assert(groups@[g] == g0[g]);
                }
            }
            assert forall|g: int| 0 <= g < groups@.len() implies (#[trigger] groups@[g]).1@.len() > 0 by {
                if g < g0.len() {
                    assert(groups@[g] == g0[g]);
                }
            }
        }
    }
    assert(order@.take(order@.len() as int) =~= order@);
    groups
}

/// One profile of the derivation descriptor: `<id>@<version>:[<rules,>]`.
pub open spec fn profile_part(p: (String, String, Vec<String>)) -> Seq<char> {
    p.0@ + "@"@ + p.1@ + ":["@ + joined_with(string_views(p.2@), ","@) + "]"@
}

/// The derivation descriptor: the profile parts joined with `;`.
pub open spec fn descriptor_text(profiles: Seq<(String, String, Vec<String>)>) -> Seq<char> {
    joined_with(Seq::new(profiles.len(), |i: int| profile_part(profiles[i])), ";"@)
}

/// Derivation descriptor of the latest profiles, given in registry order
/// as `(id, version, rules)`.
pub fn parameters_descriptor(profiles: &[(String, String, Vec<String>)]) -> (r: String)
    ensures
        r@ == descriptor_text(profiles@),
{
    let mut parts: Vec<String> = Vec::new();
    let mut i: usize = 0;
    while i < profiles.len()
        invariant
            i <= profiles.len(),
            string_views(parts@) == Seq::new(i as nat, |k: int| profile_part(profiles@[k])),
        decreases profiles.len() - i,
    {
        let (id, version, rules) = &profiles[i];
        let mut part = concat3(id.as_str(), "@", version.as_str());
        append_str(&mut part, ":[");
        let joined = join_strings(rules.as_slice(), ",");
        append_str(&mut part, joined.as_str());
        append_str(&mut part, "]");
        proof {
            assert(part@ == profile_part(profiles@[i as int]));
        }
        let ghost before = parts@;
        parts.push(part);
        proof {
            assert(string_views(parts@) =~= string_views(before).push(part@));
            assert(string_views(parts@) =~= Seq::new((i + 1) as nat, |k: int| profile_part(profiles@[k])));
        }
        i = i + 1;
    }
    join_strings(parts.as_slice(), ";")
}

/// Provenance id of a forms rebuild, content-addressed over the edition,
/// the generation and the descriptor:
/// `prov-forms-<slug>-<version>-g<generation>-<first 12 hex digits of
/// sha256("<urn>|<generation>|sha256:<sha256(descriptor)>")>`.
pub fn forms_provenance_id(edition_urn: &str, slug: &str, version: &str, generation: i64, descriptor: &str) -> (r: String)
    ensures
        r@ == "prov-forms-"@ + slug@ + "-"@ + version@ + "-g"@ + signed_decimal(generation as int) + "-"@
            + crate::neardup::sha256_hex_of(
            edition_urn@ + "|"@ + signed_decimal(generation as int) + "|"@ + "sha256:"@
                + crate::neardup::sha256_hex_of(descriptor@),
        ).take(12),
{
    let parameters_hex = crate::neardup::sha256_hex(descriptor);
    let mut seed = concat2(edition_urn, "|");
    push_signed(&mut seed, generation);
    append_str(&mut seed, "|sha256:");
    append_str(&mut seed, parameters_hex.as_str());
    proof {
        reveal_strlit("|sha256:");
        reveal_strlit("|");
        reveal_strlit("sha256:");
        assert("|sha256:"@ =~= "|"@ + "sha256:"@);
    }
    let seed_hex = crate::neardup::sha256_hex(seed.as_str());
    let chars = chars_of(seed_hex.as_str());
    let short = string_of(slice_chars(chars.as_slice(), 0, 12).as_slice());
    let mut id = concat2("prov-forms-", slug);
    append_str(&mut id, "-");
    append_str(&mut id, version);
    append_str(&mut id, "-g");
    push_signed(&mut id, generation);
    append_str(&mut id, "-");
    append_str(&mut id, short.as_str());
    proof {
        assert(seed@ =~= edition_urn@ + "|"@ + signed_decimal(generation as int) + "|"@ + "sha256:"@
            + crate::neardup::sha256_hex_of(descriptor@));
    }
    id
}

} // verus!
