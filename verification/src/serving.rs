//! Serving-side search decisions: index fields per profile, script names,
//! document ids, search failures and their diagnostics, candidate ordering
//! and paging, phrase recall bounds and window admission.

use vstd::prelude::*;
use crate::diagnostics::DiagnosticCode;
use crate::search::PhraseMode;
use crate::text::{
    chars_of, concat2, concat3, owned, parse_unsigned, parse_unsigned_chars, slice_chars,
    string_of, str_eq,
};

verus! {

/// The ayah-level index backing every search tool.
pub const SEARCH_INDEX_ID: &'static str = "quran.ayah.v1";

/// Exact-search field (`L0` identity or `L1` whitespace profile).
#[derive(Debug, Clone, Copy, PartialEq, Eq)]
pub enum ExactField {
    /// Canonical surface, no linguistic expansion.
    TextExact,
    /// After whitespace normalization only.
    TextWs,
}

impl ExactField {
    /// Name of the index field.
    pub fn field_id(self) -> (r: String)
        ensures
            r@ == (match self {
                ExactField::TextExact => "text_exact"@,
                ExactField::TextWs => "text_ws"@,
            }),
    {
        match self {
            ExactField::TextExact => owned("text_exact"),
            ExactField::TextWs => owned("text_ws"),
        }
    }
}

/// Normalization profile identifiers.
#[derive(Debug, Clone, Copy, PartialEq, Eq)]
pub enum ProfileId {
    L0,
    L1,
    L2,
    L3,
    L4,
    L5,
    L6,
    L7,
    L8,
}

/// Index field of a profile with ayah-level index columns (L0 to L5).
pub open spec fn field_for(id: ProfileId) -> Option<Seq<char>> {
    match id {
        ProfileId::L0 => Some("text_exact"@),
        ProfileId::L1 => Some("text_ws"@),
        ProfileId::L2 => Some("text_marks"@),
        ProfileId::L3 => Some("text_bare"@),
        ProfileId::L4 => Some("text_hamza"@),
        ProfileId::L5 => Some("text_folded"@),
        _ => None,
    }
}

/// Indexed field for a profile; heuristic, experimental and skeleton
/// profiles (L6 to L8) have none and scan instead.
pub fn indexed_field_for(id: ProfileId) -> (r: Option<String>)
    ensures
        r is None <==> field_for(id) is None,
        r matches Some(f) ==> field_for(id) == Some(f@),
{
    match id {
        ProfileId::L0 => Some(owned("text_exact")),
        ProfileId::L1 => Some(owned("text_ws")),
        ProfileId::L2 => Some(owned("text_marks")),
        ProfileId::L3 => Some(owned("text_bare")),
        ProfileId::L4 => Some(owned("text_hamza")),
        ProfileId::L5 => Some(owned("text_folded")),
        ProfileId::L6 | ProfileId::L7 | ProfileId::L8 => None,
    }
}

/// Script of an edition.
#[derive(Debug, Clone, PartialEq, Eq)]
pub enum Script {
    Uthmani,
    ImlaeiSimple,
    /// Any other script, by name.
    Other(String),
}

/// `raw` without the prefix `p`, when it starts with it.
pub open spec fn strip_prefix(raw: Seq<char>, p: Seq<char>) -> Option<Seq<char>> {
    if p.len() <= raw.len() && raw.take(p.len() as int) == p {
        Some(raw.skip(p.len() as int))
    } else {
        None
    }
}

/// Script named by a stored script string.
pub open spec fn script_of(raw: Seq<char>) -> (int, Seq<char>) {
    if raw == "uthmani"@ {
        (0, Seq::empty())
    } else if raw == "imlaei_simple"@ {
        (1, Seq::empty())
    } else {
        match strip_prefix(raw, "other:"@) {
            Some(name) => (2, name),
            None => (2, raw),
        }
    }
}

/// Kind and name of a script value.
pub open spec fn script_view(s: Script) -> (int, Seq<char>) {
    match s {
        Script::Uthmani => (0, Seq::empty()),
        Script::ImlaeiSimple => (1, Seq::empty()),
        Script::Other(name) => (2, name@),
    }
}

/// Parse a stored script name: the two known scripts, else `Other` with
/// any `other:` prefix removed.
pub fn parse_script(raw: &str) -> (r: Script)
    ensures
        script_view(r) == script_of(raw@),
{
    proof {
        reveal_strlit("uthmani");
        reveal_strlit("imlaei_simple");
        reveal_strlit("other:");
    }
    if str_eq(raw, "uthmani") {
        return Script::Uthmani;
    }
    if str_eq(raw, "imlaei_simple") {
        return Script::ImlaeiSimple;
    }
    let s = chars_of(raw);
    let p = chars_of("other:");
    if p.len() <= s.len() {
        let head = slice_chars(s.as_slice(), 0, p.len());
        if crate::text::chars_eq(head.as_slice(), p.as_slice()) {
            assert(raw@.take(p@.len() as int) =~= head@);
            let name = slice_chars(s.as_slice(), p.len(), s.len());
            assert(raw@.skip(p@.len() as int) =~= name@);
            return Script::Other(string_of(name.as_slice()));
        }
        assert(raw@.take(p@.len() as int) =~= head@);
    }
    Script::Other(owned(raw))
}

/// The parts of `s` split at `:` from the right, at most `k` of them (the
/// last keeps any remaining colons): `str::rsplitn(k, ':')`.
pub open spec fn rsplit_colon(s: Seq<char>, k: int) -> Seq<Seq<char>>
    decreases k,
{
    if k <= 1 {
        seq![s]
    } else {
        match last_colon(s) {
            None => seq![s],
            Some(p) => seq![s.skip(p + 1)] + rsplit_colon(s.take(p), k - 1),
        }
    }
}

/// Index of the last `:` in `s`.
pub open spec fn last_colon(s: Seq<char>) -> Option<int>
    decreases s.len(),
{
    if s.len() == 0 {
        None
    } else if s.last() == ':' {
        Some(s.len() - 1)
    } else {
        last_colon(s.drop_last())
    }
}

/// Part `i` of a split, or the empty string when there are fewer parts.
pub open spec fn part_or_empty(parts: Seq<Seq<char>>, i: int) -> Seq<char> {
    if 0 <= i < parts.len() {
        parts[i]
    } else {
        Seq::empty()
    }
}

/// Why a document id does not resolve to a served ayah.
#[derive(Debug, Clone, Copy, PartialEq, Eq)]
pub enum DocIdError {
    /// The id names another index or edition.
    OutsideCorpus,
    /// Surah or ayah is not a number.
    Unparseable,
}

/// Outcome of resolving a document id: `(surah, ayah)` or the failure.
pub open spec fn doc_id_spec(doc: Seq<char>, index_id: Seq<char>, edition_id: Seq<char>) -> Result<
    (int, int),
    DocIdError,
> {
    let parts = rsplit_colon(doc, 4);
    let ayah = part_or_empty(parts, 0);
    let surah = part_or_empty(parts, 1);
    let edition = part_or_empty(parts, 2);
    let index = part_or_empty(parts, 3);
    if index != index_id || edition != edition_id {
        Err(DocIdError::OutsideCorpus)
    } else {
        match (parse_unsigned(surah, u16::MAX as nat), parse_unsigned(ayah, u32::MAX as nat)) {
            (Some(s), Some(a)) => Ok((s as int, a as int)),
            _ => Err(DocIdError::Unparseable),
        }
    }
}

fn find_last_colon(s: &[char], len: usize) -> (r: Option<usize>)
    requires
        len <= s.len(),
    ensures
        r is None <==> last_colon(s@.take(len as int)) is None,
        r matches Some(p) ==> last_colon(s@.take(len as int)) == Some(p as int),
{
    let mut i: usize = len;
    while i > 0
        invariant
            i <= len <= s.len(),
            last_colon(s@.take(len as int)) == last_colon(s@.take(i as int)),
        decreases i,
    {
        assert(s@.take(i as int).drop_last() =~= s@.take(i - 1));
        if s[i - 1] == ':' {
            return Some(i - 1);
        }
        i = i - 1;
    }
    None
}

proof fn lemma_rsplit_unfold(s: Seq<char>, k: int, p: int)
    requires
        k > 1,
        last_colon(s) == Some(p),
        0 <= p < s.len(),
    ensures
        rsplit_colon(s, k) == seq![s.skip(p + 1)] + rsplit_colon(s.take(p), k - 1),
{
}

proof fn lemma_last_colon_bound(s: Seq<char>)
    ensures
        last_colon(s) matches Some(p) ==> 0 <= p < s.len() && s[p] == ':',
    decreases s.len(),
{
    if s.len() > 0 && s.last() != ':' {
        lemma_last_colon_bound(s.drop_last());
    }
}

/// Split at `:` from the right into at most four parts, padded with empty
/// parts: `(index, edition, surah, ayah)`.
fn split_doc_id(doc: &[char]) -> (r: (Vec<char>, Vec<char>, Vec<char>, Vec<char>))
    ensures
        r.3@ == part_or_empty(rsplit_colon(doc@, 4), 0),
        r.2@ == part_or_empty(rsplit_colon(doc@, 4), 1),
        r.1@ == part_or_empty(rsplit_colon(doc@, 4), 2),
        r.0@ == part_or_empty(rsplit_colon(doc@, 4), 3),
{
    let mut parts: Vec<Vec<char>> = Vec::new();
    let mut rest: usize = doc.len();
    let mut k: usize = 4;
    let ghost mut cur = doc@;
    let mut done = false;
    assert(doc@.take(doc.len() as int) =~= doc@);
    while k > 1 && !done
        invariant
            done ==> last_colon(cur) is None,
            1 <= k <= 4,
            rest <= doc.len(),
            cur == doc@.take(rest as int),
            parts@.len() == 4 - k,
            parts@.len() <= 3,
            rsplit_colon(doc@, 4) == parts@.map_values(|v: Vec<char>| v@) + rsplit_colon(
                cur,
                k as int,
            ),
        decreases k + (if done {
            0int
        } else {
            1int
        }),
    {
        match find_last_colon(doc, rest) {
            Some(p) => {
                proof {
                    lemma_last_colon_bound(cur);
                    lemma_rsplit_unfold(cur, k as int, p as int);
                }
                let tail = slice_chars(doc, p + 1, rest);
                assert(tail@ =~= cur.skip(p + 1));
                let ghost prev = parts@;
                parts.push(tail);
                proof {
                    assert(doc@.take(p as int) =~= cur.take(p as int));
                    assert(parts@.map_values(|v: Vec<char>| v@) =~= prev.map_values(
                        |v: Vec<char>| v@,
                    ).push(tail@));
                    assert(prev.map_values(|v: Vec<char>| v@) + rsplit_colon(cur, k as int)
                        =~= parts@.map_values(|v: Vec<char>| v@) + rsplit_colon(
                        cur.take(p as int),
                        k - 1,
                    ));
                    cur = cur.take(p as int);
                }
                rest = p;
                k = k - 1;
            },
            None => {
                done = true;
            },
        }
    }
    let last = slice_chars(doc, 0, rest);
    assert(last@ =~= cur);
    let ghost prev = parts@;
    parts.push(last);
    proof {
        assert(rsplit_colon(cur, k as int) == seq![cur]);
        assert(parts@.map_values(|v: Vec<char>| v@) =~= rsplit_colon(doc@, 4));
    }
    let ghost views = parts@.map_values(|v: Vec<char>| v@);
    let n = parts.len();
    let ayah = slice_chars(parts[0].as_slice(), 0, parts[0].len());
    assert(ayah@ =~= views[0]);
    let surah = if n > 1 {
        let v = slice_chars(parts[1].as_slice(), 0, parts[1].len());
        assert(v@ =~= views[1]);
        v
    } else {
        Vec::new()
    };
    let edition = if n > 2 {
        let v = slice_chars(parts[2].as_slice(), 0, parts[2].len());
        assert(v@ =~= views[2]);
        v
    } else {
        Vec::new()
    };
    let index = if n > 3 {
        let v = slice_chars(parts[3].as_slice(), 0, parts[3].len());
        assert(v@ =~= views[3]);
        v
    } else {
        Vec::new()
    };
    proof {
        assert(surah@ =~= part_or_empty(views, 1));
        assert(edition@ =~= part_or_empty(views, 2));
        assert(index@ =~= part_or_empty(views, 3));
    }
    (index, edition, surah, ayah)
}

/// Parse a document id (`<index>:<edition>:<surah>:<ayah>`) back to its
/// location, cross-checked against the serving index and edition: a hit
/// outside the served corpus is refused, never served.
pub fn parse_doc_id(doc_id: &str, index_id: &str, edition_id: &str) -> (r: Result<(u16, u32), DocIdError>)
    ensures
        r is Ok <==> doc_id_spec(doc_id@, index_id@, edition_id@) is Ok,
        r matches Ok((s, a)) ==> doc_id_spec(doc_id@, index_id@, edition_id@) == Ok::<
            (int, int),
            DocIdError,
        >((s as int, a as int)),
        r matches Err(e) ==> doc_id_spec(doc_id@, index_id@, edition_id@) == Err::<
            (int, int),
            DocIdError,
        >(e),
{
    let doc = chars_of(doc_id);
    let (index, edition, surah, ayah) = split_doc_id(doc.as_slice());
    let want_index = chars_of(index_id);
    let want_edition = chars_of(edition_id);
    if !crate::text::chars_eq(index.as_slice(), want_index.as_slice())
        || !crate::text::chars_eq(edition.as_slice(), want_edition.as_slice()) {
        return Err(DocIdError::OutsideCorpus);
    }
    let s = parse_unsigned_chars(surah.as_slice(), 65535);
    let a = parse_unsigned_chars(ayah.as_slice(), 4294967295);
    match (s, a) {
        (Some(s), Some(a)) => Ok((s as u16, a as u32)),
        _ => Err(DocIdError::Unparseable),
    }
}

impl DocIdError {
    /// Detail text of the failure for `doc_id`.
    pub fn detail(self, doc_id: &str) -> (r: String)
        ensures
            r@ == (match self {
                DocIdError::OutsideCorpus => "hit outside the serving corpus: "@ + doc_id@,
                DocIdError::Unparseable => "unparseable hit location: "@ + doc_id@,
            }),
    {
        match self {
            DocIdError::OutsideCorpus => concat2("hit outside the serving corpus: ", doc_id),
            DocIdError::Unparseable => concat2("unparseable hit location: ", doc_id),
        }
    }
}

/// Kind of a normalization failure, as far as its diagnostic needs it.
#[derive(Debug, Clone, Copy, PartialEq, Eq)]
pub enum NormalizationFaultKind {
    /// A rule id is unknown.
    UnknownRule,
    /// A profile id is unknown.
    UnknownProfile,
    /// Any other normalization failure.
    Other,
}

/// An index-engine failure: its rendered code (`QAI-IDX-NNNN`), message
/// and remedy, as the engine reports them.
#[derive(Debug, Clone)]
pub struct IndexFault {
    /// Rendered diagnostic code.
    pub code: String,
    /// Message.
    pub message: String,
    /// Remedy, when the engine gives one.
    pub remedy: Option<String>,
}

/// Search-service failures.
#[derive(Debug, Clone)]
pub enum SearchError {
    /// Storage failure.
    Storage(String),
    /// Normalization failure.
    Normalization { kind: NormalizationFaultKind, message: String },
    /// Index-engine failure.
    Index(IndexFault),
    /// Requested edition is not the indexed one.
    EditionNotIndexed { requested: String, indexed: String },
    /// No serving generation exists (index never built).
    NoServingIndex { index_id: String },
    /// Regex budget exceeded for a principal.
    RateLimited { retry_after_secs: u64 },
}

/// The part of `s` after the last `c` (all of `s` when there is none):
/// `s.split(c).next_back()`.
pub open spec fn after_last(s: Seq<char>, c: char) -> Seq<char>
    decreases s.len(),
{
    if s.len() == 0 {
        s
    } else if s.last() == c {
        Seq::empty()
    } else {
        after_last(s.drop_last(), c).push(s.last())
    }
}

pub(crate) fn after_last_exec(s: &[char], c: char) -> (r: Vec<char>)
    ensures
        r@ == after_last(s@, c),
{
    let mut i: usize = s.len();
    assert(s@.take(i as int) =~= s@);
    assert(s@.skip(i as int) =~= Seq::<char>::empty());
    assert(s@ + Seq::<char>::empty() =~= s@);
    while i > 0 && s[i - 1] != c
        invariant
            i <= s.len(),
            after_last(s@, c) == after_last(s@.take(i as int), c) + s@.skip(i as int),
        decreases i,
    {
        proof {
            let t = s@.take(i as int);
            assert(t.drop_last() =~= s@.take(i - 1));
            assert(t.last() == s@[i - 1]);
            assert(after_last(t, c) == after_last(s@.take(i - 1), c).push(s@[i - 1]));
            assert(s@.skip(i - 1) =~= seq![s@[i - 1]] + s@.skip(i as int));
            assert(after_last(s@.take(i - 1), c).push(s@[i - 1]) + s@.skip(i as int)
                =~= after_last(s@.take(i - 1), c) + s@.skip(i - 1));
        }
        i = i - 1;
    }
    proof {
        if i > 0 {
            assert(s@.take(i as int).last() == c);
        }
        assert(after_last(s@.take(i as int), c) =~= Seq::<char>::empty());
    }
    let r = slice_chars(s, i, s.len());
    assert(r@ =~= s@.skip(i as int));
    r
}

/// Number a search failure reports in its diagnostic code.
pub open spec fn search_code_number(e: SearchError) -> nat {
    match e {
        SearchError::Storage(_) => 3,
        SearchError::Normalization { kind, .. } => match kind {
            NormalizationFaultKind::UnknownRule => 1,
            NormalizationFaultKind::UnknownProfile => 2,
            NormalizationFaultKind::Other => 5,
        },
        SearchError::Index(f) => match parse_unsigned(after_last(f.code@, '-'), u32::MAX as nat) {
            Some(n) => n,
            None => 3,
        },
        SearchError::EditionNotIndexed { .. } => 2,
        SearchError::NoServingIndex { .. } => 3,
        SearchError::RateLimited { .. } => 7,
    }
}

/// Namespace a search failure reports in its diagnostic code.
pub open spec fn search_code_namespace(e: SearchError) -> Seq<char> {
    match e {
        SearchError::Normalization { .. } => "QAI-NORM"@,
        _ => "QAI-IDX"@,
    }
}

impl SearchError {
    /// Diagnostic code; an engine failure keeps the number of its own code.
    pub fn code(&self) -> (c: DiagnosticCode)
        ensures
            c.namespace@ == search_code_namespace(*self),
            c.number == search_code_number(*self),
    {
        match self {
            SearchError::Storage(_) => DiagnosticCode::new("QAI-IDX", 3),
            SearchError::Normalization { kind, .. } => match kind {
                NormalizationFaultKind::UnknownRule => DiagnosticCode::new("QAI-NORM", 1),
                NormalizationFaultKind::UnknownProfile => DiagnosticCode::new("QAI-NORM", 2),
                NormalizationFaultKind::Other => DiagnosticCode::new("QAI-NORM", 5),
            },
            SearchError::Index(f) => {
                let rendered = chars_of(f.code.as_str());
                let tail = after_last_exec(rendered.as_slice(), '-');
                let number = match parse_unsigned_chars(tail.as_slice(), 4294967295) {
                    Some(n) => n as u32,
                    None => 3,
                };
                DiagnosticCode::new("QAI-IDX", number)
            },
            SearchError::EditionNotIndexed { .. } => DiagnosticCode::new("QAI-IDX", 2),
            SearchError::NoServingIndex { .. } => DiagnosticCode::new("QAI-IDX", 3),
            SearchError::RateLimited { .. } => DiagnosticCode::new("QAI-IDX", 7),
        }
    }

    /// Remedy shown with the failure.
    pub fn remedy(&self) -> (r: String)
        ensures
            r@ == (match *self {
                SearchError::Storage(_) => "Check the database and retry."@,
                SearchError::Normalization { .. } => "Check the profile seed against the code."@,
                SearchError::Index(f) => match f.remedy {
                    Some(m) => m@,
                    None => "See above."@,
                },
                SearchError::EditionNotIndexed { .. } =>
                    "Search the indexed edition, or build an index for the requested one."@,
                SearchError::NoServingIndex { .. } => "Run `qai quran index rebuild` first."@,
                SearchError::RateLimited { .. } => "See above."@,
            }),
    {
        match self {
            SearchError::Storage(_) => owned("Check the database and retry."),
            SearchError::Normalization { .. } => owned("Check the profile seed against the code."),
            SearchError::Index(f) => match &f.remedy {
                Some(m) => owned(m.as_str()),
                None => owned("See above."),
            },
            SearchError::EditionNotIndexed { .. } => owned(
                "Search the indexed edition, or build an index for the requested one.",
            ),
            SearchError::NoServingIndex { .. } => owned("Run `qai quran index rebuild` first."),
            SearchError::RateLimited { .. } => owned("See above."),
        }
    }

    /// Follow-up command: always the index doctor.
    pub fn next_command(&self) -> (r: String)
        ensures
            r@ == "qai doctor --indexes"@,
    {
        owned("qai doctor --indexes")
    }
}

/// Shared search-tool parameters.
#[derive(Debug, Clone)]
pub struct SearchParams {
    /// Query text.
    pub text: String,
    /// Edition `slug@version` (defaults to the indexed edition).
    pub edition: Option<String>,
    /// Match mode.
    pub mode: crate::scan::MatchMode,
    /// Metadata filters.
    pub filters: Vec<crate::filter::Filter>,
    /// Result cap.
    pub limit: u32,
    /// Result offset.
    pub offset: u32,
    /// Relevance order with score breakdowns (indexed modes only).
    pub explain: bool,
    /// Wrap hit spans in display markers.
    pub highlight: bool,
}

/// Regex execution report.
#[derive(Debug, Clone)]
pub struct RegexReport {
    /// The pattern as given.
    pub pattern: String,
    /// Indexed field it ran against.
    pub field: String,
    /// Dictionary terms the pattern expanded to.
    pub terms_matched: Vec<String>,
    /// Dictionary terms examined during expansion.
    pub terms_examined: u64,
}

/// Tool output: the served hits (by location, in order) with exact totals
/// and provenance.
#[derive(Debug, Clone)]
pub struct SearchOutput {
    /// Hit locations in the order served.
    pub hits: Vec<(u16, u32)>,
    /// Exact matching-ayah count.
    pub total_matches: u64,
    /// Whether `limit` truncated the hit list.
    pub truncated: bool,
    /// Trace label of the profile that served the query.
    pub rule_set: String,
    /// Corpus generation indexed.
    pub generation: i64,
    /// Output-level advisories.
    pub warnings: Vec<String>,
    /// Regex provenance (`None` for other tools).
    pub regex_report: Option<RegexReport>,
}

/// The answer to a query with no terms: nothing matches (never everything).
pub fn empty_output(rule_set: String, generation: i64, warnings: Vec<String>) -> (r: SearchOutput)
    ensures
        r.hits@.len() == 0,
        r.total_matches == 0,
        !r.truncated,
        r.rule_set == rule_set,
        r.generation == generation,
        r.warnings == warnings,
        r.regex_report is None,
{
    SearchOutput {
        hits: Vec::new(),
        total_matches: 0,
        truncated: false,
        rule_set,
        generation,
        warnings,
        regex_report: None,
    }
}

} // verus!
