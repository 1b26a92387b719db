//! Command-line decisions: search options and their parsing, list and
//! `slug@version` arguments, and the exit code each failure maps to.

use vstd::prelude::*;
use crate::text::joined_with;
use crate::counting::CountingError;
use crate::diagnostics::{EXIT_CANCELLED, EXIT_CONFLICT, EXIT_INTERNAL, EXIT_NOT_FOUND, EXIT_POLICY, EXIT_USAGE, EXIT_VALIDATION};
use crate::morphology::{MorphologyErrorKind, MorphologyJobError, MorphologyToolError};
use crate::search::PhraseMode;
use crate::serving::{search_code_number, ExactField, NormalizationFaultKind, SearchError};
use crate::text::{chars_of, concat3, owned, parse_unsigned, parse_unsigned_chars, slice_chars, split_once, split_once_chars, str_eq, trim, trim_chars};

verus! {

/// Principal of a local command-line session.
pub const LOCAL_PRINCIPAL: &'static str = "00000000-0000-0000-0000-000000000000";

/// Search tool requested on the command line.
#[derive(Debug, Clone, Copy, PartialEq, Eq)]
pub enum SearchCliMode {
    /// Exact search (the default).
    Exact,
    /// Normalized search.
    Normalized,
    /// Phrase search.
    Phrase,
    /// Concatenated (spaceless) search.
    Concatenated,
    /// Regex search.
    Regex,
}

/// All `quran search` options.
#[derive(Debug, Clone)]
pub struct SearchCliOptions {
    /// Query text (or regex pattern).
    pub text: String,
    /// Tool selector.
    pub mode: SearchCliMode,
    /// Edition `slug@version`.
    pub edition: Option<String>,
    /// Exact-search field, or the regex field.
    pub field: Option<String>,
    /// Token match mode.
    pub match_mode: String,
    /// Registry profile.
    pub profile: Option<String>,
    /// Explicit rule list.
    pub rules: Option<String>,
    /// Phrase mode.
    pub phrase_mode: String,
    /// Max intervening tokens for near phrase modes.
    pub slop: u32,
    /// Allow window matches (concatenated only).
    pub allow_cross_ayah: bool,
    /// Max ayahs per window match.
    pub max_ayah_span: u32,
    /// Surah filter (`1,2,3`).
    pub surah: Option<String>,
    /// Juz filter (`2` or `1-5`).
    pub juz: Option<String>,
    /// Page filter (`3,4`).
    pub page: Option<String>,
    /// Revelation-place filter.
    pub revelation_place: Option<String>,
    /// Global ayah-index filter (`10-99`).
    pub global_range: Option<String>,
    /// Result cap (ceiling 1000).
    pub limit: u32,
    /// Result offset.
    pub offset: u32,
    /// Relevance order with score breakdowns.
    pub explain: bool,
    /// Wrap hit spans in display markers.
    pub highlight: bool,
    /// Regex budget in ms (ceiling 10000).
    pub timeout_ms: u64,
}

/// Result cap a search runs with: `limit` clamped to `1..=1000`.
pub fn search_limit(limit: u32) -> (r: u32)
    ensures
        r == (if limit < 1 {
            1
        } else if limit > 1000 {
            1000
        } else {
            limit
        }),
{
    if limit < 1 {
        1
    } else if limit > 1000 {
        1000
    } else {
        limit
    }
}

/// Regex budget: `timeout_ms` clamped to `1..=10000`.
pub fn regex_timeout(timeout_ms: u64) -> (r: u64)
    ensures
        r == (if timeout_ms < 1 {
            1
        } else if timeout_ms > 10000 {
            10000
        } else {
            timeout_ms
        }),
{
    if timeout_ms < 1 {
        1
    } else if timeout_ms > 10000 {
        10000
    } else {
        timeout_ms
    }
}

/// Window budget of concatenated search: at least one ayah.
pub fn ayah_span(max_ayah_span: u32) -> (r: u32)
    ensures
        r == (if max_ayah_span == 0 {
            1
        } else {
            max_ayah_span
        }),
{
    if max_ayah_span == 0 {
        1
    } else {
        max_ayah_span
    }
}

/// Exact-search field named on the command line (`text_exact` when none).
pub fn exact_field(field: Option<&str>) -> (r: Result<ExactField, String>)
    ensures
        ({
            let f = match field {
                Some(f) => f@,
                None => "text_exact"@,
            };
            &&& f == "text_exact"@ ==> r == Ok::<ExactField, String>(ExactField::TextExact)
            &&& f == "text_ws"@ ==> r == Ok::<ExactField, String>(ExactField::TextWs)
            &&& f != "text_exact"@ && f != "text_ws"@ ==> (r matches Err(m) && m@ == "unknown exact field `"@
                + f + "`; use `text_exact` or `text_ws`"@)
        }),
{
    proof {
        reveal_strlit("text_exact");
        reveal_strlit("text_ws");
        assert("text_exact"@.len() != "text_ws"@.len());
    }
    let f = match field {
        Some(f) => f,
        None => "text_exact",
    };
    if str_eq(f, "text_exact") {
        Ok(ExactField::TextExact)
    } else if str_eq(f, "text_ws") {
        Ok(ExactField::TextWs)
    } else {
        Err(concat3("unknown exact field `", f, "`; use `text_exact` or `text_ws`"))
    }
}

/// Phrase mode named on the command line.
pub fn phrase_mode(raw: &str) -> (r: Result<PhraseMode, String>)
    ensures
        raw@ == "ordered_exact"@ ==> r == Ok::<PhraseMode, String>(PhraseMode::OrderedExact),
        raw@ == "ordered_near"@ ==> r == Ok::<PhraseMode, String>(PhraseMode::OrderedNear),
        raw@ == "unordered_near"@ ==> r == Ok::<PhraseMode, String>(PhraseMode::UnorderedNear),
        raw@ != "ordered_exact"@ && raw@ != "ordered_near"@ && raw@ != "unordered_near"@ ==> (r matches Err(
            m,
        ) && m@ == "unknown phrase mode `"@ + raw@
            + "`; use `ordered_exact`, `ordered_near`, or `unordered_near`"@),
{
    proof {
        reveal_strlit("ordered_exact");
        reveal_strlit("ordered_near");
        reveal_strlit("unordered_near");
        assert("ordered_exact"@.len() != "ordered_near"@.len());
        assert("ordered_exact"@.len() != "unordered_near"@.len());
        assert("ordered_near"@[0] != "unordered_near"@[0]);
    }
    if str_eq(raw, "ordered_exact") {
        Ok(PhraseMode::OrderedExact)
    } else if str_eq(raw, "ordered_near") {
        Ok(PhraseMode::OrderedNear)
    } else if str_eq(raw, "unordered_near") {
        Ok(PhraseMode::UnorderedNear)
    } else {
        Err(
            concat3(
                "unknown phrase mode `",
                raw,
                "`; use `ordered_exact`, `ordered_near`, or `unordered_near`",
            ),
        )
    }
}

/// Exit code of a search failure: unknown rules or profiles and rejected
/// queries are usage errors, rate limits are policy, a missing index or
/// edition is not-found, the rest internal.
pub open spec fn search_exit(e: SearchError) -> i32 {
    match e {
        SearchError::Normalization { kind, .. } => match kind {
            NormalizationFaultKind::UnknownRule => EXIT_USAGE,
            NormalizationFaultKind::UnknownProfile => EXIT_USAGE,
            NormalizationFaultKind::Other => EXIT_INTERNAL,
        },
        SearchError::Index(_) => if search_code_number(e) == 2 {
            EXIT_USAGE
        } else if search_code_number(e) == 7 {
            EXIT_POLICY
        } else {
            EXIT_INTERNAL
        },
        SearchError::EditionNotIndexed { .. } => EXIT_NOT_FOUND,
        SearchError::NoServingIndex { .. } => EXIT_NOT_FOUND,
        SearchError::RateLimited { .. } => EXIT_POLICY,
        SearchError::Storage(_) => EXIT_INTERNAL,
    }
}

/// Exit code of a search failure.
pub fn search_exit_code(e: &SearchError) -> (r: i32)
    ensures
        r == search_exit(*e),
{
    match e {
        SearchError::Normalization { kind, .. } => match kind {
            NormalizationFaultKind::UnknownRule => EXIT_USAGE,
            NormalizationFaultKind::UnknownProfile => EXIT_USAGE,
            NormalizationFaultKind::Other => EXIT_INTERNAL,
        },
        SearchError::Index(_) => {
            let n = e.code().number;
            if n == 2 {
                EXIT_USAGE
            } else if n == 7 {
                EXIT_POLICY
            } else {
                EXIT_INTERNAL
            }
        },
        SearchError::EditionNotIndexed { .. } => EXIT_NOT_FOUND,
        SearchError::NoServingIndex { .. } => EXIT_NOT_FOUND,
        SearchError::RateLimited { .. } => EXIT_POLICY,
        SearchError::Storage(_) => EXIT_INTERNAL,
    }
}

/// Exit code of a counting failure.
pub fn counting_exit(e: &CountingError) -> (r: i32)
    ensures
        r == (match *e {
            CountingError::UnknownProfile(_) => EXIT_USAGE,
            CountingError::EmptyTarget => EXIT_USAGE,
            CountingError::UnavailableDataset { .. } => EXIT_NOT_FOUND,
            CountingError::ProfileNotCountable(_) => EXIT_VALIDATION,
            CountingError::Storage(_) => EXIT_INTERNAL,
        }),
{
    match e {
        CountingError::UnknownProfile(_) | CountingError::EmptyTarget => EXIT_USAGE,
        CountingError::UnavailableDataset { .. } => EXIT_NOT_FOUND,
        CountingError::ProfileNotCountable(_) => EXIT_VALIDATION,
        CountingError::Storage(_) => EXIT_INTERNAL,
    }
}

/// Exit code of a morphology job failure.
pub fn morphology_exit(e: &MorphologyJobError) -> (r: i32)
    ensures
        r == (match *e {
            MorphologyJobError::Cancelled => EXIT_CANCELLED,
            MorphologyJobError::BlockingFindings(..) => EXIT_VALIDATION,
            MorphologyJobError::UnmatchedRemaining(..) => EXIT_VALIDATION,
            MorphologyJobError::Approval(_) => EXIT_CONFLICT,
            MorphologyJobError::BadState { .. } => EXIT_CONFLICT,
            MorphologyJobError::CanonicalChanged => EXIT_CONFLICT,
            _ => EXIT_INTERNAL,
        }),
{
    match e {
        MorphologyJobError::Cancelled => EXIT_CANCELLED,
        MorphologyJobError::BlockingFindings(..) | MorphologyJobError::UnmatchedRemaining(..) =>
            EXIT_VALIDATION,
        MorphologyJobError::Approval(_) => EXIT_CONFLICT,
        MorphologyJobError::BadState { .. } => EXIT_CONFLICT,
        MorphologyJobError::CanonicalChanged => EXIT_CONFLICT,
        _ => EXIT_INTERNAL,
    }
}

/// Exit code of a morphology read-tool failure.
pub fn tool_exit(e: &MorphologyToolError) -> (r: i32)
    ensures
        r == (match *e {
            MorphologyToolError::UnavailableDataset { .. } => EXIT_NOT_FOUND,
            MorphologyToolError::UnavailablePatternField { .. } => EXIT_VALIDATION,
            MorphologyToolError::Morphology { kind, .. } => if kind
                == MorphologyErrorKind::UnknownDataset {
                EXIT_NOT_FOUND
            } else {
                EXIT_VALIDATION
            },
            MorphologyToolError::Storage(_) => EXIT_INTERNAL,
        }),
{
    match e {
        MorphologyToolError::UnavailableDataset { .. } => EXIT_NOT_FOUND,
        MorphologyToolError::UnavailablePatternField { .. } => EXIT_VALIDATION,
        MorphologyToolError::Morphology { kind, .. } => match kind {
            MorphologyErrorKind::UnknownDataset => EXIT_NOT_FOUND,
            _ => EXIT_VALIDATION,
        },
        MorphologyToolError::Storage(_) => EXIT_INTERNAL,
    }
}

/// `slug@version` with both parts non-empty.
pub open spec fn spec_pair(raw: Seq<char>) -> Option<(Seq<char>, Seq<char>)> {
    match split_once(raw, '@') {
        Some((slug, version)) => if slug.len() > 0 && version.len() > 0 {
            Some((slug, version))
        } else {
            None
        },
        None => None,
    }
}

fn slug_version(raw: &str) -> (r: Option<(String, String)>)
    ensures
        r is None <==> spec_pair(raw@) is None,
        r matches Some((s, v)) ==> spec_pair(raw@) == Some((s@, v@)),
{
    let chars = chars_of(raw);
    match split_once_chars(chars.as_slice(), '@') {
        Some((slug, version)) => {
            if slug.len() > 0 && version.len() > 0 {
                Some((crate::text::string_of(slug.as_slice()), crate::text::string_of(version.as_slice())))
            } else {
                None
            }
        },
        None => None,
    }
}

/// A dataset argument: `slug@version`.
pub fn dataset_spec(dataset: &str) -> (r: Result<(String, String), &'static str>)
    ensures
        r is Ok <==> spec_pair(dataset@) is Some,
        r matches Ok((s, v)) ==> spec_pair(dataset@) == Some((s@, v@)),
        r matches Err(m) ==> m@ == "use dataset slug@version"@,
{
    match slug_version(dataset) {
        Some(pair) => Ok(pair),
        None => Err("use dataset slug@version"),
    }
}

/// An edition argument: `slug@version`.
pub fn edition_spec(edition: &str) -> (r: Result<(String, String), &'static str>)
    ensures
        r is Ok <==> spec_pair(edition@) is Some,
        r matches Ok((s, v)) ==> spec_pair(edition@) == Some((s@, v@)),
        r matches Err(m) ==> m@ == "use --edition slug@version"@,
{
    match slug_version(edition) {
        Some(pair) => Ok(pair),
        None => Err("use --edition slug@version"),
    }
}

/// Parts of `s` between commas (`str::split(',')`), scanning from `i` with
/// the current part starting at `start`.
pub open spec fn comma_parts_from(s: Seq<char>, start: int, i: int) -> Seq<Seq<char>>
    decreases s.len() - i,
{
    if i >= s.len() {
        seq![s.subrange(start, s.len() as int)]
    } else if s[i] == ',' {
        seq![s.subrange(start, i)] + comma_parts_from(s, i + 1, i + 1)
    } else {
        comma_parts_from(s, start, i + 1)
    }
}

/// Parts of `s` between commas (`str::split(',')`).
pub open spec fn comma_parts(s: Seq<char>) -> Seq<Seq<char>> {
    comma_parts_from(s, 0, 0)
}

/// Every part, trimmed, parses as a number no larger than `max`; the
/// numbers in order.
pub open spec fn parse_list(parts: Seq<Seq<char>>, max: nat) -> Option<Seq<nat>>
    decreases parts.len(),
{
    if parts.len() == 0 {
        Some(Seq::empty())
    } else {
        match (parse_unsigned(trim(parts[0]), max), parse_list(parts.drop_first(), max)) {
            (Some(v), Some(rest)) => Some(seq![v] + rest),
            _ => None,
        }
    }
}

proof fn lemma_parse_list_append(a: Seq<Seq<char>>, b: Seq<Seq<char>>, max: nat)
    ensures
        parse_list(a + b, max) == (match (parse_list(a, max), parse_list(b, max)) {
            (Some(x), Some(y)) => Some(x + y),
            _ => None::<Seq<nat>>,
        }),
    decreases a.len(),
{
    if a.len() == 0 {
        assert(a + b =~= b);
        match parse_list(b, max) {
            Some(y) => {
                assert(Seq::<nat>::empty() + y =~= y);
            },
            None => {},
        }
    } else {
        assert((a + b).drop_first() =~= a.drop_first() + b);
        assert((a + b)[0] == a[0]);
        lemma_parse_list_append(a.drop_first(), b, max);
        match (parse_unsigned(trim(a[0]), max), parse_list(a.drop_first(), max), parse_list(b, max)) {
            (Some(v), Some(x), Some(y)) => {
                assert(seq![v] + (x + y) =~= (seq![v] + x) + y);
            },
            _ => {},
        }
    }
}

proof fn lemma_parse_list_bound(parts: Seq<Seq<char>>, max: nat)
    ensures
        parse_list(parts, max) matches Some(v) ==> forall|k: int| 0 <= k < v.len() ==> #[trigger] v[k] <= max,
    decreases parts.len(),
{
    if parts.len() > 0 {
        lemma_parse_list_bound(parts.drop_first(), max);
        match (parse_unsigned(trim(parts[0]), max), parse_list(parts.drop_first(), max)) {
            (Some(x), Some(rest)) => {
                assert forall|k: int| 0 <= k < (seq![x] + rest).len() implies #[trigger] (seq![x]
                    + rest)[k] <= max by {
                    if k > 0 {
                        assert((seq![x] + rest)[k] == rest[k - 1]);
                    }
                }
            },
            _ => {},
        }
    }
}

fn parse_number_list(raw: &str, max: u64) -> (r: Option<Vec<u64>>)
    ensures
        r is None <==> parse_list(comma_parts(raw@), max as nat) is None,
        r matches Some(v) ==> parse_list(comma_parts(raw@), max as nat) == Some(
            v@.map_values(|x: u64| x as nat),
        ),
{
    let s = chars_of(raw);
    let n = s.len();
    let mut out: Vec<u64> = Vec::new();
    let ghost mut done: Seq<Seq<char>> = Seq::empty();
    let mut start: usize = 0;
    let mut i: usize = 0;
    while i < n
        invariant
            s@ == raw@,
            n == s.len(),
            start <= i <= n,
            comma_parts(raw@) == done + comma_parts_from(raw@, start as int, i as int),
            parse_list(done, max as nat) == Some(out@.map_values(|x: u64| x as nat)),
        decreases n - i,
    {
        if s[i] == ',' {
            let piece = slice_chars(s.as_slice(), start, i);
            let part = trim_chars(piece.as_slice());
            match parse_unsigned_chars(part.as_slice(), max) {
                Some(v) => {
                    proof {
                        let cur = raw@.subrange(start as int, i as int);
                        assert(piece@ == cur);
                        assert(part@ == trim(cur));
                        assert(comma_parts_from(raw@, start as int, i as int) == seq![cur]
                            + comma_parts_from(raw@, i + 1, i + 1));
                        assert(done + (seq![cur] + comma_parts_from(raw@, i + 1, i + 1)) =~= done.push(
                            cur,
                        ) + comma_parts_from(raw@, i + 1, i + 1));
                        assert(parse_unsigned(part@, max as nat) == Some(v as nat));
                        assert(parse_list(seq![cur], max as nat) == Some(seq![v as nat])) by {
                            assert(seq![cur][0] == cur);
                            assert(parse_unsigned(trim(seq![cur][0]), max as nat) == Some(v as nat));
                            assert(seq![cur].drop_first() =~= Seq::<Seq<char>>::empty());
                            assert(parse_list(seq![cur].drop_first(), max as nat) == Some(
                                Seq::<nat>::empty(),
                            ));
                            assert(seq![v as nat] + Seq::<nat>::empty() =~= seq![v as nat]);
                        }
                        lemma_parse_list_append(done, seq![cur], max as nat);
                        assert(seq![cur].drop_first() =~= Seq::<Seq<char>>::empty());
                        assert(done + seq![cur] =~= done.push(cur));
                        done = done.push(cur);
                    }
                    let ghost before = out@;
                    out.push(v);
                    assert(out@.map_values(|x: u64| x as nat) =~= before.map_values(|x: u64| x as nat)
                        + seq![v as nat]);
                    start = i + 1;
                },
                None => {
                    proof {
                        let cur = raw@.subrange(start as int, i as int);
                        assert(piece@ == cur);
                        assert(comma_parts_from(raw@, start as int, i as int) == seq![cur]
                            + comma_parts_from(raw@, i + 1, i + 1));
                        assert(done + (seq![cur] + comma_parts_from(raw@, i + 1, i + 1)) =~= done
                            + seq![cur] + comma_parts_from(raw@, i + 1, i + 1));
                        lemma_parse_list_append(done + seq![cur], comma_parts_from(raw@, i + 1, i + 1), max as nat);
                        lemma_parse_list_append(done, seq![cur], max as nat);
                    }
                    return None;
                },
            }
        }
        i = i + 1;
    }
    let piece = slice_chars(s.as_slice(), start, n);
    let part = trim_chars(piece.as_slice());
    proof {
        let cur = raw@.subrange(start as int, n as int);
        assert(piece@ == cur);
        assert(comma_parts_from(raw@, start as int, n as int) == seq![cur]);
        lemma_parse_list_append(done, seq![cur], max as nat);
        assert(seq![cur].drop_first() =~= Seq::<Seq<char>>::empty());
    }
    match parse_unsigned_chars(part.as_slice(), max) {
        Some(v) => {
            proof {
                let cur = raw@.subrange(start as int, n as int);
                assert(part@ == trim(cur));
                assert(parse_list(seq![cur], max as nat) == Some(seq![v as nat])) by {
                    assert(seq![cur][0] == cur);
                    assert(seq![cur].drop_first() =~= Seq::<Seq<char>>::empty());
                    assert(seq![v as nat] + Seq::<nat>::empty() =~= seq![v as nat]);
                }
            }
            let ghost before = out@;
            out.push(v);
            assert(out@.map_values(|x: u64| x as nat) =~= before.map_values(|x: u64| x as nat) + seq![
                v as nat,
            ]);
            Some(out)
        },
        None => None,
    }
}

/// A surah list (`1,2,3`); any part that is not a number up to 65535 makes
/// a usage error naming the argument.
pub fn parse_id_list(raw: &str, what: &str) -> (r: Result<Vec<u16>, String>)
    ensures
        r is Ok <==> parse_list(comma_parts(raw@), u16::MAX as nat) is Some,
        r matches Ok(v) ==> parse_list(comma_parts(raw@), u16::MAX as nat) == Some(
            v@.map_values(|x: u16| x as nat),
        ),
        r matches Err(m) ==> m@ == "bad "@ + what@ + " list `"@ + raw@ + "`; use `1,2,3`"@,
{
    proof {
        lemma_parse_list_bound(comma_parts(raw@), u16::MAX as nat);
    }
    match parse_number_list(raw, 65535) {
        Some(v) => {
            assert forall|k: int| 0 <= k < v@.len() implies v@[k] <= 65535 by {
                let pl = parse_list(comma_parts(raw@), u16::MAX as nat);
                assert(pl == Some(v@.map_values(|x: u64| x as nat)));
                assert(pl->0[k] == v@[k] as nat);
                assert(pl->0[k] <= 65535);
            }
            let mut out: Vec<u16> = Vec::new();
            let mut i: usize = 0;
            while i < v.len()
                invariant
                    i <= v.len(),
                    forall|k: int| 0 <= k < v@.len() ==> v@[k] <= 65535,
                    out@.map_values(|x: u16| x as nat) == v@.map_values(|x: u64| x as nat).take(
                        i as int,
                    ),
                decreases v.len() - i,
            {
                let ghost before = out@;
                let x = v[i] as u16;
                out.push(x);
                assert(out@.map_values(|x: u16| x as nat) =~= before.map_values(|x: u16| x as nat).push(
                    x as nat,
                ));
                assert(out@.map_values(|x: u16| x as nat) =~= v@.map_values(|x: u64| x as nat).take(
                    i + 1,
                ));
                i = i + 1;
            }
            assert(v@.map_values(|x: u64| x as nat).take(v.len() as int) =~= v@.map_values(
                |x: u64| x as nat,
            ));
            Ok(out)
        },
        None => {
            let mut m = concat3("bad ", what, " list `");
            crate::text::append_str(&mut m, raw);
            crate::text::append_str(&mut m, "`; use `1,2,3`");
            Err(m)
        },
    }
}

proof fn lemma_joined_prepend(x: Seq<char>, rest: Seq<Seq<char>>, sep: Seq<char>)
    ensures
        joined_with(seq![x] + rest, sep) == (if rest.len() == 0 {
            x
        } else {
            x + sep + joined_with(rest, sep)
        }),
    decreases rest.len(),
{
    let all = seq![x] + rest;
    if rest.len() == 0 {
        assert(all.len() == 1);
        assert(all[0] == x);
    } else if rest.len() == 1 {
        assert(all.drop_last() =~= seq![x]);
        assert(all.last() == rest[0]);
        assert(joined_with(seq![x], sep) == x);
    } else {
        lemma_joined_prepend(x, rest.drop_last(), sep);
        assert(all.drop_last() =~= seq![x] + rest.drop_last());
        assert(all.last() == rest.last());
        assert(x + sep + joined_with(rest.drop_last(), sep) + sep + rest.last() =~= x + sep + (joined_with(
            rest.drop_last(),
            sep,
        ) + sep + rest.last()));
    }
}

proof fn lemma_comma_parts_from(s: Seq<char>, start: int, i: int)
    requires
        0 <= start <= i <= s.len(),
        forall|j: int| start <= j < i ==> s[j] != ',',
    ensures
        comma_parts_from(s, start, i).len() >= 1,
        joined_with(comma_parts_from(s, start, i), seq![',']) == s.subrange(start, s.len() as int),
        forall|k: int, j: int|
            0 <= k < comma_parts_from(s, start, i).len() && 0 <= j < comma_parts_from(s, start, i)[k].len()
                ==> #[trigger] comma_parts_from(s, start, i)[k][j] != ',',
    decreases s.len() - i,
{
    let parts = comma_parts_from(s, start, i);
    if i >= s.len() {
        assert(parts == seq![s.subrange(start, s.len() as int)]);
        assert(joined_with(parts, seq![',']) == parts[0]);
        assert forall|k: int, j: int| 0 <= k < parts.len() && 0 <= j < parts[k].len() implies #[trigger] parts[k][j] != ',' by {
            assert(parts[k][j] == s[start + j]);
        }
    } else if s[i] == ',' {
        lemma_comma_parts_from(s, i + 1, i + 1);
        let head = s.subrange(start, i);
        let rest = comma_parts_from(s, i + 1, i + 1);
        assert(parts == seq![head] + rest);
        lemma_joined_prepend(head, rest, seq![',']);
        assert(head + seq![','] + s.subrange(i + 1, s.len() as int) =~= s.subrange(start, s.len() as int));
        assert forall|k: int, j: int| 0 <= k < parts.len() && 0 <= j < parts[k].len() implies #[trigger] parts[k][j] != ',' by {
            if k == 0 {
                assert(parts[0] == head);
                assert(head[j] == s[start + j]);
            } else {
                assert(parts[k] == rest[k - 1]);
                assert(rest[k - 1][j] != ',');
            }
        }
    } else {
        lemma_comma_parts_from(s, start, i + 1);
    }
}

/// Splitting at commas loses nothing and keeps no comma: no part holds a
/// comma, and the parts joined with commas give back the text.
pub proof fn comma_parts_law(s: Seq<char>)
    ensures
        comma_parts(s).len() >= 1,
        joined_with(comma_parts(s), seq![',']) == s,
        forall|k: int, j: int|
            0 <= k < comma_parts(s).len() && 0 <= j < comma_parts(s)[k].len() ==> #[trigger] comma_parts(s)[k][j] != ',',
{
    lemma_comma_parts_from(s, 0, 0);
    assert(s.subrange(0, s.len() as int) =~= s);
}

/// A list parses exactly when each of its parts, trimmed, parses as a
/// number no larger than `max`, and then it gives those numbers in order.
pub proof fn parse_list_law(parts: Seq<Seq<char>>, max: nat)
    ensures
        parse_list(parts, max) is Some <==> forall|i: int|
            0 <= i < parts.len() ==> #[trigger] parse_unsigned(trim(parts[i]), max) is Some,
        parse_list(parts, max) matches Some(v) ==> v.len() == parts.len() && forall|i: int|
            0 <= i < parts.len() ==> parse_unsigned(trim(parts[i]), max) == Some(#[trigger] v[i]),
    decreases parts.len(),
{
    if parts.len() > 0 {
        let rest = parts.drop_first();
        parse_list_law(rest, max);
        assert forall|i: int| 0 < i < parts.len() implies parts[i] == rest[i - 1] by {}
        if forall|i: int| 0 <= i < parts.len() ==> #[trigger] parse_unsigned(trim(parts[i]), max) is Some {
            assert(parse_unsigned(trim(parts[0]), max) is Some);
            assert forall|i: int| 0 <= i < rest.len() implies #[trigger] parse_unsigned(trim(rest[i]), max) is Some by {
                assert(parse_unsigned(trim(parts[i + 1]), max) is Some);
            }
        }
        if parse_list(parts, max) is Some {
            let v = parse_list(parts, max)->0;
            let w = parse_list(rest, max)->0;
            assert(v == seq![parse_unsigned(trim(parts[0]), max)->0] + w);
            assert forall|i: int| 0 <= i < parts.len() implies parse_unsigned(trim(parts[i]), max) == Some(
                #[trigger] v[i],
            ) by {
                if i > 0 {
                    assert(v[i] == w[i - 1]);
                    assert(parse_unsigned(trim(rest[i - 1]), max) == Some(w[i - 1]));
                }
            }
            assert forall|i: int| 0 <= i < parts.len() implies #[trigger] parse_unsigned(trim(parts[i]), max) is Some by {
                if i > 0 {
                    assert(parse_unsigned(trim(rest[i - 1]), max) == Some(w[i - 1]));
                }
            }
        }
    }
}

} // verus!
