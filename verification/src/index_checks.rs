//! `doctor --indexes`: the checks over derived data (forms, indexes,
//! morphology, lexicon and the search smoke suite), as decisions over what
//! the catalog and the index engine report.
//!
//! Severity policy: missing optional subsystems are `Skipped`, stale but
//! servable state is `Warn`, and only corruption, dangling references or
//! failed tripwires are `Fail`.

use vstd::prelude::*;
use crate::counts::{kept_from, kept_values, kept_values_law, lemma_positions_step, positions_where};
use crate::rows::AyahRow;
use crate::forms::CanonicalCheck;
use crate::doctor::{check_view, pass, passed, CheckLevel, QuranDoctorCheck};
use crate::serving::SearchParams;
use crate::scan::MatchMode;
use crate::index::{increasing, sorted_distinct};
use crate::serving::strip_prefix;
use crate::text::{is_blank, str_is_blank, str_eq, chars_of, slice_chars, parse_unsigned_chars, parse_unsigned, decimal_string, joined_with, join_strings, string_views, append_str, concat2, owned, push_char, push_decimal, push_signed, decimal, signed_decimal};

verus! {

/// The index check ids, in report order.
pub const INDEX_CHECK_IDS: [&'static str; 19] = [
    "quran.normalization.profiles_loaded",
    "quran.normalization.idempotency",
    "quran.normalization.spanmap_sanity",
    "quran.forms.current",
    "quran.forms.coverage",
    "quran.canonical_unchanged",
    "quran.fts.ayah_index",
    "quran.fts.token_index",
    "quran.skeleton.index",
    "quran.index.drift",
    "quran.index.orphans",
    "quran.morphology.dataset_active",
    "quran.morphology.alignment",
    "quran.morphology.coverage",
    "quran.morphology.provenance",
    "quran.morphology.unverified_layer_d",
    "quran.lexicon.integrity",
    "quran.lexicon.root_unification_queue",
    "quran.search.smoke",
];

/// A check that carries a remedy and a follow-up command.
pub open spec fn noted(id: Seq<char>, level: CheckLevel, summary: Seq<char>, remedy: Seq<char>, next: Seq<char>) -> (
    Seq<char>,
    CheckLevel,
    Seq<char>,
    Option<Seq<char>>,
    Option<Seq<char>>,
) {
    (id, level, summary, Some(remedy), Some(next))
}

/// A check at `level` with a remedy and a follow-up command.
pub fn noted_check(id: &'static str, level: CheckLevel, summary: String, remedy: &str, next: &str) -> (c: QuranDoctorCheck)
    ensures
        check_view(c) == noted(id@, level, summary@, remedy@, next@),
{
    QuranDoctorCheck {
        id,
        status: level,
        summary,
        remedy: Some(owned(remedy)),
        next_command: Some(owned(next)),
    }
}


/// Nineteen checks carrying the index check ids in report order.
pub open spec fn in_report_order(v: Seq<QuranDoctorCheck>) -> bool {
    &&& v.len() == 19
    &&& forall|i: int| 0 <= i < 19 ==> (#[trigger] v[i]).id@ == INDEX_CHECK_IDS@[i]@
}

/// The `doctor --indexes` report: with no active edition every check is
/// skipped; otherwise the checks computed for the active edition, one per
/// id in report order. Either way the report holds nineteen checks.
pub fn index_checks(has_edition: bool, computed: Vec<QuranDoctorCheck>) -> (r: Vec<QuranDoctorCheck>)
    requires
        has_edition ==> in_report_order(computed@),
    ensures
        in_report_order(r@),
        has_edition ==> r@ == computed@,
        !has_edition ==> forall|i: int|
            0 <= i < 19 ==> check_view(#[trigger] r@[i]) == noted(
                INDEX_CHECK_IDS@[i]@,
                CheckLevel::Skipped,
                "no active Arabic edition"@,
                "import and activate an edition"@,
                "qai quran import --help"@,
            ),
{
    if has_edition {
        computed
    } else {
        let r = no_edition_index_checks();
        assert forall|i: int| 0 <= i < 19 implies (#[trigger] r@[i]).id@ == INDEX_CHECK_IDS@[i]@ by {
            assert(check_view(r@[i]).0 == INDEX_CHECK_IDS@[i]@);
        }
        r
    }
}

/// Every check skipped: there is no active edition to check.
pub fn no_edition_index_checks() -> (r: Vec<QuranDoctorCheck>)
    ensures
        r@.len() == 19,
        forall|i: int|
            0 <= i < 19 ==> check_view(#[trigger] r@[i]) == noted(
                INDEX_CHECK_IDS@[i]@,
                CheckLevel::Skipped,
                "no active Arabic edition"@,
                "import and activate an edition"@,
                "qai quran import --help"@,
            ),
{
    let mut r: Vec<QuranDoctorCheck> = Vec::new();
    let mut i: usize = 0;
    while i < 19
        invariant
            i <= 19,
            r@.len() == i,
            forall|k: int|
                0 <= k < i ==> check_view(#[trigger] r@[k]) == noted(
                    INDEX_CHECK_IDS@[k]@,
                    CheckLevel::Skipped,
                    "no active Arabic edition"@,
                    "import and activate an edition"@,
                    "qai quran import --help"@,
                ),
        decreases 19 - i,
    {
        let c = noted_check(
            INDEX_CHECK_IDS[i],
            CheckLevel::Skipped,
            owned("no active Arabic edition"),
            "import and activate an edition",
            "qai quran import --help",
        );
        r.push(c);
        i = i + 1;
    }
    r
}

/// Location of an ayah row.
pub open spec fn location(a: AyahRow) -> (i64, i64) {
    (a.surah, a.ayah)
}

/// Some picked row sits at location `l`.
pub open spec fn has_location(ayahs: Seq<AyahRow>, picks: Seq<usize>, l: (i64, i64)) -> bool {
    exists|k: int| 0 <= k < picks.len() && location(ayahs[#[trigger] picks[k] as int]) == l
}

/// Every seventh row from the first, at most two hundred of them.
pub open spec fn sevenths(n: int) -> Seq<usize> {
    let count = if (n + 6) / 7 <= 200 {
        (n + 6) / 7
    } else {
        200
    };
    Seq::new(count as nat, |i: int| (7 * i) as usize)
}

/// Rows a sampled check reads, by index: all of them when `deep`, else
/// every seventh row (at most two hundred) plus the first and the last
/// ayah when no sampled row already sits at their location.
pub open spec fn sampled(ayahs: Seq<AyahRow>, deep: bool) -> Seq<usize> {
    let n = ayahs.len() as int;
    if deep {
        Seq::new(n as nat, |i: int| i as usize)
    } else {
        let base = sevenths(n);
        let with_first = if n > 0 && !has_location(ayahs, base, location(ayahs[0])) {
            base.push(0usize)
        } else {
            base
        };
        if n > 0 && !has_location(ayahs, with_first, location(ayahs[n - 1])) {
            with_first.push((n - 1) as usize)
        } else {
            with_first
        }
    }
}

fn picks_location(ayahs: &[AyahRow], picks: &Vec<usize>, surah: i64, ayah: i64) -> (r: bool)
    requires
        forall|k: int| 0 <= k < picks@.len() ==> (#[trigger] picks@[k]) < ayahs@.len(),
    ensures
        r == has_location(ayahs@, picks@, (surah, ayah)),
{
    let mut k: usize = 0;
    while k < picks.len()
        invariant
            k <= picks@.len(),
            forall|j: int| 0 <= j < picks@.len() ==> (#[trigger] picks@[j]) < ayahs@.len(),
            forall|j: int|
                0 <= j < k ==> location(ayahs@[#[trigger] picks@[j] as int]) != (surah, ayah),
        decreases picks.len() - k,
    {
        let row = &ayahs[picks[k]];
        if row.surah == surah && row.ayah == ayah {
            assert(location(ayahs@[picks@[k as int] as int]) == (surah, ayah));
            return true;
        }
        k = k + 1;
    }
    false
}

/// Deterministic sampler over the corpus rows (see `sampled`).
pub fn sample_ayahs(ayahs: &[AyahRow], deep: bool) -> (r: Vec<usize>)
    ensures
        r@ == sampled(ayahs@, deep),
{
    let n = ayahs.len();
    let mut r: Vec<usize> = Vec::new();
    if deep {
        let mut i: usize = 0;
        while i < n
            invariant
                i <= n == ayahs@.len(),
                r@ =~= Seq::new(i as nat, |k: int| k as usize),
            decreases n - i,
        {
            r.push(i);
            i = i + 1;
        }
        return r;
    }
    let mut i: usize = 0;
    while i < n && r.len() < 200
        invariant
            n == ayahs@.len(),
            r@.len() <= 200,
            i == 7 * r@.len(),
            i <= n + 6,
            r.len() < 200 ==> (i <= n || r.len() == (n + 6) / 7),
            i < n ==> r@.len() <= (n + 6) / 7,
            forall|k: int| 0 <= k < r@.len() ==> #[trigger] r@[k] == (7 * k) as usize,
            forall|k: int| 0 <= k < r@.len() ==> (#[trigger] r@[k]) < n,
        decreases n + 7 - i,
    {
        r.push(i);
        i = i + 7;
    }
    proof {
        assert(r@ =~= sevenths(n as int));
    }
    if n > 0 && !picks_location(ayahs, &r, ayahs[0].surah, ayahs[0].ayah) {
        r.push(0);
    }
    if n > 0 && !picks_location(ayahs, &r, ayahs[n - 1].surah, ayahs[n - 1].ayah) {
        r.push(n - 1);
    }
    r
}


/// Parameters of a smoke-suite search: whole-token mode, no filters, one
/// hundred hits from the start, no explain or highlight.
pub fn smoke_search_params(text: String) -> (r: SearchParams)
    ensures
        r.text == text,
        r.edition is None,
        r.mode == MatchMode::WholeToken,
        r.filters@.len() == 0,
        r.limit == 100,
        r.offset == 0,
        !r.explain,
        !r.highlight,
{
    SearchParams {
        text,
        edition: None,
        mode: MatchMode::WholeToken,
        filters: Vec::new(),
        limit: 100,
        offset: 0,
        explain: false,
        highlight: false,
    }
}

/// `quran.forms.coverage`: every token and ayah has derived forms.
pub fn forms_coverage_check(token_total: i64, token_forms: i64, ayah_forms: i64, ayah_total: i64) -> (c: QuranDoctorCheck)
    ensures
        check_view(c) == (if token_total > 0 && token_forms == 0 && ayah_forms == 0 {
            noted(
                "quran.forms.coverage"@,
                CheckLevel::Skipped,
                "derived forms not built"@,
                "rebuild derived forms for the active edition"@,
                "qai quran forms rebuild"@,
            )
        } else if token_forms == token_total && ayah_forms == ayah_total {
            passed(
                "quran.forms.coverage"@,
                "every token ("@ + signed_decimal(token_total as int) + ") and ayah ("@
                    + signed_decimal(ayah_total as int) + ") has derived forms"@,
            )
        } else {
            noted(
                "quran.forms.coverage"@,
                CheckLevel::Fail,
                "forms cover "@ + signed_decimal(token_forms as int) + "/"@ + signed_decimal(
                    token_total as int,
                ) + " tokens and "@ + signed_decimal(ayah_forms as int) + "/"@ + signed_decimal(
                    ayah_total as int,
                ) + " ayahs"@,
                "rebuild derived forms; partial coverage means stale search fields"@,
                "qai quran forms rebuild"@,
            )
        }),
{
    let id = "quran.forms.coverage";
    let next = "qai quran forms rebuild";
    if token_total > 0 && token_forms == 0 && ayah_forms == 0 {
        return noted_check(
            id,
            CheckLevel::Skipped,
            owned("derived forms not built"),
            "rebuild derived forms for the active edition",
            next,
        );
    }
    if token_forms == token_total && ayah_forms == ayah_total {
        let mut m = owned("every token (");
        push_signed(&mut m, token_total);
        append_str(&mut m, ") and ayah (");
        push_signed(&mut m, ayah_total);
        append_str(&mut m, ") has derived forms");
        pass(id, m)
    } else {
        let mut m = owned("forms cover ");
        push_signed(&mut m, token_forms);
        append_str(&mut m, "/");
        push_signed(&mut m, token_total);
        append_str(&mut m, " tokens and ");
        push_signed(&mut m, ayah_forms);
        append_str(&mut m, "/");
        push_signed(&mut m, ayah_total);
        append_str(&mut m, " ayahs");
        noted_check(
            id,
            CheckLevel::Fail,
            m,
            "rebuild derived forms; partial coverage means stale search fields",
            next,
        )
    }
}

/// `quran.morphology.dataset_active`: the active dataset by slug and
/// version; none catalogued is an explicit skip, staged but none active a
/// warning.
pub fn dataset_active_check(active: Option<(&str, &str)>, n_datasets: usize) -> (c: QuranDoctorCheck)
    ensures
        check_view(c) == (match active {
            Some((slug, version)) => passed(
                "quran.morphology.dataset_active"@,
                "active morphology dataset "@ + slug@ + "@"@ + version@,
            ),
            None => if n_datasets == 0 {
                noted(
                    "quran.morphology.dataset_active"@,
                    CheckLevel::Skipped,
                    "no morphology datasets catalogued (explicit none)"@,
                    "import a morphology dataset to enable analysis checks"@,
                    "qai quran morphology import"@,
                )
            } else {
                noted(
                    "quran.morphology.dataset_active"@,
                    CheckLevel::Warn,
                    decimal(n_datasets as nat) + " datasets staged but none active"@,
                    "activate exactly one dataset"@,
                    "qai quran morphology import"@,
                )
            },
        }),
{
    let id = "quran.morphology.dataset_active";
    let next = "qai quran morphology import";
    match active {
        Some((slug, version)) => {
            let mut m = concat2("active morphology dataset ", slug);
            append_str(&mut m, "@");
            append_str(&mut m, version);
            pass(id, m)
        },
        None => if n_datasets == 0 {
            noted_check(
                id,
                CheckLevel::Skipped,
                owned("no morphology datasets catalogued (explicit none)"),
                "import a morphology dataset to enable analysis checks",
                next,
            )
        } else {
            let mut m = String::new();
            push_decimal(&mut m, n_datasets as u64);
            append_str(&mut m, " datasets staged but none active");
            noted_check(id, CheckLevel::Warn, m, "activate exactly one dataset", next)
        },
    }
}

/// Review items among the first `n` that are pending root unifications.
pub open spec fn pending_unifications(items: Seq<(String, String)>, n: int) -> nat
    decreases n,
{
    if n <= 0 {
        0
    } else {
        pending_unifications(items, n - 1) + if items[n - 1].0@ == "root_unification"@
            && items[n - 1].1@ == "pending"@ {
            1nat
        } else {
            0nat
        }
    }
}

/// `quran.lexicon.root_unification_queue`: how many root-unification
/// suggestions (review items as `(kind, status)`) await review.
pub fn unification_queue_check(items: &[(String, String)]) -> (c: QuranDoctorCheck)
    ensures
        check_view(c) == passed(
            "quran.lexicon.root_unification_queue"@,
            decimal(pending_unifications(items@, items@.len() as int))
                + " pending root-unification suggestions"@,
        ),
{
    let mut pending: u64 = 0;
    let mut i: usize = 0;
    while i < items.len()
        invariant
            i <= items@.len(),
            pending == pending_unifications(items@, i as int),
            pending <= i,
        decreases items.len() - i,
    {
        if str_eq(items[i].0.as_str(), "root_unification") && str_eq(items[i].1.as_str(), "pending") {
            pending = pending + 1;
        }
        i = i + 1;
    }
    let mut m = String::new();
    push_decimal(&mut m, pending);
    append_str(&mut m, " pending root-unification suggestions");
    pass("quran.lexicon.root_unification_queue", m)
}


/// Generation named by an index directory (`gen-<N>`), if it is one.
pub open spec fn generation_of_dir(name: Seq<char>) -> Option<nat> {
    match strip_prefix(name, "gen-"@) {
        Some(rest) => parse_unsigned(rest, u64::MAX as nat),
        None => None,
    }
}

/// Generations named by the first `n` directory names, in order.
pub open spec fn generation_dirs(names: Seq<Seq<char>>, n: int) -> Seq<u64>
    decreases n,
{
    if n <= 0 {
        Seq::empty()
    } else {
        match generation_of_dir(names[n - 1]) {
            Some(g) => generation_dirs(names, n - 1).push(g as u64),
            None => generation_dirs(names, n - 1),
        }
    }
}

fn dir_generation(name: &str) -> (r: Option<u64>)
    ensures
        r is None <==> generation_of_dir(name@) is None,
        r matches Some(g) ==> generation_of_dir(name@) == Some(g as nat),
{
    let c = chars_of(name);
    proof {
        reveal_strlit("gen-");
    }
    if c.len() >= 4 && c[0] == 'g' && c[1] == 'e' && c[2] == 'n' && c[3] == '-' {
        assert(name@.take(4) =~= "gen-"@);
        let rest = slice_chars(c.as_slice(), 4, c.len());
        assert(rest@ =~= name@.skip(4));
        parse_unsigned_chars(rest.as_slice(), u64::MAX)
    } else {
        proof {
            if c.len() >= 4 {
                assert(name@.take(4) != "gen-"@) by {
                    if name@.take(4) == "gen-"@ {
                        assert(name@.take(4)[0] == 'g');
                        assert(name@.take(4)[1] == 'e');
                        assert(name@.take(4)[2] == 'n');
                        assert(name@.take(4)[3] == '-');
                    }
                }
            }
        }
        None
    }
}

/// Generations the catalog tracks: every build run's and the pointer's.
pub open spec fn tracked_generations(run_generations: Seq<i64>, pointer: Option<i64>) -> Set<u64> {
    let runs = run_generations.map_values(|g: i64| g as u64).to_set();
    match pointer {
        Some(p) => runs.insert(p as u64),
        None => runs,
    }
}

fn is_tracked(run_generations: &[i64], pointer: Option<i64>, g: u64) -> (r: bool)
    ensures
        r == tracked_generations(run_generations@, pointer).contains(g),
{
    let ghost mapped = run_generations@.map_values(|x: i64| x as u64);
    if let Some(p) = pointer {
        if p as u64 == g {
            return true;
        }
    }
    let mut i: usize = 0;
    while i < run_generations.len()
        invariant
            i <= run_generations@.len(),
            mapped == run_generations@.map_values(|x: i64| x as u64),
            forall|k: int| 0 <= k < i ==> mapped[k] != g,
        decreases run_generations.len() - i,
    {
        if run_generations[i] as u64 == g {
            assert(mapped[i as int] == g);
            assert(mapped.to_set().contains(g));
            return true;
        }
        i = i + 1;
    }
    proof {
        if mapped.to_set().contains(g) {
            let k = choose|k: int| 0 <= k < mapped.len() && mapped[k] == g;
            assert(mapped[k] == g);
        }
    }
    false
}

/// Decimal renderings of a list of generations joined with `, `.
pub open spec fn generation_list(gs: Seq<u64>) -> Seq<char> {
    joined_with(gs.map_values(|g: u64| decimal(g as nat)), ", "@)
}

/// `quran.index.orphans`: on-disk generation directories (by name) that
/// neither a build run nor the serving pointer tracks, ascending.
pub fn index_orphans_check(dir_names: &[String], run_generations: &[i64], pointer: Option<i64>) -> (c: QuranDoctorCheck)
    ensures
        ({
            let on_disk = generation_dirs(string_views(dir_names@), dir_names@.len() as int);
            let known = tracked_generations(run_generations@, pointer);
            ||| (on_disk.to_set().subset_of(known) && check_view(c) == passed(
                "quran.index.orphans"@,
                decimal(on_disk.to_set().len()) + " on-disk generations all tracked"@,
            ))
            ||| (exists|orphans: Seq<u64>|
                increasing(orphans) && orphans.len() > 0 && orphans.to_set()
                    == on_disk.to_set().difference(known) && check_view(c) == noted(
                    "quran.index.orphans"@,
                    CheckLevel::Warn,
                    "orphaned on-disk generations: "@ + #[trigger] generation_list(orphans),
                    "remove them with retention GC"@,
                    "qai quran index gc"@,
                ))
        }),
{
    let ghost names = string_views(dir_names@);
    let mut found: Vec<u64> = Vec::new();
    let mut i: usize = 0;
    while i < dir_names.len()
        invariant
            i <= dir_names@.len(),
            names == string_views(dir_names@),
            found@ == generation_dirs(names, i as int),
        decreases dir_names.len() - i,
    {
        match dir_generation(dir_names[i].as_str()) {
            Some(g) => {
                found.push(g);
            },
            None => {},
        }
        i = i + 1;
    }
    let disk = sorted_distinct(found.as_slice());
    let mut orphans: Vec<u64> = Vec::new();
    let mut parts: Vec<String> = Vec::new();
    let mut j: usize = 0;
    while j < disk.len()
        invariant
            j <= disk@.len(),
            increasing(disk@),
            increasing(orphans@),
            orphans@.len() == parts@.len(),
            forall|k: int| 0 <= k < orphans@.len() ==> #[trigger] parts@[k]@ == decimal(orphans@[k] as nat),
            forall|k: int| 0 <= k < orphans@.len() ==> exists|m: int| 0 <= m < j && disk@[m] == #[trigger] orphans@[k],
            forall|x: u64| #[trigger] orphans@.contains(x) <==> (disk@.take(j as int).contains(x)
                && !tracked_generations(run_generations@, pointer).contains(x)),
        decreases disk.len() - j,
    {
        let g = disk[j];
        let ghost prev = orphans@;
        let keep = !is_tracked(run_generations, pointer, g);
        if keep {
            proof {
                assert forall|k: int| 0 <= k < orphans@.len() implies orphans@[k] < g by {
                    let m = choose|m: int| 0 <= m < j && disk@[m] == orphans@[k];
                }
            }
            orphans.push(g);
            parts.push(decimal_string(g));
        }
        proof {
            assert(disk@.take(j + 1) =~= disk@.take(j as int).push(g));
            assert forall|x: u64| #[trigger] orphans@.contains(x) <==> (disk@.take(j + 1).contains(x)
                && !tracked_generations(run_generations@, pointer).contains(x)) by {
                if keep {
                    assert(orphans@ == prev.push(g));
                    if orphans@.contains(x) && x != g {
                        let k = choose|k: int| 0 <= k < orphans@.len() && orphans@[k] == x;
                        assert(prev[k] == x);
                    }
                    if prev.contains(x) {
                        let k = choose|k: int| 0 <= k < prev.len() && prev[k] == x;
                        assert(orphans@[k] == x);
                    }
                    if x == g {
                        assert(orphans@[prev.len() as int] == g);
                    }
                }
                if disk@.take(j + 1).contains(x) && x != g {
                    let k = choose|k: int| 0 <= k < j + 1 && #[trigger] disk@.take(j + 1)[k] == x;
                    assert(disk@.take(j as int)[k] == x);
                }
                if disk@.take(j as int).contains(x) {
                    let k = choose|k: int| 0 <= k < j && #[trigger] disk@.take(j as int)[k] == x;
                    assert(disk@.take(j + 1)[k] == x);
                }
                if x == g {
                    assert(disk@.take(j + 1)[j as int] == g);
                }
            }
        }
        j = j + 1;
    }
    proof {
        assert(disk@.take(disk@.len() as int) =~= disk@);
        assert(orphans@.to_set() =~= disk@.to_set().difference(tracked_generations(run_generations@, pointer)));
        assert(string_views(parts@) =~= orphans@.map_values(|g: u64| decimal(g as nat)));
    }
    if orphans.len() == 0 {
        proof {
            assert(disk@.no_duplicates()) by {
                assert forall|a: int, b: int| 0 <= a < disk@.len() && 0 <= b < disk@.len() && a != b implies disk@[a] != disk@[b] by {
                    if a < b {
                        assert(disk@[a] < disk@[b]);
                    } else {
                        assert(disk@[b] < disk@[a]);
                    }
                }
            }
            disk@.unique_seq_to_set();
            assert forall|x: u64| found@.to_set().contains(x) implies tracked_generations(run_generations@, pointer).contains(x) by {
                assert(disk@.to_set().contains(x));
                if !tracked_generations(run_generations@, pointer).contains(x) {
                    assert(orphans@.to_set().contains(x));
                }
            }
        }
        let mut m = String::new();
        push_decimal(&mut m, disk.len() as u64);
        append_str(&mut m, " on-disk generations all tracked");
        pass("quran.index.orphans", m)
    } else {
        let mut m = owned("orphaned on-disk generations: ");
        let list = join_strings(parts.as_slice(), ", ");
        append_str(&mut m, list.as_str());
        let c = noted_check(
            "quran.index.orphans",
            CheckLevel::Warn,
            m,
            "remove them with retention GC",
            "qai quran index gc",
        );
        assert(check_view(c) == noted(
            "quran.index.orphans"@,
            CheckLevel::Warn,
            "orphaned on-disk generations: "@ + generation_list(orphans@),
            "remove them with retention GC"@,
            "qai quran index gc"@,
        ));
        c
    }
}


/// A profile's rule-set version as the serving manifest recorded it, beside
/// the version the profile registry holds now.
#[derive(Debug, Clone)]
pub struct RuleSetVersion {
    /// Profile id.
    pub profile: String,
    /// Version the index was built with.
    pub indexed: String,
    /// Version the registry holds (`unknown` when it holds none).
    pub current: String,
}

/// Drift notes for the first `n` profiles whose versions differ.
pub open spec fn profile_drifts(v: Seq<RuleSetVersion>, n: int) -> Seq<Seq<char>>
    decreases n,
{
    if n <= 0 {
        Seq::empty()
    } else if v[n - 1].indexed@ != v[n - 1].current@ {
        profile_drifts(v, n - 1).push(
            v[n - 1].profile@ + " indexed at "@ + v[n - 1].indexed@ + ", registry at "@ + v[n
                - 1].current@,
        )
    } else {
        profile_drifts(v, n - 1)
    }
}

/// Everything that makes the served inputs stale.
pub open spec fn drift_notes(served: u64, versions: Seq<RuleSetVersion>, active: i64) -> Seq<Seq<char>> {
    let head = if (served as i64) != active {
        seq![
            "corpus generation "@ + decimal(served as nat) + " served, "@ + signed_decimal(
                active as int,
            ) + " active"@,
        ]
    } else {
        Seq::empty()
    };
    head + profile_drifts(versions, versions.len() as int)
}

/// `quran.index.drift`: whether the serving generation's inputs (from its
/// manifest: the corpus generation and the rule-set versions, or the parse
/// error) still match the active corpus and the profile registry.
pub fn index_drift_check(
    pointer_generation: Option<i64>,
    manifest: &Result<(u64, Vec<RuleSetVersion>), String>,
    active_generation: i64,
) -> (c: QuranDoctorCheck)
    ensures
        check_view(c) == (match pointer_generation {
            None => noted(
                "quran.index.drift"@,
                CheckLevel::Skipped,
                "ayah index not built"@,
                "build an index generation"@,
                "qai quran index rebuild"@,
            ),
            Some(g) => match manifest {
                Err(e) => noted(
                    "quran.index.drift"@,
                    CheckLevel::Fail,
                    "serving manifest corrupt: "@ + e@,
                    "rebuild the index"@,
                    "qai quran index rebuild"@,
                ),
                Ok((served, versions)) => {
                    let notes = drift_notes(*served, versions@, active_generation);
                    if notes.len() == 0 {
                        passed(
                            "quran.index.drift"@,
                            "gen-"@ + signed_decimal(g as int) + " inputs match corpus generation "@
                                + signed_decimal(active_generation as int),
                        )
                    } else {
                        noted(
                            "quran.index.drift"@,
                            CheckLevel::Warn,
                            "stale index inputs: "@ + joined_with(notes, "; "@),
                            "rebuild the index to refresh derived inputs"@,
                            "qai quran index rebuild"@,
                        )
                    }
                },
            },
        }),
{
    let id = "quran.index.drift";
    let next = "qai quran index rebuild";
    let g = match pointer_generation {
        None => {
            return noted_check(
                id,
                CheckLevel::Skipped,
                owned("ayah index not built"),
                "build an index generation",
                next,
            );
        },
        Some(g) => g,
    };
    match manifest {
        Err(e) => noted_check(
            id,
            CheckLevel::Fail,
            concat2("serving manifest corrupt: ", e.as_str()),
            "rebuild the index",
            next,
        ),
        Ok((served, versions)) => {
            let mut notes: Vec<String> = Vec::new();
            if *served as i64 != active_generation {
                let mut m = owned("corpus generation ");
                push_decimal(&mut m, *served);
                append_str(&mut m, " served, ");
                push_signed(&mut m, active_generation);
                append_str(&mut m, " active");
                notes.push(m);
            }
            let ghost head = string_views(notes@);
            let mut i: usize = 0;
            while i < versions.len()
                invariant
                    i <= versions@.len(),
                    string_views(notes@) == head + profile_drifts(versions@, i as int),
                decreases versions.len() - i,
            {
                let v = &versions[i];
                if !str_eq(v.indexed.as_str(), v.current.as_str()) {
                    let mut m = owned(v.profile.as_str());
                    append_str(&mut m, " indexed at ");
                    append_str(&mut m, v.indexed.as_str());
                    append_str(&mut m, ", registry at ");
                    append_str(&mut m, v.current.as_str());
                    let ghost before = notes@;
                    notes.push(m);
                    assert(string_views(notes@) =~= string_views(before).push(m@));
                }
                i = i + 1;
            }
            proof {
                assert(string_views(notes@) =~= drift_notes(*served, versions@, active_generation));
            }
            if notes.len() == 0 {
                let mut m = owned("gen-");
                push_signed(&mut m, g);
                append_str(&mut m, " inputs match corpus generation ");
                push_signed(&mut m, active_generation);
                pass(id, m)
            } else {
                let list = join_strings(notes.as_slice(), "; ");
                noted_check(
                    id,
                    CheckLevel::Warn,
                    concat2("stale index inputs: ", list.as_str()),
                    "rebuild the index to refresh derived inputs",
                    next,
                )
            }
        },
    }
}


/// One analysis row as the morphology checks read it.
#[derive(Debug, Clone)]
pub struct ProbedAnalysis {
    /// Provenance layer (`B`, `D`, ...).
    pub layer: String,
    /// Provenance status (`human_verified`, ...).
    pub status: String,
    /// Lemma the analysis points at.
    pub lemma_id: Option<String>,
    /// Root the analysis points at.
    pub root_id: Option<String>,
}

/// Token-level morphology probe shared by the alignment, coverage and
/// provenance checks: how many tokens were sampled, how many carry an
/// analysis, the unmatched ones per surah (ascending by surah) and the
/// analyses read.
#[derive(Debug, Clone)]
pub struct MorphProbe {
    /// Whether a dataset is active.
    pub active: bool,
    /// Read failure that stopped the probe.
    pub error: Option<String>,
    /// Tokens sampled.
    pub tokens_sampled: usize,
    /// Sampled tokens with at least one analysis.
    pub tokens_covered: usize,
    /// Unmatched tokens per surah, ascending by surah.
    pub unmatched_by_surah: Vec<(i64, usize)>,
    /// Analyses of the covered tokens.
    pub analyses: Vec<ProbedAnalysis>,
}

/// Surahs strictly ascending (so each at most once).
pub open spec fn surahs_ascending(v: Seq<(i64, usize)>) -> bool {
    forall|i: int, j: int| 0 <= i < j < v.len() ==> (#[trigger] v[i]).0 < (#[trigger] v[j]).0
}

/// Sum of the counts of the entries (all of them, or those of surah `s`).
pub open spec fn unmatched_sum(v: Seq<(i64, usize)>, s: Option<i64>) -> nat
    decreases v.len(),
{
    if v.len() == 0 {
        0
    } else {
        unmatched_sum(v.drop_last(), s) + if s is None || s == Some(v.last().0) {
            v.last().1 as nat
        } else {
            0nat
        }
    }
}

/// Entry weight under the filter `s`.
pub open spec fn entry_weight(e: (i64, usize), s: Option<i64>) -> nat {
    if s is None || s == Some(e.0) {
        e.1 as nat
    } else {
        0
    }
}

proof fn lemma_sum_update(v: Seq<(i64, usize)>, p: int, x: (i64, usize), s: Option<i64>)
    requires
        0 <= p < v.len(),
    ensures
        unmatched_sum(v.update(p, x), s) + entry_weight(v[p], s) == unmatched_sum(v, s) + entry_weight(x, s),
    decreases v.len(),
{
    let u = v.update(p, x);
    if p < v.len() - 1 {
        assert(u.drop_last() =~= v.drop_last().update(p, x));
        lemma_sum_update(v.drop_last(), p, x, s);
    } else {
        assert(u.drop_last() =~= v.drop_last());
    }
}

proof fn lemma_sum_insert(v: Seq<(i64, usize)>, p: int, x: (i64, usize), s: Option<i64>)
    requires
        0 <= p <= v.len(),
    ensures
        unmatched_sum(v.insert(p, x), s) == unmatched_sum(v, s) + entry_weight(x, s),
    decreases v.len(),
{
    let u = v.insert(p, x);
    if p < v.len() {
        assert(u.drop_last() =~= v.drop_last().insert(p, x));
        assert(u.last() == v.last());
        lemma_sum_insert(v.drop_last(), p, x, s);
    } else {
        assert(u.drop_last() =~= v);
    }
}

impl MorphProbe {
    /// The probe's counts agree: every sampled token is covered or counted
    /// unmatched under its surah, and surahs are listed once, ascending.
    pub open spec fn consistent(&self) -> bool {
        &&& surahs_ascending(self.unmatched_by_surah@)
        &&& self.tokens_covered + unmatched_sum(self.unmatched_by_surah@, None) == self.tokens_sampled
    }

    /// A probe with no active dataset.
    pub fn inactive() -> (r: MorphProbe)
        ensures
            !r.active,
            r.error is None,
            r.tokens_sampled == 0,
            r.tokens_covered == 0,
            r.unmatched_by_surah@.len() == 0,
            r.analyses@.len() == 0,
            r.consistent(),
    {
        MorphProbe {
            active: false,
            error: None,
            tokens_sampled: 0,
            tokens_covered: 0,
            unmatched_by_surah: Vec::new(),
            analyses: Vec::new(),
        }
    }

    /// A probe over an active dataset, before any token is read.
    pub fn started() -> (r: MorphProbe)
        ensures
            r.active,
            r.error is None,
            r.tokens_sampled == 0,
            r.tokens_covered == 0,
            r.unmatched_by_surah@.len() == 0,
            r.analyses@.len() == 0,
            r.consistent(),
    {
        MorphProbe {
            active: true,
            error: None,
            tokens_sampled: 0,
            tokens_covered: 0,
            unmatched_by_surah: Vec::new(),
            analyses: Vec::new(),
        }
    }

    /// Record one sampled token of `surah` with the analyses read for it:
    /// none counts it unmatched under its surah, some count it covered and
    /// keep them.
    pub fn record(&mut self, surah: i64, rows: Vec<ProbedAnalysis>)
        requires
            old(self).consistent(),
            old(self).tokens_sampled < usize::MAX,
        ensures
            final(self).consistent(),
            final(self).active == old(self).active,
            final(self).error == old(self).error,
            final(self).tokens_sampled == old(self).tokens_sampled + 1,
            rows@.len() == 0 ==> final(self).tokens_covered == old(self).tokens_covered,
            rows@.len() > 0 ==> final(self).tokens_covered == old(self).tokens_covered + 1,
            forall|t: i64|
                #[trigger] unmatched_sum(final(self).unmatched_by_surah@, Some(t)) == unmatched_sum(
                    old(self).unmatched_by_surah@,
                    Some(t),
                ) + if t == surah && rows@.len() == 0 {
                    1nat
                } else {
                    0nat
                },
            final(self).analyses@ == old(self).analyses@ + rows@,
    {
        self.tokens_sampled = self.tokens_sampled + 1;
        if rows.len() > 0 {
            let mut rows = rows;
            let ghost before = self.analyses@;
            let ghost added = rows@;
            self.analyses.append(&mut rows);
            assert(self.analyses@ =~= before + added);
            self.tokens_covered = self.tokens_covered + 1;
            return;
        }
        let ghost before = self.unmatched_by_surah@;
        let n = self.unmatched_by_surah.len();
        let mut p: usize = 0;
        while p < n && self.unmatched_by_surah[p].0 < surah
            invariant
                p <= n == self.unmatched_by_surah@.len(),
                forall|j: int| 0 <= j < p ==> (#[trigger] self.unmatched_by_surah@[j]).0 < surah,
            decreases n - p,
        {
            p = p + 1;
        }
        if p < n && self.unmatched_by_surah[p].0 == surah {
            let count = self.unmatched_by_surah[p].1;
            proof {
                assert(unmatched_sum(before, None) >= entry_weight(before[p as int], None)) by {
                    lemma_sum_update(before, p as int, (surah, 0usize), None);
                }
            }
            let entry = (surah, count + 1);
            self.unmatched_by_surah.set(p, entry);
            proof {
                lemma_sum_update(before, p as int, entry, None);
                assert forall|t: i64| #[trigger] unmatched_sum(self.unmatched_by_surah@, Some(t)) == unmatched_sum(
                    before,
                    Some(t),
                ) + if t == surah {
                    1nat
                } else {
                    0nat
                } by {
                    lemma_sum_update(before, p as int, entry, Some(t));
                }
            }
        } else {
            let entry = (surah, 1usize);
            self.unmatched_by_surah.insert(p, entry);
            proof {
                lemma_sum_insert(before, p as int, entry, None);
                assert forall|t: i64| #[trigger] unmatched_sum(self.unmatched_by_surah@, Some(t)) == unmatched_sum(
                    before,
                    Some(t),
                ) + if t == surah {
                    1nat
                } else {
                    0nat
                } by {
                    lemma_sum_insert(before, p as int, entry, Some(t));
                }
                let u = self.unmatched_by_surah@;
                assert forall|a: int, b: int| 0 <= a < b < u.len() implies (#[trigger] u[a]).0 < (#[trigger] u[b]).0 by {
                    if b < p {
                        assert(u[a] == before[a] && u[b] == before[b]);
                    } else if b == p {
                        assert(u[a] == before[a]);
                    } else if a < p {
                        assert(u[a] == before[a] && u[b] == before[b - 1]);
                    } else if a == p {
                        assert(u[b] == before[b - 1]);
                        if b - 1 > p {
                            assert(before[p as int].0 < before[b - 1].0);
                        }
                    } else {
                        assert(u[a] == before[a - 1] && u[b] == before[b - 1]);
                    }
                }
            }
        }
    }
}

/// Most tokens a non-deep probe samples.
pub fn probe_cap(deep: bool) -> (r: usize)
    ensures
        r == (if deep {
            usize::MAX
        } else {
            2000
        }),
{
    if deep {
        usize::MAX
    } else {
        2000
    }
}


/// `a` ranks before `b` among unmatched counts: more tokens first, then the
/// lower surah.
pub open spec fn ranks_before(a: (i64, usize), b: (i64, usize)) -> bool {
    a.1 > b.1 || (a.1 == b.1 && a.0 < b.0)
}

/// Strictly ranked (so without repeats).
pub open spec fn ranked(s: Seq<(i64, usize)>) -> bool {
    forall|i: int, j: int| 0 <= i < j < s.len() ==> ranks_before(#[trigger] s[i], #[trigger] s[j])
}

fn ranks_before_exec(a: (i64, usize), b: (i64, usize)) -> (r: bool)
    ensures
        r == ranks_before(a, b),
{
    a.1 > b.1 || (a.1 == b.1 && a.0 < b.0)
}

/// The entries ranked, each once.
pub fn rank_unmatched(v: &[(i64, usize)]) -> (r: Vec<(i64, usize)>)
    ensures
        ranked(r@),
        r@.to_set() == v@.to_set(),
{
    let mut r: Vec<(i64, usize)> = Vec::new();
    let mut i: usize = 0;
    while i < v.len()
        invariant
            i <= v.len(),
            ranked(r@),
            r@.to_set() == v@.take(i as int).to_set(),
        decreases v.len() - i,
    {
        let c = v[i];
        let mut p: usize = 0;
        while p < r.len() && ranks_before_exec(r[p], c)
            invariant
                p <= r.len(),
                forall|j: int| 0 <= j < p ==> ranks_before(#[trigger] r@[j], c),
            decreases r.len() - p,
        {
            p = p + 1;
        }
        let ghost before = r@;
        if p < r.len() && r[p].0 == c.0 && r[p].1 == c.1 {
            assert(r@.to_set().contains(c));
        } else {
            r.insert(p, c);
            proof {
                assert forall|a: int, b: int| 0 <= a < b < r@.len() implies ranks_before(
                    #[trigger] r@[a],
                    #[trigger] r@[b],
                ) by {
                    if b < p {
                        assert(r@[a] == before[a] && r@[b] == before[b]);
                    } else if b == p {
                        assert(r@[a] == before[a]);
                    } else if a < p {
                        assert(r@[a] == before[a] && r@[b] == before[b - 1]);
                    } else if a == p {
                        assert(r@[b] == before[b - 1]);
                        assert(!ranks_before(before[p as int], c));
                        assert(before[p as int] != c);
                        if b - 1 > p {
                            assert(ranks_before(before[p as int], before[b - 1]));
                        }
                    } else {
                        assert(r@[a] == before[a - 1] && r@[b] == before[b - 1]);
                    }
                }
                assert(r@.to_set() =~= before.to_set().insert(c)) by {
                    assert forall|x: (i64, usize)| r@.to_set().contains(x) implies before.to_set().insert(
                        c,
                    ).contains(x) by {
                        let k = choose|k: int| 0 <= k < r@.len() && #[trigger] r@[k] == x;
                        if k < p {
                            assert(before[k] == x);
                        } else if k > p {
                            assert(before[k - 1] == x);
                        }
                    }
                    assert forall|x: (i64, usize)| before.to_set().insert(c).contains(x) implies r@.to_set().contains(
                        x,
                    ) by {
                        if x == c {
                            assert(r@[p as int] == c);
                        } else {
                            let k = choose|k: int| 0 <= k < before.len() && #[trigger] before[k] == x;
                            if k < p {
                                assert(r@[k] == x);
                            } else {
                                assert(r@[k + 1] == x);
                            }
                        }
                    }
                }
            }
        }
        proof {
            assert(v@.take(i + 1).to_set() =~= v@.take(i as int).to_set().insert(c)) by {
                assert forall|x: (i64, usize)| v@.take(i + 1).to_set().contains(x) implies v@.take(
                    i as int,
                ).to_set().insert(c).contains(x) by {
                    let k = choose|k: int| 0 <= k < i + 1 && #[trigger] v@.take(i + 1)[k] == x;
                    if k < i {
                        assert(v@.take(i as int)[k] == x);
                    }
                }
                assert forall|x: (i64, usize)| v@.take(i as int).to_set().insert(c).contains(x) implies v@.take(
                    i + 1,
                ).to_set().contains(x) by {
                    if x == c {
                        assert(v@.take(i + 1)[i as int] == c);
                    } else {
                        let k = choose|k: int| 0 <= k < i && #[trigger] v@.take(i as int)[k] == x;
                        assert(v@.take(i + 1)[k] == x);
                    }
                }
            }
            if p < before.len() && before[p as int] == c {
                assert(r@.to_set() =~= before.to_set().insert(c));
            }
        }
        i = i + 1;
    }
    assert(v@.take(v.len() as int) =~= v@);
    r
}

/// The first three entries (all of them when fewer).
pub open spec fn top_three(order: Seq<(i64, usize)>) -> Seq<(i64, usize)> {
    order.take(if order.len() < 3 {
        order.len() as int
    } else {
        3
    })
}

/// `surah <s>: <n>` for each entry, joined with `, `.
pub open spec fn surah_counts(v: Seq<(i64, usize)>) -> Seq<char> {
    joined_with(
        v.map_values(
            |e: (i64, usize)| "surah "@ + signed_decimal(e.0 as int) + ": "@ + decimal(e.1 as nat),
        ),
        ", "@,
    )
}

/// What a morphology check answers before it looks at counts: skipped
/// without an active dataset, failed when the probe could not read.
pub open spec fn probe_gate(id: Seq<char>, probe: MorphProbe) -> Option<(
    Seq<char>,
    CheckLevel,
    Seq<char>,
    Option<Seq<char>>,
    Option<Seq<char>>,
)> {
    if !probe.active {
        Some(
            noted(
                id,
                CheckLevel::Skipped,
                "no active morphology dataset"@,
                "import and activate a morphology dataset"@,
                "qai quran morphology import"@,
            ),
        )
    } else {
        match probe.error {
            Some(e) => Some(
                noted(
                    id,
                    CheckLevel::Fail,
                    "morphology probe failed: "@ + e@,
                    "check the database"@,
                    "qai quran morphology import"@,
                ),
            ),
            None => None,
        }
    }
}

fn gate_check(id: &'static str, probe: &MorphProbe) -> (r: Option<QuranDoctorCheck>)
    ensures
        r is None <==> probe_gate(id@, *probe) is None,
        r matches Some(c) ==> probe_gate(id@, *probe) == Some(check_view(c)),
{
    if !probe.active {
        return Some(
            noted_check(
                id,
                CheckLevel::Skipped,
                owned("no active morphology dataset"),
                "import and activate a morphology dataset",
                "qai quran morphology import",
            ),
        );
    }
    match &probe.error {
        Some(e) => Some(
            noted_check(
                id,
                CheckLevel::Fail,
                concat2("morphology probe failed: ", e.as_str()),
                "check the database",
                "qai quran morphology import",
            ),
        ),
        None => None,
    }
}

/// `quran.morphology.alignment`: every sampled token aligned, else the
/// unmatched total with the three surahs holding most of them.
pub fn alignment_check(probe: &MorphProbe) -> (c: QuranDoctorCheck)
    requires
        probe.consistent(),
    ensures
        probe_gate("quran.morphology.alignment"@, *probe) matches Some(g) ==> check_view(c) == g,
        probe_gate("quran.morphology.alignment"@, *probe) is None ==> {
            let unmatched = unmatched_sum(probe.unmatched_by_surah@, None);
            if unmatched == 0 {
                check_view(c) == passed(
                    "quran.morphology.alignment"@,
                    decimal(probe.tokens_sampled as nat) + " sampled tokens all aligned"@,
                )
            } else {
                exists|order: Seq<(i64, usize)>|
                    #[trigger] ranked(order) && order.to_set() == probe.unmatched_by_surah@.to_set()
                        && check_view(c) == noted(
                        "quran.morphology.alignment"@,
                        CheckLevel::Fail,
                        decimal(unmatched) + " unmatched tokens ("@ + surah_counts(top_three(order))
                            + ")"@,
                        "activation gates zero unmatched; re-import morphology for the active edition"@,
                        "qai quran morphology import"@,
                    )
            }
        },
{
    let id = "quran.morphology.alignment";
    match gate_check(id, probe) {
        Some(c) => {
            return c;
        },
        None => {},
    }
    let v = &probe.unmatched_by_surah;
    let mut unmatched: usize = 0;
    let mut i: usize = 0;
    while i < v.len()
        invariant
            i <= v@.len(),
            unmatched == unmatched_sum(v@.take(i as int), None),
            unmatched_sum(v@, None) <= usize::MAX,
            probe.consistent(),
            v@ == probe.unmatched_by_surah@,
        decreases v.len() - i,
    {
        proof {
            assert(v@.take(i + 1).drop_last() =~= v@.take(i as int));
            lemma_prefix_sum(v@, i + 1);
        }
        unmatched = unmatched + v[i].1;
        i = i + 1;
    }
    assert(v@.take(v@.len() as int) =~= v@);
    if unmatched == 0 {
        let mut m = String::new();
        push_decimal(&mut m, probe.tokens_sampled as u64);
        append_str(&mut m, " sampled tokens all aligned");
        return pass(id, m);
    }
    let order = rank_unmatched(v.as_slice());
    let take: usize = if order.len() < 3 {
        order.len()
    } else {
        3
    };
    let mut parts: Vec<String> = Vec::new();
    let mut k: usize = 0;
    while k < take
        invariant
            k <= take <= order@.len(),
            parts@.len() == k,
            forall|j: int|
                0 <= j < k ==> #[trigger] parts@[j]@ == "surah "@ + signed_decimal(order@[j].0 as int)
                    + ": "@ + decimal(order@[j].1 as nat),
        decreases take - k,
    {
        let mut m = owned("surah ");
        push_signed(&mut m, order[k].0);
        append_str(&mut m, ": ");
        push_decimal(&mut m, order[k].1 as u64);
        parts.push(m);
        k = k + 1;
    }
    proof {
        assert(string_views(parts@) =~= order@.take(take as int).map_values(
            |e: (i64, usize)| "surah "@ + signed_decimal(e.0 as int) + ": "@ + decimal(e.1 as nat),
        ));
    }
    let detail = join_strings(parts.as_slice(), ", ");
    let mut m = String::new();
    push_decimal(&mut m, unmatched as u64);
    append_str(&mut m, " unmatched tokens (");
    append_str(&mut m, detail.as_str());
    append_str(&mut m, ")");
    let c = noted_check(
        id,
        CheckLevel::Fail,
        m,
        "activation gates zero unmatched; re-import morphology for the active edition",
        "qai quran morphology import",
    );
    assert(check_view(c) == noted(
        "quran.morphology.alignment"@,
        CheckLevel::Fail,
        decimal(unmatched as nat) + " unmatched tokens ("@ + surah_counts(top_three(order@)) + ")"@,
        "activation gates zero unmatched; re-import morphology for the active edition"@,
        "qai quran morphology import"@,
    ));
    c
}

proof fn lemma_prefix_sum(v: Seq<(i64, usize)>, k: int)
    requires
        0 < k <= v.len(),
    ensures
        unmatched_sum(v.take(k), None) == unmatched_sum(v.take(k - 1), None) + v[k - 1].1,
        unmatched_sum(v.take(k), None) <= unmatched_sum(v, None),
    decreases v.len() - k,
{
    assert(v.take(k).drop_last() =~= v.take(k - 1));
    if k < v.len() {
        lemma_prefix_sum(v, k + 1);
    } else {
        assert(v.take(k) =~= v);
    }
}


/// `quran.morphology.coverage`: every sampled token carries an analysis.
pub fn coverage_check(probe: &MorphProbe) -> (c: QuranDoctorCheck)
    ensures
        probe_gate("quran.morphology.coverage"@, *probe) matches Some(g) ==> check_view(c) == g,
        probe_gate("quran.morphology.coverage"@, *probe) is None ==> check_view(c) == (
        if probe.tokens_covered == probe.tokens_sampled {
            passed(
                "quran.morphology.coverage"@,
                decimal(probe.tokens_covered as nat) + "/"@ + decimal(probe.tokens_sampled as nat)
                    + " sampled tokens covered"@,
            )
        } else {
            noted(
                "quran.morphology.coverage"@,
                CheckLevel::Fail,
                "coverage "@ + decimal(probe.tokens_covered as nat) + "/"@ + decimal(
                    probe.tokens_sampled as nat,
                ) + " sampled tokens"@,
                "re-import morphology for the active edition"@,
                "qai quran morphology import"@,
            )
        }),
{
    let id = "quran.morphology.coverage";
    match gate_check(id, probe) {
        Some(c) => {
            return c;
        },
        None => {},
    }
    if probe.tokens_covered == probe.tokens_sampled {
        let mut m = String::new();
        push_decimal(&mut m, probe.tokens_covered as u64);
        append_str(&mut m, "/");
        push_decimal(&mut m, probe.tokens_sampled as u64);
        append_str(&mut m, " sampled tokens covered");
        pass(id, m)
    } else {
        let mut m = owned("coverage ");
        push_decimal(&mut m, probe.tokens_covered as u64);
        append_str(&mut m, "/");
        push_decimal(&mut m, probe.tokens_sampled as u64);
        append_str(&mut m, " sampled tokens");
        noted_check(
            id,
            CheckLevel::Fail,
            m,
            "re-import morphology for the active edition",
            "qai quran morphology import",
        )
    }
}

/// Analyses among the first `n` whose layer is neither `B` nor `D`.
pub open spec fn unattributed(a: Seq<ProbedAnalysis>, n: int) -> nat
    decreases n,
{
    if n <= 0 {
        0
    } else {
        unattributed(a, n - 1) + if a[n - 1].layer@ != "B"@ && a[n - 1].layer@ != "D"@ {
            1nat
        } else {
            0nat
        }
    }
}

/// Layer-D analyses among the first `n` not yet human-verified.
pub open spec fn awaiting_review(a: Seq<ProbedAnalysis>, n: int) -> nat
    decreases n,
{
    if n <= 0 {
        0
    } else {
        awaiting_review(a, n - 1) + if a[n - 1].layer@ == "D"@ && a[n - 1].status@
            != "human_verified"@ {
            1nat
        } else {
            0nat
        }
    }
}

/// Review items that are root-unification suggestions still pending.
pub open spec fn pending_unification_at(items: Seq<(String, String)>) -> spec_fn(int) -> bool {
    |k: int| items[k].0@ == "root_unification"@ && items[k].1@ == "pending"@
}

/// The queue count is the number of review items that are pending
/// root-unification suggestions.
pub proof fn pending_unifications_law(items: Seq<(String, String)>, n: int)
    requires
        0 <= n,
    ensures
        pending_unifications(items, n) == positions_where(pending_unification_at(items), n).len(),
    decreases n,
{
    lemma_positions_step(pending_unification_at(items), 0);
    if n > 0 {
        pending_unifications_law(items, n - 1);
        lemma_positions_step(pending_unification_at(items), n - 1);
    }
}

/// Analyses whose layer is neither B nor D.
pub open spec fn unattributed_at(a: Seq<ProbedAnalysis>) -> spec_fn(int) -> bool {
    |k: int| a[k].layer@ != "B"@ && a[k].layer@ != "D"@
}

/// The unattributed count is the number of analyses whose layer is
/// neither B nor D.
pub proof fn unattributed_law(a: Seq<ProbedAnalysis>, n: int)
    requires
        0 <= n,
    ensures
        unattributed(a, n) == positions_where(unattributed_at(a), n).len(),
    decreases n,
{
    lemma_positions_step(unattributed_at(a), 0);
    if n > 0 {
        unattributed_law(a, n - 1);
        lemma_positions_step(unattributed_at(a), n - 1);
    }
}

/// Layer-D analyses not yet human-verified.
pub open spec fn awaiting_review_at(a: Seq<ProbedAnalysis>) -> spec_fn(int) -> bool {
    |k: int| a[k].layer@ == "D"@ && a[k].status@ != "human_verified"@
}

/// The awaiting-review count is the number of layer-D analyses not yet
/// human-verified.
pub proof fn awaiting_review_law(a: Seq<ProbedAnalysis>, n: int)
    requires
        0 <= n,
    ensures
        awaiting_review(a, n) == positions_where(awaiting_review_at(a), n).len(),
    decreases n,
{
    lemma_positions_step(awaiting_review_at(a), 0);
    if n > 0 {
        awaiting_review_law(a, n - 1);
        lemma_positions_step(awaiting_review_at(a), n - 1);
    }
}

/// No analyses to audit: a warning.
pub open spec fn no_analyses(id: Seq<char>) -> (
    Seq<char>,
    CheckLevel,
    Seq<char>,
    Option<Seq<char>>,
    Option<Seq<char>>,
) {
    noted(
        id,
        CheckLevel::Warn,
        "active dataset holds no analyses"@,
        "re-import morphology for the active edition"@,
        "qai quran morphology import"@,
    )
}

/// `quran.morphology.provenance`: every analysis carries Layer B or D
/// provenance.
pub fn provenance_check(probe: &MorphProbe) -> (c: QuranDoctorCheck)
    ensures
        probe_gate("quran.morphology.provenance"@, *probe) matches Some(g) ==> check_view(c) == g,
        probe_gate("quran.morphology.provenance"@, *probe) is None ==> check_view(c) == (
        if probe.analyses@.len() == 0 {
            no_analyses("quran.morphology.provenance"@)
        } else if unattributed(probe.analyses@, probe.analyses@.len() as int) == 0 {
            passed(
                "quran.morphology.provenance"@,
                decimal(probe.analyses@.len()) + " analyses carry Layer B/D provenance"@,
            )
        } else {
            noted(
                "quran.morphology.provenance"@,
                CheckLevel::Fail,
                decimal(unattributed(probe.analyses@, probe.analyses@.len() as int))
                    + " analyses lack Layer B/D provenance"@,
                "re-import with attributed provenance; unattributed analyses must not serve"@,
                "qai quran morphology import"@,
            )
        }),
{
    let id = "quran.morphology.provenance";
    match gate_check(id, probe) {
        Some(c) => {
            return c;
        },
        None => {},
    }
    let a = &probe.analyses;
    if a.len() == 0 {
        return noted_check(
            id,
            CheckLevel::Warn,
            owned("active dataset holds no analyses"),
            "re-import morphology for the active edition",
            "qai quran morphology import",
        );
    }
    let mut bad: usize = 0;
    let mut i: usize = 0;
    while i < a.len()
        invariant
            i <= a@.len(),
            bad == unattributed(a@, i as int),
            bad <= i,
        decreases a.len() - i,
    {
        if !str_eq(a[i].layer.as_str(), "B") && !str_eq(a[i].layer.as_str(), "D") {
            bad = bad + 1;
        }
        i = i + 1;
    }
    if bad == 0 {
        let mut m = String::new();
        push_decimal(&mut m, a.len() as u64);
        append_str(&mut m, " analyses carry Layer B/D provenance");
        pass(id, m)
    } else {
        let mut m = String::new();
        push_decimal(&mut m, bad as u64);
        append_str(&mut m, " analyses lack Layer B/D provenance");
        noted_check(
            id,
            CheckLevel::Fail,
            m,
            "re-import with attributed provenance; unattributed analyses must not serve",
            "qai quran morphology import",
        )
    }
}

/// `quran.morphology.unverified_layer_d`: how many Layer-D analyses await
/// human review (informational).
pub fn unverified_layer_d_check(probe: &MorphProbe) -> (c: QuranDoctorCheck)
    ensures
        probe_gate("quran.morphology.unverified_layer_d"@, *probe) matches Some(g) ==> check_view(c) == g,
        probe_gate("quran.morphology.unverified_layer_d"@, *probe) is None ==> check_view(c) == (
        if probe.analyses@.len() == 0 {
            no_analyses("quran.morphology.unverified_layer_d"@)
        } else {
            passed(
                "quran.morphology.unverified_layer_d"@,
                decimal(awaiting_review(probe.analyses@, probe.analyses@.len() as int))
                    + " Layer-D analyses await review"@,
            )
        }),
{
    let id = "quran.morphology.unverified_layer_d";
    match gate_check(id, probe) {
        Some(c) => {
            return c;
        },
        None => {},
    }
    let a = &probe.analyses;
    if a.len() == 0 {
        return noted_check(
            id,
            CheckLevel::Warn,
            owned("active dataset holds no analyses"),
            "re-import morphology for the active edition",
            "qai quran morphology import",
        );
    }
    let mut pending: usize = 0;
    let mut i: usize = 0;
    while i < a.len()
        invariant
            i <= a@.len(),
            pending == awaiting_review(a@, i as int),
            pending <= i,
        decreases a.len() - i,
    {
        if str_eq(a[i].layer.as_str(), "D") && !str_eq(a[i].status.as_str(), "human_verified") {
            pending = pending + 1;
        }
        i = i + 1;
    }
    let mut m = String::new();
    push_decimal(&mut m, pending as u64);
    append_str(&mut m, " Layer-D analyses await review");
    pass(id, m)
}


/// Whether `id` is among `ids`.
pub open spec fn listed(ids: Seq<String>, id: Seq<char>) -> bool {
    exists|k: int| 0 <= k < ids.len() && (#[trigger] ids[k])@ == id
}

/// `label id` for a reference that is set and not among `known`.
pub open spec fn dangling_ref(label: Seq<char>, id: Option<String>, known: Seq<String>) -> Seq<Seq<char>> {
    match id {
        Some(i) => if listed(known, i@) {
            Seq::empty()
        } else {
            seq![label + " "@ + i@]
        },
        None => Seq::empty(),
    }
}

/// Dangling references of the first `n` analyses: each one's lemma, then
/// its root.
pub open spec fn dangling_refs(
    analyses: Seq<ProbedAnalysis>,
    roots: Seq<String>,
    lemmas: Seq<String>,
    n: int,
) -> Seq<Seq<char>>
    decreases n,
{
    if n <= 0 {
        Seq::empty()
    } else {
        dangling_refs(analyses, roots, lemmas, n - 1) + dangling_ref(
            "lemma"@,
            analyses[n - 1].lemma_id,
            lemmas,
        ) + dangling_ref("root"@, analyses[n - 1].root_id, roots)
    }
}

fn is_listed(ids: &[String], id: &str) -> (r: bool)
    ensures
        r == listed(ids@, id@),
{
    let mut k: usize = 0;
    while k < ids.len()
        invariant
            k <= ids@.len(),
            forall|j: int| 0 <= j < k ==> (#[trigger] ids@[j])@ != id@,
        decreases ids.len() - k,
    {
        if str_eq(ids[k].as_str(), id) {
            return true;
        }
        k = k + 1;
    }
    false
}

fn push_dangling(out: &mut Vec<String>, label: &str, id: &Option<String>, known: &[String])
    ensures
        string_views(final(out)@) == string_views(old(out)@) + dangling_ref(label@, *id, known@),
{
    match id {
        Some(i) => {
            if !is_listed(known, i.as_str()) {
                let ghost before = out@;
                let mut m = concat2(label, " ");
                append_str(&mut m, i.as_str());
                out.push(m);
                assert(string_views(out@) =~= string_views(before).push(m@));
            } else {
                assert(string_views(old(out)@) + dangling_ref(label@, *id, known@) =~= string_views(old(out)@));
            }
        },
        None => {
            assert(string_views(old(out)@) + dangling_ref(label@, *id, known@) =~= string_views(old(out)@));
        },
    }
}

/// What the lexicon check audits, before any read: skipped without an
/// active dataset, failed when the probe could not read.
pub fn lexicon_integrity_gate(probe: &MorphProbe) -> (r: Option<QuranDoctorCheck>)
    ensures
        r is None <==> probe_gate("quran.lexicon.integrity"@, *probe) is None,
        r matches Some(c) ==> probe_gate("quran.lexicon.integrity"@, *probe) == Some(check_view(c)),
{
    gate_check("quran.lexicon.integrity", probe)
}

/// `quran.lexicon.integrity`: analyses (the probed ones, or the whole
/// dataset when the probe read none) must reference live roots and lemmas;
/// the first three dangling references are named.
pub fn lexicon_integrity_check(roots: &[String], lemmas: &[String], analyses: &[ProbedAnalysis]) -> (c: QuranDoctorCheck)
    ensures
        ({
            let refs = dangling_refs(analyses@, roots@, lemmas@, analyses@.len() as int);
            check_view(c) == if refs.len() == 0 {
                passed(
                    "quran.lexicon.integrity"@,
                    decimal(analyses@.len()) + " analyses reference live roots/lemmas"@,
                )
            } else {
                noted(
                    "quran.lexicon.integrity"@,
                    CheckLevel::Fail,
                    decimal(refs.len()) + " dangling references ("@ + joined_with(
                        refs.take(if refs.len() < 3 {
                            refs.len() as int
                        } else {
                            3
                        }),
                        ", "@,
                    ) + ")"@,
                    "re-import morphology; analyses must never outlive their lexicon rows"@,
                    "qai quran morphology import"@,
                )
            }
        }),
{
    let mut refs: Vec<String> = Vec::new();
    let mut i: usize = 0;
    while i < analyses.len()
        invariant
            i <= analyses@.len(),
            string_views(refs@) == dangling_refs(analyses@, roots@, lemmas@, i as int),
        decreases analyses.len() - i,
    {
        push_dangling(&mut refs, "lemma", &analyses[i].lemma_id, lemmas);
        push_dangling(&mut refs, "root", &analyses[i].root_id, roots);
        i = i + 1;
    }
    let id = "quran.lexicon.integrity";
    if refs.len() == 0 {
        let mut m = String::new();
        push_decimal(&mut m, analyses.len() as u64);
        append_str(&mut m, " analyses reference live roots/lemmas");
        return pass(id, m);
    }
    let take: usize = if refs.len() < 3 {
        refs.len()
    } else {
        3
    };
    let mut examples: Vec<String> = Vec::new();
    let mut k: usize = 0;
    while k < take
        invariant
            k <= take <= refs@.len(),
            examples@.len() == k,
            forall|j: int| 0 <= j < k ==> #[trigger] examples@[j]@ == refs@[j]@,
        decreases take - k,
    {
        examples.push(owned(refs[k].as_str()));
        k = k + 1;
    }
    assert(string_views(examples@) =~= string_views(refs@).take(take as int));
    let list = join_strings(examples.as_slice(), ", ");
    let mut m = String::new();
    push_decimal(&mut m, refs.len() as u64);
    append_str(&mut m, " dangling references (");
    append_str(&mut m, list.as_str());
    append_str(&mut m, ")");
    noted_check(
        id,
        CheckLevel::Fail,
        m,
        "re-import morphology; analyses must never outlive their lexicon rows",
        "qai quran morphology import",
    )
}


/// `s` strictly ordered by `lt`.
pub open spec fn ordered_by(s: Seq<usize>, lt: spec_fn(usize, usize) -> bool) -> bool {
    forall|a: int, b: int| 0 <= a < b < s.len() ==> lt(#[trigger] s[a], #[trigger] s[b])
}

/// The indices below `n`.
pub open spec fn indices_below(n: int) -> Set<usize> {
    Set::new(|k: usize| k < n)
}

pub(crate) proof fn lemma_insert_ordered(before: Seq<usize>, p: int, c: usize, lt: spec_fn(usize, usize) -> bool)
    requires
        0 <= p <= before.len(),
        ordered_by(before, lt),
        forall|j: int| 0 <= j < p ==> lt(#[trigger] before[j], c),
        p < before.len() ==> lt(c, before[p]),
        forall|x: usize, y: usize, z: usize| #[trigger] lt(x, y) && #[trigger] lt(y, z) ==> lt(x, z),
    ensures
        ordered_by(before.insert(p, c), lt),
        before.insert(p, c).to_set() == before.to_set().insert(c),
{
    let r = before.insert(p, c);
    assert forall|a: int, b: int| 0 <= a < b < r.len() implies lt(#[trigger] r[a], #[trigger] r[b]) by {
        if b < p {
            assert(r[a] == before[a] && r[b] == before[b]);
        } else if b == p {
            assert(r[a] == before[a]);
        } else if a < p {
            assert(r[a] == before[a] && r[b] == before[b - 1]);
        } else if a == p {
            assert(r[b] == before[b - 1]);
            if b - 1 > p {
                assert(lt(before[p], before[b - 1]));
            }
        } else {
            assert(r[a] == before[a - 1] && r[b] == before[b - 1]);
        }
    }
    assert forall|x: usize| r.to_set().contains(x) implies before.to_set().insert(c).contains(x) by {
        let k = choose|k: int| 0 <= k < r.len() && #[trigger] r[k] == x;
        if k < p {
            assert(before[k] == x);
        } else if k > p {
            assert(before[k - 1] == x);
        }
    }
    assert forall|x: usize| before.to_set().insert(c).contains(x) implies r.to_set().contains(x) by {
        if x == c {
            assert(r[p] == c);
        } else {
            let k = choose|k: int| 0 <= k < before.len() && #[trigger] before[k] == x;
            if k < p {
                assert(r[k] == x);
            } else {
                assert(r[k + 1] == x);
            }
        }
    }
    assert(r.to_set() =~= before.to_set().insert(c));
}

/// Candidate probe token `i` comes before `j`: longer surface first, then
/// lower surah, then lower ayah, then first read.
pub open spec fn token_before(t: Seq<(usize, String, i64, i64)>, i: usize, j: usize) -> bool {
    let a = t[i as int];
    let b = t[j as int];
    a.0 > b.0 || (a.0 == b.0 && (a.2 < b.2 || (a.2 == b.2 && (a.3 < b.3 || (a.3 == b.3 && i
        < j)))))
}

fn token_before_exec(t: &[(usize, String, i64, i64)], i: usize, j: usize) -> (r: bool)
    requires
        i < t@.len(),
        j < t@.len(),
    ensures
        r == token_before(t@, i, j),
{
    let a = &t[i];
    let b = &t[j];
    a.0 > b.0 || (a.0 == b.0 && (a.2 < b.2 || (a.2 == b.2 && (a.3 < b.3 || (a.3 == b.3 && i < j)))))
}

/// The candidate tokens in probe order, by index.
pub fn token_order(t: &[(usize, String, i64, i64)]) -> (r: Vec<usize>)
    ensures
        ordered_by(r@, |i: usize, j: usize| token_before(t@, i, j)),
        r@.to_set() == indices_below(t@.len() as int),
        forall|k: int| 0 <= k < r@.len() ==> (#[trigger] r@[k]) < t@.len(),
{
    let ghost lt = |i: usize, j: usize| token_before(t@, i, j);
    let mut r: Vec<usize> = Vec::new();
    let mut i: usize = 0;
    assert(r@.to_set() =~= indices_below(0));
    while i < t.len()
        invariant
            i <= t@.len(),
            lt == (|i: usize, j: usize| token_before(t@, i, j)),
            ordered_by(r@, lt),
            r@.to_set() == indices_below(i as int),
            forall|k: int| 0 <= k < r@.len() ==> (#[trigger] r@[k]) < i,
        decreases t.len() - i,
    {
        let mut p: usize = 0;
        while p < r.len() && token_before_exec(t, r[p], i)
            invariant
                p <= r@.len(),
                i < t@.len(),
                forall|k: int| 0 <= k < r@.len() ==> (#[trigger] r@[k]) < i,
                forall|j: int| 0 <= j < p ==> lt(#[trigger] r@[j], i),
                lt == (|i: usize, j: usize| token_before(t@, i, j)),
            decreases r.len() - p,
        {
            p = p + 1;
        }
        let ghost before = r@;
        proof {
            if p < before.len() {
                assert(before[p as int] < i);
                assert(!token_before(t@, before[p as int], i));
                assert(lt(i, before[p as int]));
            }
            assert forall|x: usize, y: usize, z: usize| #[trigger] lt(x, y) && #[trigger] lt(y, z) implies lt(x, z) by {
            }
            lemma_insert_ordered(before, p as int, i, lt);
        }
        r.insert(p, i);
        proof {
            assert(r@.to_set() =~= indices_below(i + 1));
            assert forall|k: int| 0 <= k < r@.len() implies (#[trigger] r@[k]) < i + 1 by {
                if k < p {
                    assert(r@[k] == before[k]);
                } else if k > p {
                    assert(r@[k] == before[k - 1]);
                }
            }
        }
        i = i + 1;
    }
    r
}


/// `order` lists every candidate index once, in probe order.
pub open spec fn in_probe_order(t: Seq<ProbeToken>, order: Seq<usize>) -> bool {
    &&& ordered_by(order, |i: usize, j: usize| token_before(t, i, j))
    &&& order.to_set() == indices_below(t.len() as int)
    &&& forall|k: int| 0 <= k < order.len() ==> (#[trigger] order[k]) < t.len()
}

/// Candidate probe tokens as `(surface length, surface, surah, ayah)`.
pub type ProbeToken = (usize, String, i64, i64);

/// Consecutive tokens with the same surface kept once (the first).
pub open spec fn dedup_surfaces(s: Seq<ProbeToken>) -> Seq<ProbeToken>
    decreases s.len(),
{
    if s.len() <= 1 {
        s
    } else if s.last().1@ == s[s.len() - 2].1@ {
        dedup_surfaces(s.drop_last())
    } else {
        dedup_surfaces(s.drop_last()).push(s.last())
    }
}

/// At most the first `k` items.
pub open spec fn first_k<T>(s: Seq<T>, k: int) -> Seq<T> {
    if s.len() <= k {
        s
    } else {
        s.take(k)
    }
}

/// The tokens the smoke suite probes: candidates in probe order (longest
/// surface first, then by location), repeated surfaces dropped, at most
/// four.
pub fn smoke_token_probes(t: &[ProbeToken]) -> (r: Vec<ProbeToken>)
    ensures
        exists|order: Seq<usize>|
            #[trigger] in_probe_order(t@, order) && r@ == first_k(
                dedup_surfaces(order.map_values(|i: usize| t@[i as int])),
                4,
            ),
{
    let order = token_order(t);
    assert(in_probe_order(t@, order@));
    let mut sorted: Vec<ProbeToken> = Vec::new();
    let mut i: usize = 0;
    while i < order.len()
        invariant
            i <= order@.len(),
            forall|k: int| 0 <= k < order@.len() ==> (#[trigger] order@[k]) < t@.len(),
            sorted@ == order@.take(i as int).map_values(|x: usize| t@[x as int]),
        decreases order.len() - i,
    {
        let e = &t[order[i]];
        sorted.push((e.0, e.1.clone(), e.2, e.3));
        proof {
            assert(order@.take(i + 1) =~= order@.take(i as int).push(order@[i as int]));
            assert(sorted@ =~= order@.take(i + 1).map_values(|x: usize| t@[x as int]));
        }
        i = i + 1;
    }
    assert(order@.take(order@.len() as int) =~= order@);
    let ghost all = sorted@;
    let mut kept: Vec<ProbeToken> = Vec::new();
    let mut j: usize = 0;
    while j < sorted.len()
        invariant
            j <= sorted@.len(),
            all == sorted@,
            kept@ == dedup_surfaces(sorted@.take(j as int)),
        decreases sorted.len() - j,
    {
        let e = &sorted[j];
        let fresh = j == 0 || !str_eq(e.1.as_str(), sorted[j - 1].1.as_str());
        proof {
            let s1 = sorted@.take(j + 1);
            assert(s1.drop_last() =~= sorted@.take(j as int));
            if j > 0 {
                assert(s1[j - 1] == sorted@[j - 1]);
            } else {
                assert(dedup_surfaces(sorted@.take(0)) =~= Seq::<ProbeToken>::empty());
                assert(s1 =~= seq![sorted@[0]]);
            }
        }
        if fresh {
            kept.push((e.0, e.1.clone(), e.2, e.3));
            proof {
                if j == 0 {
                    assert(kept@ =~= sorted@.take(1));
                }
            }
        }
        j = j + 1;
    }
    assert(sorted@.take(sorted@.len() as int) =~= sorted@);
    let mut r: Vec<ProbeToken> = Vec::new();
    let mut k: usize = 0;
    while k < kept.len() && k < 4
        invariant
            k <= kept@.len(),
            k <= 4,
            r@ == kept@.take(k as int),
        decreases kept.len() - k,
    {
        let e = &kept[k];
        r.push((e.0, e.1.clone(), e.2, e.3));
        proof {
            assert(kept@.take(k + 1) =~= kept@.take(k as int).push(kept@[k as int]));
        }
        k = k + 1;
    }
    proof {
        if kept@.len() <= 4 {
            assert(kept@.take(kept@.len() as int) =~= kept@);
        }
    }
    r
}


/// Ayah `i` comes before `j` among concatenated-probe candidates: the
/// longer text first, then the earlier row.
pub open spec fn ayah_before(lengths: Seq<usize>, i: usize, j: usize) -> bool {
    lengths[i as int] > lengths[j as int] || (lengths[i as int] == lengths[j as int] && i < j)
}

/// `order` lists every row index once, longest text first.
pub open spec fn in_length_order(lengths: Seq<usize>, order: Seq<usize>) -> bool {
    &&& ordered_by(order, |i: usize, j: usize| ayah_before(lengths, i, j))
    &&& order.to_set() == indices_below(lengths.len() as int)
    &&& forall|k: int| 0 <= k < order.len() ==> (#[trigger] order[k]) < lengths.len()
}

/// Rows whose skeletons the concatenated probes slice: the eight longest
/// texts (by character count; ties keep row order), longest first.
pub fn longest_ayahs(lengths: &[usize]) -> (r: Vec<usize>)
    ensures
        exists|order: Seq<usize>| #[trigger] in_length_order(lengths@, order) && r@ == first_k(order, 8),
{
    let ghost lt = |i: usize, j: usize| ayah_before(lengths@, i, j);
    let mut r: Vec<usize> = Vec::new();
    let mut i: usize = 0;
    assert(r@.to_set() =~= indices_below(0));
    while i < lengths.len()
        invariant
            i <= lengths@.len(),
            lt == (|i: usize, j: usize| ayah_before(lengths@, i, j)),
            ordered_by(r@, lt),
            r@.to_set() == indices_below(i as int),
            forall|k: int| 0 <= k < r@.len() ==> (#[trigger] r@[k]) < i,
        decreases lengths.len() - i,
    {
        let mut p: usize = 0;
        while p < r.len() && (lengths[r[p]] > lengths[i] || (lengths[r[p]] == lengths[i] && r[p] < i))
            invariant
                p <= r@.len(),
                i < lengths@.len(),
                forall|k: int| 0 <= k < r@.len() ==> (#[trigger] r@[k]) < i,
                forall|j: int| 0 <= j < p ==> lt(#[trigger] r@[j], i),
                lt == (|i: usize, j: usize| ayah_before(lengths@, i, j)),
            decreases r.len() - p,
        {
            p = p + 1;
        }
        let ghost before = r@;
        proof {
            if p < before.len() {
                assert(before[p as int] < i);
                assert(lt(i, before[p as int]));
            }
            assert forall|x: usize, y: usize, z: usize| #[trigger] lt(x, y) && #[trigger] lt(y, z) implies lt(x, z) by {
            }
            lemma_insert_ordered(before, p as int, i, lt);
        }
        r.insert(p, i);
        proof {
            assert(r@.to_set() =~= indices_below(i + 1));
            assert forall|k: int| 0 <= k < r@.len() implies (#[trigger] r@[k]) < i + 1 by {
                if k < p {
                    assert(r@[k] == before[k]);
                } else if k > p {
                    assert(r@[k] == before[k - 1]);
                }
            }
        }
        i = i + 1;
    }
    assert(in_length_order(lengths@, r@));
    let mut out: Vec<usize> = Vec::new();
    let mut k: usize = 0;
    while k < r.len() && k < 8
        invariant
            k <= r@.len(),
            k <= 8,
            out@ == r@.take(k as int),
        decreases r.len() - k,
    {
        out.push(r[k]);
        proof {
            assert(r@.take(k + 1) =~= r@.take(k as int).push(r@[k as int]));
        }
        k = k + 1;
    }
    proof {
        if r@.len() <= 8 {
            assert(r@.take(r@.len() as int) =~= r@);
        }
    }
    out
}

/// Characters 2 to 9 of a skeleton, when it has at least ten.
pub open spec fn probe_slice_of(skeleton: Seq<char>) -> Option<Seq<char>> {
    if skeleton.len() < 10 {
        None
    } else {
        Some(skeleton.subrange(2, 10))
    }
}

/// The slice a concatenated probe searches for (see `probe_slice_of`).
pub fn probe_slice(skeleton: &str) -> (r: Option<String>)
    ensures
        r is None <==> probe_slice_of(skeleton@) is None,
        r matches Some(x) ==> probe_slice_of(skeleton@) == Some(x@),
{
    let c = chars_of(skeleton);
    if c.len() < 10 {
        None
    } else {
        let v = slice_chars(c.as_slice(), 2, 10);
        Some(crate::text::string_of(v.as_slice()))
    }
}

/// Reference a probe expects among its hits:
/// `quran:<slug>@<version>:<surah>:<ayah>`.
pub open spec fn pinned(slug: Seq<char>, version: Seq<char>, surah: i64, ayah: i64) -> Seq<char> {
    "quran:"@ + slug + "@"@ + version + ":"@ + signed_decimal(surah as int) + ":"@
        + signed_decimal(ayah as int)
}

/// The reference a probe expects (see `pinned`).
pub fn pinned_reference(slug: &str, version: &str, surah: i64, ayah: i64) -> (r: String)
    ensures
        r@ == pinned(slug@, version@, surah, ayah),
{
    let mut r = concat2("quran:", slug);
    append_str(&mut r, "@");
    append_str(&mut r, version);
    append_str(&mut r, ":");
    push_signed(&mut r, surah);
    append_str(&mut r, ":");
    push_signed(&mut r, ayah);
    r
}


/// One smoke probe: its label (`<tool>:<query>`), the query, and the
/// reference it must hit.
#[derive(Debug, Clone)]
pub struct SmokeProbe {
    /// `exact:`, `normalized:` or `concatenated:` and the query.
    pub label: String,
    /// Query text.
    pub query: String,
    /// Reference expected among the hits.
    pub expected: String,
}

/// Plain view of a probe.
pub open spec fn probe_view(p: SmokeProbe) -> (Seq<char>, Seq<char>, Seq<char>) {
    (p.label@, p.query@, p.expected@)
}

/// Probes of the first `n` tokens, as `(surface, L3 form, surah, ayah)`:
/// an exact probe for each, and a normalized one when the form is not
/// blank.
pub open spec fn token_probe_views(
    slug: Seq<char>,
    version: Seq<char>,
    tokens: Seq<(String, String, i64, i64)>,
    n: int,
) -> Seq<(Seq<char>, Seq<char>, Seq<char>)>
    decreases n,
{
    if n <= 0 {
        Seq::empty()
    } else {
        let t = tokens[n - 1];
        let expected = pinned(slug, version, t.2, t.3);
        let exact = token_probe_views(slug, version, tokens, n - 1).push(
            ("exact:"@ + t.0@, t.0@, expected),
        );
        if is_blank(t.1@) {
            exact
        } else {
            exact.push(("normalized:"@ + t.1@, t.1@, expected))
        }
    }
}

/// Concatenated probes from the `k`-th of the longest rows on (as
/// `(skeleton, surah, ayah)`), appended to `acc`: at most eight rows are
/// looked at, rows with short skeletons give none, and the suite stops
/// growing at twelve probes.
pub open spec fn concat_probe_views(
    slug: Seq<char>,
    version: Seq<char>,
    rows: Seq<(String, i64, i64)>,
    k: int,
    acc: Seq<(Seq<char>, Seq<char>, Seq<char>)>,
) -> Seq<(Seq<char>, Seq<char>, Seq<char>)>
    decreases rows.len() - k,
{
    if k < 0 || k >= rows.len() || k >= 8 || acc.len() >= 12 {
        acc
    } else {
        match probe_slice_of(rows[k].0@) {
            None => concat_probe_views(slug, version, rows, k + 1, acc),
            Some(slice) => concat_probe_views(
                slug,
                version,
                rows,
                k + 1,
                acc.push(
                    (
                        "concatenated:"@ + slice,
                        slice,
                        pinned(slug, version, rows[k].1, rows[k].2),
                    ),
                ),
            ),
        }
    }
}

/// Assemble the smoke suite from the chosen tokens (with their L3 forms)
/// and the skeletons of the longest rows, in that order.
pub fn smoke_probes(
    slug: &str,
    version: &str,
    tokens: &[(String, String, i64, i64)],
    rows: &[(String, i64, i64)],
) -> (r: Vec<SmokeProbe>)
    ensures
        r@.map_values(|p: SmokeProbe| probe_view(p)) == concat_probe_views(
            slug@,
            version@,
            rows@,
            0,
            token_probe_views(slug@, version@, tokens@, tokens@.len() as int),
        ),
{
    let mut r: Vec<SmokeProbe> = Vec::new();
    let mut i: usize = 0;
    while i < tokens.len()
        invariant
            i <= tokens@.len(),
            r@.map_values(|p: SmokeProbe| probe_view(p)) == token_probe_views(
                slug@,
                version@,
                tokens@,
                i as int,
            ),
        decreases tokens.len() - i,
    {
        let t = &tokens[i];
        let expected = pinned_reference(slug, version, t.2, t.3);
        let ghost before = r@;
        let exact = SmokeProbe {
            label: concat2("exact:", t.0.as_str()),
            query: owned(t.0.as_str()),
            expected: owned(expected.as_str()),
        };
        r.push(exact);
        assert(r@.map_values(|p: SmokeProbe| probe_view(p)) =~= before.map_values(
            |p: SmokeProbe| probe_view(p),
        ).push(probe_view(exact)));
        if !str_is_blank(t.1.as_str()) {
            let ghost mid = r@;
            let normalized = SmokeProbe {
                label: concat2("normalized:", t.1.as_str()),
                query: owned(t.1.as_str()),
                expected,
            };
            r.push(normalized);
            assert(r@.map_values(|p: SmokeProbe| probe_view(p)) =~= mid.map_values(
                |p: SmokeProbe| probe_view(p),
            ).push(probe_view(normalized)));
        }
        i = i + 1;
    }
    let ghost head = r@.map_values(|p: SmokeProbe| probe_view(p));
    let mut k: usize = 0;
    while k < rows.len() && k < 8 && r.len() < 12
        invariant
            k <= rows@.len(),
            concat_probe_views(slug@, version@, rows@, 0, head) == concat_probe_views(
                slug@,
                version@,
                rows@,
                k as int,
                r@.map_values(|p: SmokeProbe| probe_view(p)),
            ),
        decreases rows.len() - k,
    {
        let row = &rows[k];
        match probe_slice(row.0.as_str()) {
            Some(slice) => {
                let ghost before = r@;
                let probe = SmokeProbe {
                    label: concat2("concatenated:", slice.as_str()),
                    query: owned(slice.as_str()),
                    expected: pinned_reference(slug, version, row.1, row.2),
                };
                r.push(probe);
                assert(r@.map_values(|p: SmokeProbe| probe_view(p)) =~= before.map_values(
                    |p: SmokeProbe| probe_view(p),
                ).push(probe_view(probe)));
            },
            None => {},
        }
        k = k + 1;
    }
    r
}

/// Search tool a probe runs.
#[derive(Debug, Clone, Copy, PartialEq, Eq)]
pub enum SmokeTool {
    Exact,
    Normalized,
    Concatenated,
}

/// `label` begins with `p`.
pub open spec fn begins_with(label: Seq<char>, p: Seq<char>) -> bool {
    p.len() <= label.len() && label.take(p.len() as int) == p
}

fn has_prefix(label: &str, prefix: &str) -> (r: bool)
    ensures
        r == begins_with(label@, prefix@),
{
    let l = chars_of(label);
    let p = chars_of(prefix);
    if p.len() > l.len() {
        return false;
    }
    let mut i: usize = 0;
    while i < p.len()
        invariant
            i <= p@.len() <= l@.len(),
            l@ == label@,
            p@ == prefix@,
            forall|j: int| 0 <= j < i ==> l@[j] == p@[j],
        decreases p.len() - i,
    {
        if l[i] != p[i] {
            assert(label@.take(p@.len() as int)[i as int] != prefix@[i as int]);
            return false;
        }
        i = i + 1;
    }
    assert(label@.take(p@.len() as int) =~= prefix@);
    true
}

/// Tool for a probe label: by its `exact:` or `normalized:` prefix, else
/// concatenated.
pub fn smoke_tool(label: &str) -> (r: SmokeTool)
    ensures
        r == (if begins_with(label@, "exact:"@) {
            SmokeTool::Exact
        } else if begins_with(label@, "normalized:"@) {
            SmokeTool::Normalized
        } else {
            SmokeTool::Concatenated
        }),
{
    if has_prefix(label, "exact:") {
        SmokeTool::Exact
    } else if has_prefix(label, "normalized:") {
        SmokeTool::Normalized
    } else {
        SmokeTool::Concatenated
    }
}


/// `quran.search.smoke` before any probe is derived: skipped without a
/// serving index or without ayahs.
pub fn smoke_gate(index_built: bool, n_ayahs: usize) -> (r: Option<QuranDoctorCheck>)
    ensures
        !index_built ==> (r matches Some(c) && check_view(c) == noted(
            "quran.search.smoke"@,
            CheckLevel::Skipped,
            "ayah index not built"@,
            "build an index generation"@,
            "qai quran index rebuild"@,
        )),
        index_built && n_ayahs == 0 ==> (r matches Some(c) && check_view(c) == noted(
            "quran.search.smoke"@,
            CheckLevel::Skipped,
            "corpus has no ayahs"@,
            "import an edition"@,
            "qai quran index rebuild"@,
        )),
        index_built && n_ayahs > 0 ==> r is None,
{
    if !index_built {
        return Some(
            noted_check(
                "quran.search.smoke",
                CheckLevel::Skipped,
                owned("ayah index not built"),
                "build an index generation",
                "qai quran index rebuild",
            ),
        );
    }
    if n_ayahs == 0 {
        return Some(
            noted_check(
                "quran.search.smoke",
                CheckLevel::Skipped,
                owned("corpus has no ayahs"),
                "import an edition",
                "qai quran index rebuild",
            ),
        );
    }
    None
}

/// Whether `refs` holds `r`.
pub open spec fn holds_ref(refs: Seq<String>, r: Seq<char>) -> bool {
    exists|k: int| 0 <= k < refs.len() && (#[trigger] refs[k])@ == r
}

/// What went wrong with the first `n` probes, given each one's hits (their
/// references) or its error.
pub open spec fn smoke_misses(
    probes: Seq<SmokeProbe>,
    outcomes: Seq<Result<Vec<String>, String>>,
    n: int,
) -> Seq<Seq<char>>
    decreases n,
{
    if n <= 0 {
        Seq::empty()
    } else {
        let prev = smoke_misses(probes, outcomes, n - 1);
        let p = probes[n - 1];
        let tag = "P"@ + decimal(n as nat);
        match outcomes[n - 1] {
            Ok(refs) => if holds_ref(refs@, p.expected@) {
                prev
            } else {
                prev.push(tag + " missed "@ + p.label@ + " (expected "@ + p.expected@ + ")"@)
            },
            Err(e) => prev.push(tag + " errored on "@ + p.label@ + ": "@ + e@),
        }
    }
}

/// `quran.search.smoke` once the probes ran: every probe must find its
/// expected reference (no probes: skipped).
pub fn smoke_verdict(probes: &[SmokeProbe], outcomes: &[Result<Vec<String>, String>]) -> (c: QuranDoctorCheck)
    requires
        probes@.len() == outcomes@.len(),
    ensures
        ({
            let misses = smoke_misses(probes@, outcomes@, probes@.len() as int);
            check_view(c) == if probes@.len() == 0 {
                noted(
                    "quran.search.smoke"@,
                    CheckLevel::Skipped,
                    "no smoke probes derivable"@,
                    "index an edition with longer ayahs"@,
                    "qai quran index rebuild"@,
                )
            } else if misses.len() == 0 {
                passed(
                    "quran.search.smoke"@,
                    decimal(probes@.len()) + "/"@ + decimal(probes@.len())
                        + " smoke probes hit (exact + normalized + concatenated)"@,
                )
            } else {
                noted(
                    "quran.search.smoke"@,
                    CheckLevel::Fail,
                    "smoke probes missed: "@ + joined_with(misses, "; "@),
                    "tokenizer/profile regression: rebuild the index; if a green build still misses, fix the pipeline"@,
                    "qai quran index rebuild"@,
                )
            }
        }),
{
    let id = "quran.search.smoke";
    let next = "qai quran index rebuild";
    if probes.len() == 0 {
        return noted_check(
            id,
            CheckLevel::Skipped,
            owned("no smoke probes derivable"),
            "index an edition with longer ayahs",
            next,
        );
    }
    let mut missed: Vec<String> = Vec::new();
    let mut i: usize = 0;
    while i < probes.len()
        invariant
            i <= probes@.len() == outcomes@.len(),
            string_views(missed@) == smoke_misses(probes@, outcomes@, i as int),
        decreases probes.len() - i,
    {
        let p = &probes[i];
        let ghost before = missed@;
        let mut tag = owned("P");
        push_decimal(&mut tag, (i + 1) as u64);
        match &outcomes[i] {
            Ok(refs) => {
                let mut found = false;
                let mut k: usize = 0;
                while k < refs.len()
                    invariant
                        k <= refs@.len(),
                        found == exists|j: int| 0 <= j < k && (#[trigger] refs@[j])@ == p.expected@,
                    decreases refs.len() - k,
                {
                    if str_eq(refs[k].as_str(), p.expected.as_str()) {
                        found = true;
                    }
                    k = k + 1;
                }
                if !found {
                    let mut m = tag;
                    append_str(&mut m, " missed ");
                    append_str(&mut m, p.label.as_str());
                    append_str(&mut m, " (expected ");
                    append_str(&mut m, p.expected.as_str());
                    append_str(&mut m, ")");
                    missed.push(m);
                    assert(string_views(missed@) =~= string_views(before).push(m@));
                }
            },
            Err(e) => {
                let mut m = tag;
                append_str(&mut m, " errored on ");
                append_str(&mut m, p.label.as_str());
                append_str(&mut m, ": ");
                append_str(&mut m, e.as_str());
                missed.push(m);
                assert(string_views(missed@) =~= string_views(before).push(m@));
            },
        }
        i = i + 1;
    }
    if missed.len() == 0 {
        let mut m = String::new();
        push_decimal(&mut m, probes.len() as u64);
        append_str(&mut m, "/");
        push_decimal(&mut m, probes.len() as u64);
        append_str(&mut m, " smoke probes hit (exact + normalized + concatenated)");
        pass(id, m)
    } else {
        let list = join_strings(missed.as_slice(), "; ");
        noted_check(
            id,
            CheckLevel::Fail,
            concat2("smoke probes missed: ", list.as_str()),
            "tokenizer/profile regression: rebuild the index; if a green build still misses, fix the pipeline",
            next,
        )
    }
}


/// A seeded profile row, and whether the rule registry resolves it.
#[derive(Debug, Clone)]
pub struct SeededProfile {
    /// Profile id as seeded.
    pub profile_id: String,
    /// Version as seeded.
    pub version: String,
    /// Whether the registry knows this id at this version.
    pub resolves: bool,
}

/// `<id>@<version>` of the first `n` rows that do not resolve.
pub open spec fn unresolved(rows: Seq<SeededProfile>, n: int) -> Seq<Seq<char>>
    decreases n,
{
    if n <= 0 {
        Seq::empty()
    } else if rows[n - 1].resolves {
        unresolved(rows, n - 1)
    } else {
        unresolved(rows, n - 1).push(rows[n - 1].profile_id@ + "@"@ + rows[n - 1].version@)
    }
}

/// `quran.normalization.profiles_loaded`: the profiles are seeded and each
/// resolves to known rules.
pub fn profiles_loaded_check(rows: &[SeededProfile]) -> (c: QuranDoctorCheck)
    ensures
        ({
            let bad = unresolved(rows@, rows@.len() as int);
            check_view(c) == if rows@.len() == 0 {
                noted(
                    "quran.normalization.profiles_loaded"@,
                    CheckLevel::Fail,
                    "no normalization profiles seeded"@,
                    "apply migration 0013 seeds"@,
                    "qai quran normalize --list-profiles"@,
                )
            } else if bad.len() == 0 {
                passed(
                    "quran.normalization.profiles_loaded"@,
                    decimal(rows@.len()) + " seeded profiles resolve to known rules"@,
                )
            } else {
                noted(
                    "quran.normalization.profiles_loaded"@,
                    CheckLevel::Fail,
                    decimal(bad.len()) + " profiles do not resolve: "@ + joined_with(bad, ", "@),
                    "seed/code drift: re-seed or update the rule catalog"@,
                    "qai quran normalize --list-profiles"@,
                )
            }
        }),
{
    let id = "quran.normalization.profiles_loaded";
    let next = "qai quran normalize --list-profiles";
    if rows.len() == 0 {
        return noted_check(
            id,
            CheckLevel::Fail,
            owned("no normalization profiles seeded"),
            "apply migration 0013 seeds",
            next,
        );
    }
    let mut bad: Vec<String> = Vec::new();
    let mut i: usize = 0;
    while i < rows.len()
        invariant
            i <= rows@.len(),
            string_views(bad@) == unresolved(rows@, i as int),
        decreases rows.len() - i,
    {
        if !rows[i].resolves {
            let ghost before = bad@;
            let mut m = owned(rows[i].profile_id.as_str());
            append_str(&mut m, "@");
            append_str(&mut m, rows[i].version.as_str());
            bad.push(m);
            assert(string_views(bad@) =~= string_views(before).push(m@));
        }
        i = i + 1;
    }
    if bad.len() == 0 {
        let mut m = String::new();
        push_decimal(&mut m, rows.len() as u64);
        append_str(&mut m, " seeded profiles resolve to known rules");
        pass(id, m)
    } else {
        let list = join_strings(bad.as_slice(), ", ");
        let mut m = String::new();
        push_decimal(&mut m, bad.len() as u64);
        append_str(&mut m, " profiles do not resolve: ");
        append_str(&mut m, list.as_str());
        noted_check(id, CheckLevel::Fail, m, "seed/code drift: re-seed or update the rule catalog", next)
    }
}

/// `quran.canonical_unchanged`: the recomputed canonical hash of the
/// active edition against the stored one (or the probe's failure).
pub fn canonical_unchanged_check(result: &Result<CanonicalCheck, String>) -> (c: QuranDoctorCheck)
    ensures
        check_view(c) == (match result {
            Ok(check) => if check.unchanged {
                passed(
                    "quran.canonical_unchanged"@,
                    "MV-018: canonical hashes match "@ + check.edition_urn@,
                )
            } else {
                noted(
                    "quran.canonical_unchanged"@,
                    CheckLevel::Fail,
                    "MV-018: canonical text drifted for "@ + check.edition_urn@,
                    "re-import the edition; canonical rows must never be edited"@,
                    "qai quran validate"@,
                )
            },
            Err(e) => noted(
                "quran.canonical_unchanged"@,
                CheckLevel::Fail,
                "MV-018 probe failed: "@ + e@,
                "check the database, then re-import if corruption is confirmed"@,
                "qai quran validate"@,
            ),
        }),
{
    let id = "quran.canonical_unchanged";
    match result {
        Ok(check) => if check.unchanged {
            pass(id, concat2("MV-018: canonical hashes match ", check.edition_urn.as_str()))
        } else {
            noted_check(
                id,
                CheckLevel::Fail,
                concat2("MV-018: canonical text drifted for ", check.edition_urn.as_str()),
                "re-import the edition; canonical rows must never be edited",
                "qai quran validate",
            )
        },
        Err(e) => noted_check(
            id,
            CheckLevel::Fail,
            concat2("MV-018 probe failed: ", e.as_str()),
            "check the database, then re-import if corruption is confirmed",
            "qai quran validate",
        ),
    }
}


proof fn lemma_token_probe_count(
    slug: Seq<char>,
    version: Seq<char>,
    tokens: Seq<(String, String, i64, i64)>,
    n: int,
)
    requires
        0 <= n <= tokens.len(),
    ensures
        token_probe_views(slug, version, tokens, n).len() <= 2 * n,
    decreases n,
{
    if n > 0 {
        lemma_token_probe_count(slug, version, tokens, n - 1);
    }
}

proof fn lemma_concat_probe_count(
    slug: Seq<char>,
    version: Seq<char>,
    rows: Seq<(String, i64, i64)>,
    k: int,
    acc: Seq<(Seq<char>, Seq<char>, Seq<char>)>,
)
    requires
        0 <= k,
        acc.len() <= 12,
    ensures
        concat_probe_views(slug, version, rows, k, acc).len() <= 12,
    decreases rows.len() - k,
{
    if !(k >= rows.len() || k >= 8 || acc.len() >= 12) {
        match probe_slice_of(rows[k].0@) {
            None => lemma_concat_probe_count(slug, version, rows, k + 1, acc),
            Some(slice) => lemma_concat_probe_count(
                slug,
                version,
                rows,
                k + 1,
                acc.push(("concatenated:"@ + slice, slice, pinned(slug, version, rows[k].1, rows[k].2))),
            ),
        }
    }
}

/// The smoke suite never exceeds twelve probes when it starts from at most
/// four tokens (as `smoke_token_probes` picks them).
pub proof fn smoke_suite_at_most_twelve(
    slug: Seq<char>,
    version: Seq<char>,
    tokens: Seq<(String, String, i64, i64)>,
    rows: Seq<(String, i64, i64)>,
)
    requires
        tokens.len() <= 4,
    ensures
        concat_probe_views(
            slug,
            version,
            rows,
            0,
            token_probe_views(slug, version, tokens, tokens.len() as int),
        ).len() <= 12,
{
    lemma_token_probe_count(slug, version, tokens, tokens.len() as int);
    lemma_concat_probe_count(
        slug,
        version,
        rows,
        0,
        token_probe_views(slug, version, tokens, tokens.len() as int),
    );
}

/// Directory names of the form `gen-<number>`.
pub open spec fn names_generation(names: Seq<Seq<char>>) -> spec_fn(int) -> bool {
    |k: int| generation_of_dir(names[k]) is Some
}

/// The generation such a name carries.
pub open spec fn dir_generation_number(names: Seq<Seq<char>>) -> spec_fn(int) -> u64 {
    |k: int| (generation_of_dir(names[k])->0) as u64
}

proof fn lemma_generation_dirs_kept(names: Seq<Seq<char>>, n: int)
    ensures
        generation_dirs(names, n) == kept_values(names_generation(names), dir_generation_number(names), n),
    decreases n,
{
    if n > 0 {
        lemma_generation_dirs_kept(names, n - 1);
    }
}

/// The generations found on disk are those of exactly the `gen-<number>`
/// directories, one per directory.
pub proof fn generation_dirs_law(names: Seq<Seq<char>>, n: int)
    requires
        0 <= n,
    ensures
        generation_dirs(names, n).len() == positions_where(names_generation(names), n).len(),
        forall|i: int|
            0 <= i < generation_dirs(names, n).len() ==> kept_from(
                names_generation(names),
                dir_generation_number(names),
                n,
                #[trigger] generation_dirs(names, n)[i],
            ),
        forall|k: int| 0 <= k < n && #[trigger] names_generation(names)(k) ==> generation_dirs(names, n).contains(dir_generation_number(names)(k)),
{
    lemma_generation_dirs_kept(names, n);
    kept_values_law(names_generation(names), dir_generation_number(names), n);
}

/// Profiles indexed at another version than the registry holds.
pub open spec fn drifted(v: Seq<RuleSetVersion>) -> spec_fn(int) -> bool {
    |k: int| v[k].indexed@ != v[k].current@
}

/// The note for a drifted profile.
pub open spec fn drift_note(v: Seq<RuleSetVersion>) -> spec_fn(int) -> Seq<char> {
    |k: int| v[k].profile@ + " indexed at "@ + v[k].indexed@ + ", registry at "@ + v[k].current@
}

proof fn lemma_profile_drifts_kept(v: Seq<RuleSetVersion>, n: int)
    ensures
        profile_drifts(v, n) == kept_values(drifted(v), drift_note(v), n),
    decreases n,
{
    if n > 0 {
        lemma_profile_drifts_kept(v, n - 1);
    }
}

/// The drift notes are one per profile whose indexed version differs from
/// the registry's, and none for the others.
pub proof fn profile_drifts_law(v: Seq<RuleSetVersion>, n: int)
    requires
        0 <= n,
    ensures
        profile_drifts(v, n).len() == positions_where(drifted(v), n).len(),
        forall|i: int|
            0 <= i < profile_drifts(v, n).len() ==> kept_from(
                drifted(v),
                drift_note(v),
                n,
                #[trigger] profile_drifts(v, n)[i],
            ),
        forall|k: int| 0 <= k < n && #[trigger] drifted(v)(k) ==> profile_drifts(v, n).contains(drift_note(v)(k)),
{
    lemma_profile_drifts_kept(v, n);
    kept_values_law(drifted(v), drift_note(v), n);
}

/// Seeded profiles that do not resolve to known rules.
pub open spec fn unresolving(rows: Seq<SeededProfile>) -> spec_fn(int) -> bool {
    |k: int| !rows[k].resolves
}

/// A profile's `id@version` label.
pub open spec fn profile_label(rows: Seq<SeededProfile>) -> spec_fn(int) -> Seq<char> {
    |k: int| rows[k].profile_id@ + "@"@ + rows[k].version@
}

proof fn lemma_unresolved_kept(rows: Seq<SeededProfile>, n: int)
    ensures
        unresolved(rows, n) == kept_values(unresolving(rows), profile_label(rows), n),
    decreases n,
{
    if n > 0 {
        lemma_unresolved_kept(rows, n - 1);
    }
}

/// The unresolved list names exactly the seeded profiles that do not
/// resolve, one per profile.
pub proof fn unresolved_law(rows: Seq<SeededProfile>, n: int)
    requires
        0 <= n,
    ensures
        unresolved(rows, n).len() == positions_where(unresolving(rows), n).len(),
        forall|i: int|
            0 <= i < unresolved(rows, n).len() ==> kept_from(
                unresolving(rows),
                profile_label(rows),
                n,
                #[trigger] unresolved(rows, n)[i],
            ),
        forall|k: int| 0 <= k < n && #[trigger] unresolving(rows)(k) ==> unresolved(rows, n).contains(profile_label(rows)(k)),
{
    lemma_unresolved_kept(rows, n);
    kept_values_law(unresolving(rows), profile_label(rows), n);
}

/// Probes whose search errored or did not return the expected reference.
pub open spec fn probe_failed(probes: Seq<SmokeProbe>, outcomes: Seq<Result<Vec<String>, String>>) -> spec_fn(int) -> bool {
    |k: int| match outcomes[k] { Ok(refs) => !holds_ref(refs@, probes[k].expected@), Err(_) => true }
}

/// The note for a failed probe, numbered from one.
pub open spec fn miss_note(probes: Seq<SmokeProbe>, outcomes: Seq<Result<Vec<String>, String>>) -> spec_fn(int) -> Seq<char> {
    |k: int| match outcomes[k] { Ok(refs) => "P"@ + decimal((k + 1) as nat) + " missed "@ + probes[k].label@ + " (expected "@ + probes[k].expected@ + ")"@, Err(e) => "P"@ + decimal((k + 1) as nat) + " errored on "@ + probes[k].label@ + ": "@ + e@ }
}

proof fn lemma_smoke_misses_kept(probes: Seq<SmokeProbe>, outcomes: Seq<Result<Vec<String>, String>>, n: int)
    ensures
        smoke_misses(probes, outcomes, n) == kept_values(probe_failed(probes, outcomes), miss_note(probes, outcomes), n),
    decreases n,
{
    if n > 0 {
        lemma_smoke_misses_kept(probes, outcomes, n - 1);
    }
}

/// The smoke misses are one note per probe that errored or missed its
/// expected reference, and none for the probes that found it.
pub proof fn smoke_misses_law(probes: Seq<SmokeProbe>, outcomes: Seq<Result<Vec<String>, String>>, n: int)
    requires
        0 <= n,
    ensures
        smoke_misses(probes, outcomes, n).len() == positions_where(probe_failed(probes, outcomes), n).len(),
        forall|i: int|
            0 <= i < smoke_misses(probes, outcomes, n).len() ==> kept_from(
                probe_failed(probes, outcomes),
                miss_note(probes, outcomes),
                n,
                #[trigger] smoke_misses(probes, outcomes, n)[i],
            ),
        forall|k: int| 0 <= k < n && #[trigger] probe_failed(probes, outcomes)(k) ==> smoke_misses(probes, outcomes, n).contains(miss_note(probes, outcomes)(k)),
{
    lemma_smoke_misses_kept(probes, outcomes, n);
    kept_values_law(probe_failed(probes, outcomes), miss_note(probes, outcomes), n);
}

/// Analysis `k`'s lemma (or root) id is set and names no known row: its
/// note.
pub open spec fn dangling_note(analyses: Seq<ProbedAnalysis>, roots: Seq<String>, lemmas: Seq<String>, k: int, note: Seq<char>) -> bool {
    ||| (analyses[k].lemma_id matches Some(i) && !listed(lemmas, i@) && note == "lemma "@ + i@)
    ||| (analyses[k].root_id matches Some(i) && !listed(roots, i@) && note == "root "@ + i@)
}

/// Some analysis among the first `n` gives the note.
pub open spec fn noted_dangling(analyses: Seq<ProbedAnalysis>, roots: Seq<String>, lemmas: Seq<String>, n: int, note: Seq<char>) -> bool {
    exists|k: int| 0 <= k < n && #[trigger] dangling_note(analyses, roots, lemmas, k, note)
}

/// The dangling references are exactly the lemma and root ids of the
/// analyses that name no known lemma or root: each note is one, and each
/// one is noted.
pub proof fn dangling_refs_law(analyses: Seq<ProbedAnalysis>, roots: Seq<String>, lemmas: Seq<String>, n: int)
    requires
        0 <= n <= analyses.len(),
    ensures
        forall|m: int|
            0 <= m < dangling_refs(analyses, roots, lemmas, n).len() ==> noted_dangling(
                analyses,
                roots,
                lemmas,
                n,
                #[trigger] dangling_refs(analyses, roots, lemmas, n)[m],
            ),
        forall|k: int, note: Seq<char>|
            0 <= k < n && #[trigger] dangling_note(analyses, roots, lemmas, k, note) ==> dangling_refs(
                analyses,
                roots,
                lemmas,
                n,
            ).contains(note),
    decreases n,
{
    reveal_strlit("lemma");
    reveal_strlit("root");
    reveal_strlit(" ");
    reveal_strlit("lemma ");
    reveal_strlit("root ");
    assert("lemma"@ + " "@ =~= "lemma "@);
    assert("root"@ + " "@ =~= "root "@);
    if n > 0 {
        dangling_refs_law(analyses, roots, lemmas, n - 1);
        let prev = dangling_refs(analyses, roots, lemmas, n - 1);
        let a = analyses[n - 1];
        let lp = dangling_ref("lemma"@, a.lemma_id, lemmas);
        let rp = dangling_ref("root"@, a.root_id, roots);
        let cur = dangling_refs(analyses, roots, lemmas, n);
        assert(cur == prev + lp + rp);
        assert forall|m: int| 0 <= m < cur.len() implies noted_dangling(analyses, roots, lemmas, n, #[trigger] cur[m]) by {
            if m < prev.len() {
                assert(cur[m] == prev[m]);
                assert(noted_dangling(analyses, roots, lemmas, n - 1, prev[m]));
                let k = choose|k: int| 0 <= k < n - 1 && #[trigger] dangling_note(analyses, roots, lemmas, k, prev[m]);
                assert(dangling_note(analyses, roots, lemmas, k, cur[m]));
            } else if m < prev.len() + lp.len() {
                assert(cur[m] == lp[m - prev.len()]);
                assert(a.lemma_id is Some);
                assert(cur[m] == "lemma"@ + " "@ + (a.lemma_id->0)@);
                assert(dangling_note(analyses, roots, lemmas, n - 1, cur[m]));
            } else {
                assert(cur[m] == rp[m - prev.len() - lp.len()]);
                assert(a.root_id is Some);
                assert(cur[m] == "root"@ + " "@ + (a.root_id->0)@);
                assert(dangling_note(analyses, roots, lemmas, n - 1, cur[m]));
            }
        }
        assert forall|k: int, note: Seq<char>|
            0 <= k < n && #[trigger] dangling_note(analyses, roots, lemmas, k, note) implies cur.contains(note) by {
            if k < n - 1 {
                let q = choose|q: int| 0 <= q < prev.len() && prev[q] == note;
                assert(cur[q] == prev[q]);
            } else {
                if a.lemma_id is Some && !listed(lemmas, (a.lemma_id->0)@) && note == "lemma "@ + (a.lemma_id->0)@ {
                    let i = a.lemma_id->0;
                    assert(lp == seq!["lemma"@ + " "@ + i@]);
                    assert("lemma"@ + " "@ + i@ == note) by {
                        reveal_strlit("lemma");
                        reveal_strlit(" ");
                        reveal_strlit("lemma ");
                        assert("lemma"@ + " "@ =~= "lemma "@);
                    }
                    assert(cur[prev.len() as int] == note);
                } else {
                    let i = a.root_id->0;
                    assert(rp == seq!["root"@ + " "@ + i@]);
                    assert("root"@ + " "@ + i@ == note) by {
                        reveal_strlit("root");
                        reveal_strlit(" ");
                        reveal_strlit("root ");
                        assert("root"@ + " "@ =~= "root "@);
                    }
                    assert(cur[(prev.len() + lp.len()) as int] == note);
                }
            }
        }
    }
}

} // verus!
