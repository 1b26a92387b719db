//! Index generations: where indexes live, the next generation number, run
//! and document identities, retention GC (the active generation is never
//! removed), single-step rollback, and build failures with their codes.

use vstd::prelude::*;
use crate::counts::{kept_from, kept_values, kept_values_law, positions_where};
use crate::diagnostics::DiagnosticCode;
use crate::text::{
    all_digits, append_str, concat2, decimal, digit_char, digits_value, is_digit, owned,
    parse_unsigned, push_char, push_decimal, push_signed, signed_decimal, str_eq, string_of, trim,
    trim_str, unsigned_digits, join_strings, joined_with, string_views,
};
use crate::order::{sorted_distinct_strings, str_increasing, str_views};
use crate::serving::{doc_id_spec, last_colon, rsplit_colon, part_or_empty};

verus! {

/// Index id of the ayah-level index.
pub const QURAN_AYAH_INDEX_ID: &'static str = "quran.ayah.v1";

/// Job kind of index builds.
pub const QURAN_INDEX_BUILD_KIND: &'static str = "quran.index.build";

/// Manifest schema version.
pub const INDEX_SCHEMA_VERSION: u32 = 1;

/// Documents per build batch.
pub const BATCH_SIZE: usize = 500;

/// `std::path::PathBuf`, carried opaquely.
#[verifier::external_type_specification]
#[verifier::external_body]
pub struct ExPathBuf(std::path::PathBuf);

/// The parent directory of a path, as `std::path::Path::parent` computes it
/// under the build target's path conventions (`None` for a root or an
/// empty path).
pub uninterp spec fn path_parent(p: Seq<char>) -> Option<Seq<char>>;

/// `std::path::Path::join(base, tail)`, as text, under the build target's
/// path conventions.
pub uninterp spec fn path_joined(base: Seq<char>, tail: Seq<char>) -> Seq<char>;

/// `Path::new(p).parent()`, as text. Claims: the result is
/// `path_parent(p)`.
#[verifier::external_body]
fn parent_text(p: &str) -> (r: Option<String>)
    ensures
        r is None <==> path_parent(p@) is None,
        r matches Some(s) ==> path_parent(p@) == Some(s@),
{
    match std::path::Path::new(p).parent() {
        Some(parent) => Some(parent.to_string_lossy().into_owned()),
        None => None,
    }
}

/// `Path::new(base).join(tail)`, as text. Claims: the result is
/// `path_joined(base, tail)`.
#[verifier::external_body]
fn join_text(base: &str, tail: &str) -> (r: String)
    ensures
        r@ == path_joined(base@, tail@),
{
    std::path::Path::new(base).join(tail).to_string_lossy().into_owned()
}

/// The text a path holds, as `Path::to_str` gives it back.
pub uninterp spec fn path_text(p: std::path::PathBuf) -> Seq<char>;

/// `PathBuf::from(text)`. Claims: the path holds exactly `text` (a
/// `PathBuf` made from a `String` keeps its bytes, so `to_str` returns the
/// same text).
#[verifier::external_body]
fn path_buf_of(text: String) -> (r: std::path::PathBuf)
    ensures
        path_text(r) == text@,
{
    std::path::PathBuf::from(text)
}

/// Text of the index root colocated with a database file.
pub open spec fn index_root_spec(db_path: Seq<char>) -> Seq<char> {
    match path_parent(db_path) {
        Some(parent) => path_joined(parent, "index"@),
        None => "index"@,
    }
}

/// Index root for a database file, as text: `<db-dir>/index`, or `index`
/// when the path has no parent.
pub fn index_root_text(db_path: &str) -> (r: String)
    ensures
        r@ == index_root_spec(db_path@),
{
    match parent_text(db_path) {
        Some(parent) => join_text(parent.as_str(), "index"),
        None => owned("index"),
    }
}

/// Index root for a database file: colocated `<db-dir>/index`.
pub fn index_root_for_db(db_path: &str) -> (r: std::path::PathBuf)
    ensures
        path_text(r) == index_root_spec(db_path@),
{
    path_buf_of(index_root_text(db_path))
}

/// Lexicon values per token reference and field, as the index build
/// projects them into documents: each `(reference, field, value)` triple at
/// most once.
#[derive(Debug, Clone)]
pub struct LexiconProjection {
    /// The `(reference, field, value)` triples.
    pub entries: Vec<((i64, i64), String, String)>,
}

/// A projection triple as plain values.
pub open spec fn lexicon_triple(e: ((i64, i64), String, String)) -> ((i64, i64), Seq<char>, Seq<char>) {
    (e.0, e.1@, e.2@)
}

impl LexiconProjection {
    /// No triple occurs twice.
    pub open spec fn wf(&self) -> bool {
        forall|i: int, j: int|
            0 <= i < j < self.entries@.len() ==> lexicon_triple(#[trigger] self.entries@[i])
                != lexicon_triple(#[trigger] self.entries@[j])
    }

    /// The set of triples held.
    pub open spec fn triples(&self) -> Set<((i64, i64), Seq<char>, Seq<char>)> {
        Set::new(
            |x: ((i64, i64), Seq<char>, Seq<char>)|
                exists|i: int| 0 <= i < self.entries@.len() && lexicon_triple(#[trigger] self.entries@[i]) == x,
        )
    }

    /// An empty projection.
    pub fn new() -> (r: LexiconProjection)
        ensures
            r.wf(),
            r.triples() == Set::<((i64, i64), Seq<char>, Seq<char>)>::empty(),
    {
        let r = LexiconProjection { entries: Vec::new() };
        assert(r.triples() =~= Set::<((i64, i64), Seq<char>, Seq<char>)>::empty());
        r
    }
}

/// Record the lexicon `value` of `field` at token `reference`, trimmed; a
/// value that is empty once trimmed is not recorded.
pub fn add_lexicon_value(projection: &mut LexiconProjection, reference: (i64, i64), field: &str, value: &str)
    requires
        old(projection).wf(),
    ensures
        final(projection).wf(),
        final(projection).triples() == (if trim(value@).len() == 0 {
            old(projection).triples()
        } else {
            old(projection).triples().insert((reference, field@, trim(value@)))
        }),
{
    let trimmed = trim_str(value);
    if trimmed.len() == 0 {
        return;
    }
    let kept = string_of(trimmed.as_slice());
    let ghost x = (reference, field@, kept@);
    let mut i: usize = 0;
    while i < projection.entries.len()
        invariant
            *projection == *old(projection),
            old(projection).wf(),
            x == (reference, field@, kept@),
            kept@ == trim(value@),
            i <= projection.entries.len(),
            forall|k: int| 0 <= k < i ==> lexicon_triple(#[trigger] projection.entries@[k]) != x,
        decreases projection.entries.len() - i,
    {
        let e = &projection.entries[i];
        if e.0.0 == reference.0 && e.0.1 == reference.1 && str_eq(e.1.as_str(), field) && str_eq(
            e.2.as_str(),
            kept.as_str(),
        ) {
            proof {
                assert(lexicon_triple(projection.entries@[i as int]) == x);
                assert(projection.triples().insert(x) =~= projection.triples());
            }
            return;
        }
        i = i + 1;
    }
    let ghost before = projection.entries@;
    projection.entries.push((reference, owned(field), kept));
    proof {
        let after = projection.entries@;
        assert(after.len() == before.len() + 1);
        assert(lexicon_triple(after[before.len() as int]) == x);
        assert forall|a: int, b: int| 0 <= a < b < after.len() implies lexicon_triple(#[trigger] after[a])
            != lexicon_triple(#[trigger] after[b]) by {
            assert(after[a] == before[a]);
            if b < before.len() {
                assert(after[b] == before[b]);
            }
        }
        assert forall|y: ((i64, i64), Seq<char>, Seq<char>)|
            projection.triples().contains(y) <==> old(projection).triples().insert(x).contains(y) by {
            if projection.triples().contains(y) {
                let k = choose|k: int| 0 <= k < after.len() && lexicon_triple(#[trigger] after[k]) == y;
                if k < before.len() {
                    assert(after[k] == before[k]);
                }
            }
            if old(projection).triples().contains(y) {
                let k = choose|k: int| 0 <= k < before.len() && lexicon_triple(#[trigger] before[k]) == y;
                assert(after[k] == before[k]);
            }
        }
        assert(projection.triples() =~= old(projection).triples().insert(x));
    }
}



/// The values a projection holds for `field` at `reference`.
pub open spec fn field_values(
    triples: Set<((i64, i64), Seq<char>, Seq<char>)>,
    reference: (i64, i64),
    field: Seq<char>,
) -> Set<Seq<char>> {
    Set::new(|v: Seq<char>| triples.contains((reference, field, v)))
}

/// The text a lexicon field of one ayah document carries: its values in
/// string order, each once, joined with single spaces.
pub fn lexicon_text(projection: &LexiconProjection, reference: (i64, i64), field: &str) -> (r: String)
    ensures
        exists|vals: Seq<Seq<char>>|
            #![trigger joined_with(vals, " "@)]
            str_increasing(vals) && vals.to_set() == field_values(projection.triples(), reference, field@)
                && r@ == joined_with(vals, " "@),
{
    let entries = &projection.entries;
    let mut found: Vec<String> = Vec::new();
    let mut i: usize = 0;
    while i < entries.len()
        invariant
            i <= entries@.len(),
            forall|v: Seq<char>|
                str_views(found@).contains(v) <==> exists|k: int|
                    0 <= k < i && lexicon_triple(#[trigger] entries@[k]) == (reference, field@, v),
        decreases entries.len() - i,
    {
        let e = &entries[i];
        let ghost before = found@;
        if e.0.0 == reference.0 && e.0.1 == reference.1 && str_eq(e.1.as_str(), field) {
            found.push(owned(e.2.as_str()));
        }
        proof {
            assert forall|v: Seq<char>|
                str_views(found@).contains(v) <==> exists|k: int|
                    0 <= k < i + 1 && lexicon_triple(#[trigger] entries@[k]) == (reference, field@, v) by {
                if str_views(found@).contains(v) {
                    let q = choose|q: int| 0 <= q < str_views(found@).len() && str_views(found@)[q] == v;
                    if q < before.len() {
                        assert(str_views(before)[q] == v);
                        assert(str_views(before).contains(v));
                    } else {
                        assert(lexicon_triple(entries@[i as int]) == (reference, field@, v));
                    }
                }
                if exists|k: int| 0 <= k < i + 1 && lexicon_triple(#[trigger] entries@[k]) == (reference, field@, v) {
                    let k = choose|k: int| 0 <= k < i + 1 && lexicon_triple(#[trigger] entries@[k]) == (reference, field@, v);
                    if k < i {
                        assert(str_views(before).contains(v));
                        let q = choose|q: int| 0 <= q < str_views(before).len() && str_views(before)[q] == v;
                        assert(str_views(found@)[q] == v);
                    } else {
                        assert(str_views(found@)[found@.len() - 1] == v);
                    }
                }
            }
        }
        i = i + 1;
    }
    let sorted = sorted_distinct_strings(found.as_slice());
    let r = join_strings(sorted.as_slice(), " ");
    proof {
        let vals = str_views(sorted@);
        assert(vals =~= string_views(sorted@));
        assert forall|v: Seq<char>| #[trigger] vals.to_set().contains(v) <==> field_values(
            projection.triples(),
            reference,
            field@,
        ).contains(v) by {
            assert(vals.to_set().contains(v) <==> str_views(found@).to_set().contains(v));
            if exists|k: int| 0 <= k < entries@.len() && lexicon_triple(#[trigger] entries@[k]) == (reference, field@, v) {
                let k = choose|k: int| 0 <= k < entries@.len() && lexicon_triple(#[trigger] entries@[k]) == (reference, field@, v);
                assert(projection.triples().contains((reference, field@, v)));
            }
            if projection.triples().contains((reference, field@, v)) {
                let k = choose|k: int| 0 <= k < entries@.len() && lexicon_triple(#[trigger] entries@[k]) == (reference, field@, v);
            }
        }
        assert(vals.to_set() =~= field_values(projection.triples(), reference, field@));
        assert(r@ == joined_with(vals, " "@));
    }
    r
}

/// A token analysis of the active dataset as the index build reads it: the
/// edition it was aligned to, its ayah, the ids of its root and lemma rows,
/// its stem, its two part-of-speech tags and the pattern values its
/// features name (`pattern`, `verb_form`, `morphological_pattern`).
#[derive(Debug, Clone)]
pub struct ProjectedAnalysis {
    pub edition_id: String,
    pub surah: i64,
    pub ayah: i64,
    pub root_id: Option<String>,
    pub lemma_id: Option<String>,
    pub stem: String,
    pub pos_unified: String,
    pub pos_native: String,
    pub patterns: Vec<String>,
}

/// The text `rows` give for `id` (rows are `(id, text)`; a later row with
/// the same id wins).
pub open spec fn lookup_text(rows: Seq<(String, String)>, id: Seq<char>) -> Option<Seq<char>>
    decreases rows.len(),
{
    if rows.len() == 0 {
        None
    } else if rows.last().0@ == id {
        Some(rows.last().1@)
    } else {
        lookup_text(rows.drop_last(), id)
    }
}

/// `s` after recording `value` of `field` at `reference` (trimmed; nothing
/// when blank).
pub open spec fn with_value(
    s: Set<((i64, i64), Seq<char>, Seq<char>)>,
    reference: (i64, i64),
    field: Seq<char>,
    value: Seq<char>,
) -> Set<((i64, i64), Seq<char>, Seq<char>)> {
    if trim(value).len() == 0 {
        s
    } else {
        s.insert((reference, field, trim(value)))
    }
}

/// `s` after recording a value that may be missing.
pub open spec fn with_found(
    s: Set<((i64, i64), Seq<char>, Seq<char>)>,
    reference: (i64, i64),
    field: Seq<char>,
    value: Option<Seq<char>>,
) -> Set<((i64, i64), Seq<char>, Seq<char>)> {
    match value {
        Some(v) => with_value(s, reference, field, v),
        None => s,
    }
}

/// `s` after recording the first `n` of `values`.
pub open spec fn with_values(
    s: Set<((i64, i64), Seq<char>, Seq<char>)>,
    reference: (i64, i64),
    field: Seq<char>,
    values: Seq<String>,
    n: int,
) -> Set<((i64, i64), Seq<char>, Seq<char>)>
    decreases n,
{
    if n <= 0 {
        s
    } else {
        with_value(with_values(s, reference, field, values, n - 1), reference, field, values[n - 1]@)
    }
}

/// The text of the row an optional id names.
pub open spec fn resolved(rows: Seq<(String, String)>, id: Option<String>) -> Option<Seq<char>> {
    match id {
        Some(i) => lookup_text(rows, i@),
        None => None,
    }
}

/// `s` after recording what one analysis contributes: its root, its lemma,
/// its stem, its two tags and its patterns.
pub open spec fn with_analysis(
    s: Set<((i64, i64), Seq<char>, Seq<char>)>,
    a: ProjectedAnalysis,
    roots: Seq<(String, String)>,
    lemmas: Seq<(String, String)>,
) -> Set<((i64, i64), Seq<char>, Seq<char>)> {
    let r = (a.surah, a.ayah);
    let s1 = with_found(s, r, "roots"@, resolved(roots, a.root_id));
    let s2 = with_found(s1, r, "lemmas"@, resolved(lemmas, a.lemma_id));
    let s3 = with_value(s2, r, "stems"@, a.stem@);
    let s4 = with_value(s3, r, "pos_tags"@, a.pos_unified@);
    let s5 = with_value(s4, r, "pos_tags"@, a.pos_native@);
    with_values(s5, r, "patterns"@, a.patterns@, a.patterns@.len() as int)
}

/// The projection of the first `n` analyses aligned to `edition`; analyses
/// of other editions contribute nothing.
pub open spec fn projected(
    edition: Seq<char>,
    analyses: Seq<ProjectedAnalysis>,
    roots: Seq<(String, String)>,
    lemmas: Seq<(String, String)>,
    n: int,
) -> Set<((i64, i64), Seq<char>, Seq<char>)>
    decreases n,
{
    if n <= 0 {
        Set::empty()
    } else {
        let prev = projected(edition, analyses, roots, lemmas, n - 1);
        if analyses[n - 1].edition_id@ == edition {
            with_analysis(prev, analyses[n - 1], roots, lemmas)
        } else {
            prev
        }
    }
}

/// The text of the row named `id`.
fn find_text(rows: &[(String, String)], id: &str) -> (r: Option<String>)
    ensures
        match r {
            Some(t) => lookup_text(rows@, id@) == Some(t@),
            None => lookup_text(rows@, id@) is None,
        },
{
    let mut k: usize = rows.len();
    assert(rows@.take(k as int) =~= rows@);
    while k > 0
        invariant
            k <= rows@.len(),
            lookup_text(rows@, id@) == lookup_text(rows@.take(k as int), id@),
        decreases k,
    {
        assert(rows@.take(k as int).drop_last() =~= rows@.take(k - 1));
        assert(rows@.take(k as int).last() == rows@[k - 1]);
        if str_eq(rows[k - 1].0.as_str(), id) {
            return Some(owned(rows[k - 1].1.as_str()));
        }
        k = k - 1;
    }
    None
}

/// The text of the row an optional id names.
fn find_resolved(rows: &[(String, String)], id: &Option<String>) -> (r: Option<String>)
    ensures
        match r {
            Some(t) => resolved(rows@, *id) == Some(t@),
            None => resolved(rows@, *id) is None,
        },
{
    match id {
        Some(i) => find_text(rows, i.as_str()),
        None => None,
    }
}

/// The lexicon projection an index build feeds into documents: only the
/// analyses aligned to `edition_id` count (a dataset is never applied to
/// another edition); `None` when none is, and the index stays text-only.
pub fn project_morphology(
    edition_id: &str,
    analyses: &[ProjectedAnalysis],
    roots: &[(String, String)],
    lemmas: &[(String, String)],
) -> (r: Option<LexiconProjection>)
    ensures
        r is None <==> !exists|i: int|
            0 <= i < analyses@.len() && (#[trigger] analyses@[i]).edition_id@ == edition_id@,
        r matches Some(p) ==> p.wf() && p.triples() == projected(
            edition_id@,
            analyses@,
            roots@,
            lemmas@,
            analyses@.len() as int,
        ),
{
    let mut any = false;
    let mut j: usize = 0;
    while j < analyses.len()
        invariant
            j <= analyses@.len(),
            any == exists|i: int| 0 <= i < j && (#[trigger] analyses@[i]).edition_id@ == edition_id@,
        decreases analyses.len() - j,
    {
        if str_eq(analyses[j].edition_id.as_str(), edition_id) {
            any = true;
        }
        j = j + 1;
    }
    if !any {
        return None;
    }
    let mut p = LexiconProjection::new();
    let mut i: usize = 0;
    while i < analyses.len()
        invariant
            i <= analyses@.len(),
            p.wf(),
            p.triples() == projected(edition_id@, analyses@, roots@, lemmas@, i as int),
        decreases analyses.len() - i,
    {
        let a = &analyses[i];
        if str_eq(a.edition_id.as_str(), edition_id) {
            let r = (a.surah, a.ayah);
            match find_resolved(roots, &a.root_id) {
                Some(t) => add_lexicon_value(&mut p, r, "roots", t.as_str()),
                None => {},
            }
            match find_resolved(lemmas, &a.lemma_id) {
                Some(t) => add_lexicon_value(&mut p, r, "lemmas", t.as_str()),
                None => {},
            }
            add_lexicon_value(&mut p, r, "stems", a.stem.as_str());
            add_lexicon_value(&mut p, r, "pos_tags", a.pos_unified.as_str());
            add_lexicon_value(&mut p, r, "pos_tags", a.pos_native.as_str());
            let ghost s5 = p.triples();
            let mut k: usize = 0;
            while k < a.patterns.len()
                invariant
                    k <= a.patterns@.len(),
                    p.wf(),
                    p.triples() == with_values(s5, r, "patterns"@, a.patterns@, k as int),
                decreases a.patterns.len() - k,
            {
                add_lexicon_value(&mut p, r, "patterns", a.patterns[k].as_str());
                k = k + 1;
            }
        }
        i = i + 1;
    }
    Some(p)
}

/// Generation a new build stages: one past the highest recorded, at least 1.
pub fn next_generation(max_recorded: i64) -> (g: u64)
    requires
        max_recorded < i64::MAX,
    ensures
        g == (if max_recorded + 1 >= 1 {
            max_recorded + 1
        } else {
            1
        }),
{
    let next = max_recorded + 1;
    if next >= 1 {
        next as u64
    } else {
        1
    }
}

/// Build-run id: `index-build-<index>-g<generation>-<tag>`.
pub fn build_run_id(index_id: &str, generation: u64, run_tag: &str) -> (r: String)
    ensures
        r@ == "index-build-"@ + index_id@ + "-g"@ + decimal(generation as nat) + "-"@ + run_tag@,
{
    let mut r = concat2("index-build-", index_id);
    append_str(&mut r, "-g");
    push_decimal(&mut r, generation);
    push_char(&mut r, '-');
    append_str(&mut r, run_tag);
    proof {
        reveal_strlit("-");
        assert("-"@ =~= seq!['-']);
    }
    r
}

/// Document id of one ayah: `<index>:<edition>:<surah>:<ayah>`.
pub fn doc_id(index_id: &str, edition_id: &str, surah: i64, ayah: i64) -> (r: String)
    ensures
        r@ == index_id@ + seq![':'] + edition_id@ + seq![':'] + signed_decimal(surah as int)
            + seq![':'] + signed_decimal(ayah as int),
{
    let mut r = owned(index_id);
    push_char(&mut r, ':');
    append_str(&mut r, edition_id);
    push_char(&mut r, ':');
    push_signed(&mut r, surah);
    push_char(&mut r, ':');
    push_signed(&mut r, ayah);
    r
}

/// Posting rows a build re-resolves after writing them: every row of a
/// small set, every sixteenth row (from the first) of a larger one.
pub fn trigram_sample(n_rows: usize) -> (r: Vec<usize>)
    ensures
        n_rows <= 2000 ==> r@.len() == n_rows && forall|i: int|
            0 <= i < n_rows ==> #[trigger] r@[i] == i,
        n_rows > 2000 ==> r@.len() == (n_rows + 15) / 16 && forall|i: int|
            0 <= i < r@.len() ==> #[trigger] r@[i] == 16 * i,
{
    let mut r: Vec<usize> = Vec::new();
    let mut i: usize = 0;
    if n_rows <= 2000 {
        while i < n_rows
            invariant
                i <= n_rows,
                r@.len() == i,
                forall|k: int| 0 <= k < i ==> #[trigger] r@[k] == k,
            decreases n_rows - i,
        {
            r.push(i);
            i = i + 1;
        }
    } else {
        let count: usize = n_rows / 16 + (if n_rows % 16 == 0 {
            0
        } else {
            1
        });
        assert(count == (n_rows + 15) / 16) by (nonlinear_arith)
            requires
                count == n_rows / 16 + (if n_rows % 16 == 0 {
                    0int
                } else {
                    1int
                }),
        ;
        while i < count
            invariant
                count == (n_rows + 15) / 16,
                n_rows > 2000,
                i <= count,
                r@.len() == i,
                forall|k: int| 0 <= k < i ==> #[trigger] r@[k] == 16 * k,
            decreases count - i,
        {
            assert(16 * i < n_rows) by (nonlinear_arith)
                requires
                    i < count,
                    count == (n_rows + 15) / 16,
            ;
            r.push(16 * i);
            i = i + 1;
        }
    }
    r
}

pub(crate) proof fn lemma_decimal_digits(n: nat)
    ensures
        decimal(n).len() >= 1,
        all_digits(decimal(n)),
        digits_value(decimal(n)) == n,
    decreases n,
{
    let c = digit_char(n % 10);
    assert((c as u32) == 48 + n % 10);
    if n >= 10 {
        lemma_decimal_digits(n / 10);
        let d = decimal(n / 10);
        assert(decimal(n) == d.push(c));
        assert(decimal(n).drop_last() =~= d);
        assert(decimal(n).last() == c);
        assert(digits_value(decimal(n)) == digits_value(d) * 10 + ((c as u32) - 48) as nat);
        assert(n == (n / 10) * 10 + n % 10);
        assert forall|i: int| 0 <= i < decimal(n).len() implies is_digit(#[trigger] decimal(n)[i]) by {
            if i < d.len() {
                assert(decimal(n)[i] == d[i]);
            }
        }
    } else {
        assert(decimal(n).drop_last() =~= Seq::<char>::empty());
        assert(decimal(n).last() == c);
        assert(digits_value(decimal(n)) == digits_value(Seq::<char>::empty()) * 10 + ((c as u32)
            - 48) as nat);
    }
}

proof fn lemma_parse_decimal(n: nat, max: nat)
    requires
        n <= max,
    ensures
        parse_unsigned(decimal(n), max) == Some(n),
{
    lemma_decimal_digits(n);
    assert(is_digit(decimal(n)[0]));
    assert(unsigned_digits(decimal(n)) == Some(decimal(n)));
}

proof fn lemma_last_colon_after(x: Seq<char>, y: Seq<char>)
    requires
        forall|i: int| 0 <= i < y.len() ==> #[trigger] y[i] != ':',
    ensures
        last_colon(x + seq![':'] + y) == Some(x.len() as int),
    decreases y.len(),
{
    let s = x + seq![':'] + y;
    if y.len() == 0 {
        assert(s.last() == ':');
    } else {
        assert(s.last() == y.last());
        assert(s.drop_last() =~= x + seq![':'] + y.drop_last());
        lemma_last_colon_after(x, y.drop_last());
    }
}

proof fn lemma_split_at_colon(x: Seq<char>, y: Seq<char>)
    ensures
        (x + seq![':'] + y).take(x.len() as int) == x,
        (x + seq![':'] + y).skip(x.len() + 1int) == y,
{
    assert((x + seq![':'] + y).take(x.len() as int) =~= x);
    assert((x + seq![':'] + y).skip(x.len() + 1int) =~= y);
}

proof fn lemma_decimal_no_colon(n: nat)
    ensures
        forall|i: int| 0 <= i < decimal(n).len() ==> #[trigger] decimal(n)[i] != ':',
{
    lemma_decimal_digits(n);
    assert forall|i: int| 0 <= i < decimal(n).len() implies #[trigger] decimal(n)[i] != ':' by {
        assert(is_digit(decimal(n)[i]));
    }
}

/// A document id built for an ayah resolves back to that ayah: whatever
/// the index id holds, when the edition id has no `:` and the numbers fit.
pub proof fn doc_id_round_trip(index_id: Seq<char>, edition_id: Seq<char>, surah: i64, ayah: i64)
    requires
        forall|i: int| 0 <= i < edition_id.len() ==> #[trigger] edition_id[i] != ':',
        0 <= surah <= u16::MAX,
        0 <= ayah <= u32::MAX,
    ensures
        doc_id_spec(
            index_id + seq![':'] + edition_id + seq![':'] + signed_decimal(surah as int) + seq![':']
                + signed_decimal(ayah as int),
            index_id,
            edition_id,
        ) == Ok::<(int, int), crate::serving::DocIdError>((surah as int, ayah as int)),
{
    let ds = decimal(surah as nat);
    let da = decimal(ayah as nat);
    let p2 = index_id + seq![':'] + edition_id;
    let p3 = p2 + seq![':'] + ds;
    let full = p3 + seq![':'] + da;
    assert(index_id + seq![':'] + edition_id + seq![':'] + signed_decimal(surah as int) + seq![':']
        + signed_decimal(ayah as int) == full);
    lemma_decimal_no_colon(surah as nat);
    lemma_decimal_no_colon(ayah as nat);
    lemma_last_colon_after(p3, da);
    lemma_split_at_colon(p3, da);
    lemma_last_colon_after(p2, ds);
    lemma_split_at_colon(p2, ds);
    lemma_last_colon_after(index_id, edition_id);
    lemma_split_at_colon(index_id, edition_id);
    assert(rsplit_colon(index_id, 1) == seq![index_id]);
    assert(rsplit_colon(p2, 2) == seq![edition_id] + seq![index_id]);
    assert(rsplit_colon(p3, 3) == seq![ds] + (seq![edition_id] + seq![index_id]));
    assert(rsplit_colon(full, 4) == seq![da] + (seq![ds] + (seq![edition_id] + seq![index_id])));
    let parts = rsplit_colon(full, 4);
    assert(part_or_empty(parts, 0) == da);
    assert(part_or_empty(parts, 1) == ds);
    assert(part_or_empty(parts, 2) == edition_id);
    assert(part_or_empty(parts, 3) == index_id);
    lemma_parse_decimal(surah as nat, u16::MAX as nat);
    lemma_parse_decimal(ayah as nat, u32::MAX as nat);
}

/// One recorded build run.
#[derive(Debug, Clone)]
pub struct BuildRun {
    /// Run id.
    pub id: String,
    /// Build generation.
    pub generation: i64,
    /// `staged`, `verifying`, `active`, `superseded` or `failed`.
    pub state: String,
    /// Documents committed.
    pub doc_count: i64,
    /// Manifest hash.
    pub manifest_hash: String,
}

/// Strictly increasing.
pub open spec fn increasing(s: Seq<u64>) -> bool {
    forall|i: int, j: int| 0 <= i < j < s.len() ==> #[trigger] s[i] < #[trigger] s[j]
}

/// Strictly decreasing.
pub open spec fn decreasing(s: Seq<u64>) -> bool {
    forall|i: int, j: int| 0 <= i < j < s.len() ==> #[trigger] s[i] > #[trigger] s[j]
}

/// The values of `v`, ascending, each once.
pub fn sorted_distinct(v: &[u64]) -> (r: Vec<u64>)
    ensures
        increasing(r@),
        r@.to_set() == v@.to_set(),
{
    let mut r: Vec<u64> = Vec::new();
    let mut i: usize = 0;
    while i < v.len()
        invariant
            i <= v.len(),
            increasing(r@),
            r@.to_set() == v@.take(i as int).to_set(),
        decreases v.len() - i,
    {
        let c = v[i];
        let mut p: usize = 0;
        while p < r.len() && r[p] < c
            invariant
                p <= r.len(),
                forall|j: int| 0 <= j < p ==> #[trigger] r@[j] < c,
            decreases r.len() - p,
        {
            p = p + 1;
        }
        let ghost before = r@;
        if p < r.len() && r[p] == c {
            assert(r@.to_set().contains(c));
            assert(r@.to_set() =~= before.to_set().insert(c));
        } else {
            r.insert(p, c);
            proof {
                assert forall|a: int, b: int| 0 <= a < b < r@.len() implies #[trigger] r@[a]
                    < #[trigger] r@[b] by {
                    if b < p {
                        assert(r@[a] == before[a] && r@[b] == before[b]);
                    } else if b == p {
                        assert(r@[a] == before[a]);
                    } else if a < p {
                        assert(r@[a] == before[a] && r@[b] == before[b - 1]);
                    } else if a == p {
                        assert(r@[b] == before[b - 1]);
                        if b - 1 > p {
                            assert(before[p as int] < before[b - 1]);
                        }
                    } else {
                        assert(r@[a] == before[a - 1] && r@[b] == before[b - 1]);
                    }
                }
                assert(r@.to_set() =~= before.to_set().insert(c)) by {
                    assert forall|x: u64| r@.to_set().contains(x) implies before.to_set().insert(
                        c,
                    ).contains(x) by {
                        let k = choose|k: int| 0 <= k < r@.len() && #[trigger] r@[k] == x;
                        if k < p {
                            assert(before[k] == x);
                        } else if k > p {
                            assert(before[k - 1] == x);
                        }
                    }
                    assert forall|x: u64| before.to_set().insert(c).contains(x) implies r@.to_set().contains(
                        x,
                    ) by {
                        if x == c {
                            assert(r@[p as int] == c);
                        } else {
                            let k = choose|k: int| 0 <= k < before.len() && #[trigger] before[k] == x;
                            if k < p {
                                assert(r@[k] == x);
                            } else {
                                assert(r@[k + 1] == x);
                            }
                        }
                    }
                }
            }
        }
        proof {
            let t1 = v@.take(i + 1);
            let t0 = v@.take(i as int);
            assert(t1.to_set() =~= t0.to_set().insert(c)) by {
                assert forall|x: u64| t1.to_set().contains(x) implies t0.to_set().insert(c).contains(
                    x,
                ) by {
                    let k = choose|k: int| 0 <= k < i + 1 && #[trigger] t1[k] == x;
                    if k < i {
                        assert(t0[k] == x);
                    }
                }
                assert forall|x: u64| t0.to_set().insert(c).contains(x) implies t1.to_set().contains(
                    x,
                ) by {
                    if x == c {
                        assert(t1[i as int] == c);
                    } else {
                        let k = choose|k: int| 0 <= k < i && #[trigger] t0[k] == x;
                        assert(t1[k] == x);
                    }
                }
            }
        }
        i = i + 1;
    }
    assert(v@.take(v.len() as int) =~= v@);
    r
}

/// `s` read backwards.
pub fn reversed(s: &[u64]) -> (r: Vec<u64>)
    ensures
        r@ == s@.reverse(),
{
    let mut r: Vec<u64> = Vec::new();
    let mut i: usize = s.len();
    while i > 0
        invariant
            i <= s.len(),
            r@ == s@.subrange(i as int, s.len() as int).reverse(),
        decreases i,
    {
        i = i - 1;
        r.push(s[i]);
        assert(r@ =~= s@.subrange(i as int, s.len() as int).reverse());
    }
    assert(s@.subrange(0, s.len() as int) =~= s@);
    r
}

/// Whether a build run is in `state`.
pub open spec fn is_state(run: BuildRun, state: Seq<char>) -> bool {
    run.state@ == state
}

/// Generations of the runs that could serve (`active` or `superseded`).
pub open spec fn servable(runs: Seq<BuildRun>) -> Set<u64> {
    Set::new(
        |g: u64|
            exists|i: int|
                0 <= i < runs.len() && (is_state(runs[i], "active"@) || is_state(
                    runs[i],
                    "superseded"@,
                )) && #[trigger] (runs[i].generation as u64) == g,
    )
}

/// Superseded runs outside `kept`, in run order, as `(generation, id)`.
pub open spec fn gc_removals(runs: Seq<BuildRun>, kept: Set<u64>, n: int) -> Seq<(u64, Seq<char>)>
    decreases n,
{
    if n <= 0 {
        Seq::empty()
    } else {
        let prev = gc_removals(runs, kept, n - 1);
        let run = runs[n - 1];
        if is_state(run, "superseded"@) && !kept.contains(run.generation as u64) {
            prev.push((run.generation as u64, run.id@))
        } else {
            prev
        }
    }
}

/// A retention pass never removes a generation it keeps, so never the
/// serving one (which `gc_plan` always keeps), and removes superseded runs
/// only.
pub proof fn gc_never_removes_kept(runs: Seq<BuildRun>, kept: Set<u64>, n: int)
    ensures
        forall|k: int|
            0 <= k < gc_removals(runs, kept, n).len() ==> !kept.contains(
                (#[trigger] gc_removals(runs, kept, n)[k]).0,
            ),
    decreases n,
{
    if n > 0 {
        gc_never_removes_kept(runs, kept, n - 1);
        let prev = gc_removals(runs, kept, n - 1);
        let cur = gc_removals(runs, kept, n);
        assert forall|k: int| 0 <= k < cur.len() implies !kept.contains((#[trigger] cur[k]).0) by {
            if k < prev.len() {
                assert(cur[k] == prev[k]);
            }
        }
    }
}

/// Run `j` is superseded and its generation is not kept.
pub open spec fn removable(runs: Seq<BuildRun>, kept: Set<u64>, j: int) -> bool {
    is_state(runs[j], "superseded"@) && !kept.contains(runs[j].generation as u64)
}

/// Some removable run among the first `n` has generation `g` and id `id`.
pub open spec fn removal_of(runs: Seq<BuildRun>, kept: Set<u64>, n: int, g: u64, id: Seq<char>) -> bool {
    exists|j: int| 0 <= j < n && #[trigger] removable(runs, kept, j) && runs[j].generation as u64 == g && runs[j].id@ =~= id
}

/// A retention pass removes exactly the superseded runs whose generation it
/// does not keep: each removal is such a run, and each such run is removed.
pub proof fn gc_removal_law(runs: Seq<BuildRun>, kept: Set<u64>, n: int)
    requires
        0 <= n <= runs.len(),
    ensures
        forall|k: int|
            0 <= k < gc_removals(runs, kept, n).len() ==> removal_of(
                runs,
                kept,
                n,
                (#[trigger] gc_removals(runs, kept, n)[k]).0,
                gc_removals(runs, kept, n)[k].1,
            ),
        forall|j: int|
            0 <= j < n && #[trigger] removable(runs, kept, j) ==> gc_removals(runs, kept, n).contains(
                (runs[j].generation as u64, runs[j].id@),
            ),
    decreases n,
{
    if n > 0 {
        gc_removal_law(runs, kept, n - 1);
        let prev = gc_removals(runs, kept, n - 1);
        let cur = gc_removals(runs, kept, n);
        assert forall|k: int| 0 <= k < cur.len() implies removal_of(runs, kept, n, (#[trigger] cur[k]).0, cur[k].1) by {
            if k < prev.len() {
                assert(cur[k] == prev[k]);
                assert(removal_of(runs, kept, n - 1, prev[k].0, prev[k].1));
                let j = choose|j: int|
                    0 <= j < n - 1 && #[trigger] removable(runs, kept, j) && runs[j].generation as u64 == prev[k].0
                        && runs[j].id@ =~= prev[k].1;
                assert(removable(runs, kept, j));
            } else {
                assert(removable(runs, kept, n - 1));
            }
        }
        assert forall|j: int| 0 <= j < n && #[trigger] removable(runs, kept, j) implies cur.contains(
            (runs[j].generation as u64, runs[j].id@),
        ) by {
            if j < n - 1 {
                let q = choose|q: int| 0 <= q < prev.len() && prev[q] == (runs[j].generation as u64, runs[j].id@);
                assert(cur[q] == prev[q]);
            } else {
                assert(cur[prev.len() as int] == (runs[j].generation as u64, runs[j].id@));
            }
        }
    }
}

/// Failed runs, in run order, by generation.
pub open spec fn gc_sweeps(runs: Seq<BuildRun>, n: int) -> Seq<u64>
    decreases n,
{
    if n <= 0 {
        Seq::empty()
    } else if is_state(runs[n - 1], "failed"@) {
        gc_sweeps(runs, n - 1).push(runs[n - 1].generation as u64)
    } else {
        gc_sweeps(runs, n - 1)
    }
}

/// Some failed run among the first `n` has generation `g`.
pub open spec fn failed_generation(runs: Seq<BuildRun>, n: int, g: u64) -> bool {
    exists|j: int| 0 <= j < n && is_state(#[trigger] runs[j], "failed"@) && runs[j].generation as u64 == g
}

/// A retention pass sweeps exactly the failed runs' generations: each
/// swept generation is a failed run's, and each failed run's is swept.
pub proof fn gc_sweep_law(runs: Seq<BuildRun>, n: int)
    requires
        0 <= n <= runs.len(),
    ensures
        forall|k: int|
            0 <= k < gc_sweeps(runs, n).len() ==> failed_generation(runs, n, #[trigger] gc_sweeps(runs, n)[k]),
        forall|j: int|
            0 <= j < n && is_state(#[trigger] runs[j], "failed"@) ==> gc_sweeps(runs, n).contains(
                runs[j].generation as u64,
            ),
    decreases n,
{
    if n > 0 {
        gc_sweep_law(runs, n - 1);
        let prev = gc_sweeps(runs, n - 1);
        let cur = gc_sweeps(runs, n);
        assert forall|k: int| 0 <= k < cur.len() implies failed_generation(runs, n, #[trigger] cur[k]) by {
            if k < prev.len() {
                assert(cur[k] == prev[k]);
                assert(failed_generation(runs, n - 1, prev[k]));
                let j = choose|j: int| 0 <= j < n - 1 && is_state(#[trigger] runs[j], "failed"@) && runs[j].generation as u64 == prev[k];
                assert(is_state(runs[j], "failed"@));
            } else {
                assert(is_state(runs[n - 1], "failed"@));
            }
        }
        assert forall|j: int| 0 <= j < n && is_state(#[trigger] runs[j], "failed"@) implies cur.contains(
            runs[j].generation as u64,
        ) by {
            if j < n - 1 {
                let q = choose|q: int| 0 <= q < prev.len() && prev[q] == runs[j].generation as u64;
                assert(cur[q] == prev[q]);
            } else {
                assert(cur[prev.len() as int] == runs[j].generation as u64);
            }
        }
    }
}

/// What one retention pass does: the generations kept (newest first), the
/// superseded runs whose generation and row go, and the failed runs whose
/// staging output is swept (their history rows stay).
#[derive(Debug, Clone)]
pub struct GcPlan {
    /// Generations retained, newest first.
    pub kept: Vec<u64>,
    /// Superseded runs to remove: generation and run id.
    pub remove: Vec<(u64, String)>,
    /// Failed runs' generations whose staging output is freed.
    pub sweep: Vec<u64>,
}

/// Removal views of a plan.
pub open spec fn removal_views(v: Seq<(u64, String)>) -> Seq<(u64, Seq<char>)> {
    v.map_values(|e: (u64, String)| (e.0, e.1@))
}

/// Protected generations: the newest `keep` servable ones (`keep` at least
/// one) plus the active one.
pub open spec fn protected_set(ascending: Seq<u64>, keep: usize, active: Option<u64>) -> Set<u64> {
    let k = if keep == 0 {
        1
    } else {
        keep as int
    };
    let from = if k <= ascending.len() {
        ascending.len() - k
    } else {
        0
    };
    let top = ascending.subrange(from, ascending.len() as int).to_set();
    match active {
        Some(a) => top.insert(a),
        None => top,
    }
}

fn contains_u64(v: &[u64], x: u64) -> (r: bool)
    ensures
        r == v@.contains(x),
{
    let mut i: usize = 0;
    while i < v.len()
        invariant
            i <= v.len(),
            forall|j: int| 0 <= j < i ==> v@[j] != x,
        decreases v.len() - i,
    {
        if v[i] == x {
            assert(v@[i as int] == x);
            return true;
        }
        i = i + 1;
    }
    false
}

/// Retention plan for one GC pass. Policy: the active generation is never
/// touched; the newest `keep` servable generations (at least one) are
/// retained for rollback; older superseded generations lose their
/// directory and run row; failed runs lose orphaned staging output only;
/// runs still staging or verifying are left alone.
pub fn gc_plan(runs: &[BuildRun], active_generation: Option<u64>, keep: usize) -> (plan: GcPlan)
    ensures
        decreasing(plan.kept@),
        exists|ascending: Seq<u64>|
            increasing(ascending) && ascending.to_set() == servable(runs@) && plan.kept@.to_set()
                == protected_set(ascending, keep, active_generation),
        removal_views(plan.remove@) == gc_removals(
            runs@,
            plan.kept@.to_set(),
            runs@.len() as int,
        ),
        plan.sweep@ == gc_sweeps(runs@, runs@.len() as int),
        active_generation matches Some(a) ==> plan.kept@.contains(a),
        forall|k: int|
            0 <= k < plan.remove@.len() ==> removal_of(
                runs@,
                plan.kept@.to_set(),
                runs@.len() as int,
                (#[trigger] plan.remove@[k]).0,
                plan.remove@[k].1@,
            ),
        forall|j: int|
            0 <= j < runs@.len() && #[trigger] removable(runs@, plan.kept@.to_set(), j) ==> removal_views(
                plan.remove@,
            ).contains((runs@[j].generation as u64, runs@[j].id@)),
        forall|k: int| 0 <= k < plan.sweep@.len() ==> failed_generation(runs@, runs@.len() as int, #[trigger] plan.sweep@[k]),
        forall|j: int|
            0 <= j < runs@.len() && is_state(#[trigger] runs@[j], "failed"@) ==> plan.sweep@.contains(
                runs@[j].generation as u64,
            ),
{
    let k: usize = if keep == 0 {
        1
    } else {
        keep
    };
    let mut gens: Vec<u64> = Vec::new();
    let mut i: usize = 0;
    while i < runs.len()
        invariant
            i <= runs.len(),
            forall|g: u64|
                #![trigger gens@.contains(g)]
                gens@.contains(g) <==> exists|j: int|
                    0 <= j < i && (is_state(runs@[j], "active"@) || is_state(
                        runs@[j],
                        "superseded"@,
                    )) && #[trigger] (runs@[j].generation as u64) == g,
        decreases runs.len() - i,
    {
        let run = &runs[i];
        if str_eq(run.state.as_str(), "active") || str_eq(run.state.as_str(), "superseded") {
            let ghost before = gens@;
            gens.push(run.generation as u64);
            proof {
                assert forall|g: u64| #![trigger gens@.contains(g)] gens@.contains(g) implies exists|j: int|
                    0 <= j < i + 1 && (is_state(runs@[j], "active"@) || is_state(
                        runs@[j],
                        "superseded"@,
                    )) && #[trigger] (runs@[j].generation as u64) == g by {
                    if g != run.generation as u64 {
                        let m = choose|m: int| 0 <= m < gens@.len() && gens@[m] == g;
                        assert(before[m] == g);
                        assert(before.contains(g));
                    }
                }
                assert forall|g: u64| #![trigger gens@.contains(g)] (exists|j: int|
                    0 <= j < i + 1 && (is_state(runs@[j], "active"@) || is_state(
                        runs@[j],
                        "superseded"@,
                    )) && #[trigger] (runs@[j].generation as u64) == g) implies gens@.contains(g) by {
                    if g == run.generation as u64 {
                        assert(gens@[before.len() as int] == g);
                    } else {
                        let j = choose|j: int|
                            0 <= j < i + 1 && (is_state(runs@[j], "active"@) || is_state(
                                runs@[j],
                                "superseded"@,
                            )) && #[trigger] (runs@[j].generation as u64) == g;
                        assert(j < i);
                        assert(before.contains(g));
                        let m = choose|m: int| 0 <= m < before.len() && before[m] == g;
                        assert(gens@[m] == g);
                    }
                }
            }
        }
        i = i + 1;
    }
    proof {
        assert(gens@.to_set() =~= servable(runs@)) by {
            assert forall|g: u64| gens@.to_set().contains(g) <==> servable(runs@).contains(g) by {
                assert(gens@.to_set().contains(g) <==> gens@.contains(g));
            }
        }
    }
    let ascending = sorted_distinct(gens.as_slice());
    let n = ascending.len();
    let from: usize = if k <= n {
        n - k
    } else {
        0
    };
    let mut protected: Vec<u64> = Vec::new();
    let mut j: usize = from;
    while j < n
        invariant
            from <= j <= n == ascending@.len(),
            protected@ == ascending@.subrange(from as int, j as int),
        decreases n - j,
    {
        protected.push(ascending[j]);
        j = j + 1;
        assert(protected@ =~= ascending@.subrange(from as int, j as int));
    }
    let ghost top = protected@;
    match active_generation {
        Some(a) => {
            protected.push(a);
        },
        None => {},
    }
    proof {
        match active_generation {
            Some(a) => {
                assert(protected@.to_set() =~= top.to_set().insert(a)) by {
                    assert forall|x: u64| protected@.to_set().contains(x) implies top.to_set().insert(a).contains(x) by {
                        let m = choose|m: int| 0 <= m < protected@.len() && #[trigger] protected@[m] == x;
                        if m < top.len() {
                            assert(top[m] == x);
                        }
                    }
                    assert forall|x: u64| top.to_set().insert(a).contains(x) implies protected@.to_set().contains(x) by {
                        if x == a {
                            assert(protected@[top.len() as int] == a);
                        } else {
                            let m = choose|m: int| 0 <= m < top.len() && #[trigger] top[m] == x;
                            assert(protected@[m] == x);
                        }
                    }
                }
            },
            None => {},
        }
    }
    let up = sorted_distinct(protected.as_slice());
    let kept = reversed(up.as_slice());
    proof {
        assert forall|a: int, b: int| 0 <= a < b < kept@.len() implies #[trigger] kept@[a]
            > #[trigger] kept@[b] by {
            assert(kept@[a] == up@[up@.len() - 1 - a]);
            assert(kept@[b] == up@[up@.len() - 1 - b]);
        }
        assert(kept@.to_set() =~= up@.to_set()) by {
            assert forall|x: u64| kept@.to_set().contains(x) implies up@.to_set().contains(x) by {
                let m = choose|m: int| 0 <= m < kept@.len() && #[trigger] kept@[m] == x;
                assert(up@[up@.len() - 1 - m] == x);
            }
            assert forall|x: u64| up@.to_set().contains(x) implies kept@.to_set().contains(x) by {
                let m = choose|m: int| 0 <= m < up@.len() && #[trigger] up@[m] == x;
                assert(kept@[up@.len() - 1 - m] == x);
            }
        }
        assert(kept@.to_set() == protected_set(ascending@, keep, active_generation));
        match active_generation {
            Some(a) => {
                assert(kept@.to_set().contains(a));
            },
            None => {},
        }
    }
    let mut remove: Vec<(u64, String)> = Vec::new();
    let mut sweep: Vec<u64> = Vec::new();
    let mut t: usize = 0;
    while t < runs.len()
        invariant
            t <= runs.len(),
            removal_views(remove@) == gc_removals(runs@, kept@.to_set(), t as int),
            sweep@ == gc_sweeps(runs@, t as int),
        decreases runs.len() - t,
    {
        let run = &runs[t];
        let g = run.generation as u64;
        proof {
            reveal_strlit("superseded");
            reveal_strlit("failed");
        }
        if str_eq(run.state.as_str(), "superseded") && !contains_u64(kept.as_slice(), g) {
            let ghost before = remove@;
            remove.push((g, owned(run.id.as_str())));
            assert(removal_views(remove@) =~= removal_views(before).push((g, run.id@)));
        } else if str_eq(run.state.as_str(), "failed") {
            sweep.push(g);
        }
        proof {
            assert(runs@[t as int] == *run);
            reveal_strlit("superseded");
            reveal_strlit("failed");
            assert("superseded"@.len() != "failed"@.len());
            if is_state(*run, "superseded"@) {
                assert(!is_state(*run, "failed"@));
            }
        }
        t = t + 1;
    }
    proof {
        gc_removal_law(runs@, kept@.to_set(), runs@.len() as int);
        gc_sweep_law(runs@, runs@.len() as int);
        assert forall|k: int| 0 <= k < remove@.len() implies removal_of(
            runs@,
            kept@.to_set(),
            runs@.len() as int,
            (#[trigger] remove@[k]).0,
            remove@[k].1@,
        ) by {
            assert(removal_views(remove@)[k] == (remove@[k].0, remove@[k].1@));
        }
    }
    GcPlan { kept, remove, sweep }
}

/// A superseded run below `current` has generation `g`.
pub open spec fn restorable(runs: Seq<BuildRun>, current: u64, g: u64) -> bool {
    exists|i: int|
        0 <= i < runs.len() && is_state(runs[i], "superseded"@) && #[trigger] (runs[i].generation
            as u64) == g && g < current
}

/// Rollback cannot ping-pong: once generation `previous` (below `current`)
/// serves, whatever the run table then holds, the next rollback target is
/// below `previous`, so never the generation rolled back from.
pub proof fn rollback_cannot_ping_pong(runs_after: Seq<BuildRun>, current: u64, previous: u64, g: u64)
    requires
        previous < current,
        restorable(runs_after, previous, g),
    ensures
        g < previous,
        g != current,
{
}

/// Generation a single-step rollback restores: the newest superseded run
/// below the serving generation. Rollback never moves to a newer
/// generation, so it cannot ping-pong.
pub fn rollback_target(runs: &[BuildRun], current: u64) -> (r: Option<u64>)
    ensures
        r is None <==> forall|g: u64| !restorable(runs@, current, g),
        r matches Some(p) ==> p < current && restorable(runs@, current, p) && forall|g: u64|
            restorable(runs@, current, g) ==> g <= p,
{
    let mut best: Option<u64> = None;
    let mut i: usize = 0;
    while i < runs.len()
        invariant
            i <= runs.len(),
            best is None ==> forall|j: int|
                0 <= j < i ==> !(is_state(#[trigger] runs@[j], "superseded"@) && (
                runs@[j].generation as u64) < current),
            best matches Some(p) ==> p < current && restorable(runs@, current, p) && forall|j: int|
                0 <= j < i && is_state(#[trigger] runs@[j], "superseded"@) && (runs@[j].generation
                    as u64) < current ==> (runs@[j].generation as u64) <= p,
        decreases runs.len() - i,
    {
        let g = runs[i].generation as u64;
        if str_eq(runs[i].state.as_str(), "superseded") && g < current {
            let better = match best {
                Some(p) => g > p,
                None => true,
            };
            if better {
                best = Some(g);
            }
        }
        i = i + 1;
    }
    proof {
        match best {
            Some(p) => {
                assert forall|g: u64| restorable(runs@, current, g) implies g <= p by {
                    let j = choose|j: int|
                        0 <= j < runs@.len() && is_state(runs@[j], "superseded"@) && #[trigger] (
                        runs@[j].generation as u64) == g && g < current;
                }
            },
            None => {
                assert forall|g: u64| !restorable(runs@, current, g) by {
                    if restorable(runs@, current, g) {
                        let j = choose|j: int|
                            0 <= j < runs@.len() && is_state(runs@[j], "superseded"@) && #[trigger] (
                            runs@[j].generation as u64) == g && g < current;
                        assert(!(is_state(runs@[j], "superseded"@) && (runs@[j].generation as u64)
                            < current));
                    }
                }
            },
        }
    }
    best
}

/// Run-state changes of a rollback from `current` to `previous`, in run
/// order: the serving run steps aside, the restored run serves.
pub open spec fn rollback_changes(runs: Seq<BuildRun>, current: u64, previous: u64, n: int) -> Seq<
    (Seq<char>, Seq<char>),
>
    decreases n,
{
    if n <= 0 {
        Seq::empty()
    } else {
        let prev = rollback_changes(runs, current, previous, n - 1);
        let run = runs[n - 1];
        let g = run.generation as u64;
        if g == current && is_state(run, "active"@) {
            prev.push((run.id@, "superseded"@))
        } else if g == previous && is_state(run, "superseded"@) {
            prev.push((run.id@, "active"@))
        } else {
            prev
        }
    }
}

/// Views of `(id, state)` changes.
pub open spec fn change_views(v: Seq<(String, String)>) -> Seq<(Seq<char>, Seq<char>)> {
    v.map_values(|e: (String, String)| (e.0@, e.1@))
}

/// The run-state swaps one rollback applies, as `(run id, new state)`.
pub fn rollback_transitions(runs: &[BuildRun], current: u64, previous: u64) -> (r: Vec<(String, String)>)
    ensures
        change_views(r@) == rollback_changes(runs@, current, previous, runs@.len() as int),
{
    let mut r: Vec<(String, String)> = Vec::new();
    let mut i: usize = 0;
    while i < runs.len()
        invariant
            i <= runs.len(),
            change_views(r@) == rollback_changes(runs@, current, previous, i as int),
        decreases runs.len() - i,
    {
        let run = &runs[i];
        let g = run.generation as u64;
        let ghost before = r@;
        if g == current && str_eq(run.state.as_str(), "active") {
            let e = (owned(run.id.as_str()), owned("superseded"));
            r.push(e);
            assert(change_views(r@) =~= change_views(before).push((e.0@, e.1@)));
        } else if g == previous && str_eq(run.state.as_str(), "superseded") {
            let e = (owned(run.id.as_str()), owned("active"));
            r.push(e);
            assert(change_views(r@) =~= change_views(before).push((e.0@, e.1@)));
        }
        i = i + 1;
    }
    r
}

/// Normalization failure kinds, as build diagnostics number them.
#[derive(Debug, Clone, Copy, PartialEq, Eq)]
pub enum NormalizationErrorKind {
    UnknownRule,
    UnknownProfile,
    ProfileImmutable,
    SpanOutOfRange,
    InvalidMapping,
    EmptyProfile,
}

/// Index-engine failure kinds, as build diagnostics number them.
#[derive(Debug, Clone, Copy, PartialEq, Eq)]
pub enum IndexErrorKind {
    BackendUnavailable,
    QueryRejected,
    BuildFailed,
    ManifestMismatch,
    CanonicalChanged,
    InvalidHit,
    RateLimited,
}

/// Index-build failures.
#[derive(Debug, Clone)]
pub enum IndexBuildError {
    /// Storage failure.
    Storage(String),
    /// Forms-layer normalization failure.
    FormsNormalization { kind: NormalizationErrorKind, message: String },
    /// Any other forms-layer failure.
    Forms(String),
    /// Index-engine failure: the stage a failed build names, the detail,
    /// and the engine's remedy, if any.
    Index { kind: IndexErrorKind, stage: Option<String>, message: String, remedy: Option<String> },
    /// Cancellation was requested mid-build; the pointer is untouched.
    Cancelled,
    /// Single-step rollback found no previous generation to restore.
    NoPreviousGeneration { index_id: String },
    /// The previous generation's directory is gone.
    PreviousGenerationEvicted { index_id: String, generation: u64 },
}

/// Namespace and number of an index-build failure's code.
pub open spec fn build_code(e: IndexBuildError) -> (Seq<char>, nat) {
    match e {
        IndexBuildError::Storage(_) => ("QAI-IDX"@, 3),
        IndexBuildError::FormsNormalization { kind, .. } => (
            "QAI-NORM"@,
            match kind {
                NormalizationErrorKind::UnknownRule => 1,
                NormalizationErrorKind::UnknownProfile => 2,
                NormalizationErrorKind::ProfileImmutable => 3,
                NormalizationErrorKind::SpanOutOfRange => 4,
                NormalizationErrorKind::InvalidMapping => 5,
                NormalizationErrorKind::EmptyProfile => 6,
            },
        ),
        IndexBuildError::Forms(_) => ("QAI-IDX"@, 3),
        IndexBuildError::Index { kind, .. } => (
            "QAI-IDX"@,
            match kind {
                IndexErrorKind::BackendUnavailable => 1,
                IndexErrorKind::QueryRejected => 2,
                IndexErrorKind::BuildFailed => 3,
                IndexErrorKind::ManifestMismatch => 4,
                IndexErrorKind::CanonicalChanged => 5,
                IndexErrorKind::InvalidHit => 6,
                IndexErrorKind::RateLimited => 7,
            },
        ),
        IndexBuildError::Cancelled => ("QAI-IDX"@, 3),
        IndexBuildError::NoPreviousGeneration { .. } => ("QAI-IDX"@, 8),
        IndexBuildError::PreviousGenerationEvicted { .. } => ("QAI-IDX"@, 9),
    }
}

impl IndexBuildError {
    /// Diagnostic code.
    pub fn code(&self) -> (c: DiagnosticCode)
        ensures
            (c.namespace@, c.number as nat) == build_code(*self),
    {
        match self {
            IndexBuildError::Storage(_) => DiagnosticCode::new("QAI-IDX", 3),
            IndexBuildError::FormsNormalization { kind, .. } => {
                let n: u32 = match kind {
                    NormalizationErrorKind::UnknownRule => 1,
                    NormalizationErrorKind::UnknownProfile => 2,
                    NormalizationErrorKind::ProfileImmutable => 3,
                    NormalizationErrorKind::SpanOutOfRange => 4,
                    NormalizationErrorKind::InvalidMapping => 5,
                    NormalizationErrorKind::EmptyProfile => 6,
                };
                DiagnosticCode::new("QAI-NORM", n)
            },
            IndexBuildError::Forms(_) => DiagnosticCode::new("QAI-IDX", 3),
            IndexBuildError::Index { kind, .. } => {
                let n: u32 = match kind {
                    IndexErrorKind::BackendUnavailable => 1,
                    IndexErrorKind::QueryRejected => 2,
                    IndexErrorKind::BuildFailed => 3,
                    IndexErrorKind::ManifestMismatch => 4,
                    IndexErrorKind::CanonicalChanged => 5,
                    IndexErrorKind::InvalidHit => 6,
                    IndexErrorKind::RateLimited => 7,
                };
                DiagnosticCode::new("QAI-IDX", n)
            },
            IndexBuildError::Cancelled => DiagnosticCode::new("QAI-IDX", 3),
            IndexBuildError::NoPreviousGeneration { .. } => DiagnosticCode::new("QAI-IDX", 8),
            IndexBuildError::PreviousGenerationEvicted { .. } => DiagnosticCode::new("QAI-IDX", 9),
        }
    }

    /// Remedy shown with the failure.
    pub fn remedy(&self) -> (r: String)
        ensures
            r@ == (match *self {
                IndexBuildError::Storage(_) => "Check the database and retry the build."@,
                IndexBuildError::FormsNormalization { .. } =>
                    "Fix the forms layer first (see its remedy), then rebuild."@,
                IndexBuildError::Forms(_) =>
                    "Fix the forms layer first (see its remedy), then rebuild."@,
                IndexBuildError::Index { remedy, .. } => match remedy {
                    Some(m) => m@,
                    None => "See above."@,
                },
                IndexBuildError::Cancelled => "Rerun the build; staging is wiped and rebuilt."@,
                IndexBuildError::NoPreviousGeneration { .. } =>
                    "Only one generation ever served (or GC already evicted the previous one); nothing to undo."@,
                IndexBuildError::PreviousGenerationEvicted { .. } =>
                    "The previous generation's directory is gone; rebuild to create a fresh generation."@,
            }),
    {
        match self {
            IndexBuildError::Storage(_) => owned("Check the database and retry the build."),
            IndexBuildError::FormsNormalization { .. } => owned(
                "Fix the forms layer first (see its remedy), then rebuild.",
            ),
            IndexBuildError::Forms(_) => owned(
                "Fix the forms layer first (see its remedy), then rebuild.",
            ),
            IndexBuildError::Index { remedy, .. } => match remedy {
                Some(m) => owned(m.as_str()),
                None => owned("See above."),
            },
            IndexBuildError::Cancelled => owned("Rerun the build; staging is wiped and rebuilt."),
            IndexBuildError::NoPreviousGeneration { .. } => owned(
                "Only one generation ever served (or GC already evicted the previous one); nothing to undo.",
            ),
            IndexBuildError::PreviousGenerationEvicted { .. } => owned(
                "The previous generation's directory is gone; rebuild to create a fresh generation.",
            ),
        }
    }

    /// Follow-up command: always the index doctor.
    pub fn next_command(&self) -> (r: String)
        ensures
            r@ == "qai doctor --indexes"@,
    {
        owned("qai doctor --indexes")
    }
}

/// Parameters for an index build.
#[derive(Debug)]
pub struct IndexBuildParams {
    /// Index id.
    pub index_id: String,
    /// Edition slug (must be the active edition).
    pub edition_slug: String,
    /// Edition version (must be the active edition).
    pub edition_version: String,
    /// Operator principal id.
    pub invoked_by: String,
    /// Unique tag for this run.
    pub run_tag: String,
    /// Index root directory.
    pub data_dir: std::path::PathBuf,
}

/// Payload of an index-build job.
#[derive(Debug)]
pub struct IndexBuildPayload {
    /// Index id (defaults to the ayah index).
    pub index_id: Option<String>,
    pub edition_slug: String,
    pub edition_version: String,
    pub invoked_by: String,
    /// Unique run tag (defaults to the job id).
    pub run_tag: Option<String>,
    pub data_dir: std::path::PathBuf,
}

/// Build parameters of a job: the ayah index unless another is named, the
/// job id as run tag unless one is given.
pub fn build_params(payload: IndexBuildPayload, job_id: &str) -> (r: IndexBuildParams)
    ensures
        r.index_id@ == (match payload.index_id {
            Some(i) => i@,
            None => QURAN_AYAH_INDEX_ID@,
        }),
        r.run_tag@ == (match payload.run_tag {
            Some(t) => t@,
            None => job_id@,
        }),
        r.edition_slug == payload.edition_slug,
        r.edition_version == payload.edition_version,
        r.invoked_by == payload.invoked_by,
        r.data_dir == payload.data_dir,
{
    let index_id = match payload.index_id {
        Some(i) => i,
        None => owned(QURAN_AYAH_INDEX_ID),
    };
    let run_tag = match payload.run_tag {
        Some(t) => t,
        None => owned(job_id),
    };
    IndexBuildParams {
        index_id,
        edition_slug: payload.edition_slug,
        edition_version: payload.edition_version,
        invoked_by: payload.invoked_by,
        run_tag,
        data_dir: payload.data_dir,
    }
}

/// Report for one completed build.
#[derive(Debug)]
pub struct IndexBuildReport {
    pub index_id: String,
    /// Build generation just activated.
    pub generation: u64,
    /// Corpus generation indexed.
    pub corpus_generation: i64,
    pub doc_count: u64,
    /// Serving manifest content hash.
    pub manifest_hash: String,
    /// Previously serving generation, if any.
    pub previous_generation: Option<u64>,
    pub trigram_skeletons: u64,
    pub trigram_postings: u64,
    pub trigram_verified: u64,
    /// Canonical-text check after the build.
    pub mv018: crate::forms::CanonicalCheck,
}

/// Identity the manifest hash covers:
/// `<index>|<corpus generation>|<slug>@<version>|<docs>|<ladder>`.
pub fn manifest_identity(
    index_id: &str,
    corpus_generation: i64,
    slug: &str,
    version: &str,
    doc_count: u64,
    ladder: &str,
) -> (r: String)
    ensures
        r@ == index_id@ + "|"@ + signed_decimal(corpus_generation as int) + "|"@ + slug@ + "@"@
            + version@ + "|"@ + decimal(doc_count as nat) + "|"@ + ladder@,
{
    let mut r = concat2(index_id, "|");
    push_signed(&mut r, corpus_generation);
    append_str(&mut r, "|");
    append_str(&mut r, slug);
    append_str(&mut r, "@");
    append_str(&mut r, version);
    append_str(&mut r, "|");
    push_decimal(&mut r, doc_count);
    append_str(&mut r, "|");
    append_str(&mut r, ladder);
    r
}

/// Parameters for a retention pass.
#[derive(Debug)]
pub struct GcParams {
    pub index_id: String,
    /// Generations to retain, newest first including the active one
    /// (read as at least one).
    pub keep: usize,
    pub invoked_by: String,
    pub data_dir: std::path::PathBuf,
}

/// One removed generation.
#[derive(Debug, Clone)]
pub struct GcRemoved {
    /// Build generation removed from disk.
    pub generation: u64,
    /// Run row deleted (`None` for failed runs, whose history row stays).
    pub run_id_deleted: Option<String>,
    /// Documents counted before removal.
    pub docs_removed: u64,
}

/// Report of one retention pass.
#[derive(Debug)]
pub struct GcReport {
    pub index_id: String,
    /// Serving generation (always protected).
    pub active_generation: Option<u64>,
    /// Generations retained, newest first.
    pub kept: Vec<u64>,
    /// Generations removed, by generation.
    pub removed: Vec<GcRemoved>,
}

/// Plain view of a removal.
pub open spec fn removed_view(r: GcRemoved) -> (u64, Option<Seq<char>>, u64) {
    (
        r.generation,
        match r.run_id_deleted {
            Some(id) => Some(id@),
            None => None,
        },
        r.docs_removed,
    )
}

/// Plain views of a list of removals.
pub open spec fn removed_views(v: Seq<GcRemoved>) -> Seq<(u64, Option<Seq<char>>, u64)> {
    v.map_values(|r: GcRemoved| removed_view(r))
}

fn copy_removed(x: &GcRemoved) -> (r: GcRemoved)
    ensures
        removed_view(r) == removed_view(*x),
        r.generation == x.generation,
{
    GcRemoved {
        generation: x.generation,
        run_id_deleted: match &x.run_id_deleted {
            Some(id) => Some(owned(id.as_str())),
            None => None,
        },
        docs_removed: x.docs_removed,
    }
}

/// Removals ordered by generation, ties in their given order.
pub fn order_removed(removed: Vec<GcRemoved>) -> (r: Vec<GcRemoved>)
    ensures
        forall|i: int, j: int| 0 <= i < j < r@.len() ==> (#[trigger] r@[i]).generation <= (
        #[trigger] r@[j]).generation,
        removed_views(r@).to_multiset() == removed_views(removed@).to_multiset(),
{
    broadcast use vstd::seq_lib::group_to_multiset_ensures;
    let mut r: Vec<GcRemoved> = Vec::new();
    let mut i: usize = 0;
    while i < removed.len()
        invariant
            i <= removed.len(),
            forall|a: int, b: int| 0 <= a < b < r@.len() ==> (#[trigger] r@[a]).generation <= (
            #[trigger] r@[b]).generation,
            removed_views(r@).to_multiset() == removed_views(removed@.take(i as int)).to_multiset(),
        decreases removed.len() - i,
    {
        let item = copy_removed(&removed[i]);
        let mut p: usize = 0;
        while p < r.len() && r[p].generation <= item.generation
            invariant
                p <= r.len(),
                forall|j: int| 0 <= j < p ==> (#[trigger] r@[j]).generation <= item.generation,
            decreases r.len() - p,
        {
            p = p + 1;
        }
        let ghost before = r@;
        r.insert(p, item);
        proof {
            assert forall|a: int, b: int| 0 <= a < b < r@.len() implies (#[trigger] r@[a]).generation
                <= (#[trigger] r@[b]).generation by {
                if b < p {
                    assert(r@[a] == before[a] && r@[b] == before[b]);
                } else if b == p {
                    assert(r@[a] == before[a]);
                } else if a < p {
                    assert(r@[a] == before[a] && r@[b] == before[b - 1]);
                } else if a == p {
                    assert(r@[b] == before[b - 1]);
                    assert(!(before[p as int].generation <= item.generation));
                } else {
                    assert(r@[a] == before[a - 1] && r@[b] == before[b - 1]);
                }
            }
            assert(removed_views(r@) =~= removed_views(before).insert(p as int, removed_view(item)));
            vstd::seq_lib::to_multiset_insert(removed_views(before), p as int, removed_view(item));
            assert(removed_view(item) == removed_view(removed@[i as int]));
            assert(removed@.take(i + 1) =~= removed@.take(i as int).push(removed@[i as int]));
            assert(removed_views(removed@.take(i + 1)) =~= removed_views(removed@.take(i as int)).push(
                removed_view(removed@[i as int]),
            ));
            vstd::seq_lib::to_multiset_build(
                removed_views(removed@.take(i as int)),
                removed_view(removed@[i as int]),
            );
        }
        i = i + 1;
    }
    assert(removed@.take(removed.len() as int) =~= removed@);
    r
}

/// Parameters for single-step rollback.
#[derive(Debug)]
pub struct RollbackParams {
    pub index_id: String,
    pub invoked_by: String,
    pub data_dir: std::path::PathBuf,
}

/// Report of one single-step rollback.
#[derive(Debug, Clone)]
pub struct RollbackReport {
    pub index_id: String,
    /// Previously serving generation (now superseded, still on disk).
    pub from_generation: u64,
    /// Restored serving generation.
    pub to_generation: u64,
}

/// Directory name of a generation: `gen-<N>`.
pub fn generation_dir(generation: u64) -> (r: String)
    ensures
        r@ == "gen-"@ + decimal(generation as nat),
{
    let mut r = owned("gen-");
    push_decimal(&mut r, generation);
    r
}


/// Where an index build stands: its steps in order, then how it ended.
#[derive(Debug, Clone, Copy, PartialEq, Eq)]
pub enum BuildStage {
    /// Resolve the active edition.
    Resolve,
    /// Canonical-text check before any write.
    PreCheck,
    /// Stage the next generation and record the run.
    Stage,
    /// Stream the ayah documents.
    Build,
    /// Build and check the trigram postings.
    Trigrams,
    /// Commit, reopen with the counted manifest, verify.
    Verify,
    /// Canonical-text check before the flip.
    PostCheck,
    /// The pointer names the new generation.
    Active,
    /// A step failed; the pointer is untouched.
    Failed,
    /// Cancellation was seen; the pointer is untouched.
    Cancelled,
}

/// What the build driver saw of the step it just ran.
#[derive(Debug, Clone, Copy, PartialEq, Eq)]
pub enum BuildEvent {
    /// The step's work succeeded (and, where the step reads it, the cancel
    /// flag was clear).
    Succeeded,
    /// The step's work failed.
    Failed,
    /// The cancel flag was set when the step read it.
    CancelSeen,
}

/// What the build driver does next.
#[derive(Debug, Clone, Copy, PartialEq, Eq)]
pub enum BuildAction {
    RunPreCheck,
    StageGeneration,
    BuildDocuments,
    BuildTrigrams,
    CommitAndVerify,
    RunPostCheck,
    /// Flip the pointer and mark the runs, in one transaction.
    FlipPointer,
    /// Return the step's error; nothing serves from the staged generation.
    Abort,
    /// Mark the run cancelled and return `Cancelled`.
    AbortCancelled,
    /// The build has ended; nothing more to do.
    Stop,
}

/// The build has ended.
pub open spec fn build_ended(s: BuildStage) -> bool {
    s == BuildStage::Active || s == BuildStage::Failed || s == BuildStage::Cancelled
}

/// Position of a step in the fixed order (the flip comes after the last).
pub open spec fn stage_rank(s: BuildStage) -> int {
    match s {
        BuildStage::Resolve => 0,
        BuildStage::PreCheck => 1,
        BuildStage::Stage => 2,
        BuildStage::Build => 3,
        BuildStage::Trigrams => 4,
        BuildStage::Verify => 5,
        BuildStage::PostCheck => 6,
        _ => 7,
    }
}

/// The next stage and action after `event` at `stage`.
pub open spec fn build_next(stage: BuildStage, event: BuildEvent) -> (BuildStage, BuildAction) {
    if build_ended(stage) {
        (stage, BuildAction::Stop)
    } else {
        match event {
            BuildEvent::Failed => (BuildStage::Failed, BuildAction::Abort),
            BuildEvent::CancelSeen => (BuildStage::Cancelled, BuildAction::AbortCancelled),
            BuildEvent::Succeeded => match stage {
                BuildStage::Resolve => (BuildStage::PreCheck, BuildAction::RunPreCheck),
                BuildStage::PreCheck => (BuildStage::Stage, BuildAction::StageGeneration),
                BuildStage::Stage => (BuildStage::Build, BuildAction::BuildDocuments),
                BuildStage::Build => (BuildStage::Trigrams, BuildAction::BuildTrigrams),
                BuildStage::Trigrams => (BuildStage::Verify, BuildAction::CommitAndVerify),
                BuildStage::Verify => (BuildStage::PostCheck, BuildAction::RunPostCheck),
                _ => (BuildStage::Active, BuildAction::FlipPointer),
            },
        }
    }
}

/// One step of an index build's decisions. The driver runs the action,
/// reads the cancel flag where the build does (per ayah while building,
/// per surah while building trigrams, once after verification) and hands
/// back what it saw. Steps come in a fixed order; the pointer flips only
/// after the post-check succeeds, and a failure or a seen cancellation
/// ends the build without a flip.
pub fn build_step(stage: BuildStage, event: BuildEvent) -> (r: (BuildStage, BuildAction))
    ensures
        r == build_next(stage, event),
        r.1 == BuildAction::FlipPointer <==> (stage == BuildStage::PostCheck && event == BuildEvent::Succeeded),
        build_ended(stage) ==> r == (stage, BuildAction::Stop),
        !build_ended(stage) && event == BuildEvent::Succeeded ==> stage_rank(r.0) == stage_rank(stage) + 1,
        !build_ended(stage) && event == BuildEvent::Failed ==> r.0 == BuildStage::Failed,
        !build_ended(stage) && event == BuildEvent::CancelSeen ==> r.0 == BuildStage::Cancelled,
{
    match stage {
        BuildStage::Active | BuildStage::Failed | BuildStage::Cancelled => (stage, BuildAction::Stop),
        _ => match event {
            BuildEvent::Failed => (BuildStage::Failed, BuildAction::Abort),
            BuildEvent::CancelSeen => (BuildStage::Cancelled, BuildAction::AbortCancelled),
            BuildEvent::Succeeded => match stage {
                BuildStage::Resolve => (BuildStage::PreCheck, BuildAction::RunPreCheck),
                BuildStage::PreCheck => (BuildStage::Stage, BuildAction::StageGeneration),
                BuildStage::Stage => (BuildStage::Build, BuildAction::BuildDocuments),
                BuildStage::Build => (BuildStage::Trigrams, BuildAction::BuildTrigrams),
                BuildStage::Trigrams => (BuildStage::Verify, BuildAction::CommitAndVerify),
                BuildStage::Verify => (BuildStage::PostCheck, BuildAction::RunPostCheck),
                _ => (BuildStage::Active, BuildAction::FlipPointer),
            },
        },
    }
}

/// The actions of a build from `stage` on, given what the driver sees.
pub open spec fn build_actions(stage: BuildStage, events: Seq<BuildEvent>) -> Seq<BuildAction>
    decreases events.len(),
{
    if events.len() == 0 {
        Seq::empty()
    } else {
        let (next, action) = build_next(stage, events[0]);
        seq![action] + build_actions(next, events.drop_first())
    }
}

proof fn lemma_flip_from(stage: BuildStage, events: Seq<BuildEvent>)
    ensures
        build_actions(stage, events).contains(BuildAction::FlipPointer) <==> (!build_ended(stage)
            && events.len() >= 7 - stage_rank(stage) && forall|i: int|
            0 <= i < 7 - stage_rank(stage) ==> #[trigger] events[i] == BuildEvent::Succeeded),
    decreases events.len(),
{
    let acts = build_actions(stage, events);
    if events.len() > 0 {
        let (next, action) = build_next(stage, events[0]);
        let rest = events.drop_first();
        lemma_flip_from(next, rest);
        assert(acts == seq![action] + build_actions(next, rest));
        assert(acts.contains(BuildAction::FlipPointer) <==> (action == BuildAction::FlipPointer
            || build_actions(next, rest).contains(BuildAction::FlipPointer))) by {
            if acts.contains(BuildAction::FlipPointer) {
                let i = choose|i: int| 0 <= i < acts.len() && acts[i] == BuildAction::FlipPointer;
                if i > 0 {
                    assert(build_actions(next, rest)[i - 1] == BuildAction::FlipPointer);
                }
            }
            if build_actions(next, rest).contains(BuildAction::FlipPointer) {
                let i = choose|i: int|
                    0 <= i < build_actions(next, rest).len() && build_actions(next, rest)[i]
                        == BuildAction::FlipPointer;
                assert(acts[i + 1] == BuildAction::FlipPointer);
            }
            if action == BuildAction::FlipPointer {
                assert(acts[0] == BuildAction::FlipPointer);
            }
        }
        if !build_ended(stage) && events[0] == BuildEvent::Succeeded {
            if stage != BuildStage::PostCheck {
                if events.len() >= 7 - stage_rank(stage) && forall|i: int|
                    0 <= i < 7 - stage_rank(stage) ==> #[trigger] events[i] == BuildEvent::Succeeded {
                    assert forall|i: int| 0 <= i < 7 - stage_rank(next) implies #[trigger] rest[i]
                        == BuildEvent::Succeeded by {
                        assert(events[i + 1] == BuildEvent::Succeeded);
                    }
                }
                if events.len() >= 7 - stage_rank(stage) && forall|i: int|
                    0 <= i < 7 - stage_rank(next) ==> #[trigger] rest[i] == BuildEvent::Succeeded {
                    assert forall|i: int| 0 <= i < 7 - stage_rank(stage) implies #[trigger] events[i]
                        == BuildEvent::Succeeded by {
                        if i > 0 {
                            assert(rest[i - 1] == BuildEvent::Succeeded);
                        }
                    }
                }
            }
        }
    } else {
        if !build_ended(stage) {
            assert(7 - stage_rank(stage) >= 1);
        }
    }
}

/// The pointer-flip law: over any sequence of what the driver sees, a build
/// from the start flips the pointer exactly when each of its seven steps
/// succeeded in order with no cancellation seen; a failed or cancelled
/// build never flips.
pub proof fn pointer_flip_law(events: Seq<BuildEvent>)
    ensures
        build_actions(BuildStage::Resolve, events).contains(BuildAction::FlipPointer) <==> (events.len()
            >= 7 && forall|i: int| 0 <= i < 7 ==> #[trigger] events[i] == BuildEvent::Succeeded),
{
    lemma_flip_from(BuildStage::Resolve, events);
}

/// The resolve gate of an index build: the edition `slug@version` must
/// exist (`found`) and be the active one (`active_matches`), else the
/// build fails at stage `resolve`.
pub fn resolve_gate(found: bool, active_matches: bool, slug: &str, version: &str) -> (r: Result<(), IndexBuildError>)
    ensures
        r is Ok <==> found && active_matches,
        !found ==> (r matches Err(IndexBuildError::Index { kind, stage: Some(st), message, remedy })
            && kind == IndexErrorKind::BuildFailed && st@ == "resolve"@ && message@ == "no edition "@
            + slug@ + "@"@ + version@ && remedy is None),
        found && !active_matches ==> (r matches Err(
            IndexBuildError::Index { kind, stage: Some(st), message, remedy },
        ) && kind == IndexErrorKind::BuildFailed && st@ == "resolve"@ && message@ == "edition "@ + slug@
            + "@"@ + version@ + " is not active; builds target the active edition"@ && remedy is None),
{
    if !found {
        let mut message = concat2("no edition ", slug);
        append_str(&mut message, "@");
        append_str(&mut message, version);
        return Err(
            IndexBuildError::Index {
                kind: IndexErrorKind::BuildFailed,
                stage: Some(owned("resolve")),
                message,
                remedy: None,
            },
        );
    }
    if !active_matches {
        let mut message = concat2("edition ", slug);
        append_str(&mut message, "@");
        append_str(&mut message, version);
        append_str(&mut message, " is not active; builds target the active edition");
        return Err(
            IndexBuildError::Index {
                kind: IndexErrorKind::BuildFailed,
                stage: Some(owned("resolve")),
                message,
                remedy: None,
            },
        );
    }
    Ok(())
}

/// Content hash of an index manifest: `sha256:` and the hex SHA-256 of the
/// build's identity (`manifest_identity`), so rebuilding the same edition
/// version reproduces it.
pub fn manifest_hash(
    index_id: &str,
    corpus_generation: i64,
    slug: &str,
    version: &str,
    doc_count: u64,
    ladder: &str,
) -> (r: String)
    ensures
        r@ == "sha256:"@ + crate::neardup::sha256_hex_of(
            index_id@ + "|"@ + signed_decimal(corpus_generation as int) + "|"@ + slug@ + "@"@ + version@
                + "|"@ + decimal(doc_count as nat) + "|"@ + ladder@,
        ),
{
    let identity = manifest_identity(index_id, corpus_generation, slug, version, doc_count, ladder);
    let hex = crate::neardup::sha256_hex(identity.as_str());
    concat2("sha256:", hex.as_str())
}

/// Runs a rollback swaps: the active run of the current generation and the
/// superseded run of the previous one.
pub open spec fn swapped_run(runs: Seq<BuildRun>, current: u64, previous: u64) -> spec_fn(int) -> bool {
    |k: int| (runs[k].generation as u64 == current && is_state(runs[k], "active"@)) || (runs[k].generation as u64 == previous && is_state(runs[k], "superseded"@))
}

/// The new state of a swapped run: the active one steps aside, the
/// superseded one becomes active.
pub open spec fn swap_of(runs: Seq<BuildRun>, current: u64, previous: u64) -> spec_fn(int) -> (Seq<char>, Seq<char>) {
    |k: int| if runs[k].generation as u64 == current && is_state(runs[k], "active"@) { (runs[k].id@, "superseded"@) } else { (runs[k].id@, "active"@) }
}

proof fn lemma_rollback_changes_kept(runs: Seq<BuildRun>, current: u64, previous: u64, n: int)
    ensures
        rollback_changes(runs, current, previous, n) == kept_values(swapped_run(runs, current, previous), swap_of(runs, current, previous), n),
    decreases n,
{
    if n > 0 {
        lemma_rollback_changes_kept(runs, current, previous, n - 1);
    }
}

/// A rollback changes exactly the active run of the current generation (to
/// superseded) and the superseded run of the previous one (to active), one
/// change per such run.
pub proof fn rollback_changes_law(runs: Seq<BuildRun>, current: u64, previous: u64, n: int)
    requires
        0 <= n,
    ensures
        rollback_changes(runs, current, previous, n).len() == positions_where(swapped_run(runs, current, previous), n).len(),
        forall|i: int|
            0 <= i < rollback_changes(runs, current, previous, n).len() ==> kept_from(
                swapped_run(runs, current, previous),
                swap_of(runs, current, previous),
                n,
                #[trigger] rollback_changes(runs, current, previous, n)[i],
            ),
        forall|k: int| 0 <= k < n && #[trigger] swapped_run(runs, current, previous)(k) ==> rollback_changes(runs, current, previous, n).contains(swap_of(runs, current, previous)(k)),
{
    lemma_rollback_changes_kept(runs, current, previous, n);
    kept_values_law(swapped_run(runs, current, previous), swap_of(runs, current, previous), n);
}

} // verus!
