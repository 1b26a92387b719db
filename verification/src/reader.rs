//! Reader: resolved editions, the view-cache key (it changes whenever the
//! corpus generation does), and the context window around a focal ayah.

use vstd::prelude::*;
use crate::text::{append_str, concat3, owned, decimal, digits_value, push_char, push_signed, signed_decimal};

verus! {

/// An edition resolved for reading.
#[derive(Debug, Clone)]
pub struct ResolvedEdition {
    /// Edition row id.
    pub id: String,
    pub slug: String,
    /// Version string.
    pub version: String,
    /// Current corpus generation (cache key component).
    pub generation: i64,
}

/// Cache key of an ayah view:
/// `<edition id>|<version>|<generation>|<reference>|<options>`.
pub open spec fn cache_key_spec(id: Seq<char>, version: Seq<char>, generation: i64, reference: Seq<char>, options: Seq<char>) -> Seq<char> {
    id + seq!['|'] + version + seq!['|'] + signed_decimal(generation as int) + seq!['|'] + reference
        + seq!['|'] + options
}

/// Cache key of an ayah view for an edition, a serialized reference and
/// serialized view options.
pub fn cache_key(edition: &ResolvedEdition, reference: &str, options: &str) -> (r: String)
    ensures
        r@ == cache_key_spec(edition.id@, edition.version@, edition.generation, reference@, options@),
{
    let mut r = concat3(edition.id.as_str(), "|", edition.version.as_str());
    push_char(&mut r, '|');
    push_signed(&mut r, edition.generation);
    push_char(&mut r, '|');
    append_str(&mut r, reference);
    push_char(&mut r, '|');
    append_str(&mut r, options);
    proof {
        reveal_strlit("|");
        assert("|"@ =~= seq!['|']);
    }
    r
}

proof fn lemma_signed_decimal_injective(a: int, b: int)
    requires
        a != b,
    ensures
        signed_decimal(a) != signed_decimal(b),
        forall|i: int|
            0 <= i < signed_decimal(a).len() ==> #[trigger] signed_decimal(a)[i] != '|',
{
    let da = decimal(if a < 0 {
        (-a) as nat
    } else {
        a as nat
    });
    let db = decimal(if b < 0 {
        (-b) as nat
    } else {
        b as nat
    });
    crate::index::lemma_decimal_digits(if a < 0 {
        (-a) as nat
    } else {
        a as nat
    });
    crate::index::lemma_decimal_digits(if b < 0 {
        (-b) as nat
    } else {
        b as nat
    });
    let sa = signed_decimal(a);
    let sb = signed_decimal(b);
    if sa == sb {
        if a < 0 && b < 0 {
            assert(sa.drop_first() =~= da);
            assert(sb.drop_first() =~= db);
        } else if a >= 0 && b >= 0 {
        } else if a < 0 {
            assert(sa[0] == '-');
            assert(sb[0] == db[0]);
        } else {
            assert(sb[0] == '-');
            assert(sa[0] == da[0]);
        }
    }
    assert forall|i: int| 0 <= i < sa.len() implies #[trigger] sa[i] != '|' by {
        if a < 0 {
            if i > 0 {
                assert(sa[i] == da[i - 1]);
            }
        } else {
            assert(sa[i] == da[i]);
        }
    }
}

/// The cache key changes with the corpus generation: two editions that
/// differ only in generation never share a key.
pub proof fn cache_key_changes_with_generation(
    id: Seq<char>,
    version: Seq<char>,
    g1: i64,
    g2: i64,
    reference: Seq<char>,
    options: Seq<char>,
)
    requires
        g1 != g2,
    ensures
        cache_key_spec(id, version, g1, reference, options) != cache_key_spec(
            id,
            version,
            g2,
            reference,
            options,
        ),
{
    let p = id + seq!['|'] + version + seq!['|'];
    let s1 = signed_decimal(g1 as int);
    let s2 = signed_decimal(g2 as int);
    let t = seq!['|'] + reference + seq!['|'] + options;
    lemma_signed_decimal_injective(g1 as int, g2 as int);
    lemma_signed_decimal_injective(g2 as int, g1 as int);
    let k1 = cache_key_spec(id, version, g1, reference, options);
    let k2 = cache_key_spec(id, version, g2, reference, options);
    assert(k1 =~= p + s1 + t);
    assert(k2 =~= p + s2 + t);
    if k1 == k2 {
        if s1.len() == s2.len() {
            assert forall|i: int| 0 <= i < s1.len() implies s1[i] == s2[i] by {
                assert(k1[p.len() + i] == s1[i]);
                assert(k2[p.len() + i] == s2[i]);
            }
            assert(s1 =~= s2);
        } else if s1.len() < s2.len() {
            assert(k1[(p.len() + s1.len()) as int] == '|');
            assert(k2[(p.len() + s1.len()) as int] == s2[s1.len() as int]);
        } else {
            assert(k2[(p.len() + s2.len()) as int] == '|');
            assert(k1[(p.len() + s2.len()) as int] == s1[s2.len() as int]);
        }
    }
}

/// Level of a Quran reference.
#[derive(Debug, Clone, Copy, PartialEq, Eq)]
pub enum ReferenceLevel {
    /// One ayah.
    Ayah,
    /// One token of an ayah.
    Token,
    /// A range of ayahs.
    AyahRange,
    /// A whole surah.
    Surah,
    /// A division (juz, ruku, page, ...).
    Division,
    /// A whole edition.
    Edition,
}

/// Detail of the not-found refusal (`QAI-QUR-0307`) of a context request
/// for a reference above ayah level.
pub const CONTEXT_NEEDS_AYAH: &'static str = "context needs an ayah-level reference; use get_ayahs for ranges";

/// The ayah a context view centres on: the ayah of an ayah or token
/// reference, the first ayah of a range (`surah`, `ayah` give it). A
/// surah, division or edition reference is refused.
pub fn context_focus(level: ReferenceLevel, surah: u16, ayah: u32) -> (r: Result<(u16, u32), String>)
    ensures
        match level {
            ReferenceLevel::Ayah | ReferenceLevel::Token | ReferenceLevel::AyahRange => r == Ok::<
                (u16, u32),
                String,
            >((surah, ayah)),
            _ => r matches Err(m) && m@ == CONTEXT_NEEDS_AYAH@,
        },
{
    match level {
        ReferenceLevel::Ayah | ReferenceLevel::Token | ReferenceLevel::AyahRange => Ok((surah, ayah)),
        ReferenceLevel::Surah | ReferenceLevel::Division | ReferenceLevel::Edition => Err(
            owned(CONTEXT_NEEDS_AYAH),
        ),
    }
}

/// How far a context may extend around the focal ayah.
#[derive(Debug, Clone, Copy, PartialEq, Eq)]
pub enum ContextBoundary {
    /// No boundary: the focal ayah only.
    Unbounded,
    /// The focal ayah's surah.
    Surah,
    /// The focal ayah's juz.
    Juz,
    /// The focal ayah's ruku.
    Ruku,
    /// The focal ayah's page.
    Page,
}

/// Division kind a boundary reads (`juz`, `ruku` or `page`).
pub fn division_kind(boundary: ContextBoundary) -> (r: Option<&'static str>)
    ensures
        r matches Some(k) ==> k@ == (match boundary {
            ContextBoundary::Juz => "juz"@,
            ContextBoundary::Ruku => "ruku"@,
            _ => "page"@,
        }),
        r is None <==> (boundary == ContextBoundary::Unbounded || boundary == ContextBoundary::Surah),
{
    match boundary {
        ContextBoundary::Unbounded | ContextBoundary::Surah => None,
        ContextBoundary::Juz => Some("juz"),
        ContextBoundary::Ruku => Some("ruku"),
        ContextBoundary::Page => Some("page"),
    }
}

/// Global range of a surah from its first ayah's global index and its ayah
/// count.
pub fn surah_bounds(first_global: i64, ayah_count: i64) -> (r: (u32, u32))
    requires
        0 <= first_global <= u32::MAX,
        1 <= ayah_count <= u32::MAX,
        first_global + ayah_count - 1 <= u32::MAX,
    ensures
        r.0 == first_global,
        r.1 == first_global + ayah_count - 1,
{
    let low = first_global as u32;
    (low, low + (ayah_count as u32 - 1))
}

/// The first division (global ranges as stored) containing the focal ayah.
pub open spec fn containing_division(divisions: Seq<(i64, i64)>, focal: u32, n: int) -> Option<(u32, u32)>
    decreases n,
{
    if n <= 0 {
        None
    } else {
        match containing_division(divisions, focal, n - 1) {
            Some(d) => Some(d),
            None => if focal >= (divisions[n - 1].0 as u32) && focal <= (divisions[n - 1].1 as u32) {
                Some((divisions[n - 1].0 as u32, divisions[n - 1].1 as u32))
            } else {
                None
            },
        }
    }
}

/// Division `k` (its global range as stored, both ends included) holds
/// the focal ayah.
pub open spec fn division_holds(divisions: Seq<(i64, i64)>, k: int, focal: u32) -> bool {
    divisions[k].0 as u32 <= focal && focal <= divisions[k].1 as u32
}

/// The division lookup finds the first division whose range, both ends
/// included, holds the focal ayah, and reports its range; it finds none
/// exactly when no division holds it.
pub proof fn division_lookup_law(divisions: Seq<(i64, i64)>, focal: u32)
    ensures
        match containing_division(divisions, focal, divisions.len() as int) {
            Some((low, high)) => exists|k: int|
                0 <= k < divisions.len() && #[trigger] division_holds(divisions, k, focal) && low
                    == divisions[k].0 as u32 && high == divisions[k].1 as u32 && forall|j: int|
                    0 <= j < k ==> !division_holds(divisions, j, focal),
            None => forall|k: int| 0 <= k < divisions.len() ==> !#[trigger] division_holds(divisions, k, focal),
        },
{
    lemma_division_lookup(divisions, focal, divisions.len() as int);
}

proof fn lemma_division_lookup(divisions: Seq<(i64, i64)>, focal: u32, n: int)
    requires
        0 <= n <= divisions.len(),
    ensures
        match containing_division(divisions, focal, n) {
            Some((low, high)) => exists|k: int|
                0 <= k < n && #[trigger] division_holds(divisions, k, focal) && low == divisions[k].0 as u32
                    && high == divisions[k].1 as u32 && forall|j: int|
                    0 <= j < k ==> !division_holds(divisions, j, focal),
            None => forall|k: int| 0 <= k < n ==> !#[trigger] division_holds(divisions, k, focal),
        },
    decreases n,
{
    if n > 0 {
        lemma_division_lookup(divisions, focal, n - 1);
        if containing_division(divisions, focal, n - 1) is None && division_holds(divisions, n - 1, focal) {
            assert(division_holds(divisions, n - 1, focal));
        }
    }
}

/// Range of the first division that contains the focal ayah.
pub fn division_bounds(divisions: &[(i64, i64)], focal: u32) -> (r: Option<(u32, u32)>)
    ensures
        r == containing_division(divisions@, focal, divisions@.len() as int),
        match r {
            Some((low, high)) => exists|k: int|
                0 <= k < divisions@.len() && #[trigger] division_holds(divisions@, k, focal) && low
                    == divisions@[k].0 as u32 && high == divisions@[k].1 as u32 && forall|j: int|
                    0 <= j < k ==> !division_holds(divisions@, j, focal),
            None => forall|k: int|
                0 <= k < divisions@.len() ==> !#[trigger] division_holds(divisions@, k, focal),
        },
{
    proof {
        division_lookup_law(divisions@, focal);
    }
    let mut i: usize = 0;
    while i < divisions.len()
        invariant
            i <= divisions.len(),
            containing_division(divisions@, focal, i as int) is None,
        decreases divisions.len() - i,
    {
        let (start, end) = divisions[i];
        if focal >= start as u32 && focal <= end as u32 {
            proof {
                lemma_division_found(divisions@, focal, i as int + 1, divisions@.len() as int);
                division_lookup_law(divisions@, focal);
            }
            return Some((start as u32, end as u32));
        }
        i = i + 1;
    }
    None
}

proof fn lemma_division_found(divisions: Seq<(i64, i64)>, focal: u32, k: int, n: int)
    requires
        0 < k <= n,
        containing_division(divisions, focal, k) is Some,
    ensures
        containing_division(divisions, focal, n) == containing_division(divisions, focal, k),
    decreases n - k,
{
    if n > k {
        lemma_division_found(divisions, focal, k, n - 1);
    }
}

/// Ayahs to read before and after the focal one: as many as requested,
/// within the boundary range `low..=high`.
pub fn context_takes(focal: u32, low: u32, high: u32, before: u16, after: u16) -> (r: (u32, u32))
    requires
        low <= focal <= high,
    ensures
        r.0 == (if focal - low <= before {
            focal - low
        } else {
            before as int
        }),
        r.1 == (if high - focal <= after {
            high - focal
        } else {
            after as int
        }),
        r.0 <= before && r.0 <= focal - low && (r.0 == before || r.0 == focal - low),
        r.1 <= after && r.1 <= high - focal && (r.1 == after || r.1 == high - focal),
{
    let b = focal - low;
    let a = high - focal;
    (if b <= before as u32 {
        b
    } else {
        before as u32
    }, if a <= after as u32 {
        a
    } else {
        after as u32
    })
}

/// Hard cap on a context of `n_before` and `n_after` ayahs around the focal
/// one: ayahs after the focal one go first (from the end), then ayahs before
/// it (from the start). How many of each remain.
pub fn trim_context(n_before: usize, n_after: usize, max_ayahs: u16) -> (r: (usize, usize))
    requires
        n_before + n_after + 1 <= usize::MAX,
    ensures
        ({
            let cap = if max_ayahs == 0 {
                1
            } else {
                max_ayahs as int
            };
            let after_room = if cap - 1 - n_before >= 0 {
                cap - 1 - n_before
            } else {
                0
            };
            &&& r.1 == (if n_after <= after_room {
                n_after as int
            } else {
                after_room
            })
            &&& r.0 == (if n_before <= cap - 1 {
                n_before as int
            } else {
                cap - 1
            })
        }),
        r.0 <= n_before,
        r.1 <= n_after,
        1 + r.0 + r.1 == (if 1 + n_before + n_after <= (if max_ayahs == 0 {
            1
        } else {
            max_ayahs as int
        }) {
            1 + n_before + n_after
        } else if max_ayahs == 0 {
            1
        } else {
            max_ayahs as int
        }),
        r.1 > 0 ==> r.0 == n_before,
{
    let cap: usize = if max_ayahs == 0 {
        1
    } else {
        max_ayahs as usize
    };
    let mut total = 1 + n_before + n_after;
    let mut after = n_after;
    while total > cap && after > 0
        invariant
            total == 1 + n_before + after,
            after <= n_after,
            cap >= 1,
            after < n_after ==> total >= cap,
        decreases after,
    {
        after = after - 1;
        total = total - 1;
    }
    let mut before = n_before;
    while total > cap && before > 0
        invariant
            total == 1 + before + after,
            before <= n_before,
            cap >= 1,
            before < n_before ==> total >= cap,
            after == 0 || total <= cap,
        decreases before,
    {
        before = before - 1;
        total = total - 1;
    }
    (before, after)
}

/// Inclusive global range a context spans.
pub fn global_range(focal: u32, kept_before: u32, kept_after: u32) -> (r: (u32, u32))
    requires
        kept_before <= focal,
        focal + kept_after <= u32::MAX,
    ensures
        r == ((focal - kept_before) as u32, (focal + kept_after) as u32),
{
    (focal - kept_before, focal + kept_after)
}

/// Reader deep link of an ayah: `/read/<slug>@<version>/<surah>:<ayah>`.
pub fn deep_link(slug: &str, version: &str, surah: u16, ayah: u32) -> (r: String)
    ensures
        r@ == "/read/"@ + slug@ + "@"@ + version@ + "/"@ + decimal(surah as nat) + ":"@ + decimal(
            ayah as nat,
        ),
{
    let mut r = crate::text::concat2("/read/", slug);
    append_str(&mut r, "@");
    append_str(&mut r, version);
    append_str(&mut r, "/");
    crate::text::push_decimal(&mut r, surah as u64);
    append_str(&mut r, ":");
    crate::text::push_decimal(&mut r, ayah as u64);
    r
}

} // verus!
