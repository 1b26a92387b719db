//! Metadata filters over canonical ayah rows (scan paths): surah membership,
//! juz and page placement, revelation place and global position ranges.

use vstd::prelude::*;
use crate::rows::AyahRow;
use crate::text::str_eq;

verus! {

/// One metadata filter; a filter list is a conjunction.
#[derive(Debug, Clone)]
pub enum Filter {
    /// Surah number is one of these.
    Surah(Vec<u16>),
    /// Juz within `lo..=hi`.
    JuzRange(u16, u16),
    /// Page is one of these.
    Page(Vec<u32>),
    /// Surah revelation place equals this.
    RevelationPlace(String),
    /// Global ayah index within `lo..=hi`.
    GlobalRange(u64, u64),
}

/// Whether one filter admits `ayah` (`revelation` is its surah's place).
/// An unknown juz or page never matches (SQL-like NULL semantics).
pub open spec fn filter_admits(ayah: AyahRow, revelation: Option<Seq<char>>, f: Filter) -> bool {
    match f {
        Filter::Surah(ids) => ids@.contains(ayah.surah as u16),
        Filter::JuzRange(lo, hi) => match ayah.juz {
            Some(juz) => lo <= juz && juz <= hi,
            None => false,
        },
        Filter::Page(pages) => match ayah.page {
            Some(page) => pages@.contains(page as u32),
            None => false,
        },
        Filter::RevelationPlace(place) => revelation == Some(place@),
        Filter::GlobalRange(lo, hi) => lo <= (ayah.global_ayah_index as u64) && (
        ayah.global_ayah_index as u64) <= hi,
    }
}

/// Every filter admits `ayah` (an empty list admits everything).
pub open spec fn admits_all(ayah: AyahRow, revelation: Option<Seq<char>>, filters: Seq<Filter>) -> bool {
    forall|i: int| 0 <= i < filters.len() ==> filter_admits(ayah, revelation, #[trigger] filters[i])
}

/// The view of an optional place.
pub open spec fn place_view(revelation: Option<&str>) -> Option<Seq<char>> {
    match revelation {
        Some(r) => Some(r@),
        None => None,
    }
}

fn contains_u16(ids: &[u16], x: u16) -> (r: bool)
    ensures
        r == ids@.contains(x),
{
    let mut i: usize = 0;
    while i < ids.len()
        invariant
            i <= ids.len(),
            forall|j: int| 0 <= j < i ==> ids@[j] != x,
        decreases ids.len() - i,
    {
        if ids[i] == x {
            assert(ids@[i as int] == x);
            return true;
        }
        i = i + 1;
    }
    false
}

fn contains_u32(ids: &[u32], x: u32) -> (r: bool)
    ensures
        r == ids@.contains(x),
{
    let mut i: usize = 0;
    while i < ids.len()
        invariant
            i <= ids.len(),
            forall|j: int| 0 <= j < i ==> ids@[j] != x,
        decreases ids.len() - i,
    {
        if ids[i] == x {
            assert(ids@[i as int] == x);
            return true;
        }
        i = i + 1;
    }
    false
}

/// One filter against one ayah.
pub fn filter_passes(ayah: &AyahRow, revelation: Option<&str>, filter: &Filter) -> (r: bool)
    ensures
        r == filter_admits(*ayah, place_view(revelation), *filter),
{
    match filter {
        Filter::Surah(ids) => contains_u16(ids.as_slice(), ayah.surah as u16),
        Filter::JuzRange(lo, hi) => match ayah.juz {
            Some(juz) => (*lo as i64) <= juz && juz <= (*hi as i64),
            None => false,
        },
        Filter::Page(pages) => match ayah.page {
            Some(page) => contains_u32(pages.as_slice(), page as u32),
            None => false,
        },
        Filter::RevelationPlace(place) => match revelation {
            Some(r) => str_eq(r, place.as_str()),
            None => false,
        },
        Filter::GlobalRange(lo, hi) => {
            let global = ayah.global_ayah_index as u64;
            *lo <= global && global <= *hi
        },
    }
}

/// Metadata filter check over one canonical ayah row: the conjunction of
/// every filter.
pub fn passes_filters(ayah: &AyahRow, revelation: Option<&str>, filters: &[Filter]) -> (r: bool)
    ensures
        r == admits_all(*ayah, place_view(revelation), filters@),
{
    let mut i: usize = 0;
    while i < filters.len()
        invariant
            i <= filters.len(),
            forall|j: int|
                0 <= j < i ==> filter_admits(*ayah, place_view(revelation), #[trigger] filters@[j]),
        decreases filters.len() - i,
    {
        if !filter_passes(ayah, revelation, &filters[i]) {
            return false;
        }
        i = i + 1;
    }
    true
}

} // verus!
