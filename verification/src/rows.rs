//! Canonical corpus rows as the services read them (one ayah, one token).

use vstd::prelude::*;

verus! {

/// One canonical ayah row.
#[derive(Debug, Clone)]
pub struct AyahRow {
    /// Edition row id.
    pub edition_id: String,
    /// Surah number.
    pub surah: i64,
    /// Ayah number within the surah.
    pub ayah: i64,
    /// Canonical text.
    pub text: String,
    /// Tagged text hash.
    pub text_hash: String,
    /// Character count.
    pub char_count: i64,
    /// Token count.
    pub token_count: i64,
    /// 1-based position in the whole edition.
    pub global_ayah_index: i64,
    /// Juz, when recorded.
    pub juz: Option<i64>,
    /// Hizb, when recorded.
    pub hizb: Option<i64>,
    /// Rub, when recorded.
    pub rub: Option<i64>,
    /// Manzil, when recorded.
    pub manzil: Option<i64>,
    /// Ruku, when recorded.
    pub ruku: Option<i64>,
    /// Page, when recorded.
    pub page: Option<i64>,
    /// Sajdah kind, when the ayah carries one.
    pub sajdah: Option<String>,
    /// Canonical provenance record.
    pub provenance_id: String,
}

/// One canonical token row.
#[derive(Debug, Clone)]
pub struct TokenRow {
    /// Edition row id.
    pub edition_id: String,
    /// Surah number.
    pub surah: i64,
    /// Ayah number.
    pub ayah: i64,
    /// 1-based position within the ayah.
    pub position: i64,
    /// Surface text.
    pub surface: String,
    /// Tagged surface hash.
    pub surface_hash: String,
    /// First grapheme cluster of the token within the ayah text.
    pub char_start: i64,
    /// End grapheme cluster (exclusive).
    pub char_end: i64,
    /// First byte within the ayah text.
    pub byte_start: i64,
    /// End byte (exclusive).
    pub byte_end: i64,
    /// Whether the token is a pause mark.
    pub is_pause_mark: bool,
    /// 1-based position in the whole edition.
    pub global_token_index: i64,
}

} // verus!
