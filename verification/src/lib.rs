//! Verified core of the Quran application services: identifiers, approval
//! gates, counting, search matching, index retention, doctor checks and the
//! diagnostics that every surface renders.

pub mod text;
pub mod counts;
pub mod diagnostics;
pub mod rows;
pub mod quran;
pub mod search;
pub mod filter;
pub mod spans;
pub mod scan;
pub mod concat;
pub mod serving;
pub mod paging;
pub mod ratelimit;
pub mod index;
pub mod order;
pub mod counting;
pub mod doctor;
pub mod morphology;
pub mod forms;
pub mod reader;
pub mod cli;
pub mod db;
pub mod index_checks;
pub mod neardup;
pub mod cooccurrence;
