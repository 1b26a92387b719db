# application

The decision layer of the Quran corpus tooling, verified with Verus.

- `src/` — the library. Every function carries a `requires`/`ensures`
  contract over spec functions and views (`Seq`, `Set`, `Multiset`), and the
  cross-function properties stand as public proof functions (for example
  `index::doc_id_round_trip`, `reader::cache_key_changes_with_generation`,
  `index_checks::smoke_suite_at_most_twelve`). Calls into outside crates
  (`unicode-segmentation`, `sha2`, `std::path`, `std::time`) sit behind small
  trusted wrappers whose doc comments say what is assumed.
- `tests/` — ordinary Rust tests over the compiled library.
- `app/` — the outer layer: serialisable and displayable copies of the
  library's reports and errors, directory reads, and floating-point scoring.

Modules, by area:

| area | modules |
|------|---------|
| text and order | `text`, `order`, `diagnostics` |
| canonical corpus | `quran`, `rows`, `doctor` |
| search | `search`, `scan`, `spans`, `concat`, `filter`, `paging`, `serving`, `ratelimit` |
| index lifecycle | `index`, `index_checks`, `forms` |
| counting | `counting`, `cooccurrence`, `neardup` |
| morphology | `morphology` |
| reading and CLI | `reader`, `cli`, `db` |
