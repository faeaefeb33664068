# pinker_nav

The code-navigation and projection-authority library of the Pinker toolchain,
written in Verus: every function in `src/` carries a `requires`/`ensures`
contract that Verus proves, and the laws that span several functions stand as
public proof functions beside them.

## Layout

- `text.rs`: character-sequence vocabulary (trimming, splitting, lines,
  decimal and hexadecimal renderings) and the few std wrappers the crate
  trusts.
- `palette.rs`: the terminal colour palette and its ANSI sequences.
- `native_symbol.rs`: the native symbol boundary (entrypoint symbol, ELF
  binding of each definition, injective local labels and their decoding).
- `nav.rs`, `nav_mask.rs`, `nav_scan.rs`: the `@pinker-nav` markers, the
  lexical trackers of the Rust and Pinker dialects, the masked view of a Rust
  text, and the per-file scan into catalogued regions.
- `nav_catalog.rs`, `nav_catalog_read.rs`, `jsonl.rs`: the checks of a
  scanned cartography, the JSONL catalogue writer, the JSON reader and the
  catalogue reader.
- `nav_catalog_law.rs`: the proof that reading the catalogue gives back the
  regions that were written, and that scanned regions are such regions.
- `nav_coverage.rs`: the coverage policy, the inventory of relevant source
  lines and the coverage verdicts.
- `nav_projection_snapshot.rs` and `nav_projection_snapshot/`: the strict
  TOML snapshot format, its parser and canonical renderer, the stable
  projection of regions with its three measures, the reconstruction of a
  historical state and the verification reports; `roundtrip.rs` proves
  that the canonical snapshot and recipe texts read back as the models they
  render.
- `nav_projection_recipe.rs`, `nav_projection_store.rs`,
  `nav_projection_lifecycle.rs`, `nav_projection_report.rs`,
  `nav_projection_archive.rs`, `nav_projection_rename_map.rs`: recipes and
  composed snapshots, the read-only store, the candidate/frozen lifecycle,
  the command reports, the materialized archive and the rename map.

## Scope

The library holds the logic; it reads no file and walks no directory. Texts,
file listings and SHA-256 digests are handed to it by the caller, and the
digests are checked as given. Ranked text search over the catalogue, module
resolution of Pinker programs, and the digest and text rendering of
lifecycle plans are not part of this crate.
