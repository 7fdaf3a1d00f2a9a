# ckan-meta-rs

A CKAN metadata explorer and generator of the CKAN-Linux catalog sidecar,
with its core verified by Verus.

## Layout

- `src/`: the verified library.
  - `text`, `order`, `keymap`, `counting`: strings, lexicographic order,
    strictly ordered key lists, counts and sums over sequences.
  - `json`: the JSON value model, and the parse of document text into it
    (through `serde_json`).
  - `archive`: which entries matter, and loading `.zip` and `.tar.gz`
    archives (through the `zip`, `tar` and `flate2` crates).
  - `module_entry`, `parser`: reading `.ckan` documents into modules, sorting
    them, and the parse report.
  - `version`: CKAN's version comparison.
  - `catalog`, `export_file`, `catalog_laws`: building and validating the
    schema-v2 catalog sidecar, and the proofs that what is built validates.
  - `repository_cache`: merging CKAN's parsed repository caches in priority
    order.
  - `queries`, `relations`, `compare`, `display`, `timing`: summaries,
    searches, relationship lookups and statistics, module inspection,
    comparison of two parses, and output helpers.
  - `parse_laws`: parsing the same contents twice gives matching parses.
  - `clock`: the clock, whose readings nothing states.
- `tests/`: tests of the library on concrete values.
- `app/`: the command line: reading files and directories, downloads,
  the typed serde reads of caches and exports, printing and writing outputs.

## Proved properties

- A catalog index built from parsed modules validates whenever some module
  has an identifier (`catalog_laws`), including one built from an archive
  with distinct entry paths or from merged repository caches.
- Merging repository caches keeps, for each identifier and version, the
  module of the first cache that has it, and likewise for download counts.
- Loading a zip or tar.gz archive succeeds exactly when the archive reads
  and every relevant entry is UTF-8 text; otherwise the first failure is
  reported.
- Export validation reports the counts of the parse it was exported from.
- Two parses compare as matching exactly when their compared counts and
  module fingerprints agree; two parses of the same contents match,
  whatever their timings; comparing the other way round swaps the result.
- The latest-only catalog keeps exactly the records of the full catalog
  that are flagged latest, in order, and at least one per identifier.
- Relationship matches are never listed twice.
- Version comparison is a total preorder: reflexive, reversed when the
  versions swap, and transitive; a missing run counts as zero.
- A built catalog always passes the schema-v2 stability check, and no
  identifier keeps more than three records in the latest-only catalog.

## Maps

Where a map keyed by text is needed (download counts, merged cache keys,
identifier counts), the library keeps a vector of entries in strictly
increasing key order (`keymap`), with that order as the invariant, and
finds keys by binary search. Verus's specifications of the standard maps
give nothing to prove about `String` keys, while the ordered vector states
exactly what each lookup and insertion does.
