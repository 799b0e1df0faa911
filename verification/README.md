# archivindex-wbm

Wayback Machine data types and the rules around them, as a library verified with Verus.

- `src/` is the library. Every function states what it returns in `requires` and `ensures` clauses, and
  the laws of the library are the public proof functions named `law_...`.
- `app/` is the command-line tool: argument handling, files, databases and network around the library.
- `tests/` runs the library on concrete values.

The modules, by subject:

- `timestamp`, `digest`, `item`, `surt`, `redirect`: timestamps, SHA-1 digests, snapshot URLs, canonical URL
  keys, and redirect pages.
- `exact`, `snapshot`, `format`, `context`, `contexts`, `validation`: snapshots as lines of JSON whose content
  is kept byte for byte, and the check of that content against its digest.
- `reader`, `writer`, `lines`, `stream`, `check`, `verify_lines`, `transfer`, `merge`, `export`,
  `compact`, `gzip`: reading, writing, validating, copying, merging, exporting and compacting snapshot
  files.
- `cdx`, `client`, `extract`, `captures`, `metadata`, `capture_index`, `usage`, `cleanup`, `paths`: capture
  records, queries for them, and the metadata that is kept of them.
- `reconcile`, `wxj`, `migrate`: correcting, enhancing and migrating snapshot files.
- `store`, `verification`, `legacy`, `download`, `invalid_log`: content-addressed stores, downloads, and the
  log of their discrepancies.
- `text`, `decimal`, `integer`, `numeral`, `pairs`, `listing`, `table`, `digest_table`, `json`, `tabular`:
  supporting texts, numbers, tables and formats.

Calls into other crates stand behind small functions marked `#[verifier::external_body]`, each with a comment
that says what its contract claims of the call.
