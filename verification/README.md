# irl_renamer

A batch file renamer: rename rules (search and replace, regular
expressions, prefix/suffix, numbering, case changes, re-padding of numbers,
segment selection with counters and cycles) applied to lists of file names,
with a preview, the record of performed renames and their undo.

- `src/` is the library, verified with Verus: every function carries a
  contract, and the laws of the library are stated and proved as public
  proof functions (`lemma_*`).
  - `text`: character-sequence primitives (trim, split, join, replace,
    decimal formatting and parsing).
  - `casing`: splitting stems into words and the case styles.
  - `pattern`: regular expressions from the `regex` crate.
  - `segments`: the segments rule (keep ranges, counters, cycles).
  - `cycle_count`: the segments counter counted file by file.
  - `renamer`: the rules and `apply_rule`.
  - `undo`: the history of performed batches and their undo plan.
  - `batch`: carrying out a previewed rename and reporting it.
  - `listing`, `drives`: ordering directory listings, reading the drive table.
- `app/` is the web server (axum) around the library: HTTP, file system and
  process calls, and the JSON shapes of the API.
- `tests/` exercises the library on concrete values.
