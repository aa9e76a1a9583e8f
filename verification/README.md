# rustydiff

Structured diffs of log streams. Two files of JSON lines or logfmt lines are
read into records, the records are aligned by key fields (or, with no key
fields, by a fingerprint of all their fields), and each key is reported as a
record only on the left, only on the right, or modified (with the names of
the fields that differ).

The library under `src/` is verified with Verus:

- `keys`: the order of `str` (UTF-8 bytes, lexicographically), strictly
  sorted key sequences, and sorted key/value entries (binary search, insertion,
  union of keys).
- `text`: characters of strings, Unicode white space and trimming, decimal
  text of `i64` and reading it back, pattern replacement.
- `record`: values, field maps (names in order, each once), records, their
  alignment keys, fingerprints and changed fields.
- `diff`: aligning two streams and the changes between them, with the laws
  that a stream has no changes with itself, that swapping the streams mirrors
  the changes, and that there are no changes exactly when the streams align
  record for record.
- `parser`: telling JSON from logfmt, and reading either into a record.
  JSON is read with `serde_json`, logfmt pairs are found with `regex`; floats
  are read by a function that the caller hands in.
- `output`: output format names, unified-style lines, and the members of the
  JSON object written for a change.

`app/` is the command-line program: arguments, files, reading floats, and
writing the output (JSON encoding with `serde_json`).
Exit codes: 0 when there is no difference, 1 when there are differences, 2 on
an error.
