# turbovault

The core of a server for vaults of Markdown notes, verified with Verus: cutting notes into
retrieval chunks, building and reading a dense index, fusing dense and full-text results,
reading PDF and DOCX attachments, the settings and the registry of vaults, the rules for
paths, and keeping up with edits that others make.

- `src/` is the library. Every function states what it returns; laws that relate several
  functions are public proof functions next to them.
- `tests/` runs the library with the outside crates linked.
- `app/` is the server around it: files, HTTP endpoints, the stored forms of settings and
  answers, and floating-point scores.

What the library takes from outside crates (digests, expansion of paths, times, YAML, XML
and ZIP readers, the full-text index, the traversal test) it takes through small trusted
functions, each with a comment that says what is claimed of it.

Where to begin: `chunker` for the chunks of a note and `coverage` for what they keep,
`reindex` for a build of the index, `text_index` and `hybrid` for a search, `reconcile` for
the freshness of what is known of a vault, `manager` for the rules for paths, `standalone`
for reading a single note.
