# r4

A record-stream toolkit: JSON-like records addressed by slash-separated
paths, streams of records and lines, command-line option parsing, and the
logic of the stream operations. The library under `src/` is written in
Verus, and Verus proves the contracts of its functions. The exceptions are
the small functions marked `#[verifier::external_body]`, each a call into
`serde_json`, `regex`, `rand` or std whose contract is taken on trust; their
doc comments say what they claim. The traits for callers to implement
(`StreamTrait`, `LineStream`, `Registrant`) carry contracts that their
implementations are to keep; the implementations in `app/` and in callers'
code are not checked.

Layout:

- `src/record.rs`, `json.rs`, `path.rs`, `jsontext.rs`: records, their
  mathematical model, paths, and the calls into `serde_json`.
- `src/trie.rs`, `parser.rs`, `pile.rs`, `vals.rs`, `validates.rs`,
  `registry.rs`, `subop.rs`: option names, option parsing, piles of
  options, option values, the registry of named implementations,
  sub-operations and chains.
- `src/sorts.rs`, `table.rs`, `ptable.rs`, `tru.rs`, `db.rs`, `multire.rs`,
  `lineops.rs`, `eval.rs`, `regexes.rs`: sorting, tables, pivot tables,
  record unions, join groups, records from lines (with `regex`).
- `src/stream.rs`, `bgop.rs`, `withfiles.rs`, `mrstream.rs`: entries and
  streams, the buffers between a front end and a background process, the
  per-file runs of a sub-operation, and the multi-regex stream.
- `app/`: the program: a child process run as a line filter, using the
  library's buffers under a lock, and standard output.
- `tests/`: tests of the library.
