# memoryroam

A structured note kernel whose logic is verified with Verus, and the
`memoryroam` command built on it.

Notes are single lines of text. Content may hold link tokens: `{{12}}` links
node 12, `{{12::label}}` links it with a label, and `{{Topic}}` looks a node up
by its content or an alias. Stored content keeps links in canonical form
(`{{id}}` or `{{id::key}}`); reading renders an unlabelled link as
`{{id::>target content}}`.

## Layout

- `src/` — the verified library.
  - `text`: trimming, searching and replacing on character sequences.
  - `domain`: node ids, content lines, lookup keys, aliases, records, errors.
  - `syntax`: the link grammar and its parser.
  - `printing`: printing fragments back to text, and why the print parses back.
  - `repository`: the contracts a storage backend implements, stated over
    a model of the store (nodes, links, aliases, incoming links, daily
    notes, roots); a backend written outside Verus is tied to some function
    of its state that the proofs do not know.
  - `canonical`: canonical storage form and display rendering.
  - `links`: link graphs, reachability, and the cycle check.
  - `write`, `read`, `application`: the use cases.
  - `output`: the plain text the command prints for each result.
  - `structure`: the sibling-chain writes a store performs for moves,
    inserts and removals, with what they do to the chains, and the checks
    before a move or a delete.
  - `batch`: lookups during a batch create, where nodes created earlier in
    the batch answer first.
  - `laws`: properties across parsing, canonical storage and rendering.
  - `project_index`: the `AGENTS.md` project index text kept by the
    maintenance tool.
  - `scan`: what the maintenance tool makes of the working tree: directory
    listings, ignore patterns, and the answers of `git`.
- `tests/` — tests against in-memory repositories.
- `app/` — the command line program, its SQLite store, and the index
  maintenance command.

## Command line

```bash
memoryroam --db notes.sqlite3 init
memoryroam --db notes.sqlite3 note "Check the scope of issue 7"
memoryroam --db notes.sqlite3 day
memoryroam --db notes.sqlite3 read 2
memoryroam --db notes.sqlite3 root create "Software engineering"
memoryroam --db notes.sqlite3 root apply 4 --node 2 --node 3
```

The project index block of `AGENTS.md` in the current directory:

```bash
memoryroam agents-md-index print
memoryroam agents-md-index check
memoryroam agents-md-index update
```
