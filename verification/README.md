# scribe

Scribe turns the Git history of one tracked JSON or CSV file into a versioned
SQLite database: a `commits` table, an `items` table with the current value of
every item, and an append-only `item_versions` table with one row for each
commit in which an item appeared or changed.

The core is written in Verus and verified:

- `src/format.rs`, `src/parser.rs`, `src/transform.rs`: reading the tracked
  file (JSON array of objects, or CSV with a header row) into items, and the
  optional JMESPath reshaping.
- `src/item.rs`, `src/json.rs`: items as key-ordered maps of JSON values.
- `src/hash.rs`: the primary key hash (identity) and content hash of an item.
- `src/processor.rs`: deciding, commit by commit, which items are new, changed
  or unchanged, and what is written for each.
- `src/git.rs`: the walk over the commit graph: the last processed commit
  and its ancestors are set aside, every other commit reachable from HEAD is
  read once, and the commits holding the file are reported ancestors first.
- `src/db.rs`: the SQL statements and their parameters, and the reading back
  of the stored state.

`app/main.rs` is the command line: argument parsing, reading the repository,
running the parsing of commits in parallel, and printing progress.
