# rustdb

A small relational database engine: a SQL lexer and parser, a B+ tree index, fixed-size
pages, a write-ahead log with transactions (BEGIN / COMMIT / ROLLBACK), and an executor for
CREATE, DROP, ALTER, INSERT, SELECT (with WHERE, JOIN, GROUP BY, ORDER BY, LIMIT and
aggregates), UPDATE and DELETE. The library under `src/` is verified with Verus; `app/` is
the interactive shell around it.

## Layout

- `src/text.rs` – character classes, text comparison and order.
- `src/lexer.rs`, `src/parser.rs`, `src/ast.rs` – SQL to syntax tree, each stated against a
  grammar of its own.
- `src/btree.rs` – the B+ tree: search, insertion with splits, range search, all values.
- `src/page.rs` – 4 KiB pages.
- `src/row.rs` – rows as maps from column names to values, and their JSON text.
- `src/wal.rs`, `src/txn.rs` – log lines and the transaction manager.
- `src/disk.rs` – file names under `data/`.
- `src/rdb.rs` – the binary `.rdb` layout of a table's rows, written and read back.
- `src/render.rs` – results drawn as text tables.
- `src/executor.rs` – the tables and the statements run against them; each statement
  states the disk writes it calls for, which the shell performs.
- `app/` – the shell: standard input and output, the files under `data/`, and the parts of
  query evaluation that read values as floating-point numbers (numeric comparisons in
  WHERE, ORDER BY, aggregates).
