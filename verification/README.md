# database

A small in-memory database with its own query language, verified with Verus.

Queries are read by a hand-written parser (`src/parsing`): a lexer splits the text into
words, `:` and `=`; `grammar.rs` states the grammar as spec functions over those tokens,
and `parser.rs` reads queries and is proved to follow that grammar exactly. Statements are
run on a `Database` (`src/model`), whose tables keep their records in key order.
`QueryRun` (`src/parsing/runner.rs`) runs a query one statement at a time and hands the
reading and writing of files (`READ_FROM`, `SAVE_AS`) to its caller.

A statement is logged once it has run without error. `SAVE_AS` logs itself and then
writes the log, one statement per line, so the file ends with its own `SAVE_AS` line;
it stays logged even where the file cannot be written. `READ_FROM` is not logged; the
statements of its file are, one by one, as they run.
`src/shell.rs` reads a line typed into the shell as `exit`, `help`, a blank line or a
query.

`src/laws.rs`, `src/parsing/round_trip.rs` and `src/parsing/replay.rs` hold properties
that span operations, each under the conditions stated there: what a read gives back
after an insert; that deleting the key an insert added, written as the key is shown,
undoes the insert; that a refused statement changes nothing; how `ORDER_BY` and `LIMIT`
order and cut rows; that the query text of a statement whose names and values are single
words reads back as the same statement, as every statement read from a query does
(`src/parsing/reread.rs`); and that the text `SAVE_AS` writes reads back as
the logged statements, which run on a fresh database can rebuild the saved tables.

`app/` is the interactive shell: `--db int` or `--db string` chooses the key type.
