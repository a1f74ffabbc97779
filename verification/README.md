# ghostdump

A streaming anonymizer for SQL dumps, written in Verus.

The dump is read byte by byte by a small state machine that passes ordinary
statements, strings and comments through and recognises `INSERT ... VALUES` and
PostgreSQL `COPY ... FROM stdin;` blocks.  Every byte that no rule rewrites
is written back as it came: statements, comments, the text between rows,
and whole blocks of tables without rules.  The rows of those blocks are split into
columns, and each column that the rules map to a strategy (keyed HMAC
pseudonym, fixed value, fake name or e-mail, card or phone number, CPF/CNPJ,
UUID, random choice or string, numeric noise) is rewritten.

Layout:

- `src/text.rs`: byte classes, spans, trimming and tail matching.
- `src/parser/`: the state machine (`state.rs`), the whole parser (`mod.rs`),
  header metadata (`schema.rs`), the tuple tokenizer (`tokenizer.rs`) and
  properties of runs of the parser (`laws.rs`).
- `src/engine/`: the rules (`config.rs`), the strategies and the calls into
  `rand`, `fake`, `uuid`, `cpf_cnpj`, `hmac`/`sha2` and `hex` (`strategy.rs`),
  the row and event processing (`mod.rs`) and its properties (`laws.rs`).
- `app/`: the command line, reading the TOML rules, the input and output
  streams, the read-process-write loop and the floating-point noise.
- `tests/`: parser, strategy and engine tests.
