//! Streaming anonymizer for SQL dumps: a byte-level state machine that
//! recognises `INSERT ... VALUES` and `COPY ... FROM stdin;` blocks, a
//! tokenizer for their tuples, and an engine that rewrites mapped columns.

pub mod text;
pub mod parser;
pub mod engine;
