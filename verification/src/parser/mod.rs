pub mod laws;
pub mod schema;
pub mod state;
pub mod tokenizer;

use vstd::prelude::*;

use crate::parser::schema::{extract_metadata, spec_extract_metadata};
use crate::parser::state::{
    fresh_scan, header_format, normal_next, normal_outcome, value_step, InsertFormat,
    InsertHeaderEvent, InsertHeaderState, NormalContext, NormalEvent, NormalOutcome, NormalState,
    SqlDialect, State, ValueEvent, ValueOutcome, ValueScan, ValueState, KEYWORD_WINDOW,
};
use crate::parser::laws::{model_wf, pending};
use crate::text::{ascii_lower, ascii_lower_byte, copy_range};

verus! {

/// What the parser reports for one byte of the dump.
pub enum SqlEvent {
    /// A byte that passes through untouched: outside data blocks (comments
    /// included), and between the rows of one.
    DefaultStatement(u8),
    /// The header of a data block, with the table and columns it names.
    Header { raw_bytes: Vec<u8>, table_name: Option<Vec<u8>>, columns: Option<Vec<Vec<u8>>> },
    /// One row of a data block.
    Tuple(Vec<u8>, InsertFormat),
    /// The terminator of a data block.
    Footer(Vec<u8>),
}

/// Spec-level form of `SqlEvent`.
pub enum EventModel {
    Default(u8),
    Header { raw: Seq<u8>, table: Option<Seq<u8>>, columns: Option<Seq<Seq<u8>>> },
    Tuple(Seq<u8>, InsertFormat),
    Footer(Seq<u8>),
}

impl SqlEvent {
    pub open spec fn model(&self) -> EventModel {
        match self {
            SqlEvent::DefaultStatement(b) => EventModel::Default(*b),
            SqlEvent::Header { raw_bytes, table_name, columns } => EventModel::Header {
                raw: raw_bytes@,
                table: table_name.deep_view(),
                columns: columns.deep_view(),
            },
            SqlEvent::Tuple(t, f) => EventModel::Tuple(t@, *f),
            SqlEvent::Footer(f) => EventModel::Footer(f@),
        }
    }
}

/// Spec-level form of the parser's mode.
pub enum Mode {
    /// Outside data blocks, remembering the last few bytes and whether
    /// they are in a comment.
    Normal(Seq<u8>, NormalContext),
    /// Collecting the header of a data block.
    Header(Seq<u8>),
    /// Scanning the rows of a data block.
    Rows(ValueScan, InsertFormat),
}

pub struct ParserModel {
    pub mode: Mode,
    pub dialect: SqlDialect,
}

/// The header event for a complete header `raw`.
pub open spec fn header_event(raw: Seq<u8>) -> EventModel {
    EventModel::Header {
        raw,
        table: match spec_extract_metadata(raw) {
            Some(m) => Some(m.0),
            None => None,
        },
        columns: match spec_extract_metadata(raw) {
            Some(m) => m.1,
            None => None,
        },
    }
}

/// How many bytes of a header's keyword were already passed through, one
/// by one, before the keyword was recognised: all of `INSERT` or `COPY`
/// but its last letter (never more than all of `raw`).
pub open spec fn keyword_echo(raw: Seq<u8>) -> int {
    let n: int = if raw.len() > 0 && ascii_lower(raw[0]) == 105 {
        5
    } else {
        3
    };
    if n <= raw.len() {
        n
    } else {
        raw.len() as int
    }
}

/// One byte through the parser: the next mode and the event, if any.
pub open spec fn parser_step(m: ParserModel, b: u8) -> (ParserModel, Option<EventModel>) {
    match m.mode {
        Mode::Normal(w, c) => match normal_outcome(w, c, b) {
            NormalOutcome::Start(k) => (ParserModel { mode: Mode::Header(k), ..m }, None),
            NormalOutcome::Default(x) => {
                let (w2, c2) = normal_next(w, c, b);
                (ParserModel { mode: Mode::Normal(w2, c2), ..m }, Some(EventModel::Default(x)))
            },
            NormalOutcome::Continue => {
                let (w2, c2) = normal_next(w, c, b);
                (ParserModel { mode: Mode::Normal(w2, c2), ..m }, None)
            },
        },
        Mode::Header(h) => {
            let s = h.push(b);
            match header_format(s, m.dialect) {
                Some(f) => (
                    ParserModel { mode: Mode::Rows(fresh_scan(), f), ..m },
                    Some(header_event(s)),
                ),
                None => (ParserModel { mode: Mode::Header(s), ..m }, None),
            }
        },
        Mode::Rows(scan, f) => {
            let (next, out) = value_step(scan, f, b);
            match out {
                ValueOutcome::Continue => (ParserModel { mode: Mode::Rows(next, f), ..m }, None),
                ValueOutcome::Pass(x) => (
                    ParserModel { mode: Mode::Rows(next, f), ..m },
                    Some(EventModel::Default(x)),
                ),
                ValueOutcome::Tuple(t) => (
                    ParserModel { mode: Mode::Rows(next, f), ..m },
                    Some(EventModel::Tuple(t, f)),
                ),
                ValueOutcome::Exit(footer) => (
                    ParserModel { mode: Mode::Normal(Seq::empty(), NormalContext::Code), ..m },
                    Some(EventModel::Footer(footer)),
                ),
            }
        },
    }
}

/// The parser run over `bytes`: the final mode and the events in order.
pub open spec fn parser_run(m: ParserModel, bytes: Seq<u8>) -> (ParserModel, Seq<EventModel>)
    decreases bytes.len(),
{
    if bytes.len() == 0 {
        (m, Seq::empty())
    } else {
        let (before, evs) = parser_run(m, bytes.drop_last());
        let (after, ev) = parser_step(before, bytes.last());
        match ev {
            Some(e) => (after, evs.push(e)),
            None => (after, evs),
        }
    }
}

/// The number of bytes at the start of a header that were already passed
/// through (see `keyword_echo`).
pub fn header_echo_len(raw: &[u8]) -> (n: usize)
    ensures
        n == keyword_echo(raw@),
{
    let n: usize = if raw.len() > 0 && ascii_lower_byte(raw[0]) == 105 {
        5
    } else {
        3
    };
    if n <= raw.len() {
        n
    } else {
        raw.len()
    }
}

/// A byte-at-a-time parser for SQL dumps.
pub struct SqlParser {
    state: State,
    dialect: SqlDialect,
}

impl SqlParser {
    pub closed spec fn wf(&self) -> bool {
        match self.state {
            State::Normal(n) => n.buf@.len() <= KEYWORD_WINDOW,
            State::InsertHeader(h) => h.dialect == self.dialect && keyword_echo(h.keyword_buf@)
                < h.keyword_buf@.len(),
            State::ValueMode(v) => v.dialect == self.dialect && (v.format == InsertFormat::Values
                && v.paren_depth == 0 ==> v.tuple_buffer@.len() == 0),
        }
    }

    pub closed spec fn model(&self) -> ParserModel {
        ParserModel {
            mode: match self.state {
                State::Normal(n) => Mode::Normal(n.buf@, n.context),
                State::InsertHeader(h) => Mode::Header(h.keyword_buf@),
                State::ValueMode(v) => Mode::Rows(v.scan(), v.format),
            },
            dialect: self.dialect,
        }
    }

    /// A parser at the start of a dump, outside any data block.
    pub fn new(dialect: SqlDialect) -> (p: Self)
        ensures
            p.wf(),
            p.model() == (ParserModel { mode: Mode::Normal(Seq::empty(), NormalContext::Code), dialect }),
    {
        Self { state: State::Normal(NormalState::new()), dialect }
    }

    /// The bytes that the parser holds back, not yet reported in any event:
    /// the part of an unfinished header not yet passed through, or an
    /// unfinished row.  At the end of a dump they are what is left of it.
    pub fn held_back(&self) -> (r: Vec<u8>)
        requires
            self.wf(),
        ensures
            r@ == pending(self.model()),
    {
        match &self.state {
            State::Normal(_) => Vec::new(),
            State::InsertHeader(h) => {
                let echo = header_echo_len(h.keyword_buf.as_slice());
                copy_range(h.keyword_buf.as_slice(), echo, h.keyword_buf.len())
            },
            State::ValueMode(v) => copy_range(v.tuple_buffer.as_slice(), 0, v.tuple_buffer.len()),
        }
    }

    /// The parser's shape, as the laws over runs ask for it.
    pub proof fn lemma_model_wf(&self)
        requires
            self.wf(),
        ensures
            model_wf(self.model()),
    {
    }

    /// Feeds one byte; returns the event it completes, if any.
    pub fn handle_byte(&mut self, byte: u8) -> (ev: Option<SqlEvent>)
        requires
            old(self).wf(),
        ensures
            final(self).wf(),
            (final(self).model(), match ev {
                Some(e) => Some(e.model()),
                None => None,
            }) == parser_step(old(self).model(), byte),
    {
        let dialect = self.dialect;
        match &mut self.state {
            State::Normal(normal_state) => match normal_state.process_byte(byte) {
                NormalEvent::StartInsertHeader(initial_bytes) => {
                    self.state = State::InsertHeader(InsertHeaderState::new(dialect, initial_bytes));
                    None
                },
                NormalEvent::Continue => None,
                NormalEvent::DefaultStatement(b) => Some(SqlEvent::DefaultStatement(b)),
            },
            State::InsertHeader(header_state) => match header_state.process_byte(byte) {
                InsertHeaderEvent::HeaderComplete { format, header_bytes } => {
                    self.state = State::ValueMode(ValueState::new(dialect, format));
                    let (table_name, columns) = match extract_metadata(header_bytes.as_slice()) {
                        Some((tbl, cols)) => (Some(tbl), cols),
                        None => (None, None),
                    };
                    Some(SqlEvent::Header { raw_bytes: header_bytes, table_name, columns })
                },
                InsertHeaderEvent::Continue => None,
            },
            State::ValueMode(v_state) => {
                let format = v_state.format;
                match v_state.process_byte(byte) {
                    ValueEvent::TupleComplete(data) => Some(SqlEvent::Tuple(data, format)),
                    ValueEvent::ExitValuesMode(footer_bytes) => {
                        self.state = State::Normal(NormalState::new());
                        Some(SqlEvent::Footer(footer_bytes))
                    },
                    ValueEvent::PassThrough(b) => Some(SqlEvent::DefaultStatement(b)),
                    ValueEvent::Continue => None,
                }
            },
        }
    }
}

} // verus!
