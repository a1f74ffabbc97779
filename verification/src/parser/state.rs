use vstd::prelude::*;

use crate::text::{
    ascii_lower, ends_with, ends_with_ci, tail_matches, tail_matches_ci, BACKSLASH, CR, DASH, DOT, LF, LPAREN,
    QUOTE, RPAREN, SEMICOLON, SLASH, STAR,
};

verus! {

/// The SQL dialect of a dump.  PostgreSQL dumps may hold `COPY` blocks.
#[derive(Debug, Clone, Copy, PartialEq, Eq, Structural)]
pub enum SqlDialect {
    Mysql,
    Postgres,
    Sqlite,
}

/// The parser's current mode.
pub enum State {
    Normal(NormalState),
    InsertHeader(InsertHeaderState),
    ValueMode(ValueState),
}

// ---------------------------------------------------------------------------
// Keywords
// ---------------------------------------------------------------------------

/// The longest keyword that the normal mode looks for.
pub const KEYWORD_WINDOW: usize = 6;

/// `INSERT`
pub open spec fn kw_insert() -> Seq<u8> {
    seq![73u8, 78, 83, 69, 82, 84]
}

/// `COPY`
pub open spec fn kw_copy() -> Seq<u8> {
    seq![67u8, 79, 80, 89]
}

/// `VALUES`
pub open spec fn kw_values() -> Seq<u8> {
    seq![86u8, 65, 76, 85, 69, 83]
}

/// `STDIN;`
pub open spec fn kw_stdin() -> Seq<u8> {
    seq![83u8, 84, 68, 73, 78, 59]
}

/// `\.` followed by a newline: the end of a `COPY` block.
pub open spec fn copy_end_lf() -> Seq<u8> {
    seq![BACKSLASH, DOT, LF]
}

/// `\.` followed by a carriage return and a newline.
pub open spec fn copy_end_crlf() -> Seq<u8> {
    seq![BACKSLASH, DOT, CR, LF]
}

// ---------------------------------------------------------------------------
// Normal mode
// ---------------------------------------------------------------------------

/// What the normal mode does with one byte.
pub enum NormalEvent {
    Continue,
    /// A data block starts; the payload is the keyword as it appeared.
    StartInsertHeader(Vec<u8>),
    /// The byte belongs to an ordinary statement or a comment and passes through.
    DefaultStatement(u8),
}

/// Where the normal mode stands: in SQL text, in a quoted string (right
/// after a backslash in it, for `StringEscape`), in a `--` comment (up to
/// the end of the line), or in a `/* */` comment.
#[derive(Debug, Clone, Copy, PartialEq, Eq, Structural)]
pub enum NormalContext {
    Code,
    StringLiteral,
    StringEscape,
    LineComment,
    BlockComment,
}

/// Inside a comment, where keywords do not count.
pub open spec fn in_comment(ctx: NormalContext) -> bool {
    ctx == NormalContext::LineComment || ctx == NormalContext::BlockComment
}

/// Outside data blocks: remembers the last few bytes, to spot `INSERT` and
/// `COPY`, and whether it is inside a comment, where keywords do not count.
pub struct NormalState {
    pub buf: Vec<u8>,
    pub context: NormalContext,
}

/// Spec-level outcome of one byte in normal mode.
pub enum NormalOutcome {
    Continue,
    Start(Seq<u8>),
    Default(u8),
}

/// The last `KEYWORD_WINDOW` bytes of `s` (all of `s` when shorter).
pub open spec fn keyword_window(s: Seq<u8>) -> Seq<u8> {
    if s.len() <= KEYWORD_WINDOW {
        s
    } else {
        s.subrange(s.len() - KEYWORD_WINDOW, s.len() as int)
    }
}

/// The byte `b` arrives after the remembered bytes `seen`, in `ctx`.
/// Outside comments a data block starts when they end with `INSERT` or
/// `COPY` in any ASCII case, and the keyword is handed over as it
/// appeared; every other byte, comments included, passes through.
pub open spec fn normal_outcome(seen: Seq<u8>, ctx: NormalContext, b: u8) -> NormalOutcome {
    let s = seen.push(b);
    if !in_comment(ctx) && ends_with_ci(s, kw_insert()) {
        NormalOutcome::Start(s.subrange(s.len() - 6, s.len() as int))
    } else if !in_comment(ctx) && ends_with_ci(s, kw_copy()) {
        NormalOutcome::Start(s.subrange(s.len() - 4, s.len() as int))
    } else {
        NormalOutcome::Default(b)
    }
}

/// What the normal mode remembers after the byte `b`.  In SQL text a
/// quote opens a string, `--` a line comment, closed by a newline, and
/// `/*` a block comment, closed by `*/`.  In a string a backslash escapes
/// the next byte and a quote closes it (so `''` closes and reopens it).
/// Entering or leaving a comment forgets the bytes before.
pub open spec fn normal_next(seen: Seq<u8>, ctx: NormalContext, b: u8) -> (Seq<u8>, NormalContext) {
    let s = seen.push(b);
    match ctx {
        NormalContext::Code => if b == QUOTE {
            (keyword_window(s), NormalContext::StringLiteral)
        } else if seen.len() > 0 && seen.last() == DASH && b == DASH {
            (Seq::empty(), NormalContext::LineComment)
        } else if seen.len() > 0 && seen.last() == SLASH && b == STAR {
            (Seq::empty(), NormalContext::BlockComment)
        } else {
            (keyword_window(s), NormalContext::Code)
        },
        NormalContext::StringLiteral => if b == QUOTE {
            (keyword_window(s), NormalContext::Code)
        } else if b == BACKSLASH {
            (keyword_window(s), NormalContext::StringEscape)
        } else {
            (keyword_window(s), NormalContext::StringLiteral)
        },
        NormalContext::StringEscape => (keyword_window(s), NormalContext::StringLiteral),
        NormalContext::LineComment => if b == LF {
            (Seq::empty(), NormalContext::Code)
        } else {
            (Seq::empty(), NormalContext::LineComment)
        },
        NormalContext::BlockComment => if seen.len() > 0 && seen.last() == STAR && b == SLASH {
            (Seq::empty(), NormalContext::Code)
        } else {
            (keyword_window(s), NormalContext::BlockComment)
        },
    }
}

impl NormalEvent {
    pub open spec fn outcome(&self) -> NormalOutcome {
        match self {
            NormalEvent::Continue => NormalOutcome::Continue,
            NormalEvent::StartInsertHeader(k) => NormalOutcome::Start(k@),
            NormalEvent::DefaultStatement(b) => NormalOutcome::Default(*b),
        }
    }
}

impl NormalState {
    pub fn new() -> (s: Self)
        ensures
            s.buf@ == Seq::<u8>::empty(),
            s.context == NormalContext::Code,
    {
        NormalState { buf: Vec::with_capacity(32), context: NormalContext::Code }
    }

    /// Takes one byte outside a data block.  The state keeps at most
    /// `KEYWORD_WINDOW` bytes, so its memory does not grow with the input.
    pub fn process_byte(&mut self, byte: u8) -> (ev: NormalEvent)
        ensures
            ev.outcome() == normal_outcome(old(self).buf@, old(self).context, byte),
            (final(self).buf@, final(self).context) == normal_next(
                old(self).buf@,
                old(self).context,
                byte,
            ),
            final(self).buf@.len() <= KEYWORD_WINDOW,
            ev.outcome() matches NormalOutcome::Start(k) ==> (k.len() == 6 && ascii_lower(k[0])
                == 105) || (k.len() == 4 && ascii_lower(k[0]) == 99),
    {
        let last: Option<u8> = if self.buf.len() > 0 {
            Some(self.buf[self.buf.len() - 1])
        } else {
            None
        };
        let ghost seen = self.buf@;
        self.buf.push(byte);
        let insert: [u8; 6] = [73, 78, 83, 69, 82, 84];
        let copy: [u8; 4] = [67, 79, 80, 89];
        assert(insert@ =~= kw_insert());
        assert(copy@ =~= kw_copy());
        let in_code = self.context != NormalContext::LineComment && self.context
            != NormalContext::BlockComment;
        let is_insert = in_code && tail_matches_ci(self.buf.as_slice(), insert.as_slice());
        let is_copy = in_code && tail_matches_ci(self.buf.as_slice(), copy.as_slice());
        let ev = if is_insert {
            NormalEvent::StartInsertHeader(tail_copy(&self.buf, 6))
        } else if is_copy {
            NormalEvent::StartInsertHeader(tail_copy(&self.buf, 4))
        } else {
            NormalEvent::DefaultStatement(byte)
        };
        match self.context {
            NormalContext::Code => {
                if byte == QUOTE {
                    self.context = NormalContext::StringLiteral;
                } else if last == Some(DASH) && byte == DASH {
                    self.buf = Vec::new();
                    self.context = NormalContext::LineComment;
                } else if last == Some(SLASH) && byte == STAR {
                    self.buf = Vec::new();
                    self.context = NormalContext::BlockComment;
                }
            },
            NormalContext::StringLiteral => {
                if byte == QUOTE {
                    self.context = NormalContext::Code;
                } else if byte == BACKSLASH {
                    self.context = NormalContext::StringEscape;
                }
            },
            NormalContext::StringEscape => {
                self.context = NormalContext::StringLiteral;
            },
            NormalContext::LineComment => {
                self.buf = Vec::new();
                if byte == LF {
                    self.context = NormalContext::Code;
                }
            },
            NormalContext::BlockComment => {
                if last == Some(STAR) && byte == SLASH {
                    self.buf = Vec::new();
                    self.context = NormalContext::Code;
                }
            },
        }
        if self.buf.len() > KEYWORD_WINDOW {
            self.buf = tail_copy(&self.buf, KEYWORD_WINDOW);
        }
        proof {
            let (w, c) = normal_next(seen, old(self).context, byte);
            assert(self.buf@ =~= w);
            let t = seen.push(byte);
            if ends_with_ci(t, kw_insert()) {
                assert(ascii_lower(t[t.len() - 6 + 0]) == ascii_lower(kw_insert()[0]));
            } else if ends_with_ci(t, kw_copy()) {
                assert(ascii_lower(t[t.len() - 4 + 0]) == ascii_lower(kw_copy()[0]));
            }
        }
        ev
    }
}

/// A copy of the last `n` bytes of `v`.
fn tail_copy(v: &Vec<u8>, n: usize) -> (r: Vec<u8>)
    requires
        n <= v@.len(),
    ensures
        r@ == v@.subrange(v@.len() - n, v@.len() as int),
{
    let mut r: Vec<u8> = Vec::with_capacity(n);
    let start = v.len() - n;
    let mut i = start;
    while i < v.len()
        invariant
            start == v@.len() - n,
            start <= i <= v@.len(),
            r@ == v@.subrange(start as int, i as int),
        decreases v@.len() - i,
    {
        r.push(v[i]);
        i += 1;
        assert(r@ =~= v@.subrange(start as int, i as int));
    }
    r
}

// ---------------------------------------------------------------------------
// Header of a data block
// ---------------------------------------------------------------------------

/// How the rows of a data block are laid out.
#[derive(Debug, Clone, Copy, PartialEq, Eq, Structural)]
pub enum InsertFormat {
    /// `INSERT ... VALUES (..), (..);`
    Values,
    /// PostgreSQL `COPY ... FROM stdin;` with one tab-separated row per line.
    Copy,
}

pub enum InsertHeaderEvent {
    Continue,
    /// The header is complete; the payload is all of it, keyword included.
    HeaderComplete { format: InsertFormat, header_bytes: Vec<u8> },
}

/// Between the keyword and the start of the rows: collects the header.
pub struct InsertHeaderState {
    pub keyword_buf: Vec<u8>,
    pub dialect: SqlDialect,
}

/// The format whose rows start right after the header text `s`, if `s`
/// is a complete header: it ends with `VALUES`, or, in PostgreSQL, with
/// `STDIN;` (any ASCII case).
pub open spec fn header_format(s: Seq<u8>, dialect: SqlDialect) -> Option<InsertFormat> {
    if ends_with_ci(s, kw_values()) {
        Some(InsertFormat::Values)
    } else if dialect == SqlDialect::Postgres && ends_with_ci(s, kw_stdin()) {
        Some(InsertFormat::Copy)
    } else {
        None
    }
}

impl InsertHeaderEvent {
    /// The completed header and its format, if any.
    pub open spec fn completed(&self) -> Option<(InsertFormat, Seq<u8>)> {
        match self {
            InsertHeaderEvent::Continue => None,
            InsertHeaderEvent::HeaderComplete { format, header_bytes } => Some(
                (*format, header_bytes@),
            ),
        }
    }
}

impl InsertHeaderState {
    pub fn new(dialect: SqlDialect, initial_bytes: Vec<u8>) -> (s: Self)
        ensures
            s.dialect == dialect,
            s.keyword_buf@ == initial_bytes@,
    {
        InsertHeaderState { keyword_buf: initial_bytes, dialect }
    }

    /// Takes one byte of the header.  The buffer keeps every byte it was
    /// given; when it ends a header, a copy of the header is handed over.
    pub fn process_byte(&mut self, byte: u8) -> (ev: InsertHeaderEvent)
        ensures
            final(self).dialect == old(self).dialect,
            final(self).keyword_buf@ == old(self).keyword_buf@.push(byte),
            ev.completed() == match header_format(final(self).keyword_buf@, old(self).dialect) {
                Some(f) => Some((f, final(self).keyword_buf@)),
                None => None::<(InsertFormat, Seq<u8>)>,
            },
    {
        self.keyword_buf.push(byte);
        let values: [u8; 6] = [86, 65, 76, 85, 69, 83];
        let stdin: [u8; 6] = [83, 84, 68, 73, 78, 59];
        assert(values@ =~= kw_values());
        assert(stdin@ =~= kw_stdin());
        let found_format = if tail_matches_ci(self.keyword_buf.as_slice(), values.as_slice()) {
            Some(InsertFormat::Values)
        } else if self.dialect == SqlDialect::Postgres && tail_matches_ci(
            self.keyword_buf.as_slice(),
            stdin.as_slice(),
        ) {
            Some(InsertFormat::Copy)
        } else {
            None
        };
        match found_format {
            Some(format) => {
                let header_bytes = tail_copy(&self.keyword_buf, self.keyword_buf.len());
                assert(header_bytes@ =~= self.keyword_buf@);
                InsertHeaderEvent::HeaderComplete { format, header_bytes }
            },
            None => InsertHeaderEvent::Continue,
        }
    }
}

// ---------------------------------------------------------------------------
// Rows of a data block
// ---------------------------------------------------------------------------

pub enum ValueEvent {
    Continue,
    /// One complete row: a parenthesised tuple, or a `COPY` line.
    TupleComplete(Vec<u8>),
    /// The block ended; the payload is its terminator (`;` or `\.` line).
    ExitValuesMode(Vec<u8>),
    /// A byte between rows (separators, white space, blank lines) that
    /// passes through.
    PassThrough(u8),
}

/// Inside a data block: collects the bytes of the current row.
pub struct ValueState {
    pub paren_depth: usize,
    pub inside_string: bool,
    pub escape_next: bool,
    pub tuple_buffer: Vec<u8>,
    pub dialect: SqlDialect,
    pub format: InsertFormat,
}

/// Spec-level view of the row scanner.
pub struct ValueScan {
    pub depth: usize,
    pub inside_string: bool,
    pub escape_next: bool,
    pub buf: Seq<u8>,
}

pub enum ValueOutcome {
    Continue,
    Tuple(Seq<u8>),
    Exit(Seq<u8>),
    Pass(u8),
}

/// A fresh row scanner.
pub open spec fn fresh_scan() -> ValueScan {
    ValueScan { depth: 0, inside_string: false, escape_next: false, buf: Seq::empty() }
}

/// One byte of a `COPY` block.  Bytes collect until a newline; then a
/// line `\.` ends the block and any other line is a row.  Blank lines pass
/// through: a newline at the start of a line at once; a blank line
/// `"\r\n"` gives its carriage return when the newline arrives, and its
/// newline, held back as the buffer `"\n"`, with the next byte.
pub open spec fn copy_step(st: ValueScan, b: u8) -> (ValueScan, ValueOutcome) {
    let s = st.buf.push(b);
    if st.buf == seq![LF] {
        if b == LF {
            (st, ValueOutcome::Pass(LF))
        } else {
            (ValueScan { buf: seq![b], ..st }, ValueOutcome::Pass(LF))
        }
    } else if st.buf.len() == 0 && b == LF {
        (st, ValueOutcome::Pass(LF))
    } else if b != LF {
        (ValueScan { buf: s, ..st }, ValueOutcome::Continue)
    } else if s == seq![CR, LF] {
        (ValueScan { buf: seq![LF], ..st }, ValueOutcome::Pass(CR))
    } else if ends_with(s, copy_end_lf()) || ends_with(s, copy_end_crlf()) {
        (ValueScan { buf: Seq::empty(), ..st }, ValueOutcome::Exit(s))
    } else {
        (ValueScan { buf: Seq::empty(), ..st }, ValueOutcome::Tuple(s))
    }
}

/// One byte of an `INSERT ... VALUES` block.  A backslash escapes the next
/// byte and a quote toggles the string state; outside strings, parentheses
/// nest, the `)` that closes the outermost one completes a row, and a `;`
/// at depth zero ends the block.  Inside a row every byte is kept; between
/// rows every other byte passes through.
pub open spec fn values_step(st: ValueScan, b: u8) -> (ValueScan, ValueOutcome) {
    let keep = st.buf.push(b);
    if st.escape_next {
        if st.depth > 0 {
            (ValueScan { buf: keep, escape_next: false, ..st }, ValueOutcome::Continue)
        } else {
            (ValueScan { escape_next: false, ..st }, ValueOutcome::Pass(b))
        }
    } else if b == BACKSLASH {
        if st.depth > 0 {
            (ValueScan { buf: keep, escape_next: true, ..st }, ValueOutcome::Continue)
        } else {
            (ValueScan { escape_next: true, ..st }, ValueOutcome::Pass(b))
        }
    } else if b == QUOTE {
        if st.depth > 0 {
            (
                ValueScan { buf: keep, inside_string: !st.inside_string, ..st },
                ValueOutcome::Continue,
            )
        } else {
            (ValueScan { inside_string: !st.inside_string, ..st }, ValueOutcome::Pass(b))
        }
    } else if b == LPAREN && !st.inside_string {
        (
            ValueScan {
                buf: keep,
                depth: if st.depth < usize::MAX {
                    (st.depth + 1) as usize
                } else {
                    st.depth
                },
                ..st
            },
            ValueOutcome::Continue,
        )
    } else if b == RPAREN && !st.inside_string && st.depth > 0 {
        if st.depth == 1 {
            (ValueScan { buf: Seq::empty(), depth: 0, ..st }, ValueOutcome::Tuple(keep))
        } else {
            (ValueScan { buf: keep, depth: (st.depth - 1) as usize, ..st }, ValueOutcome::Continue)
        }
    } else if b == SEMICOLON && !st.inside_string && st.depth == 0 {
        (ValueScan { buf: Seq::empty(), ..st }, ValueOutcome::Exit(keep))
    } else if st.depth > 0 {
        (ValueScan { buf: keep, ..st }, ValueOutcome::Continue)
    } else {
        (st, ValueOutcome::Pass(b))
    }
}

pub open spec fn value_step(st: ValueScan, format: InsertFormat, b: u8) -> (
    ValueScan,
    ValueOutcome,
) {
    match format {
        InsertFormat::Copy => copy_step(st, b),
        InsertFormat::Values => values_step(st, b),
    }
}

impl ValueEvent {
    pub open spec fn outcome(&self) -> ValueOutcome {
        match self {
            ValueEvent::Continue => ValueOutcome::Continue,
            ValueEvent::TupleComplete(t) => ValueOutcome::Tuple(t@),
            ValueEvent::ExitValuesMode(f) => ValueOutcome::Exit(f@),
            ValueEvent::PassThrough(b) => ValueOutcome::Pass(*b),
        }
    }
}

impl ValueState {
    pub open spec fn scan(&self) -> ValueScan {
        ValueScan {
            depth: self.paren_depth,
            inside_string: self.inside_string,
            escape_next: self.escape_next,
            buf: self.tuple_buffer@,
        }
    }

    pub fn new(dialect: SqlDialect, format: InsertFormat) -> (s: Self)
        ensures
            s.scan() == fresh_scan(),
            s.dialect == dialect,
            s.format == format,
    {
        ValueState {
            paren_depth: 0,
            inside_string: false,
            escape_next: false,
            tuple_buffer: Vec::with_capacity(1024),
            dialect,
            format,
        }
    }

    /// Takes one byte of the block, by the rules of its format.
    pub fn process_byte(&mut self, byte: u8) -> (ev: ValueEvent)
        ensures
            (final(self).scan(), ev.outcome()) == value_step(old(self).scan(), old(self).format, byte),
            final(self).dialect == old(self).dialect,
            final(self).format == old(self).format,
    {
        match self.format {
            InsertFormat::Copy => self.process_copy_byte(byte),
            InsertFormat::Values => self.process_values_byte(byte),
        }
    }

    fn take_buffer(&mut self) -> (data: Vec<u8>)
        ensures
            data@ == old(self).tuple_buffer@,
            final(self).tuple_buffer@ == Seq::<u8>::empty(),
            final(self).paren_depth == old(self).paren_depth,
            final(self).inside_string == old(self).inside_string,
            final(self).escape_next == old(self).escape_next,
            final(self).dialect == old(self).dialect,
            final(self).format == old(self).format,
    {
        let mut data: Vec<u8> = Vec::new();
        std::mem::swap(&mut data, &mut self.tuple_buffer);
        data
    }

    fn process_copy_byte(&mut self, byte: u8) -> (ev: ValueEvent)
        ensures
            (final(self).scan(), ev.outcome()) == copy_step(old(self).scan(), byte),
            final(self).dialect == old(self).dialect,
            final(self).format == old(self).format,
    {
        let n = self.tuple_buffer.len();
        if n == 1 && self.tuple_buffer[0] == LF {
            assert(self.tuple_buffer@ =~= seq![LF]);
            if byte != LF {
                self.tuple_buffer = vec![byte];
                assert(self.tuple_buffer@ =~= seq![byte]);
            }
            return ValueEvent::PassThrough(LF);
        }
        assert(self.tuple_buffer@ != seq![LF]) by {
            if self.tuple_buffer@ == seq![LF] {
                assert(self.tuple_buffer@[0] == LF);
            }
        }
        if n == 0 && byte == LF {
            return ValueEvent::PassThrough(LF);
        }
        let blank = n == 1 && self.tuple_buffer[0] == CR && byte == LF;
        let ghost before = self.tuple_buffer@;
        self.tuple_buffer.push(byte);
        assert(blank == (self.tuple_buffer@ == seq![CR, LF])) by {
            if blank {
                assert(self.tuple_buffer@ =~= seq![CR, LF]);
            }
            if self.tuple_buffer@ == seq![CR, LF] {
                assert(self.tuple_buffer@.len() == 2);
                assert(before.len() == 1);
                assert(self.tuple_buffer@[0] == before[0]);
                assert(self.tuple_buffer@[0] == CR);
                assert(self.tuple_buffer@[1] == byte);
            }
        }
        if byte == LF {
            if blank {
                self.tuple_buffer = vec![LF];
                assert(self.tuple_buffer@ =~= seq![LF]);
                return ValueEvent::PassThrough(CR);
            }
            let end_lf: [u8; 3] = [BACKSLASH, DOT, LF];
            let end_crlf: [u8; 4] = [BACKSLASH, DOT, CR, LF];
            assert(end_lf@ =~= copy_end_lf());
            assert(end_crlf@ =~= copy_end_crlf());
            let is_end_marker = tail_matches(self.tuple_buffer.as_slice(), end_lf.as_slice())
                || tail_matches(self.tuple_buffer.as_slice(), end_crlf.as_slice());
            let data = self.take_buffer();
            if is_end_marker {
                return ValueEvent::ExitValuesMode(data);
            } else {
                return ValueEvent::TupleComplete(data);
            }
        }
        ValueEvent::Continue
    }

    fn process_values_byte(&mut self, byte: u8) -> (ev: ValueEvent)
        ensures
            (final(self).scan(), ev.outcome()) == values_step(old(self).scan(), byte),
            final(self).dialect == old(self).dialect,
            final(self).format == old(self).format,
    {
        let in_row = self.paren_depth > 0;
        if self.escape_next {
            self.escape_next = false;
            if in_row {
                self.tuple_buffer.push(byte);
                return ValueEvent::Continue;
            }
            return ValueEvent::PassThrough(byte);
        }
        if byte == BACKSLASH {
            self.escape_next = true;
        } else if byte == QUOTE {
            self.inside_string = !self.inside_string;
        } else if byte == LPAREN && !self.inside_string {
            if self.paren_depth < usize::MAX {
                self.paren_depth += 1;
            }
            self.tuple_buffer.push(byte);
            return ValueEvent::Continue;
        } else if byte == RPAREN && !self.inside_string && in_row {
            self.tuple_buffer.push(byte);
            self.paren_depth -= 1;
            if self.paren_depth == 0 {
                let data = self.take_buffer();
                return ValueEvent::TupleComplete(data);
            }
            return ValueEvent::Continue;
        } else if byte == SEMICOLON && !self.inside_string && !in_row {
            self.tuple_buffer.push(byte);
            let footer = self.take_buffer();
            return ValueEvent::ExitValuesMode(footer);
        }
        if in_row {
            self.tuple_buffer.push(byte);
            ValueEvent::Continue
        } else {
            ValueEvent::PassThrough(byte)
        }
    }
}

} // verus!
