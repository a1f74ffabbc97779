//! Properties of the parser over whole runs of input.
use vstd::prelude::*;

use crate::parser::state::{
    header_format, in_comment, keyword_window, kw_copy, kw_insert, kw_values, normal_next,
    fresh_scan, normal_outcome, value_step, values_step, InsertFormat, ValueScan,
    NormalContext, NormalOutcome, SqlDialect, ValueOutcome, KEYWORD_WINDOW,
};
use crate::parser::tokenizer::{
    insert_columns, insert_scan, insert_scan_step, InsertScan, join_with, spec_join_tuple, spec_split_tuple, split_on, split_scan, strip_line_end,
};
use crate::parser::{keyword_echo, parser_run, parser_step, EventModel, Mode, ParserModel};
use crate::parser::schema::{column_list, kw_into, skip_space, spec_extract_metadata, table_clause};
use crate::text::{
    all_ascii_space, all_in_class, ascii_lower, ends_with, ends_with_ci, in_class, is_space,
    lemma_span_back_le, lemma_span_back_suffix, lemma_span_front_in_class, lemma_span_front_prefix,
    lemma_trim_class_exact, span_back, span_front, trim_class, ByteClass, BACKTICK, CR, DOT,
    BACKSLASH, COMMA, DOUBLE_QUOTE, LF, LPAREN, QUOTE, RPAREN, SPACE, TAB,
};

verus! {

// ---------------------------------------------------------------------------
// Every byte comes out again
// ---------------------------------------------------------------------------

/// The bytes that the parser holds back in mode `m`: the part of a header
/// not yet passed through, or the row being collected.
pub open spec fn pending(m: ParserModel) -> Seq<u8> {
    match m.mode {
        Mode::Normal(_, _) => Seq::empty(),
        Mode::Header(h) => h.skip(keyword_echo(h)),
        Mode::Rows(scan, _) => scan.buf,
    }
}

/// The shapes that the parser's modes keep: a header holds more than the
/// part of its keyword already passed through, and between the rows of an
/// `INSERT` block nothing is held back.
pub open spec fn model_wf(m: ParserModel) -> bool {
    match m.mode {
        Mode::Normal(_, _) => true,
        Mode::Header(h) => keyword_echo(h) < h.len(),
        Mode::Rows(scan, f) => f == InsertFormat::Values && scan.depth == 0 ==> scan.buf.len()
            == 0,
    }
}

/// The bytes of the dump that an event stands for, as far as they were
/// not passed through before it.
pub open spec fn event_text(e: EventModel) -> Seq<u8> {
    match e {
        EventModel::Default(b) => seq![b],
        EventModel::Header { raw, .. } => raw.skip(keyword_echo(raw)),
        EventModel::Tuple(t, _) => t,
        EventModel::Footer(f) => f,
    }
}

/// The texts of `evs`, one after the other.
pub open spec fn events_text(evs: Seq<EventModel>) -> Seq<u8>
    decreases evs.len(),
{
    if evs.len() == 0 {
        Seq::empty()
    } else {
        events_text(evs.drop_last()) + event_text(evs.last())
    }
}

/// One byte: what was held back, and the byte, is what the event stands
/// for and what is held back after it.
pub proof fn lemma_step_text(m: ParserModel, b: u8)
    requires
        model_wf(m),
    ensures
        model_wf(parser_step(m, b).0),
        pending(m).push(b) == match parser_step(m, b).1 {
            Some(e) => event_text(e),
            None => Seq::<u8>::empty(),
        } + pending(parser_step(m, b).0),
{
    let (m2, ev) = parser_step(m, b);
    match m.mode {
        Mode::Normal(w, c) => {
            let s = w.push(b);
            match normal_outcome(w, c, b) {
                NormalOutcome::Start(k) => {
                    if ends_with_ci(s, kw_insert()) {
                        assert(ascii_lower(s[s.len() - 6 + 0]) == ascii_lower(kw_insert()[0]));
                        assert(k.skip(5) =~= seq![b]);
                    } else {
                        assert(ascii_lower(s[s.len() - 4 + 0]) == ascii_lower(kw_copy()[0]));
                        assert(k.skip(3) =~= seq![b]);
                    }
                    assert(pending(m).push(b) =~= pending(m2));
                },
                _ => {
                    assert(pending(m).push(b) =~= seq![b] + Seq::<u8>::empty());
                },
            }
        },
        Mode::Header(h) => {
            let s = h.push(b);
            assert(keyword_echo(s) == keyword_echo(h));
            assert(h.skip(keyword_echo(h)).push(b) =~= s.skip(keyword_echo(s)));
            match header_format(s, m.dialect) {
                Some(f) => {
                    assert(s.skip(keyword_echo(s)) =~= s.skip(keyword_echo(s)) + Seq::<u8>::empty());
                },
                None => {
                    assert(pending(m).push(b) =~= Seq::<u8>::empty() + pending(m2));
                },
            }
        },
        Mode::Rows(scan, f) => {
            let (next, out) = value_step(scan, f, b);
            match out {
                ValueOutcome::Continue => {
                    assert(pending(m).push(b) =~= Seq::<u8>::empty() + pending(m2));
                },
                ValueOutcome::Pass(x) => {
                    assert(pending(m).push(b) =~= seq![x] + pending(m2));
                },
                ValueOutcome::Tuple(t) => {
                    assert(pending(m).push(b) =~= t + pending(m2));
                },
                ValueOutcome::Exit(footer) => {
                    assert(pending(m).push(b) =~= footer + pending(m2));
                },
            }
        },
    }
}

/// Law (nothing is lost or invented): over any run of the parser, the
/// bytes held back at its start and the bytes fed are, in order, the
/// bytes of the events reported and the bytes held back at its end.  From
/// a new parser, which holds nothing back, the events of a whole dump
/// together with what is still held back give back the dump byte for byte.
pub proof fn law_reconstruct(m: ParserModel, bytes: Seq<u8>)
    requires
        model_wf(m),
    ensures
        model_wf(parser_run(m, bytes).0),
        pending(m) + bytes == events_text(parser_run(m, bytes).1) + pending(parser_run(m, bytes).0),
    decreases bytes.len(),
{
    if bytes.len() == 0 {
        assert(pending(m) + bytes =~= Seq::<u8>::empty() + pending(m));
    } else {
        let p = bytes.drop_last();
        let b = bytes.last();
        law_reconstruct(m, p);
        let (before, evs) = parser_run(m, p);
        lemma_step_text(before, b);
        let (after, ev) = parser_step(before, b);
        assert(p.push(b) =~= bytes);
        assert(pending(m) + bytes =~= (pending(m) + p).push(b));
        assert((events_text(evs) + pending(before)).push(b) =~= events_text(evs) + pending(
            before,
        ).push(b));
        match ev {
            Some(e) => {
                assert(evs.push(e).drop_last() =~= evs);
                assert(events_text(evs.push(e)) == events_text(evs) + event_text(e));
                assert(events_text(evs) + (event_text(e) + pending(after)) =~= events_text(evs)
                    + event_text(e) + pending(after));
            },
            None => {
                assert(Seq::<u8>::empty() + pending(after) =~= pending(after));
            },
        }
    }
}

/// Feeding `a` and then `b` is feeding `a + b`: the parser ends in the same
/// mode and reports the events of `a`, then those of `b`.
pub proof fn lemma_parser_run_append(m: ParserModel, a: Seq<u8>, b: Seq<u8>)
    ensures
        parser_run(m, a + b) == (
            parser_run(parser_run(m, a).0, b).0,
            parser_run(m, a).1 + parser_run(parser_run(m, a).0, b).1,
        ),
    decreases b.len(),
{
    let ma = parser_run(m, a).0;
    let ea = parser_run(m, a).1;
    if b.len() == 0 {
        assert(a + b =~= a);
        assert(ea + Seq::<EventModel>::empty() =~= ea);
    } else {
        let p = b.drop_last();
        lemma_parser_run_append(m, a, p);
        assert((a + b).drop_last() =~= a + p);
        assert((a + b).last() == b.last());
        let (before, evs) = parser_run(ma, p);
        let (after, ev) = parser_step(before, b.last());
        match ev {
            Some(e) => {
                assert((ea + evs).push(e) =~= ea + evs.push(e));
            },
            None => {},
        }
    }
}

// ---------------------------------------------------------------------------
// The order of events
// ---------------------------------------------------------------------------

/// Whether the parser is inside a data block, and of which format.
pub open spec fn block_of(m: ParserModel) -> Option<InsertFormat> {
    match m.mode {
        Mode::Rows(_, f) => Some(f),
        _ => None,
    }
}

/// Where an event may stand, given the block that it comes in (`None`
/// outside blocks), and the block after it: a header opens a block of the
/// format that its text gives, and only outside blocks; rows come only
/// inside a block and carry its format; a footer closes a block.  `None`
/// when the event is out of place.
pub open spec fn block_after(dialect: SqlDialect, block: Option<InsertFormat>, e: EventModel) -> Option<
    Option<InsertFormat>,
> {
    match e {
        EventModel::Default(_) => Some(block),
        EventModel::Header { raw, .. } => if block is None && header_format(raw, dialect) is Some {
            Some(header_format(raw, dialect))
        } else {
            None
        },
        EventModel::Tuple(_, f) => if block == Some(f) {
            Some(block)
        } else {
            None
        },
        EventModel::Footer(_) => if block is Some {
            Some(None)
        } else {
            None
        },
    }
}

/// The block after the events `evs`, starting in `block`; `None` when one
/// of them is out of place.
pub open spec fn blocks_after(
    dialect: SqlDialect,
    block: Option<InsertFormat>,
    evs: Seq<EventModel>,
) -> Option<Option<InsertFormat>>
    decreases evs.len(),
{
    if evs.len() == 0 {
        Some(block)
    } else {
        match blocks_after(dialect, block, evs.drop_last()) {
            Some(b) => block_after(dialect, b, evs.last()),
            None => None,
        }
    }
}

/// Law (the order of events): every run of the parser reports its events
/// in the order `(Header (Tuple | Default)* Footer | Default)*`: a header
/// only outside a block, a row or a footer only inside one, and each row
/// with the format of the header that opened its block, `Copy` only for a
/// PostgreSQL header that ends with `STDIN;`.
pub proof fn law_event_order(m: ParserModel, bytes: Seq<u8>)
    ensures
        blocks_after(m.dialect, block_of(m), parser_run(m, bytes).1) == Some(
            block_of(parser_run(m, bytes).0),
        ),
        parser_run(m, bytes).0.dialect == m.dialect,
    decreases bytes.len(),
{
    if bytes.len() > 0 {
        let p = bytes.drop_last();
        law_event_order(m, p);
        let (before, evs) = parser_run(m, p);
        let (after, ev) = parser_step(before, bytes.last());
        match ev {
            Some(e) => {
                assert(evs.push(e).drop_last() =~= evs);
            },
            None => {},
        }
    }
}

/// Law (which headers complete): outside PostgreSQL, a header is complete
/// exactly when the bytes given so far end with `VALUES` (in any ASCII
/// case), and its rows are then `INSERT` tuples.
pub proof fn law_header_values_only(s: Seq<u8>, dialect: SqlDialect)
    requires
        dialect != SqlDialect::Postgres,
    ensures
        header_format(s, dialect) == (if ends_with_ci(s, kw_values()) {
            Some(InsertFormat::Values)
        } else {
            None
        }),
{
}

/// Law (where blocks start): the parser leaves normal mode only in SQL
/// text or strings, never in a comment, on a byte that ends `INSERT` or
/// `COPY`.
pub proof fn law_header_start(w: Seq<u8>, c: NormalContext, dialect: SqlDialect, b: u8)
    ensures
        parser_step(ParserModel { mode: Mode::Normal(w, c), dialect }, b).0.mode is Header
            ==> !in_comment(c) && (ends_with_ci(w.push(b), kw_insert()) || ends_with_ci(
            w.push(b),
            kw_copy(),
        )),
{
}

/// What a new normal mode remembers after the bytes `h`: its window and
/// its context.
pub open spec fn normal_run(h: Seq<u8>) -> (Seq<u8>, NormalContext)
    decreases h.len(),
{
    if h.len() == 0 {
        (Seq::empty(), NormalContext::Code)
    } else {
        let (w, c) = normal_run(h.drop_last());
        normal_next(w, c, h.last())
    }
}

/// `w` is made of the last bytes of `h`.
pub open spec fn is_suffix(w: Seq<u8>, h: Seq<u8>) -> bool {
    w.len() <= h.len() && w == h.subrange(h.len() - w.len(), h.len() as int)
}

/// The window of the normal mode holds only the last bytes of the history.
pub proof fn lemma_normal_run_suffix(h: Seq<u8>)
    ensures
        is_suffix(normal_run(h).0, h),
    decreases h.len(),
{
    if h.len() == 0 {
        assert(h.subrange(0, 0) =~= Seq::<u8>::empty());
    } else {
        let p = h.drop_last();
        let b = h.last();
        lemma_normal_run_suffix(p);
        let (w, c) = normal_run(p);
        let s = w.push(b);
        assert(s =~= h.subrange(h.len() - s.len(), h.len() as int));
        let (w2, c2) = normal_next(w, c, b);
        if w2.len() == 0 {
            assert(h.subrange(h.len() as int, h.len() as int) =~= w2);
        } else if s.len() > KEYWORD_WINDOW {
            assert(keyword_window(s) =~= h.subrange(
                h.len() - KEYWORD_WINDOW,
                h.len() as int,
            ));
        }
    }
}

/// A keyword at the end of the last bytes of a history ends the history.
pub proof fn lemma_suffix_ends_ci(s: Seq<u8>, h: Seq<u8>, kw: Seq<u8>)
    requires
        is_suffix(s, h),
        ends_with_ci(s, kw),
    ensures
        ends_with_ci(h, kw),
{
    assert forall|i: int| 0 <= i < kw.len() implies #[trigger] ascii_lower(
        h[h.len() - kw.len() + i],
    ) == ascii_lower(kw[i]) by {
        assert(s[s.len() - kw.len() + i] == h[h.len() - s.len() + (s.len() - kw.len() + i)]);
        assert(ascii_lower(s[s.len() - kw.len() + i]) == ascii_lower(kw[i]));
    }
}

/// Law (a start needs its keyword, over the whole history): a normal mode
/// fed the bytes `h` since it was new reports the start of a data block on
/// the next byte `b` only outside comments, and only if all the bytes fed,
/// `b` included, end with `INSERT` or `COPY` in any ASCII case.
pub proof fn law_keyword_history(h: Seq<u8>, b: u8)
    ensures
        normal_outcome(normal_run(h).0, normal_run(h).1, b) is Start ==> !in_comment(
            normal_run(h).1,
        ) && (ends_with_ci(h.push(b), kw_insert()) || ends_with_ci(h.push(b), kw_copy())),
{
    let (w, c) = normal_run(h);
    lemma_normal_run_suffix(h);
    let s = w.push(b);
    assert(is_suffix(s, h.push(b))) by {
        assert(s =~= h.push(b).subrange(h.push(b).len() - s.len(), h.push(b).len() as int));
    }
    if ends_with_ci(s, kw_insert()) {
        lemma_suffix_ends_ci(s, h.push(b), kw_insert());
    }
    if ends_with_ci(s, kw_copy()) {
        lemma_suffix_ends_ci(s, h.push(b), kw_copy());
    }
}

// ---------------------------------------------------------------------------
// Table names
// ---------------------------------------------------------------------------

/// The bytes of a trimmed sequence are bytes of the sequence.
proof fn lemma_trim_class_bytes(x: Seq<u8>, c: ByteClass, p: spec_fn(u8) -> bool)
    requires
        forall|i: int| 0 <= i < x.len() ==> p(#[trigger] x[i]),
    ensures
        forall|i: int| 0 <= i < trim_class(x, c).len() ==> p(#[trigger] trim_class(x, c)[i]),
{
    let a = span_front(x, c) as int;
    lemma_span_front_in_class(x, c);
    let t = x.skip(a);
    lemma_span_back_le(t, c);
    assert forall|i: int| 0 <= i < trim_class(x, c).len() implies p(#[trigger] trim_class(x, c)[i]) by {
        assert(trim_class(x, c)[i] == t[i]);
        assert(t[i] == x[a + i]);
    }
}

/// Law (table names are names): the table name read from a header never
/// holds an opening parenthesis or white space, so a column list written
/// right after it is never taken as part of it.
pub proof fn law_table_name_bytes(h: Seq<u8>)
    ensures
        spec_extract_metadata(h) matches Some(m) ==> forall|i: int|
            0 <= i < m.0.len() ==> (#[trigger] m.0[i]) != LPAREN && !is_space(m.0[i]),
{
    match table_clause(h) {
        None => {},
        Some(r) => {
            let n = span_front(r, ByteClass::NameChar);
            lemma_span_front_in_class(r, ByteClass::NameChar);
            let qualified = r.take(n as int);
            lemma_span_back_le(qualified, ByteClass::NotDot);
            let last = qualified.skip(qualified.len() - span_back(qualified, ByteClass::NotDot));
            let p = |b: u8| b != LPAREN && !is_space(b);
            assert forall|i: int| 0 <= i < last.len() implies p(#[trigger] last[i]) by {
                let k = qualified.len() - span_back(qualified, ByteClass::NotDot);
                assert(last[i] == qualified[k + i]);
                assert(in_class(qualified[k + i], ByteClass::NameChar));
            }
            lemma_trim_class_bytes(last, ByteClass::IdentQuote, p);
        },
    }
}

/// `t` is a plain table name: no white space, parenthesis, dot or
/// identifier quote.
pub open spec fn plain_name(t: Seq<u8>) -> bool {
    &&& t.len() > 0
    &&& forall|i: int|
        0 <= i < t.len() ==> !is_space(#[trigger] t[i]) && t[i] != LPAREN && t[i] != DOT && t[i]
            != DOUBLE_QUOTE && t[i] != BACKTICK
}

/// Law (spacing before the column list does not matter): for the header
/// `INSERT INTO t` + white space `sp` (possibly none) + `(` + `rest`, the
/// table is `t` and the columns are the list that `(` + `rest` opens,
/// whatever `sp` is.
pub proof fn law_header_spacing(t: Seq<u8>, sp: Seq<u8>, rest: Seq<u8>)
    requires
        plain_name(t),
        all_ascii_space(sp),
    ensures
        spec_extract_metadata(
            kw_insert() + seq![SPACE] + kw_into() + seq![SPACE] + t + sp + seq![LPAREN] + rest,
        ) == Some((t, column_list(seq![LPAREN] + rest))),
{
    let tail = t + sp + seq![LPAREN] + rest;
    let r = kw_into() + seq![SPACE] + tail;
    let h = kw_insert() + seq![SPACE] + kw_into() + seq![SPACE] + t + sp + seq![LPAREN] + rest;
    assert(h =~= kw_insert() + (seq![SPACE] + r));
    assert forall|i: int| 0 <= i < 6 implies #[trigger] ascii_lower(h[i]) == ascii_lower(
        kw_insert()[i],
    ) by {
        assert(h[i] == kw_insert()[i]);
    }
    assert(h.skip(6) =~= seq![SPACE] + r);
    assert(all_in_class(seq![SPACE], ByteClass::Space)) by {
        assert forall|i: int| 0 <= i < 1 implies in_class(#[trigger] seq![SPACE][i], ByteClass::Space) by {}
    }
    lemma_span_front_prefix(seq![SPACE], r, ByteClass::Space);
    assert(r[0] == 73u8);
    assert(span_front(r, ByteClass::Space) == 0);
    assert(skip_space(h.skip(6)) =~= r);
    assert forall|i: int| 0 <= i < 4 implies #[trigger] ascii_lower(r[i]) == ascii_lower(
        kw_into()[i],
    ) by {
        assert(r[i] == kw_into()[i]);
    }
    assert(r[4] == SPACE);
    assert(r.skip(4) =~= seq![SPACE] + tail);
    lemma_span_front_prefix(seq![SPACE], tail, ByteClass::Space);
    assert(tail[0] == t[0]);
    assert(!is_space(t[0]));
    assert(span_front(tail, ByteClass::Space) == 0);
    assert(skip_space(r.skip(4)) =~= tail);
    assert(table_clause(h) == Some(tail));
    // The name is `t`.
    let after = sp + seq![LPAREN] + rest;
    assert(tail =~= t + after);
    assert(all_in_class(t, ByteClass::NameChar)) by {
        assert forall|i: int| 0 <= i < t.len() implies in_class(#[trigger] t[i], ByteClass::NameChar) by {}
    }
    lemma_span_front_prefix(t, after, ByteClass::NameChar);
    assert(after[0] == if sp.len() > 0 { sp[0] } else { LPAREN });
    if sp.len() > 0 {
        assert(is_space(sp[0]));
    }
    assert(span_front(after, ByteClass::NameChar) == 0);
    assert(tail.take(t.len() as int) =~= t);
    assert(all_in_class(t, ByteClass::NotDot)) by {
        assert forall|i: int| 0 <= i < t.len() implies in_class(#[trigger] t[i], ByteClass::NotDot) by {}
    }
    lemma_span_back_suffix(Seq::empty(), t, ByteClass::NotDot);
    assert(Seq::<u8>::empty() + t =~= t);
    assert(t.skip(0) =~= t);
    assert(trim_class(t, ByteClass::IdentQuote) =~= t) by {
        assert(!in_class(t[0], ByteClass::IdentQuote));
        assert(t[t.len() - 1] == t.last());
        assert(!in_class(t.last(), ByteClass::IdentQuote));
        lemma_trim_class_exact(Seq::empty(), t, Seq::empty(), ByteClass::IdentQuote);
        assert(Seq::<u8>::empty() + t + Seq::<u8>::empty() =~= t);
    }
    // The column list.
    assert(tail.skip(t.len() as int) =~= sp + seq![LPAREN] + rest);
    let paren = seq![LPAREN] + rest;
    assert(sp + seq![LPAREN] + rest =~= sp + paren);
    assert(all_in_class(sp, ByteClass::Space)) by {
        assert forall|i: int| 0 <= i < sp.len() implies in_class(#[trigger] sp[i], ByteClass::Space) by {}
    }
    lemma_span_front_prefix(sp, paren, ByteClass::Space);
    assert(paren[0] == LPAREN);
    assert(span_front(paren, ByteClass::Space) == 0);
    assert((sp + paren).skip(sp.len() as int) =~= paren);
}

// ---------------------------------------------------------------------------
// Splitting what was joined
// ---------------------------------------------------------------------------

/// Appending bytes other than `sep` extends the current column.
pub proof fn lemma_split_scan_append(x: Seq<u8>, c: Seq<u8>, sep: u8)
    requires
        !c.contains(sep),
    ensures
        split_scan(x + c, sep) == (split_scan(x, sep).0, split_scan(x, sep).1 + c),
    decreases c.len(),
{
    if c.len() == 0 {
        assert(x + c =~= x);
        assert(split_scan(x, sep).1 + c =~= split_scan(x, sep).1);
    } else {
        let d = c.drop_last();
        assert(!d.contains(sep)) by {
            if d.contains(sep) {
                let i = choose|i: int| 0 <= i < d.len() && d[i] == sep;
                assert(c[i] == sep);
            }
        }
        lemma_split_scan_append(x, d, sep);
        assert((x + c).drop_last() =~= x + d);
        assert((x + c).last() == c.last());
        assert(c.last() != sep) by {
            assert(c[c.len() - 1] == c.last());
        }
        assert((split_scan(x, sep).1 + d).push(c.last()) =~= split_scan(x, sep).1 + c);
    }
}

/// Splitting on `sep` what was joined with `sep` gives the pieces back,
/// when none of them holds `sep`.
pub proof fn lemma_split_join_on(cols: Seq<Seq<u8>>, sep: u8)
    requires
        cols.len() >= 1,
        forall|i: int| 0 <= i < cols.len() ==> !(#[trigger] cols[i]).contains(sep),
    ensures
        split_on(join_with(cols, sep), sep) == cols,
    decreases cols.len(),
{
    if cols.len() == 1 {
        lemma_split_scan_append(Seq::empty(), cols[0], sep);
        assert(Seq::<u8>::empty() + cols[0] =~= cols[0]);
        assert(Seq::<u8>::empty() + cols[0] =~= cols[0]);
        assert(split_on(cols[0], sep) =~= cols);
    } else {
        let init = cols.drop_last();
        lemma_split_join_on(init, sep);
        let a = join_with(init, sep);
        assert(join_with(cols, sep) == a.push(sep) + cols.last());
        assert(!cols.last().contains(sep)) by {
            assert(cols[cols.len() - 1] == cols.last());
        }
        lemma_split_scan_append(a.push(sep), cols.last(), sep);
        assert(a.push(sep).drop_last() =~= a);
        assert(split_scan(a.push(sep), sep) == (split_on(a, sep), Seq::<u8>::empty()));
        assert(Seq::<u8>::empty() + cols.last() =~= cols.last());
        assert(split_on(join_with(cols, sep), sep) =~= init.push(cols.last()));
        assert(init.push(cols.last()) =~= cols);
    }
}

/// Law (a `COPY` row round-trips): splitting the line that `join_tuple`
/// makes of some columns gives them back, when no column holds a tab and
/// the last does not end with a carriage return.
pub proof fn law_copy_split_join(cols: Seq<Seq<u8>>)
    requires
        cols.len() >= 1,
        forall|i: int| 0 <= i < cols.len() ==> !(#[trigger] cols[i]).contains(TAB),
        cols.last().len() == 0 || cols.last().last() != CR,
    ensures
        spec_split_tuple(spec_join_tuple(cols, InsertFormat::Copy), InsertFormat::Copy) == cols,
{
    let j = join_with(cols, TAB);
    let line = j.push(LF);
    lemma_split_join_on(cols, TAB);
    assert(!ends_with(line, seq![CR, LF])) by {
        if ends_with(line, seq![CR, LF]) {
            let s2 = line.subrange(line.len() - 2, line.len() as int);
            assert(s2[0] == CR);
            assert(j.last() == CR);
            if cols.len() == 1 {
                assert(j == cols[0]);
            } else {
                assert(j == join_with(cols.drop_last(), TAB).push(TAB) + cols.last());
                if cols.last().len() == 0 {
                    assert(j.last() == TAB);
                } else {
                    assert(j.last() == cols.last().last());
                }
            }
        }
    }
    assert(ends_with(line, seq![LF])) by {
        assert(line.subrange(line.len() - 1, line.len() as int) =~= seq![LF]);
    }
    assert(strip_line_end(line) =~= j);
}

// ---------------------------------------------------------------------------
// Quoted values with escapes
// ---------------------------------------------------------------------------

/// The text of a quoted SQL string, between its quotes: no bare quote, and
/// each backslash followed by the byte it escapes (`\'` among them).
pub open spec fn escaped_text(s: Seq<u8>) -> bool
    decreases s.len(),
{
    if s.len() == 0 {
        true
    } else if s[0] == BACKSLASH {
        s.len() >= 2 && escaped_text(s.skip(2))
    } else {
        s[0] != QUOTE && escaped_text(s.skip(1))
    }
}

/// Bytes outside strings that hold no quote, backslash or comma.
pub open spec fn plain_text(s: Seq<u8>) -> bool {
    forall|i: int| 0 <= i < s.len() ==> (#[trigger] s[i]) != QUOTE && s[i] != BACKSLASH && s[i] != COMMA
}

/// A column of an `INSERT` row: plain bytes, optionally a quoted string,
/// plain bytes.
pub struct ColumnParts {
    pub pre: Seq<u8>,
    pub quoted: Option<Seq<u8>>,
    pub post: Seq<u8>,
}

pub open spec fn column_text(c: ColumnParts) -> Seq<u8> {
    match c.quoted {
        Some(q) => c.pre + seq![QUOTE] + q + seq![QUOTE] + c.post,
        None => c.pre + c.post,
    }
}

pub open spec fn column_ok(c: ColumnParts) -> bool {
    &&& plain_text(c.pre)
    &&& plain_text(c.post)
    &&& c.quoted matches Some(q) ==> escaped_text(q)
}

/// The plain parts of the column hold no parenthesis.
pub open spec fn column_without_parens(c: ColumnParts) -> bool {
    &&& forall|i: int|
        0 <= i < c.pre.len() ==> (#[trigger] c.pre[i]) != LPAREN && c.pre[i] != RPAREN
    &&& forall|i: int|
        0 <= i < c.post.len() ==> (#[trigger] c.post[i]) != LPAREN && c.post[i] != RPAREN
}

/// The texts of the columns `parts`.
pub open spec fn column_texts(parts: Seq<ColumnParts>) -> Seq<Seq<u8>> {
    parts.map_values(|c: ColumnParts| column_text(c))
}

/// The scan of an `INSERT` tuple continued from `st` over `y`.
pub open spec fn scan_from(st: InsertScan, y: Seq<u8>) -> InsertScan
    decreases y.len(),
{
    if y.len() == 0 {
        st
    } else {
        insert_scan_step(scan_from(st, y.drop_last()), y.last())
    }
}

proof fn lemma_scan_one(st: InsertScan, x: u8)
    ensures
        scan_from(st, seq![x]) == insert_scan_step(st, x),
{
    let y = seq![x];
    assert(y.drop_last() =~= Seq::<u8>::empty());
    assert(y.last() == x);
    assert(scan_from(st, y.drop_last()) == st);
}

proof fn lemma_quiet_one(st: ValueScan, x: u8)
    ensures
        values_quiet(st, seq![x]) == match values_step(st, x) {
            (s2, ValueOutcome::Continue) => Some(s2),
            _ => None,
        },
{
    let y = seq![x];
    assert(y.drop_last() =~= Seq::<u8>::empty());
    assert(y.last() == x);
    assert(values_quiet(st, y.drop_last()) == Some(st));
}

proof fn lemma_scan_from_append(st: InsertScan, y: Seq<u8>, z: Seq<u8>)
    ensures
        scan_from(st, y + z) == scan_from(scan_from(st, y), z),
    decreases z.len(),
{
    if z.len() == 0 {
        assert(y + z =~= y);
    } else {
        lemma_scan_from_append(st, y, z.drop_last());
        assert((y + z).drop_last() =~= y + z.drop_last());
        assert((y + z).last() == z.last());
    }
}

proof fn lemma_insert_scan_split(x: Seq<u8>, y: Seq<u8>)
    ensures
        insert_scan(x + y) == scan_from(insert_scan(x), y),
    decreases y.len(),
{
    if y.len() == 0 {
        assert(x + y =~= x);
    } else {
        lemma_insert_scan_split(x, y.drop_last());
        assert((x + y).drop_last() =~= x + y.drop_last());
        assert((x + y).last() == y.last());
    }
}

proof fn lemma_scan_plain(st: InsertScan, p: Seq<u8>)
    requires
        !st.inside_string,
        !st.escape_next,
        plain_text(p),
    ensures
        scan_from(st, p) == (InsertScan { cur: st.cur + p, ..st }),
    decreases p.len(),
{
    if p.len() == 0 {
        assert(st.cur + p =~= st.cur);
    } else {
        let q = p.drop_last();
        assert(plain_text(q)) by {
            assert forall|i: int| 0 <= i < q.len() implies (#[trigger] q[i]) != QUOTE && q[i]
                != BACKSLASH && q[i] != COMMA by {
                assert(q[i] == p[i]);
            }
        }
        lemma_scan_plain(st, q);
        assert(p[p.len() - 1] == p.last());
        assert((st.cur + q).push(p.last()) =~= st.cur + p);
    }
}

proof fn lemma_scan_escaped(st: InsertScan, b: Seq<u8>)
    requires
        st.inside_string,
        !st.escape_next,
        escaped_text(b),
    ensures
        scan_from(st, b) == (InsertScan { cur: st.cur + b, ..st }),
    decreases b.len(),
{
    if b.len() == 0 {
        assert(st.cur + b =~= st.cur);
    } else {
        let k: int = if b[0] == BACKSLASH { 2 } else { 1 };
        let head = b.take(k);
        let rest = b.skip(k);
        assert(b =~= head + rest);
        lemma_scan_from_append(st, head, rest);
        let mid = InsertScan { cur: st.cur + head, ..st };
        if k == 2 {
            assert(head =~= seq![b[0]] + seq![b[1]]);
            lemma_scan_from_append(st, seq![b[0]], seq![b[1]]);
            lemma_scan_one(st, b[0]);
            lemma_scan_one(insert_scan_step(st, b[0]), b[1]);
            assert(st.cur.push(b[0]).push(b[1]) =~= st.cur + head);
        } else {
            assert(head =~= seq![b[0]]);
            lemma_scan_one(st, b[0]);
            assert(st.cur.push(b[0]) =~= st.cur + head);
        }
        assert(scan_from(st, head) == mid);
        lemma_scan_escaped(mid, rest);
        assert(st.cur + head + rest =~= st.cur + b);
    }
}

proof fn lemma_scan_column(st: InsertScan, c: ColumnParts)
    requires
        !st.inside_string,
        !st.escape_next,
        column_ok(c),
    ensures
        scan_from(st, column_text(c)) == (InsertScan { cur: st.cur + column_text(c), ..st }),
{
    lemma_scan_plain(st, c.pre);
    let s1 = InsertScan { cur: st.cur + c.pre, ..st };
    match c.quoted {
        Some(q) => {
            let t = c.pre + seq![QUOTE] + q + seq![QUOTE] + c.post;
            lemma_scan_from_append(st, c.pre, seq![QUOTE]);
            lemma_scan_one(s1, QUOTE);
            let s2 = InsertScan { cur: s1.cur.push(QUOTE), inside_string: true, ..s1 };
            assert(scan_from(s1, seq![QUOTE]) == s2);
            lemma_scan_from_append(st, c.pre + seq![QUOTE], q);
            lemma_scan_escaped(s2, q);
            let s3 = InsertScan { cur: s2.cur + q, ..s2 };
            lemma_scan_from_append(st, c.pre + seq![QUOTE] + q, seq![QUOTE]);
            let s4 = InsertScan { cur: s3.cur.push(QUOTE), inside_string: false, ..s3 };
            lemma_scan_one(s3, QUOTE);
            lemma_scan_from_append(st, c.pre + seq![QUOTE] + q + seq![QUOTE], c.post);
            lemma_scan_plain(s4, c.post);
            assert(s4.cur + c.post =~= st.cur + t);
        },
        None => {
            lemma_scan_from_append(st, c.pre, c.post);
            lemma_scan_plain(s1, c.post);
            assert(s1.cur + c.post =~= st.cur + (c.pre + c.post));
        },
    }
}

proof fn lemma_scan_join(parts: Seq<ColumnParts>)
    requires
        parts.len() >= 1,
        forall|i: int| 0 <= i < parts.len() ==> column_ok(#[trigger] parts[i]),
    ensures
        insert_scan(join_with(column_texts(parts), COMMA)) == (InsertScan {
            cols: column_texts(parts).drop_last(),
            cur: column_texts(parts).last(),
            inside_string: false,
            escape_next: false,
        }),
    decreases parts.len(),
{
    let cols = column_texts(parts);
    let st0 = InsertScan {
        cols: Seq::empty(),
        cur: Seq::empty(),
        inside_string: false,
        escape_next: false,
    };
    assert(insert_scan(Seq::empty()) == st0);
    if parts.len() == 1 {
        assert(join_with(cols, COMMA) == cols[0]);
        lemma_insert_scan_split(Seq::empty(), cols[0]);
        assert(Seq::<u8>::empty() + cols[0] =~= cols[0]);
        lemma_scan_column(st0, parts[0]);
        assert(Seq::<u8>::empty() + cols[0] =~= cols[0]);
        assert(cols.drop_last() =~= Seq::<Seq<u8>>::empty());
    } else {
        let init = parts.drop_last();
        lemma_scan_join(init);
        assert(column_texts(init) =~= cols.drop_last());
        let j = join_with(cols.drop_last(), COMMA);
        assert(join_with(cols, COMMA) == j.push(COMMA) + cols.last());
        lemma_insert_scan_split(j.push(COMMA), cols.last());
        assert(j.push(COMMA).drop_last() =~= j);
        let s = insert_scan(j.push(COMMA));
        assert(s == InsertScan {
            cols: cols.drop_last().drop_last().push(cols.drop_last().last()),
            cur: Seq::empty(),
            inside_string: false,
            escape_next: false,
        });
        assert(cols.drop_last().drop_last().push(cols.drop_last().last()) =~= cols.drop_last());
        assert(cols.last() == column_text(parts.last()));
        lemma_scan_column(s, parts.last());
        assert(Seq::<u8>::empty() + cols.last() =~= cols.last());
    }
}

/// Law (escaped quotes stay in their string): splitting an `INSERT` row
/// made of columns joined by commas gives the columns back, when each is
/// plain bytes around at most one quoted string in which a backslash
/// escapes the next byte (so `\'` and commas inside the string neither
/// close it nor split the column).
pub proof fn law_insert_split_join(parts: Seq<ColumnParts>)
    requires
        parts.len() >= 1,
        forall|i: int| 0 <= i < parts.len() ==> column_ok(#[trigger] parts[i]),
    ensures
        insert_columns(join_with(column_texts(parts), COMMA)) == column_texts(parts),
{
    lemma_scan_join(parts);
    let cols = column_texts(parts);
    assert(cols.drop_last().push(cols.last()) =~= cols);
}

/// The values scanner over `y` from `st`, when every byte gives no event:
/// the state it ends in.
pub open spec fn values_quiet(st: ValueScan, y: Seq<u8>) -> Option<ValueScan>
    decreases y.len(),
{
    if y.len() == 0 {
        Some(st)
    } else {
        match values_quiet(st, y.drop_last()) {
            Some(s) => match values_step(s, y.last()) {
                (s2, ValueOutcome::Continue) => Some(s2),
                _ => None,
            },
            None => None,
        }
    }
}

proof fn lemma_quiet_append(st: ValueScan, y: Seq<u8>, z: Seq<u8>)
    ensures
        values_quiet(st, y + z) == match values_quiet(st, y) {
            Some(s) => values_quiet(s, z),
            None => None,
        },
    decreases z.len(),
{
    if z.len() == 0 {
        assert(y + z =~= y);
    } else {
        lemma_quiet_append(st, y, z.drop_last());
        assert((y + z).drop_last() =~= y + z.drop_last());
        assert((y + z).last() == z.last());
    }
}

proof fn lemma_quiet_plain(st: ValueScan, p: Seq<u8>)
    requires
        st.depth > 0,
        !st.inside_string,
        !st.escape_next,
        forall|i: int|
            0 <= i < p.len() ==> (#[trigger] p[i]) != QUOTE && p[i] != BACKSLASH && p[i] != LPAREN
                && p[i] != RPAREN,
    ensures
        values_quiet(st, p) == Some(ValueScan { buf: st.buf + p, ..st }),
    decreases p.len(),
{
    if p.len() == 0 {
        assert(st.buf + p =~= st.buf);
    } else {
        let q = p.drop_last();
        assert forall|i: int| 0 <= i < q.len() implies (#[trigger] q[i]) != QUOTE && q[i]
            != BACKSLASH && q[i] != LPAREN && q[i] != RPAREN by {
            assert(q[i] == p[i]);
        }
        lemma_quiet_plain(st, q);
        assert(p[p.len() - 1] == p.last());
        assert((st.buf + q).push(p.last()) =~= st.buf + p);
    }
}

proof fn lemma_quiet_escaped(st: ValueScan, b: Seq<u8>)
    requires
        st.depth > 0,
        st.inside_string,
        !st.escape_next,
        escaped_text(b),
    ensures
        values_quiet(st, b) == Some(ValueScan { buf: st.buf + b, ..st }),
    decreases b.len(),
{
    if b.len() == 0 {
        assert(st.buf + b =~= st.buf);
    } else {
        let k: int = if b[0] == BACKSLASH { 2 } else { 1 };
        let head = b.take(k);
        let rest = b.skip(k);
        assert(b =~= head + rest);
        lemma_quiet_append(st, head, rest);
        let mid = ValueScan { buf: st.buf + head, ..st };
        if k == 2 {
            assert(head =~= seq![b[0]] + seq![b[1]]);
            lemma_quiet_append(st, seq![b[0]], seq![b[1]]);
            lemma_quiet_one(st, b[0]);
            let e = ValueScan { buf: st.buf.push(b[0]), escape_next: true, ..st };
            lemma_quiet_one(e, b[1]);
            assert(st.buf.push(b[0]).push(b[1]) =~= st.buf + head);
        } else {
            assert(head =~= seq![b[0]]);
            lemma_quiet_one(st, b[0]);
            assert(st.buf.push(b[0]) =~= st.buf + head);
        }
        assert(values_quiet(st, head) == Some(mid));
        lemma_quiet_escaped(mid, rest);
        assert(st.buf + head + rest =~= st.buf + b);
    }
}

proof fn lemma_quiet_column(st: ValueScan, c: ColumnParts)
    requires
        st.depth > 0,
        !st.inside_string,
        !st.escape_next,
        column_ok(c),
        column_without_parens(c),
    ensures
        values_quiet(st, column_text(c)) == Some(ValueScan { buf: st.buf + column_text(c), ..st }),
{
    lemma_quiet_plain(st, c.pre);
    let s1 = ValueScan { buf: st.buf + c.pre, ..st };
    match c.quoted {
        Some(q) => {
            lemma_quiet_append(st, c.pre, seq![QUOTE]);
            lemma_quiet_one(s1, QUOTE);
            let s2 = ValueScan { buf: s1.buf.push(QUOTE), inside_string: true, ..s1 };
            assert(values_quiet(s1, seq![QUOTE]) == Some(s2));
            lemma_quiet_append(st, c.pre + seq![QUOTE], q);
            lemma_quiet_escaped(s2, q);
            let s3 = ValueScan { buf: s2.buf + q, ..s2 };
            lemma_quiet_append(st, c.pre + seq![QUOTE] + q, seq![QUOTE]);
            let s4 = ValueScan { buf: s3.buf.push(QUOTE), inside_string: false, ..s3 };
            lemma_quiet_one(s3, QUOTE);
            lemma_quiet_append(st, c.pre + seq![QUOTE] + q + seq![QUOTE], c.post);
            lemma_quiet_plain(s4, c.post);
            assert(s4.buf + c.post =~= st.buf + column_text(c));
        },
        None => {
            lemma_quiet_append(st, c.pre, c.post);
            lemma_quiet_plain(s1, c.post);
            assert(s1.buf + c.post =~= st.buf + column_text(c));
        },
    }
}

proof fn lemma_quiet_join(st: ValueScan, parts: Seq<ColumnParts>)
    requires
        st.depth > 0,
        !st.inside_string,
        !st.escape_next,
        parts.len() >= 1,
        forall|i: int|
            0 <= i < parts.len() ==> column_ok(#[trigger] parts[i]) && column_without_parens(
                parts[i],
            ),
    ensures
        values_quiet(st, join_with(column_texts(parts), COMMA)) == Some(
            ValueScan { buf: st.buf + join_with(column_texts(parts), COMMA), ..st },
        ),
    decreases parts.len(),
{
    let cols = column_texts(parts);
    if parts.len() == 1 {
        assert(join_with(cols, COMMA) == cols[0]);
        lemma_quiet_column(st, parts[0]);
    } else {
        let init = parts.drop_last();
        lemma_quiet_join(st, init);
        assert(column_texts(init) =~= cols.drop_last());
        let j = join_with(cols.drop_last(), COMMA);
        assert(join_with(cols, COMMA) == j.push(COMMA) + cols.last());
        assert(j.push(COMMA) =~= j + seq![COMMA]);
        lemma_quiet_append(st, j, seq![COMMA]);
        lemma_quiet_one(ValueScan { buf: st.buf + j, ..st }, COMMA);
        let s = ValueScan { buf: st.buf + j.push(COMMA), ..st };
        assert((st.buf + j).push(COMMA) =~= st.buf + j.push(COMMA));
        assert(values_quiet(st, j.push(COMMA)) == Some(s));
        lemma_quiet_append(st, j.push(COMMA), cols.last());
        assert(cols.last() == column_text(parts.last()));
        lemma_quiet_column(s, parts.last());
        assert(s.buf + cols.last() =~= st.buf + join_with(cols, COMMA));
    }
}

/// Law (parentheses in strings do not nest): fed the tuple `(` + columns
/// joined by commas + `)`, where the columns may hold quoted strings with
/// parentheses, commas and escaped quotes in them, the values scanner
/// reports nothing until the tuple's own closing parenthesis, and there
/// reports exactly the tuple and starts afresh.
pub proof fn law_values_tuple(parts: Seq<ColumnParts>)
    requires
        parts.len() >= 1,
        forall|i: int|
            0 <= i < parts.len() ==> column_ok(#[trigger] parts[i]) && column_without_parens(
                parts[i],
            ),
    ensures
        ({
            let t = seq![LPAREN] + join_with(column_texts(parts), COMMA) + seq![RPAREN];
            values_quiet(fresh_scan(), t.drop_last()) matches Some(s) && values_step(s, RPAREN) == (
            fresh_scan(),
            ValueOutcome::Tuple(t),
            )
        }),
{
    let j = join_with(column_texts(parts), COMMA);
    let t = seq![LPAREN] + j + seq![RPAREN];
    assert(t.drop_last() =~= seq![LPAREN] + j);
    lemma_quiet_append(fresh_scan(), seq![LPAREN], j);
    lemma_quiet_one(fresh_scan(), LPAREN);
    assert(Seq::<u8>::empty().push(LPAREN) =~= seq![LPAREN]);
    let s1 = ValueScan { depth: 1, inside_string: false, escape_next: false, buf: seq![LPAREN] };
    assert(values_quiet(fresh_scan(), seq![LPAREN]) == Some(s1));
    lemma_quiet_join(s1, parts);
    let s = ValueScan { buf: seq![LPAREN] + j, ..s1 };
    assert(s.buf.push(RPAREN) =~= t);
    assert(values_step(s, RPAREN) == (fresh_scan(), ValueOutcome::Tuple(t)));
}

} // verus!
