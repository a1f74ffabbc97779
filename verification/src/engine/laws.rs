//! Properties of the engine over whole rows.
use vstd::prelude::*;

use crate::engine::config::{find_column, find_table, strategy_for, ColumnConfig, Config, TableConfig};
use crate::engine::strategy::StrategyConfig;
use crate::engine::{
    bump, chunk_ok, event_ok, flatten, has_rule, limit_reached, run_ok, within_limit, header_map, map_entry, row_outcome, trace_ok, value_outcome,
    DumpModel, Trace,
};
use crate::parser::laws::{events_text, law_reconstruct, lemma_parser_run_append, pending};
use crate::parser::state::{NormalContext, SqlDialect};
use crate::engine::{clean_value, utf8_lossy_text};
use crate::text::{
    all_ascii_space, all_in_class, ascii_non_space, in_class, lemma_trim_class_exact, lemma_trim_space_exact,
    ByteClass, LPAREN, QUOTE, RPAREN,
};
use crate::parser::{parser_run, EventModel, Mode, ParserModel};

verus! {

/// Law (unmapped columns pass through): where no column of a row has a
/// strategy, every value comes out as it went in.
pub proof fn law_unmapped_row<N: Fn(&[u8], u64, u64) -> Vec<u8>>(
    noise: N,
    map: Seq<Option<StrategyConfig>>,
    values: Seq<Seq<u8>>,
    secret: Seq<u8>,
    anon: Seq<Seq<u8>>,
)
    requires
        forall|i: int| 0 <= i < values.len() ==> #[trigger] map_entry(map, i) is None,
        row_outcome(noise, map, values, secret, anon),
    ensures
        anon == values,
{
    assert forall|i: int| 0 <= i < values.len() implies anon[i] == values[i] by {
        assert(map_entry(map, i) is None);
        assert(value_outcome(noise, map_entry(map, i), values[i], secret, anon[i]));
    }
    assert(anon =~= values);
}

/// A run of events cut before its last event is a run too.
pub proof fn lemma_trace_drop_last<N: Fn(&[u8], u64, u64) -> Vec<u8>>(
    config: Config,
    secret: Seq<u8>,
    noise: N,
    dry_run: bool,
    st0: DumpModel,
    evs: Seq<EventModel>,
    tr: Trace,
    out: Seq<u8>,
    st1: DumpModel,
)
    requires
        evs.len() > 0,
        trace_ok(config, secret, noise, dry_run, st0, evs, tr, out, st1),
    ensures
        trace_ok(
            config,
            secret,
            noise,
            dry_run,
            st0,
            evs.drop_last(),
            Trace { states: tr.states.drop_last(), outs: tr.outs.drop_last() },
            flatten(tr.outs.drop_last()),
            tr.states[evs.len() - 1],
        ),
        event_ok(
            config,
            secret,
            noise,
            dry_run,
            tr.states[evs.len() - 1],
            evs.last(),
            tr.outs.last(),
            st1,
        ),
        out == flatten(tr.outs.drop_last()) + tr.outs.last(),
{
    let n = evs.len() - 1;
    let tr2 = Trace { states: tr.states.drop_last(), outs: tr.outs.drop_last() };
    assert forall|j: int| 0 <= j < evs.drop_last().len() implies #[trigger] event_ok(
        config,
        secret,
        noise,
        dry_run,
        tr2.states[j],
        evs.drop_last()[j],
        tr2.outs[j],
        tr2.states[j + 1],
    ) by {
        assert(event_ok(
            config,
            secret,
            noise,
            dry_run,
            tr.states[j],
            evs[j],
            tr.outs[j],
            tr.states[j + 1],
        ));
    }
    assert(event_ok(config, secret, noise, dry_run, tr.states[n], evs[n], tr.outs[n], tr.states[n + 1]));
}

/// The event names no table that the rules know.
pub open spec fn names_no_rule_table(config: Config, e: EventModel) -> bool {
    match e {
        EventModel::Header { table, .. } => match table {
            Some(t) => find_table(config.tables@, t) is None,
            None => true,
        },
        _ => true,
    }
}

/// A header that names no known table leaves every column without a
/// strategy.
pub proof fn lemma_header_map_no_rule(
    config: Config,
    table: Option<Seq<u8>>,
    columns: Option<Seq<Seq<u8>>>,
)
    requires
        names_no_rule_table(config, EventModel::Header { raw: Seq::empty(), table, columns }),
    ensures
        !has_rule(header_map(config, table, columns)),
{
    let m = header_map(config, table, columns);
    assert forall|i: int| 0 <= i < m.len() implies !((#[trigger] m[i]) is Some) by {
        match (table, columns) {
            (Some(t), Some(cols)) => {
                assert(m[i] == strategy_for(config, t, cols[i]));
            },
            _ => {},
        }
    }
}

/// Law (pass-through proxy): outside dry runs, while no header names a
/// table that the rules know, every event is written as the bytes that it
/// stands for, so that what is written is exactly the text of the events;
/// the rows are still counted.
pub proof fn law_unmapped_dump<N: Fn(&[u8], u64, u64) -> Vec<u8>>(
    config: Config,
    secret: Seq<u8>,
    noise: N,
    st0: DumpModel,
    evs: Seq<EventModel>,
    tr: Trace,
    out: Seq<u8>,
    st1: DumpModel,
)
    requires
        !has_rule(st0.map),
        forall|j: int| 0 <= j < evs.len() ==> names_no_rule_table(config, #[trigger] evs[j]),
        trace_ok(config, secret, noise, false, st0, evs, tr, out, st1),
    ensures
        out == events_text(evs),
        !has_rule(st1.map),
    decreases evs.len(),
{
    if evs.len() == 0 {
        assert(tr.outs.len() == 0);
        assert(out == flatten(tr.outs));
        assert(out =~= events_text(evs));
    } else {
        let n = evs.len() - 1;
        lemma_trace_drop_last(config, secret, noise, false, st0, evs, tr, out, st1);
        let mid = tr.states[n];
        assert forall|j: int| 0 <= j < evs.drop_last().len() implies names_no_rule_table(
            config,
            #[trigger] evs.drop_last()[j],
        ) by {
            assert(names_no_rule_table(config, evs[j]));
        }
        law_unmapped_dump(
            config,
            secret,
            noise,
            st0,
            evs.drop_last(),
            Trace { states: tr.states.drop_last(), outs: tr.outs.drop_last() },
            flatten(tr.outs.drop_last()),
            mid,
        );
        let e = evs.last();
        assert(names_no_rule_table(config, evs[n]));
        match e {
            EventModel::Header { raw, table, columns } => {
                lemma_header_map_no_rule(config, table, columns);
            },
            _ => {},
        }
    }
}

/// Law (a dump without rules passes through whole): from a new parser and
/// a new dump state, outside dry runs and while no header names a known
/// table, the bytes written, followed by the bytes that the parser still
/// holds back, are exactly the bytes read.
pub proof fn law_dump_passthrough<N: Fn(&[u8], u64, u64) -> Vec<u8>>(
    config: Config,
    secret: Seq<u8>,
    noise: N,
    dialect: SqlDialect,
    input: Seq<u8>,
    tr: Trace,
    out: Seq<u8>,
    st1: DumpModel,
)
    requires
        forall|j: int|
            0 <= j < parser_run(
                ParserModel { mode: Mode::Normal(Seq::empty(), NormalContext::Code), dialect },
                input,
            ).1.len() ==> names_no_rule_table(
                config,
                #[trigger] parser_run(
                    ParserModel { mode: Mode::Normal(Seq::empty(), NormalContext::Code), dialect },
                    input,
                ).1[j],
            ),
        trace_ok(
            config,
            secret,
            noise,
            false,
            DumpModel { rows: 0, map: Seq::empty() },
            parser_run(
                ParserModel { mode: Mode::Normal(Seq::empty(), NormalContext::Code), dialect },
                input,
            ).1,
            tr,
            out,
            st1,
        ),
    ensures
        out + pending(
            parser_run(
                ParserModel { mode: Mode::Normal(Seq::empty(), NormalContext::Code), dialect },
                input,
            ).0,
        ) == input,
{
    let m = ParserModel { mode: Mode::Normal(Seq::empty(), NormalContext::Code), dialect };
    let st0 = DumpModel { rows: 0, map: Seq::empty() };
    law_reconstruct(m, input);
    assert(pending(m) + input =~= input);
    law_unmapped_dump(config, secret, noise, st0, parser_run(m, input).1, tr, out, st1);
}

/// The count of processed rows after the events `evs`, from `rows`: one
/// more for each row (saturating).
pub open spec fn rows_after(rows: usize, evs: Seq<EventModel>) -> usize
    decreases evs.len(),
{
    if evs.len() == 0 {
        rows
    } else {
        let r = rows_after(rows, evs.drop_last());
        if evs.last() is Tuple {
            bump(r)
        } else {
            r
        }
    }
}

/// Law (counting does not depend on writing): over any run, the count of
/// processed rows grows by one per row event, whatever the strategies drew
/// and whether or not it is a dry run; so a dry run and a writing run over
/// the same input stop at the same row and report the same count.
pub proof fn law_row_count<N: Fn(&[u8], u64, u64) -> Vec<u8>>(
    config: Config,
    secret: Seq<u8>,
    noise: N,
    dry_run: bool,
    st0: DumpModel,
    evs: Seq<EventModel>,
    tr: Trace,
    out: Seq<u8>,
    st1: DumpModel,
)
    requires
        trace_ok(config, secret, noise, dry_run, st0, evs, tr, out, st1),
    ensures
        st1.rows == rows_after(st0.rows, evs),
    decreases evs.len(),
{
    if evs.len() == 0 {
        assert(tr.states[0] == st1);
    } else {
        lemma_trace_drop_last(config, secret, noise, dry_run, st0, evs, tr, out, st1);
        law_row_count(
            config,
            secret,
            noise,
            dry_run,
            st0,
            evs.drop_last(),
            Trace { states: tr.states.drop_last(), outs: tr.outs.drop_last() },
            flatten(tr.outs.drop_last()),
            tr.states[evs.len() - 1],
        );
    }
}

/// The pieces of `a` and then of `b`, one after the other.
pub proof fn lemma_flatten_append(a: Seq<Seq<u8>>, b: Seq<Seq<u8>>)
    ensures
        flatten(a + b) == flatten(a) + flatten(b),
    decreases b.len(),
{
    if b.len() == 0 {
        assert(a + b =~= a);
        assert(flatten(a) + flatten(b) =~= flatten(a));
    } else {
        lemma_flatten_append(a, b.drop_last());
        assert((a + b).drop_last() =~= a + b.drop_last());
        assert((a + b).last() == b.last());
        assert(flatten(a) + flatten(b.drop_last()) + b.last() =~= flatten(a) + (flatten(
            b.drop_last(),
        ) + b.last()));
    }
}

/// Two runs, the second starting where the first ended, make one run.
pub proof fn lemma_run_append<N: Fn(&[u8], u64, u64) -> Vec<u8>>(
    config: Config,
    secret: Seq<u8>,
    noise: N,
    dry_run: bool,
    limit: Option<usize>,
    st0: DumpModel,
    e1: Seq<EventModel>,
    o1: Seq<u8>,
    mid: DumpModel,
    e2: Seq<EventModel>,
    o2: Seq<u8>,
    st1: DumpModel,
    last_may_reach: bool,
)
    requires
        run_ok(config, secret, noise, dry_run, limit, st0, e1, o1, mid, false),
        run_ok(config, secret, noise, dry_run, limit, mid, e2, o2, st1, last_may_reach),
    ensures
        run_ok(config, secret, noise, dry_run, limit, st0, e1 + e2, o1 + o2, st1, last_may_reach),
{
    let t1 = choose|tr: Trace|
        #[trigger] trace_ok(config, secret, noise, dry_run, st0, e1, tr, o1, mid) && within_limit(
            limit,
            e1,
            tr,
            false,
        );
    let t2 = choose|tr: Trace|
        #[trigger] trace_ok(config, secret, noise, dry_run, mid, e2, tr, o2, st1) && within_limit(
            limit,
            e2,
            tr,
            last_may_reach,
        );
    let n1 = e1.len() as int;
    let es = e1 + e2;
    let t = Trace { states: t1.states + t2.states.drop_first(), outs: t1.outs + t2.outs };
    assert forall|j: int| 0 <= j <= es.len() implies #[trigger] t.states[j] == if j <= n1 {
        t1.states[j]
    } else {
        t2.states[j - n1]
    } by {}
    assert forall|j: int| 0 <= j < es.len() implies #[trigger] event_ok(
        config,
        secret,
        noise,
        dry_run,
        t.states[j],
        es[j],
        t.outs[j],
        t.states[j + 1],
    ) by {
        assert(t.states[j] == if j <= n1 { t1.states[j] } else { t2.states[j - n1] });
        assert(t.states[j + 1] == if j + 1 <= n1 { t1.states[j + 1] } else { t2.states[j + 1 - n1] });
        if j < n1 {
            assert(es[j] == e1[j]);
            assert(event_ok(config, secret, noise, dry_run, t1.states[j], e1[j], t1.outs[j], t1.states[j + 1]));
        } else {
            let k = j - n1;
            assert(es[j] == e2[k]);
            assert(t.outs[j] == t2.outs[k]);
            assert(event_ok(config, secret, noise, dry_run, t2.states[k], e2[k], t2.outs[k], t2.states[k + 1]));
        }
    }
    lemma_flatten_append(t1.outs, t2.outs);
    assert(t.states[es.len() as int] == st1);
    assert forall|j: int|
        0 <= j < es.len() && (#[trigger] es[j]) is Tuple implies !limit_reached(
            limit,
            t.states[j].rows,
        ) && (j + 1 < es.len() || !last_may_reach ==> !limit_reached(
            limit,
            t.states[j + 1].rows,
        )) by {
        assert(t.states[j] == if j <= n1 { t1.states[j] } else { t2.states[j - n1] });
        assert(t.states[j + 1] == if j + 1 <= n1 { t1.states[j + 1] } else { t2.states[j + 1 - n1] });
        if j < n1 {
            assert(e1[j] is Tuple);
        } else {
            assert(e2[j - n1] is Tuple);
        }
    }
    assert(trace_ok(config, secret, noise, dry_run, st0, es, t, o1 + o2, st1));
}

/// Law (chunks compose): handling a chunk that was read whole, and then
/// the next chunk, comes to the same as handling the two as one chunk:
/// the same parser mode, dump state and row count, the outputs one after
/// the other, and the same stop.  So a dump read in any number of chunks
/// is handled as if read at once.
pub proof fn law_chunks_compose<N: Fn(&[u8], u64, u64) -> Vec<u8>>(
    config: Config,
    secret: Seq<u8>,
    noise: N,
    dry_run: bool,
    limit: Option<usize>,
    p0: ParserModel,
    st0: DumpModel,
    a: Seq<u8>,
    p1: ParserModel,
    st1: DumpModel,
    o1: Seq<u8>,
    b: Seq<u8>,
    whole: bool,
    p2: ParserModel,
    st2: DumpModel,
    o2: Seq<u8>,
    stopped: bool,
)
    requires
        chunk_ok(config, secret, noise, dry_run, limit, p0, st0, a, true, p1, st1, o1, false),
        chunk_ok(config, secret, noise, dry_run, limit, p1, st1, b, whole, p2, st2, o2, stopped),
    ensures
        chunk_ok(config, secret, noise, dry_run, limit, p0, st0, a + b, whole, p2, st2, o1 + o2, stopped),
{
    lemma_parser_run_append(p0, a, b);
    let ea = parser_run(p0, a).1;
    let eb = parser_run(p1, b).1;
    if !stopped {
        lemma_run_append(config, secret, noise, dry_run, limit, st0, ea, o1, st1, eb, o2, st2, false);
    } else {
        assert((ea + eb).last() == eb.last());
        if run_ok(config, secret, noise, dry_run, limit, st1, eb, o2, st2, true) {
            lemma_run_append(config, secret, noise, dry_run, limit, st0, ea, o1, st1, eb, o2, st2, true);
        } else {
            lemma_run_append(
                config,
                secret,
                noise,
                dry_run,
                limit,
                st0,
                ea,
                o1,
                st1,
                eb.drop_last(),
                o2,
                st2,
                false,
            );
            assert((ea + eb).drop_last() =~= ea + eb.drop_last());
        }
    }
}

/// The count of rows at each point of a run is that of the events before it.
pub proof fn lemma_row_count_at<N: Fn(&[u8], u64, u64) -> Vec<u8>>(
    config: Config,
    secret: Seq<u8>,
    noise: N,
    dry_run: bool,
    st0: DumpModel,
    evs: Seq<EventModel>,
    tr: Trace,
    out: Seq<u8>,
    st1: DumpModel,
    j: int,
)
    requires
        trace_ok(config, secret, noise, dry_run, st0, evs, tr, out, st1),
        0 <= j <= evs.len(),
    ensures
        tr.states[j].rows == rows_after(st0.rows, evs.take(j)),
    decreases evs.len(),
{
    if j == evs.len() {
        law_row_count(config, secret, noise, dry_run, st0, evs, tr, out, st1);
        assert(evs.take(j) =~= evs);
    } else {
        let n = evs.len() - 1;
        lemma_trace_drop_last(config, secret, noise, dry_run, st0, evs, tr, out, st1);
        let tr2 = Trace { states: tr.states.drop_last(), outs: tr.outs.drop_last() };
        lemma_row_count_at(
            config,
            secret,
            noise,
            dry_run,
            st0,
            evs.drop_last(),
            tr2,
            flatten(tr.outs.drop_last()),
            tr.states[n],
            j,
        );
        assert(evs.drop_last().take(j) =~= evs.take(j));
        assert(tr2.states[j] == tr.states[j]);
    }
}

/// In a run within the limit, a row that was processed found the limit
/// not reached, and, unless it is a last row where the run may stop, left
/// it not reached.
pub proof fn lemma_processed_row<N: Fn(&[u8], u64, u64) -> Vec<u8>>(
    config: Config,
    secret: Seq<u8>,
    noise: N,
    dry_run: bool,
    limit: Option<usize>,
    st0: DumpModel,
    evs: Seq<EventModel>,
    out: Seq<u8>,
    st1: DumpModel,
    last_may_reach: bool,
    j: int,
)
    requires
        run_ok(config, secret, noise, dry_run, limit, st0, evs, out, st1, last_may_reach),
        0 <= j < evs.len(),
        evs[j] is Tuple,
    ensures
        !limit_reached(limit, rows_after(st0.rows, evs.take(j))),
        j + 1 < evs.len() || !last_may_reach ==> !limit_reached(
            limit,
            rows_after(st0.rows, evs.take(j + 1)),
        ),
        st1.rows == rows_after(st0.rows, evs),
{
    let tr = choose|tr: Trace|
        #[trigger] trace_ok(config, secret, noise, dry_run, st0, evs, tr, out, st1) && within_limit(
            limit,
            evs,
            tr,
            last_may_reach,
        );
    lemma_row_count_at(config, secret, noise, dry_run, st0, evs, tr, out, st1, j);
    lemma_row_count_at(config, secret, noise, dry_run, st0, evs, tr, out, st1, j + 1);
    law_row_count(config, secret, noise, dry_run, st0, evs, tr, out, st1);
}

/// The count of rows at the end of a run within the limit.
pub proof fn lemma_run_rows<N: Fn(&[u8], u64, u64) -> Vec<u8>>(
    config: Config,
    secret: Seq<u8>,
    noise: N,
    dry_run: bool,
    limit: Option<usize>,
    st0: DumpModel,
    evs: Seq<EventModel>,
    out: Seq<u8>,
    st1: DumpModel,
    last_may_reach: bool,
)
    requires
        run_ok(config, secret, noise, dry_run, limit, st0, evs, out, st1, last_may_reach),
    ensures
        st1.rows == rows_after(st0.rows, evs),
{
    let tr = choose|tr: Trace|
        #[trigger] trace_ok(config, secret, noise, dry_run, st0, evs, tr, out, st1) && within_limit(
            limit,
            evs,
            tr,
            last_may_reach,
        );
    law_row_count(config, secret, noise, dry_run, st0, evs, tr, out, st1);
}

/// What a stopped chunk says of the counts: the row it stops on is its
/// last event, and the limit is reached either after it (which was not so
/// before it) or already before it.
pub proof fn lemma_stop_rows<N: Fn(&[u8], u64, u64) -> Vec<u8>>(
    config: Config,
    secret: Seq<u8>,
    noise: N,
    dry_run: bool,
    limit: Option<usize>,
    p0: ParserModel,
    st0: DumpModel,
    consumed: Seq<u8>,
    whole: bool,
    p1: ParserModel,
    st1: DumpModel,
    out: Seq<u8>,
)
    requires
        chunk_ok(config, secret, noise, dry_run, limit, p0, st0, consumed, whole, p1, st1, out, true),
    ensures
        ({
            let evs = parser_run(p0, consumed).1;
            let n = evs.len() as int;
            ||| (st1.rows == rows_after(st0.rows, evs) && limit_reached(limit, st1.rows)
                && !limit_reached(limit, rows_after(st0.rows, evs.take(n - 1))))
            ||| (st1.rows == rows_after(st0.rows, evs.take(n - 1)) && limit_reached(
                limit,
                st1.rows,
            ))
        }),
{
    let evs = parser_run(p0, consumed).1;
    let n = evs.len() as int;
    if run_ok(config, secret, noise, dry_run, limit, st0, evs, out, st1, true) {
        lemma_processed_row(config, secret, noise, dry_run, limit, st0, evs, out, st1, true, n - 1);
        assert(evs.take(n) =~= evs);
    } else {
        lemma_run_rows(config, secret, noise, dry_run, limit, st0, evs.drop_last(), out, st1, false);
        assert(evs.drop_last() =~= evs.take(n - 1));
    }
}

/// The events of a shorter prefix of the input begin the events of a
/// longer one.
pub proof fn lemma_events_prefix(m: ParserModel, bytes: Seq<u8>, k1: int, k2: int)
    requires
        0 <= k1 <= k2 <= bytes.len(),
    ensures
        parser_run(m, bytes.take(k1)).1.len() <= parser_run(m, bytes.take(k2)).1.len(),
        parser_run(m, bytes.take(k2)).1.take(parser_run(m, bytes.take(k1)).1.len() as int)
            == parser_run(m, bytes.take(k1)).1,
{
    lemma_parser_run_append(m, bytes.take(k1), bytes.subrange(k1, k2));
    assert(bytes.take(k1) + bytes.subrange(k1, k2) =~= bytes.take(k2));
    let e1 = parser_run(m, bytes.take(k1)).1;
    let e2 = parser_run(m, bytes.take(k2)).1;
    assert(e2.take(e1.len() as int) =~= e1);
}

/// A run that stopped after reading `k1` bytes of a chunk and another run
/// over the same chunk from the same state: the second did not read further.
proof fn lemma_no_run_past_a_stop<N: Fn(&[u8], u64, u64) -> Vec<u8>>(
    config: Config,
    secret: Seq<u8>,
    noise: N,
    dry1: bool,
    dry2: bool,
    limit: Option<usize>,
    p0: ParserModel,
    st0: DumpModel,
    bytes: Seq<u8>,
    k1: int,
    pa: ParserModel,
    sta: DumpModel,
    oa: Seq<u8>,
    k2: int,
    pb: ParserModel,
    stb: DumpModel,
    ob: Seq<u8>,
    sb: bool,
)
    requires
        0 <= k1 <= bytes.len(),
        0 <= k2 <= bytes.len(),
        chunk_ok(config, secret, noise, dry1, limit, p0, st0, bytes.take(k1), k1 == bytes.len(), pa, sta, oa, true),
        chunk_ok(config, secret, noise, dry2, limit, p0, st0, bytes.take(k2), k2 == bytes.len(), pb, stb, ob, sb),
    ensures
        k2 <= k1,
{
    if k1 < k2 {
        let e1 = parser_run(p0, bytes.take(k1)).1;
        let e2 = parser_run(p0, bytes.take(k2)).1;
        let n1 = e1.len() as int;
        let j = n1 - 1;
        lemma_events_prefix(p0, bytes, k1, k2);
        assert(e2[j] == e1[j]);
        assert(e2.take(j) =~= e1.take(j));
        assert(e2.take(j + 1) =~= e1.take(j + 1));
        lemma_stop_rows(config, secret, noise, dry1, limit, p0, st0, bytes.take(k1), k1 == bytes.len(), pa, sta, oa);
        assert(e1.take(n1) =~= e1);
        if !sb {
            lemma_processed_row(config, secret, noise, dry2, limit, st0, e2, ob, stb, false, j);
        } else {
            assert(bytes.take(k2).drop_last() =~= bytes.take(k2 - 1));
            lemma_events_prefix(p0, bytes, k1, k2 - 1);
            let n2 = e2.len() as int;
            assert(j + 1 < n2);
            if run_ok(config, secret, noise, dry2, limit, st0, e2, ob, stb, true) {
                lemma_processed_row(config, secret, noise, dry2, limit, st0, e2, ob, stb, true, j);
            } else {
                let d = e2.drop_last();
                assert(d[j] == e2[j]);
                assert(d.take(j) =~= e2.take(j));
                assert(d.take(j + 1) =~= e2.take(j + 1));
                lemma_processed_row(config, secret, noise, dry2, limit, st0, d, ob, stb, false, j);
            }
        }
    }
}

/// Law (a dry run counts as a writing run does): two runs over the same
/// chunk from the same parser mode and dump state, one dry and one
/// writing (or with different random draws), read the same bytes, end in
/// the same parser mode, stop alike and count the same rows.  With the
/// chunks composing, the same holds of a whole dump.
pub proof fn law_dry_run_agrees<N: Fn(&[u8], u64, u64) -> Vec<u8>>(
    config: Config,
    secret: Seq<u8>,
    noise: N,
    dry1: bool,
    dry2: bool,
    limit: Option<usize>,
    p0: ParserModel,
    st0: DumpModel,
    bytes: Seq<u8>,
    k1: int,
    pa: ParserModel,
    sta: DumpModel,
    oa: Seq<u8>,
    sa: bool,
    k2: int,
    pb: ParserModel,
    stb: DumpModel,
    ob: Seq<u8>,
    sb: bool,
)
    requires
        0 <= k1 <= bytes.len(),
        0 <= k2 <= bytes.len(),
        chunk_ok(config, secret, noise, dry1, limit, p0, st0, bytes.take(k1), k1 == bytes.len(), pa, sta, oa, sa),
        chunk_ok(config, secret, noise, dry2, limit, p0, st0, bytes.take(k2), k2 == bytes.len(), pb, stb, ob, sb),
    ensures
        k1 == k2,
        pa == pb,
        sa == sb,
        sta.rows == stb.rows,
{
    if k1 < k2 {
        lemma_no_run_past_a_stop(config, secret, noise, dry1, dry2, limit, p0, st0, bytes, k1, pa, sta, oa, k2, pb, stb, ob, sb);
    } else if k2 < k1 {
        lemma_no_run_past_a_stop(config, secret, noise, dry2, dry1, limit, p0, st0, bytes, k2, pb, stb, ob, k1, pa, sta, oa, sa);
    } else {
        let evs = parser_run(p0, bytes.take(k1)).1;
        let n = evs.len() as int;
        if !sa && !sb {
            lemma_run_rows(config, secret, noise, dry1, limit, st0, evs, oa, sta, false);
            lemma_run_rows(config, secret, noise, dry2, limit, st0, evs, ob, stb, false);
        } else if sa && !sb {
            lemma_stop_rows(config, secret, noise, dry1, limit, p0, st0, bytes.take(k1), k1 == bytes.len(), pa, sta, oa);
            lemma_processed_row(config, secret, noise, dry2, limit, st0, evs, ob, stb, false, n - 1);
            assert(evs.take(n) =~= evs);
        } else if !sa && sb {
            lemma_stop_rows(config, secret, noise, dry2, limit, p0, st0, bytes.take(k2), k2 == bytes.len(), pb, stb, ob);
            lemma_processed_row(config, secret, noise, dry1, limit, st0, evs, oa, sta, false, n - 1);
            assert(evs.take(n) =~= evs);
        } else {
            lemma_stop_rows(config, secret, noise, dry1, limit, p0, st0, bytes.take(k1), k1 == bytes.len(), pa, sta, oa);
            lemma_stop_rows(config, secret, noise, dry2, limit, p0, st0, bytes.take(k2), k2 == bytes.len(), pb, stb, ob);
            assert(evs.take(n) =~= evs);
        }
    }
}

/// Law (values are cleaned alike wherever they stand): a column whose text
/// is a value `v` with white space and quotes or parentheses around it
/// (the first column of an `INSERT` row, `(v`; a middle one, ` 'v'`; the
/// last, ` v)`; a `COPY` column, `v`) is read as `v` itself, so a value
/// gets the same pseudonym in every place and every table.  `v` starts
/// and ends with an ASCII byte that is neither white space nor a quote or
/// parenthesis.
pub proof fn law_clean_value(col: Seq<u8>, s1: Seq<u8>, w1: Seq<u8>, v: Seq<u8>, w2: Seq<u8>, s2: Seq<u8>)
    requires
        all_ascii_space(s1),
        all_ascii_space(s2),
        all_in_class(w1, ByteClass::Wrapper),
        all_in_class(w2, ByteClass::Wrapper),
        v.len() > 0,
        ascii_non_space(v[0]) && v[0] != QUOTE && v[0] != LPAREN && v[0] != RPAREN,
        ascii_non_space(v.last()) && v.last() != QUOTE && v.last() != LPAREN && v.last() != RPAREN,
    ensures
        utf8_lossy_text(col) == s1 + w1 + v + w2 + s2 ==> clean_value(col) == v,
{
    let x = w1 + v + w2;
    assert(x[0] == if w1.len() > 0 { w1[0] } else { v[0] });
    assert(x.last() == if w2.len() > 0 { w2.last() } else { v.last() });
    if w1.len() > 0 {
        assert(in_class(w1[0], ByteClass::Wrapper));
    }
    if w2.len() > 0 {
        assert(w2[w2.len() - 1] == w2.last());
        assert(in_class(w2[w2.len() - 1], ByteClass::Wrapper));
    }
    lemma_trim_space_exact(s1, x, s2);
    assert(s1 + w1 + v + w2 + s2 =~= s1 + x + s2);
    lemma_trim_class_exact(w1, v, w2, ByteClass::Wrapper);
}

/// The first rule in `columns` with exactly the name `name` gives the
/// strategy: `find_column` gives `Some(s)` only for such a rule, and
/// `None` when no rule has that name.
pub proof fn lemma_find_column_exact(columns: Seq<ColumnConfig>, name: Seq<u8>)
    ensures
        find_column(columns, name) matches Some(s) ==> exists|i: int|
            0 <= i < columns.len() && (#[trigger] columns[i]).name@ == name && columns[i].strategy
                == s && forall|j: int| 0 <= j < i ==> (#[trigger] columns[j]).name@ != name,
        (forall|i: int| 0 <= i < columns.len() ==> (#[trigger] columns[i]).name@ != name)
            ==> find_column(columns, name) is None,
    decreases columns.len(),
{
    if columns.len() > 0 {
        let rest = columns.drop_first();
        lemma_find_column_exact(rest, name);
        if columns[0].name@ != name {
            if find_column(columns, name) is Some {
                let s = find_column(columns, name)->0;
                let k = choose|k: int|
                    0 <= k < rest.len() && (#[trigger] rest[k]).name@ == name && rest[k].strategy
                        == s && forall|j: int| 0 <= j < k ==> (#[trigger] rest[j]).name@ != name;
                assert(columns[k + 1] == rest[k]);
                assert forall|j: int| 0 <= j < k + 1 implies (#[trigger] columns[j]).name@ != name by {
                    if j > 0 {
                        assert(columns[j] == rest[j - 1]);
                    }
                }
            }
            assert((forall|i: int| 0 <= i < columns.len() ==> (#[trigger] columns[i]).name@ != name)
                ==> (forall|i: int| 0 <= i < rest.len() ==> (#[trigger] rest[i]).name@ != name)) by {
                assert forall|i: int| 0 <= i < rest.len() && (forall|i: int| 0 <= i < columns.len() ==> (#[trigger] columns[i]).name@ != name)
                    implies (#[trigger] rest[i]).name@ != name by {
                    assert(rest[i] == columns[i + 1]);
                }
            }
        }
    }
}

/// The first table in `tables` with exactly the name `name` is found, and
/// none when no table has that name.
pub proof fn lemma_find_table_exact(tables: Seq<(Vec<u8>, TableConfig)>, name: Seq<u8>)
    ensures
        find_table(tables, name) matches Some(t) ==> exists|i: int|
            0 <= i < tables.len() && (#[trigger] tables[i]).0@ == name && tables[i].1 == t,
        (forall|i: int| 0 <= i < tables.len() ==> (#[trigger] tables[i]).0@ != name)
            ==> find_table(tables, name) is None,
    decreases tables.len(),
{
    if tables.len() > 0 {
        let rest = tables.drop_first();
        lemma_find_table_exact(rest, name);
        if tables[0].0@ != name {
            if find_table(tables, name) is Some {
                let t = find_table(tables, name)->0;
                let k = choose|k: int|
                    0 <= k < rest.len() && (#[trigger] rest[k]).0@ == name && rest[k].1 == t;
                assert(tables[k + 1] == rest[k]);
            }
            assert((forall|i: int| 0 <= i < tables.len() ==> (#[trigger] tables[i]).0@ != name)
                ==> (forall|i: int| 0 <= i < rest.len() ==> (#[trigger] rest[i]).0@ != name)) by {
                assert forall|i: int| 0 <= i < rest.len() && (forall|i: int| 0 <= i < tables.len() ==> (#[trigger] tables[i]).0@ != name)
                    implies (#[trigger] rest[i]).0@ != name by {
                    assert(rest[i] == tables[i + 1]);
                }
            }
        }
    }
}

/// Law (only declared columns are rewritten): a column gets a strategy
/// only from a rule of its table with exactly its name (byte for byte),
/// the first such rule, and no strategy when no rule of the table names
/// it; a table that no rule names leaves every column without one.
pub proof fn law_rule_names_exact(config: Config, table: Seq<u8>, column: Seq<u8>)
    ensures
        strategy_for(config, table, column) matches Some(s) ==> exists|i: int, k: int|
            0 <= i < config.tables@.len() && (#[trigger] config.tables@[i]).0@ == table && 0 <= k
                < config.tables@[i].1.columns@.len() && (#[trigger] config.tables@[i].1.columns@[k]).name@
                == column && config.tables@[i].1.columns@[k].strategy == s,
        (forall|i: int|
            0 <= i < config.tables@.len() && (#[trigger] config.tables@[i]).0@ == table ==> forall|
                k: int,
            |
                0 <= k < config.tables@[i].1.columns@.len() ==> (#[trigger] config.tables@[i].1.columns@[k]).name@
                    != column) ==> strategy_for(config, table, column) is None,
{
    let tables = config.tables@;
    lemma_find_table_exact(tables, table);
    match find_table(tables, table) {
        Some(t) => {
            let i = choose|i: int| 0 <= i < tables.len() && (#[trigger] tables[i]).0@ == table && tables[i].1 == t;
            lemma_find_column_exact(t.columns@, column);
            if strategy_for(config, table, column) is Some {
                let s = strategy_for(config, table, column)->0;
                let k = choose|k: int|
                    0 <= k < t.columns@.len() && (#[trigger] t.columns@[k]).name@ == column && t.columns@[k].strategy
                        == s && forall|j: int| 0 <= j < k ==> (#[trigger] t.columns@[j]).name@ != column;
                assert(config.tables@[i].1.columns@[k] == t.columns@[k]);
            }
            if (forall|i: int|
                0 <= i < tables.len() && (#[trigger] tables[i]).0@ == table ==> forall|k: int|
                    0 <= k < tables[i].1.columns@.len() ==> (#[trigger] tables[i].1.columns@[k]).name@ != column) {
                assert(tables[i].1 == t);
                assert forall|k: int| 0 <= k < t.columns@.len() implies (#[trigger] t.columns@[k]).name@ != column by {
                    assert(tables[i].1.columns@[k] == t.columns@[k]);
                }
            }
        },
        None => {},
    }
}

} // verus!
