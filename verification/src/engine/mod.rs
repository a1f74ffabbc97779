pub mod config;
pub mod laws;
pub mod strategy;

use vstd::prelude::*;

use crate::engine::config::{strategy_for, Config};
use crate::engine::strategy::StrategyConfig;
use crate::parser::state::InsertFormat;
use crate::parser::tokenizer::{join_tuple, spec_join_tuple, spec_split_tuple, split_tuple};
use crate::parser::laws::pending;
use crate::parser::{
    header_echo_len, keyword_echo, parser_run, EventModel, ParserModel, SqlEvent, SqlParser,
};
use crate::text::{
    copy_range, trim_class, trim_range, trim_space, trim_space_range, ByteClass, LPAREN, QUOTE,
    RPAREN, SPACE,
};

verus! {

broadcast use crate::text::lemma_bytes_deep_view;

// ---------------------------------------------------------------------------
// Specification
// ---------------------------------------------------------------------------

pub open spec fn deref_opt(m: Option<&StrategyConfig>) -> Option<StrategyConfig> {
    match m {
        Some(s) => Some(*s),
        None => None,
    }
}

/// The strategies of a map of references to them.
pub open spec fn strategies(m: Seq<Option<&StrategyConfig>>) -> Seq<Option<StrategyConfig>> {
    m.map_values(|x: Option<&StrategyConfig>| deref_opt(x))
}

/// The strategy at place `i` of a strategy map; none past its end.
pub open spec fn map_entry(map: Seq<Option<StrategyConfig>>, i: int) -> Option<StrategyConfig> {
    if 0 <= i < map.len() {
        map[i]
    } else {
        None
    }
}

/// A value `v` comes out as `out`: unchanged where no strategy applies or
/// where the strategy gives nothing, otherwise what the strategy gives.
pub open spec fn value_outcome<N: Fn(&[u8], u64, u64) -> Vec<u8>>(
    noise: N,
    s: Option<StrategyConfig>,
    v: Seq<u8>,
    secret: Seq<u8>,
    out: Seq<u8>,
) -> bool {
    match s {
        None => out == v,
        Some(st) => st.gives(noise, Some(v), secret, Some(out)) || (st.gives(
            noise,
            Some(v),
            secret,
            None,
        ) && out == v),
    }
}

/// `anon` is a possible outcome of the row `values` under `map`.
pub open spec fn row_outcome<N: Fn(&[u8], u64, u64) -> Vec<u8>>(
    noise: N,
    map: Seq<Option<StrategyConfig>>,
    values: Seq<Seq<u8>>,
    secret: Seq<u8>,
    anon: Seq<Seq<u8>>,
) -> bool {
    &&& anon.len() == values.len()
    &&& forall|i: int|
        0 <= i < values.len() ==> #[trigger] value_outcome(
            noise,
            map_entry(map, i),
            values[i],
            secret,
            anon[i],
        )
}

/// The text of `bytes` with each invalid UTF-8 sequence replaced by U+FFFD.
pub uninterp spec fn utf8_lossy_text(bytes: Seq<u8>) -> Seq<u8>;

/// `String::from_utf8_lossy`, as bytes.  The contract claims the result is
/// the lossy text of the input (named, not defined here), that it is valid
/// UTF-8, and that valid UTF-8 comes back unchanged.
#[verifier::external_body]
fn utf8_lossy(bytes: &[u8]) -> (text: Vec<u8>)
    ensures
        text@ == utf8_lossy_text(bytes@),
        vstd::utf8::valid_utf8(text@),
        vstd::utf8::valid_utf8(bytes@) ==> text@ == bytes@,
{
    String::from_utf8_lossy(bytes).into_owned().into_bytes()
}

/// A raw column as a value: read as UTF-8 text (invalid sequences
/// replaced), without surrounding white space, then without surrounding
/// quotes and parentheses.
pub open spec fn clean_value(col: Seq<u8>) -> Seq<u8> {
    trim_class(trim_space(utf8_lossy_text(col)), ByteClass::Wrapper)
}

/// The values of a row: its columns, each cleaned.
pub open spec fn cleaned_columns(t: Seq<u8>, f: InsertFormat) -> Seq<Seq<u8>> {
    spec_split_tuple(t, f).map_values(|c: Seq<u8>| clean_value(c))
}

/// The `i`-th of `n` values of an `INSERT` row, quoted, after `(` or a
/// space, and before `)` if it is the last.
pub open spec fn render_value(i: int, n: int, v: Seq<u8>) -> Seq<u8> {
    (if i == 0 {
        seq![LPAREN]
    } else {
        seq![SPACE]
    }) + seq![QUOTE] + v + seq![QUOTE] + (if i == n - 1 {
        seq![RPAREN]
    } else {
        Seq::<u8>::empty()
    })
}

/// The pieces of a rewritten row: a column without a strategy keeps its
/// raw bytes `raw[i]`; the others are the values `anon[i]`, rendered for
/// an `INSERT` row by `render_value`.
pub open spec fn render_columns(
    format: InsertFormat,
    map: Seq<Option<StrategyConfig>>,
    raw: Seq<Seq<u8>>,
    anon: Seq<Seq<u8>>,
) -> Seq<Seq<u8>> {
    Seq::new(
        anon.len(),
        |i: int|
            if map_entry(map, i) is None {
                raw[i]
            } else {
                match format {
                    InsertFormat::Values => render_value(i, anon.len() as int, anon[i]),
                    InsertFormat::Copy => anon[i],
                }
            },
    )
}

/// The text written for the row `t` when its values came out as `anon`.
pub open spec fn tuple_text(
    format: InsertFormat,
    map: Seq<Option<StrategyConfig>>,
    t: Seq<u8>,
    anon: Seq<Seq<u8>>,
) -> Seq<u8> {
    spec_join_tuple(render_columns(format, map, spec_split_tuple(t, format), anon), format)
}

/// Some column of the current block has a strategy.
pub open spec fn has_rule(map: Seq<Option<StrategyConfig>>) -> bool {
    exists|i: int| 0 <= i < map.len() && (#[trigger] map[i]) is Some
}

/// The strategies for the columns of a block's header.
pub open spec fn header_map(
    config: Config,
    table: Option<Seq<u8>>,
    columns: Option<Seq<Seq<u8>>>,
) -> Seq<Option<StrategyConfig>> {
    match (table, columns) {
        (Some(t), Some(cols)) => cols.map_values(|c: Seq<u8>| strategy_for(config, t, c)),
        _ => Seq::empty(),
    }
}

/// Spec-level state of a dump being processed.
pub struct DumpModel {
    pub rows: usize,
    pub map: Seq<Option<StrategyConfig>>,
}

pub open spec fn bump(rows: usize) -> usize {
    if rows < usize::MAX {
        (rows + 1) as usize
    } else {
        rows
    }
}

/// A row `t` of format `f` is written as `out`.  Where no column of the
/// block has a strategy, the row is written as it came; otherwise its
/// cleaned values come out as some possible outcome `anon` of the
/// strategies, rendered.
pub open spec fn tuple_written<N: Fn(&[u8], u64, u64) -> Vec<u8>>(
    noise: N,
    secret: Seq<u8>,
    dry_run: bool,
    st: DumpModel,
    t: Seq<u8>,
    f: InsertFormat,
    out: Seq<u8>,
) -> bool {
    if !has_rule(st.map) {
        out == (if dry_run {
            Seq::<u8>::empty()
        } else {
            t
        })
    } else {
        exists|anon: Seq<Seq<u8>>|
            #[trigger] row_outcome(noise, st.map, cleaned_columns(t, f), secret, anon) && out == (
            if dry_run {
                Seq::<u8>::empty()
            } else {
                tuple_text(f, st.map, t, anon)
            })
    }
}

/// Processing event `ev` in state `st` may write `out` and lead to `st2`.
/// Bytes, headers and footers are written as they came (of a header, the
/// part of its keyword already written is not written again); in a dry
/// run nothing is written.
pub open spec fn event_ok<N: Fn(&[u8], u64, u64) -> Vec<u8>>(
    config: Config,
    secret: Seq<u8>,
    noise: N,
    dry_run: bool,
    st: DumpModel,
    ev: EventModel,
    out: Seq<u8>,
    st2: DumpModel,
) -> bool {
    match ev {
        EventModel::Default(b) => st2 == st && out == (if dry_run {
            Seq::<u8>::empty()
        } else {
            seq![b]
        }),
        EventModel::Header { raw, table, columns } => st2 == (DumpModel {
            rows: st.rows,
            map: header_map(config, table, columns),
        }) && out == (if dry_run {
            Seq::<u8>::empty()
        } else {
            raw.skip(keyword_echo(raw))
        }),
        EventModel::Tuple(t, f) => st2 == (DumpModel { rows: bump(st.rows), map: st.map })
            && tuple_written(noise, secret, dry_run, st, t, f, out),
        EventModel::Footer(ft) => st2 == st && out == (if dry_run {
            Seq::<u8>::empty()
        } else {
            ft
        }),
    }
}

/// The states between the events of a run and what each event wrote.
pub struct Trace {
    pub states: Seq<DumpModel>,
    pub outs: Seq<Seq<u8>>,
}

/// The pieces of `outs` one after the other.
pub open spec fn flatten(outs: Seq<Seq<u8>>) -> Seq<u8>
    decreases outs.len(),
{
    if outs.len() == 0 {
        Seq::empty()
    } else {
        flatten(outs.drop_last()) + outs.last()
    }
}

/// `tr` is a run of the events `evs` from `st0` to `st1` that writes `out`.
pub open spec fn trace_ok<N: Fn(&[u8], u64, u64) -> Vec<u8>>(
    config: Config,
    secret: Seq<u8>,
    noise: N,
    dry_run: bool,
    st0: DumpModel,
    evs: Seq<EventModel>,
    tr: Trace,
    out: Seq<u8>,
    st1: DumpModel,
) -> bool {
    &&& tr.states.len() == evs.len() + 1
    &&& tr.outs.len() == evs.len()
    &&& tr.states[0] == st0
    &&& tr.states[evs.len() as int] == st1
    &&& forall|j: int|
        0 <= j < evs.len() ==> #[trigger] event_ok(
            config,
            secret,
            noise,
            dry_run,
            tr.states[j],
            evs[j],
            tr.outs[j],
            tr.states[j + 1],
        )
    &&& out == flatten(tr.outs)
}

/// Handling one more event extends a run.
pub proof fn lemma_trace_push<N: Fn(&[u8], u64, u64) -> Vec<u8>>(
    config: Config,
    secret: Seq<u8>,
    noise: N,
    dry_run: bool,
    st0: DumpModel,
    evs: Seq<EventModel>,
    tr: Trace,
    o1: Seq<u8>,
    mid: DumpModel,
    e: EventModel,
    o2: Seq<u8>,
    st1: DumpModel,
)
    requires
        trace_ok(config, secret, noise, dry_run, st0, evs, tr, o1, mid),
        event_ok(config, secret, noise, dry_run, mid, e, o2, st1),
    ensures
        trace_ok(
            config,
            secret,
            noise,
            dry_run,
            st0,
            evs.push(e),
            Trace { states: tr.states.push(st1), outs: tr.outs.push(o2) },
            o1 + o2,
            st1,
        ),
{
    let tr2 = Trace { states: tr.states.push(st1), outs: tr.outs.push(o2) };
    let evs2 = evs.push(e);
    assert forall|j: int| 0 <= j < evs2.len() implies #[trigger] event_ok(
        config,
        secret,
        noise,
        dry_run,
        tr2.states[j],
        evs2[j],
        tr2.outs[j],
        tr2.states[j + 1],
    ) by {
        if j < evs.len() {
            assert(event_ok(
                config,
                secret,
                noise,
                dry_run,
                tr.states[j],
                evs[j],
                tr.outs[j],
                tr.states[j + 1],
            ));
        }
    }
    assert(tr2.outs.drop_last() =~= tr.outs);
}

/// Whether `rows` processed rows reach the limit.
pub open spec fn limit_reached(limit: Option<usize>, rows: usize) -> bool {
    match limit {
        Some(l) => rows >= l,
        None => false,
    }
}

/// In the run `tr` of the events `evs`, no row was processed with the
/// limit already reached, and after each row the limit was not reached,
/// except possibly after the last event when `last_may_reach`.
pub open spec fn within_limit(
    limit: Option<usize>,
    evs: Seq<EventModel>,
    tr: Trace,
    last_may_reach: bool,
) -> bool {
    forall|j: int|
        0 <= j < evs.len() && (#[trigger] evs[j]) is Tuple ==> !limit_reached(
            limit,
            tr.states[j].rows,
        ) && (j + 1 < evs.len() || !last_may_reach ==> !limit_reached(
            limit,
            tr.states[j + 1].rows,
        ))
}

/// Processing the events `evs` from `st0`, under `limit`, may write `out`
/// and lead to `st1`.
pub open spec fn run_ok<N: Fn(&[u8], u64, u64) -> Vec<u8>>(
    config: Config,
    secret: Seq<u8>,
    noise: N,
    dry_run: bool,
    limit: Option<usize>,
    st0: DumpModel,
    evs: Seq<EventModel>,
    out: Seq<u8>,
    st1: DumpModel,
    last_may_reach: bool,
) -> bool {
    exists|tr: Trace|
        #[trigger] trace_ok(config, secret, noise, dry_run, st0, evs, tr, out, st1) && within_limit(
            limit,
            evs,
            tr,
            last_may_reach,
        )
}

/// Feeding `consumed` (a prefix of a chunk, the whole chunk when `whole`)
/// to a parser at `p0` and handling its events from `st0` may lead to
/// `p1` and `st1` and write `out`.  Rows are processed while the limit is
/// not reached.  `stopped` means that the last event is a row, reported on
/// the last byte consumed, and that the limit is reached: by that row, or
/// already before it, which is then not processed.  Otherwise the whole chunk was read and every event handled.
pub open spec fn chunk_ok<N: Fn(&[u8], u64, u64) -> Vec<u8>>(
    config: Config,
    secret: Seq<u8>,
    noise: N,
    dry_run: bool,
    limit: Option<usize>,
    p0: ParserModel,
    st0: DumpModel,
    consumed: Seq<u8>,
    whole: bool,
    p1: ParserModel,
    st1: DumpModel,
    out: Seq<u8>,
    stopped: bool,
) -> bool {
    let (p, evs) = parser_run(p0, consumed);
    &&& p1 == p
    &&& if stopped {
        &&& evs.len() > 0
        &&& evs.last() is Tuple
        &&& consumed.len() > 0
        &&& parser_run(p0, consumed.drop_last()).1.len() + 1 == evs.len()
        &&& limit_reached(limit, st1.rows)
        &&& (run_ok(config, secret, noise, dry_run, limit, st0, evs, out, st1, true) || run_ok(
            config,
            secret,
            noise,
            dry_run,
            limit,
            st0,
            evs.drop_last(),
            out,
            st1,
            false,
        ))
    } else {
        &&& whole
        &&& run_ok(config, secret, noise, dry_run, limit, st0, evs, out, st1, false)
    }
}

// ---------------------------------------------------------------------------
// The engine
// ---------------------------------------------------------------------------

/// Rewrites the rows of a dump by the rules, with `secret` as the key of
/// the pseudonyms.
pub struct AnonymizerEngine {
    config: Config,
    secret: Vec<u8>,
}

/// Where a dump stands between events: how many rows were processed, and
/// the strategies of the current block's columns.
pub struct DumpState<'a> {
    pub rows_processed: usize,
    pub active_strategy_map: Vec<Option<&'a StrategyConfig>>,
}

impl<'a> DumpState<'a> {
    pub open spec fn model(&self) -> DumpModel {
        DumpModel {
            rows: self.rows_processed,
            map: self.active_strategy_map@.map_values(|m: Option<&StrategyConfig>| deref_opt(m)),
        }
    }

    pub fn new() -> (s: Self)
        ensures
            s.model() == (DumpModel { rows: 0, map: Seq::empty() }),
    {
        let s = DumpState { rows_processed: 0, active_strategy_map: Vec::new() };
        assert(s.model().map =~= Seq::<Option<StrategyConfig>>::empty());
        s
    }
}

fn clean_value_exec(col: &[u8]) -> (v: Vec<u8>)
    ensures
        v@ == clean_value(col@),
{
    let text = utf8_lossy(col);
    let (a, b) = trim_space_range(text.as_slice(), 0, text.len());
    let (c, d) = trim_range(text.as_slice(), a, b, ByteClass::Wrapper);
    assert(text@.subrange(0, text@.len() as int) =~= text@);
    copy_range(text.as_slice(), c, d)
}

fn append_bytes(out: &mut Vec<u8>, bytes: &[u8])
    ensures
        final(out)@ == old(out)@ + bytes@,
{
    let mut i: usize = 0;
    while i < bytes.len()
        invariant
            i <= bytes@.len(),
            out@ == old(out)@ + bytes@.subrange(0, i as int),
        decreases bytes@.len() - i,
    {
        out.push(bytes[i]);
        i += 1;
        assert(out@ =~= old(out)@ + bytes@.subrange(0, i as int));
    }
    assert(bytes@.subrange(0, bytes@.len() as int) =~= bytes@);
}

fn render_value_exec(i: usize, n: usize, v: &[u8]) -> (r: Vec<u8>)
    ensures
        r@ == render_value(i as int, n as int, v@),
{
    let mut r: Vec<u8> = Vec::new();
    if i == 0 {
        r.push(LPAREN);
    } else {
        r.push(SPACE);
    }
    r.push(QUOTE);
    append_bytes(&mut r, v);
    r.push(QUOTE);
    if n > 0 && i == n - 1 {
        r.push(RPAREN);
    }
    assert(r@ =~= render_value(i as int, n as int, v@));
    r
}

impl AnonymizerEngine {
    pub closed spec fn config(&self) -> Config {
        self.config
    }

    pub closed spec fn secret(&self) -> Seq<u8> {
        self.secret@
    }

    pub fn new(config: Config, secret: Vec<u8>) -> (e: Self)
        requires
            config.wf(),
        ensures
            e.config().wf(),
            e.config() == config,
            e.secret() == secret@,
    {
        Self { config, secret }
    }

    /// For each column of a block, the strategy that the rules give it.
    pub fn build_strategy_map<'a>(&'a self, table_name: &[u8], parsed_columns: &[Vec<u8>]) -> (map: Vec<
        Option<&'a StrategyConfig>,
    >)
        ensures
            map@.len() == parsed_columns@.len(),
            forall|i: int|
                0 <= i < map@.len() ==> #[trigger] deref_opt(map@[i]) == strategy_for(
                    self.config(),
                    table_name@,
                    parsed_columns@[i]@,
                ),
    {
        let mut strategy_map: Vec<Option<&'a StrategyConfig>> = Vec::new();
        let table = self.config.table(table_name);
        let mut i: usize = 0;
        while i < parsed_columns.len()
            invariant
                i <= parsed_columns@.len(),
                strategy_map@.len() == i,
                match table {
                    Some(t) => crate::engine::config::find_table(self.config.tables@, table_name@)
                        == Some(*t),
                    None => crate::engine::config::find_table(self.config.tables@, table_name@) is None,
                },
                forall|j: int|
                    0 <= j < i ==> #[trigger] deref_opt(strategy_map@[j]) == strategy_for(
                        self.config,
                        table_name@,
                        parsed_columns@[j]@,
                    ),
            decreases parsed_columns@.len() - i,
        {
            let entry = match table {
                Some(t) => t.column_strategy(parsed_columns[i].as_slice()),
                None => None,
            };
            strategy_map.push(entry);
            i += 1;
        }
        strategy_map
    }

    /// Rewrites one row: each value whose column has a strategy is replaced
    /// by what the strategy gives (kept when it gives nothing); the others
    /// are kept as they are.
    pub fn process_row<N: Fn(&[u8], u64, u64) -> Vec<u8>>(
        &self,
        row_values: Vec<Vec<u8>>,
        strategy_map: &[Option<&StrategyConfig>],
        rng: &mut rand::rngs::StdRng,
        noise: &N,
    ) -> (out: Vec<Vec<u8>>)
        requires
            forall|v: &[u8], e: u64, s: u64| #[trigger] noise.requires((v, e, s)),
        ensures
            row_outcome(
                *noise,
                strategy_map@.map_values(|m: Option<&StrategyConfig>| deref_opt(m)),
                row_values.deep_view(),
                self.secret(),
                out.deep_view(),
            ),
    {
        let ghost map = strategy_map@.map_values(|m: Option<&StrategyConfig>| deref_opt(m));
        let ghost values = row_values.deep_view();
        let mut out: Vec<Vec<u8>> = Vec::new();
        let mut i: usize = 0;
        while i < row_values.len()
            invariant
                forall|v: &[u8], e: u64, s: u64| #[trigger] noise.requires((v, e, s)),
                map == strategy_map@.map_values(|m: Option<&StrategyConfig>| deref_opt(m)),
                values == row_values.deep_view(),
                i <= row_values@.len(),
                out@.len() == i,
                forall|j: int|
                    0 <= j < i ==> #[trigger] value_outcome(
                        *noise,
                        map_entry(map, j),
                        values[j],
                        self.secret@,
                        out@[j]@,
                    ),
            decreases row_values@.len() - i,
        {
            let value = row_values[i].as_slice();
            assert(values[i as int] == value@);
            let strategy = if i < strategy_map.len() {
                strategy_map[i]
            } else {
                None
            };
            assert(deref_opt(strategy) == map_entry(map, i as int));
            let result = match strategy {
                Some(s) => match s.apply(Some(value), rng, self.secret.as_slice(), noise) {
                    Some(x) => {
                        assert(x.deep_view() =~= x@);
                        x
                    },
                    None => copy_range(value, 0, value.len()),
                },
                None => copy_range(value, 0, value.len()),
            };
            assert(value@.subrange(0, value@.len() as int) =~= value@);
            out.push(result);
            i += 1;
        }
        assert(out.deep_view() =~= Seq::new(out@.len(), |j: int| out@[j]@));
        out
    }

    /// Whether some column of the current block has a strategy.
    fn any_rule(&self, strategy_map: &[Option<&StrategyConfig>]) -> (r: bool)
        ensures
            r == has_rule(strategy_map@.map_values(|m: Option<&StrategyConfig>| deref_opt(m))),
    {
        let ghost map = strategy_map@.map_values(|m: Option<&StrategyConfig>| deref_opt(m));
        let mut i: usize = 0;
        while i < strategy_map.len()
            invariant
                i <= strategy_map@.len(),
                map == strategy_map@.map_values(|m: Option<&StrategyConfig>| deref_opt(m)),
                forall|j: int| 0 <= j < i ==> map[j] is None,
            decreases strategy_map@.len() - i,
        {
            if strategy_map[i].is_some() {
                assert(map[i as int] is Some);
                return true;
            }
            i += 1;
        }
        assert forall|j: int| 0 <= j < map.len() implies !((#[trigger] map[j]) is Some) by {}
        false
    }

    /// Rewrites a row by the strategies of its block: cleans its values,
    /// applies the strategies, and renders the result.
    fn rewrite_tuple<N: Fn(&[u8], u64, u64) -> Vec<u8>>(
        &self,
        tuple_bytes: &[u8],
        format: InsertFormat,
        strategy_map: &[Option<&StrategyConfig>],
        rng: &mut rand::rngs::StdRng,
        noise: &N,
    ) -> (out: Vec<u8>)
        requires
            forall|v: &[u8], e: u64, s: u64| #[trigger] noise.requires((v, e, s)),
        ensures
            exists|anon: Seq<Seq<u8>>|
                #[trigger] row_outcome(
                    *noise,
                    strategies(strategy_map@),
                    cleaned_columns(tuple_bytes@, format),
                    self.secret(),
                    anon,
                ) && out@ == tuple_text(format, strategies(strategy_map@), tuple_bytes@, anon),
    {
        let columns = split_tuple(tuple_bytes, format);
        let ghost cols = columns.deep_view();
        let num_cols = columns.len();
        let mut string_cols: Vec<Vec<u8>> = Vec::with_capacity(num_cols);
        let mut i: usize = 0;
        while i < num_cols
            invariant
                num_cols == columns@.len(),
                cols == columns.deep_view(),
                i <= num_cols,
                string_cols@.len() == i,
                forall|j: int| 0 <= j < i ==> #[trigger] string_cols@[j]@ == clean_value(cols[j]),
            decreases num_cols - i,
        {
            let cleaned = clean_value_exec(columns[i].as_slice());
            string_cols.push(cleaned);
            i += 1;
        }
        let ghost cleaned_all = cols.map_values(|c: Seq<u8>| clean_value(c));
        assert(string_cols.deep_view() =~= cleaned_all);
        let anonymized_cols = self.process_row(string_cols, strategy_map, rng, noise);
        let ghost anon = anonymized_cols.deep_view();
        let ghost map = strategies(strategy_map@);
        let n = anonymized_cols.len();
        assert(n == num_cols);
        let mut rendered: Vec<Vec<u8>> = Vec::with_capacity(n);
        let mut k: usize = 0;
        while k < n
            invariant
                n == anonymized_cols@.len(),
                n == columns@.len(),
                cols == columns.deep_view(),
                anon == anonymized_cols.deep_view(),
                map == strategies(strategy_map@),
                k <= n,
                rendered@.len() == k,
                forall|j: int|
                    0 <= j < k ==> #[trigger] rendered@[j]@ == render_columns(format, map, cols, anon)[j],
            decreases n - k,
        {
            let mapped = k < strategy_map.len() && strategy_map[k].is_some();
            assert(mapped == !(map_entry(map, k as int) is None));
            let piece = if !mapped {
                let raw = columns[k].as_slice();
                assert(raw@.subrange(0, raw@.len() as int) =~= raw@);
                copy_range(raw, 0, raw.len())
            } else {
                let value = anonymized_cols[k].as_slice();
                assert(value@.subrange(0, value@.len() as int) =~= value@);
                match format {
                    InsertFormat::Values => render_value_exec(k, n, value),
                    InsertFormat::Copy => copy_range(value, 0, value.len()),
                }
            };
            rendered.push(piece);
            k += 1;
        }
        assert(rendered.deep_view() =~= render_columns(format, map, cols, anon));
        let out = join_tuple(rendered.as_slice(), format);
        assert(row_outcome(
            *noise,
            strategies(strategy_map@),
            cleaned_columns(tuple_bytes@, format),
            self.secret(),
            anon,
        ));
        out
    }

    /// Handles one event of the parser: passes bytes, headers and footers
    /// through as they came, sets up the strategies of a block from its
    /// header, writes the rows of a block without strategies as they came
    /// and rewrites the others.  Returns what is to be written (nothing in
    /// a dry run).
    pub fn process_event<'a, N: Fn(&[u8], u64, u64) -> Vec<u8>>(
        &'a self,
        st: &mut DumpState<'a>,
        event: SqlEvent,
        dry_run: bool,
        rng: &mut rand::rngs::StdRng,
        noise: &N,
    ) -> (out: Vec<u8>)
        requires
            forall|v: &[u8], e: u64, s: u64| #[trigger] noise.requires((v, e, s)),
        ensures
            event_ok(
                self.config(),
                self.secret(),
                *noise,
                dry_run,
                old(st).model(),
                event.model(),
                out@,
                final(st).model(),
            ),
    {
        let ghost ev = event.model();
        let ghost st0 = old(st).model();
        match event {
            SqlEvent::DefaultStatement(b) => {
                let mut out: Vec<u8> = Vec::new();
                if !dry_run {
                    out.push(b);
                }
                assert(out@ =~= (if dry_run {
                    Seq::<u8>::empty()
                } else {
                    seq![b]
                }));
                assert(event_ok(self.config(), self.secret(), *noise, dry_run, st0, ev, out@, st.model()));
                out
            },
            SqlEvent::Header { raw_bytes, table_name, columns } => {
                match (&table_name, &columns) {
                    (Some(tbl), Some(cols)) => {
                        let map = self.build_strategy_map(tbl.as_slice(), cols.as_slice());
                        st.active_strategy_map = map;
                        assert(st.model().map =~= header_map(
                            self.config,
                            table_name.deep_view(),
                            columns.deep_view(),
                        ));
                    },
                    _ => {
                        st.active_strategy_map = Vec::new();
                        assert(st.model().map =~= header_map(
                            self.config,
                            table_name.deep_view(),
                            columns.deep_view(),
                        ));
                    },
                }
                let mut out: Vec<u8> = Vec::new();
                if !dry_run {
                    let echo = header_echo_len(raw_bytes.as_slice());
                    out = copy_range(raw_bytes.as_slice(), echo, raw_bytes.len());
                }
                assert(out@ =~= (if dry_run {
                    Seq::<u8>::empty()
                } else {
                    raw_bytes@.skip(keyword_echo(raw_bytes@))
                }));
                assert(event_ok(self.config(), self.secret(), *noise, dry_run, st0, ev, out@, st.model()));
                out
            },
            SqlEvent::Tuple(tuple_bytes, format) => {
                let ruled = self.any_rule(st.active_strategy_map.as_slice());
                let mut out: Vec<u8> = Vec::new();
                if !ruled {
                    if !dry_run {
                        out = tuple_bytes;
                    }
                } else {
                    let anonymized = self.rewrite_tuple(
                        tuple_bytes.as_slice(),
                        format,
                        st.active_strategy_map.as_slice(),
                        rng,
                        noise,
                    );
                    if !dry_run {
                        out = anonymized;
                    }
                }
                if st.rows_processed < usize::MAX {
                    st.rows_processed = st.rows_processed + 1;
                }
                assert(st.model().map =~= st0.map);
                assert(event_ok(self.config(), self.secret(), *noise, dry_run, st0, ev, out@, st.model()));
                out
            },
            SqlEvent::Footer(footer_bytes) => {
                let mut out: Vec<u8> = Vec::new();
                if !dry_run {
                    out = footer_bytes;
                }
                assert(event_ok(self.config(), self.secret(), *noise, dry_run, st0, ev, out@, st.model()));
                out
            },
        }
    }

    /// Feeds a chunk of the dump through `parser` and handles each event.
    /// A row is processed only while fewer than `limit` rows were; the
    /// chunk stops at the row that finds the limit reached, or right after
    /// the row that reaches it, and the rest of the chunk is left unread.
    /// Returns what is to be written (nothing in a dry run) and whether it
    /// stopped.
    pub fn process_chunk<'a, N: Fn(&[u8], u64, u64) -> Vec<u8>>(
        &'a self,
        parser: &mut SqlParser,
        st: &mut DumpState<'a>,
        bytes: &[u8],
        limit: Option<usize>,
        dry_run: bool,
        rng: &mut rand::rngs::StdRng,
        noise: &N,
    ) -> (r: (Vec<u8>, bool))
        requires
            old(parser).wf(),
            forall|v: &[u8], e: u64, s: u64| #[trigger] noise.requires((v, e, s)),
        ensures
            final(parser).wf(),
            exists|k: int|
                #![trigger bytes@.take(k)]
                0 <= k <= bytes@.len() && chunk_ok(
                    self.config(),
                    self.secret(),
                    *noise,
                    dry_run,
                    limit,
                    old(parser).model(),
                    old(st).model(),
                    bytes@.take(k),
                    k == bytes@.len(),
                    final(parser).model(),
                    final(st).model(),
                    r.0@,
                    r.1,
                ),
    {
        let ghost p0 = old(parser).model();
        let ghost st0 = old(st).model();
        let mut out: Vec<u8> = Vec::new();
        let mut i: usize = 0;
        let ghost mut tr = Trace { states: seq![st0], outs: Seq::empty() };
        let mut stopped = false;
        assert(bytes@.take(0) =~= Seq::<u8>::empty());
        assert(flatten(tr.outs) =~= out@);
        while i < bytes.len() && !stopped
            invariant
                forall|v: &[u8], e: u64, s: u64| #[trigger] noise.requires((v, e, s)),
                i <= bytes@.len(),
                parser.wf(),
                parser.model() == parser_run(p0, bytes@.take(i as int)).0,
                !stopped ==> trace_ok(
                    self.config(),
                    self.secret(),
                    *noise,
                    dry_run,
                    st0,
                    parser_run(p0, bytes@.take(i as int)).1,
                    tr,
                    out@,
                    st.model(),
                ) && within_limit(limit, parser_run(p0, bytes@.take(i as int)).1, tr, false),
                stopped ==> chunk_ok(
                    self.config(),
                    self.secret(),
                    *noise,
                    dry_run,
                    limit,
                    p0,
                    st0,
                    bytes@.take(i as int),
                    i == bytes@.len(),
                    parser.model(),
                    st.model(),
                    out@,
                    true,
                ),
            decreases bytes@.len() - i,
        {
            let ghost evs = parser_run(p0, bytes@.take(i as int)).1;
            let ghost out_before = out@;
            let ghost st_before = st.model();
            assert(bytes@.take(i + 1).drop_last() =~= bytes@.take(i as int));
            assert(bytes@.take(i + 1).last() == bytes@[i as int]);
            let ev = parser.handle_byte(bytes[i]);
            i += 1;
            match ev {
                Some(event) => {
                    let ghost e = event.model();
                    let ghost evs2 = parser_run(p0, bytes@.take(i as int)).1;
                    assert(evs2 == evs.push(e));
                    assert(evs2.drop_last() =~= evs);
                    let is_tuple = match &event {
                        SqlEvent::Tuple(_, _) => true,
                        _ => false,
                    };
                    let reached_before = match limit {
                        Some(l) => st.rows_processed >= l,
                        None => false,
                    };
                    if is_tuple && reached_before {
                        assert(run_ok(
                            self.config(),
                            self.secret(),
                            *noise,
                            dry_run,
                            limit,
                            st0,
                            evs2.drop_last(),
                            out@,
                            st.model(),
                            false,
                        )) by {
                            assert(trace_ok(
                                self.config(),
                                self.secret(),
                                *noise,
                                dry_run,
                                st0,
                                evs2.drop_last(),
                                tr,
                                out@,
                                st.model(),
                            ));
                        }
                        stopped = true;
                    } else {
                        let mut o = self.process_event(st, event, dry_run, rng, noise);
                        let ghost o_v = o@;
                        out.append(&mut o);
                        assert(out@ == out_before + o_v);
                        let reached_after = match limit {
                            Some(l) => st.rows_processed >= l,
                            None => false,
                        };
                        let stop_now = is_tuple && reached_after;
                        proof {
                            lemma_trace_push(
                                self.config(),
                                self.secret(),
                                *noise,
                                dry_run,
                                st0,
                                evs,
                                tr,
                                out_before,
                                st_before,
                                e,
                                o_v,
                                st.model(),
                            );
                            lemma_within_limit_push(limit, evs, tr, e, o_v, st.model(), stop_now);
                            tr = Trace { states: tr.states.push(st.model()), outs: tr.outs.push(o_v) };
                        }
                        if stop_now {
                            assert(run_ok(
                                self.config(),
                                self.secret(),
                                *noise,
                                dry_run,
                                limit,
                                st0,
                                evs2,
                                out@,
                                st.model(),
                                true,
                            )) by {
                                assert(trace_ok(
                                    self.config(),
                                    self.secret(),
                                    *noise,
                                    dry_run,
                                    st0,
                                    evs2,
                                    tr,
                                    out@,
                                    st.model(),
                                ));
                            }
                            stopped = true;
                        }
                    }
                },
                None => {},
            }
        }
        if stopped {
            return (out, true);
        }
        assert(bytes@.take(bytes@.len() as int) =~= bytes@);
        assert(run_ok(
            self.config(),
            self.secret(),
            *noise,
            dry_run,
            limit,
            st0,
            parser_run(p0, bytes@.take(i as int)).1,
            out@,
            st.model(),
            false,
        )) by {
            assert(trace_ok(
                self.config(),
                self.secret(),
                *noise,
                dry_run,
                st0,
                parser_run(p0, bytes@.take(i as int)).1,
                tr,
                out@,
                st.model(),
            ));
        }
        (out, false)
    }
}

/// What is still to be written when the input ends: the bytes that the
/// parser holds back (an unfinished statement at the very end), unless the
/// run stopped at the limit or is a dry run.
pub fn finish(parser: &SqlParser, stopped: bool, dry_run: bool) -> (out: Vec<u8>)
    requires
        parser.wf(),
    ensures
        out@ == (if stopped || dry_run {
            Seq::<u8>::empty()
        } else {
            pending(parser.model())
        }),
{
    if stopped || dry_run {
        Vec::new()
    } else {
        parser.held_back()
    }
}

/// One more event keeps a run within the limit, when a row at its end was
/// processed with the limit not reached, and, unless the run may stop
/// there, leaves it not reached.
proof fn lemma_within_limit_push(
    limit: Option<usize>,
    evs: Seq<EventModel>,
    tr: Trace,
    e: EventModel,
    o: Seq<u8>,
    st1: DumpModel,
    last_may_reach: bool,
)
    requires
        tr.states.len() == evs.len() + 1,
        within_limit(limit, evs, tr, false),
        e is Tuple ==> !limit_reached(limit, tr.states[evs.len() as int].rows) && (
        !last_may_reach ==> !limit_reached(limit, st1.rows)),
        !(e is Tuple) ==> !last_may_reach,
    ensures
        within_limit(
            limit,
            evs.push(e),
            Trace { states: tr.states.push(st1), outs: tr.outs.push(o) },
            last_may_reach,
        ),
{
    let evs2 = evs.push(e);
    let tr2 = Trace { states: tr.states.push(st1), outs: tr.outs.push(o) };
    assert forall|j: int| 0 <= j < evs2.len() && (#[trigger] evs2[j]) is Tuple implies !limit_reached(
        limit,
        tr2.states[j].rows,
    ) && (j + 1 < evs2.len() || !last_may_reach ==> !limit_reached(limit, tr2.states[j + 1].rows)) by {
        if j < evs.len() {
            assert(evs[j] is Tuple);
            assert(tr2.states[j] == tr.states[j]);
            assert(tr2.states[j + 1] == tr.states[j + 1]);
        }
    }
}

} // verus!
