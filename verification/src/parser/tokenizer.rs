use vstd::prelude::*;

use crate::parser::state::InsertFormat;
use crate::text::{ends_with, tail_matches, BACKSLASH, COMMA, CR, LF, QUOTE, TAB};

verus! {

// ---------------------------------------------------------------------------
// Specification
// ---------------------------------------------------------------------------

/// `cols` joined with the separator byte `sep` between consecutive columns.
pub open spec fn join_with(cols: Seq<Seq<u8>>, sep: u8) -> Seq<u8>
    decreases cols.len(),
{
    if cols.len() == 0 {
        Seq::empty()
    } else if cols.len() == 1 {
        cols[0]
    } else {
        join_with(cols.drop_last(), sep).push(sep) + cols.last()
    }
}

/// State of a left-to-right scan that splits on `sep`: the finished columns
/// and the column being filled.
pub open spec fn split_scan(s: Seq<u8>, sep: u8) -> (Seq<Seq<u8>>, Seq<u8>)
    decreases s.len(),
{
    if s.len() == 0 {
        (Seq::empty(), Seq::empty())
    } else {
        let (cols, cur) = split_scan(s.drop_last(), sep);
        if s.last() == sep {
            (cols.push(cur), Seq::empty())
        } else {
            (cols, cur.push(s.last()))
        }
    }
}

/// The pieces of `s` between occurrences of `sep` (always at least one).
pub open spec fn split_on(s: Seq<u8>, sep: u8) -> Seq<Seq<u8>> {
    split_scan(s, sep).0.push(split_scan(s, sep).1)
}

/// `s` without one trailing `"\r\n"` or, failing that, one trailing `"\n"`.
pub open spec fn strip_line_end(s: Seq<u8>) -> Seq<u8> {
    if ends_with(s, seq![CR, LF]) {
        s.subrange(0, s.len() - 2)
    } else if ends_with(s, seq![LF]) {
        s.subrange(0, s.len() - 1)
    } else {
        s
    }
}

/// The columns of a `COPY` row: the line without its line ending, split on tabs.
pub open spec fn copy_columns(row: Seq<u8>) -> Seq<Seq<u8>> {
    split_on(strip_line_end(row), TAB)
}

/// State of the scan of an `INSERT` tuple: finished columns, current column,
/// whether the scan is inside a single-quoted string, and whether the next
/// byte is escaped by a backslash.
pub struct InsertScan {
    pub cols: Seq<Seq<u8>>,
    pub cur: Seq<u8>,
    pub inside_string: bool,
    pub escape_next: bool,
}

/// One byte of the `INSERT` tuple scan.  A comma outside a string ends a
/// column and is dropped; every other byte goes to the current column.
/// A backslash escapes the byte after it; a quote toggles the string state.
pub open spec fn insert_scan_step(st: InsertScan, b: u8) -> InsertScan {
    if st.escape_next {
        InsertScan { cur: st.cur.push(b), escape_next: false, ..st }
    } else if b == BACKSLASH {
        InsertScan { cur: st.cur.push(b), escape_next: true, ..st }
    } else if b == QUOTE {
        InsertScan { cur: st.cur.push(b), inside_string: !st.inside_string, ..st }
    } else if b == COMMA && !st.inside_string {
        InsertScan { cols: st.cols.push(st.cur), cur: Seq::empty(), ..st }
    } else {
        InsertScan { cur: st.cur.push(b), ..st }
    }
}

pub open spec fn insert_scan(s: Seq<u8>) -> InsertScan
    decreases s.len(),
{
    if s.len() == 0 {
        InsertScan {
            cols: Seq::empty(),
            cur: Seq::empty(),
            inside_string: false,
            escape_next: false,
        }
    } else {
        insert_scan_step(insert_scan(s.drop_last()), s.last())
    }
}

/// The columns of an `INSERT` tuple: split on the commas that are outside
/// single-quoted strings and not escaped.
pub open spec fn insert_columns(tuple: Seq<u8>) -> Seq<Seq<u8>> {
    insert_scan(tuple).cols.push(insert_scan(tuple).cur)
}

pub open spec fn spec_split_tuple(data: Seq<u8>, format: InsertFormat) -> Seq<Seq<u8>> {
    match format {
        InsertFormat::Copy => copy_columns(data),
        InsertFormat::Values => insert_columns(data),
    }
}

pub open spec fn spec_join_tuple(cols: Seq<Seq<u8>>, format: InsertFormat) -> Seq<u8> {
    match format {
        InsertFormat::Copy => join_with(cols, TAB).push(LF),
        InsertFormat::Values => join_with(cols, COMMA),
    }
}

// ---------------------------------------------------------------------------
// Lemmas and laws
// ---------------------------------------------------------------------------

/// Appending a byte to the last column appends it to the joined text.
pub proof fn lemma_join_push_byte(cols: Seq<Seq<u8>>, cur: Seq<u8>, sep: u8, b: u8)
    ensures
        join_with(cols.push(cur.push(b)), sep) == join_with(cols.push(cur), sep).push(b),
{
    let a = cols.push(cur.push(b));
    let c = cols.push(cur);
    assert(a.drop_last() =~= cols);
    assert(c.drop_last() =~= cols);
    if cols.len() == 0 {
        assert(join_with(a, sep) == a[0]);
        assert(join_with(c, sep) == c[0]);
    } else {
        assert(join_with(a, sep) == join_with(cols, sep).push(sep) + cur.push(b));
        assert(join_with(c, sep) == join_with(cols, sep).push(sep) + cur);
        assert(join_with(cols, sep).push(sep) + cur.push(b) =~= (join_with(cols, sep).push(sep)
            + cur).push(b));
    }
}

/// Closing a column and opening an empty one appends the separator.
pub proof fn lemma_join_push_empty(cols: Seq<Seq<u8>>, cur: Seq<u8>, sep: u8)
    ensures
        join_with(cols.push(cur).push(Seq::empty()), sep) == join_with(cols.push(cur), sep).push(
            sep,
        ),
{
    let a = cols.push(cur).push(Seq::<u8>::empty());
    assert(a.drop_last() =~= cols.push(cur));
    assert(join_with(a, sep) == join_with(cols.push(cur), sep).push(sep) + Seq::<u8>::empty());
    assert(join_with(cols.push(cur), sep).push(sep) + Seq::<u8>::empty() =~= join_with(
        cols.push(cur),
        sep,
    ).push(sep));
}

/// Law: joining the pieces of `s` with the separator they were split on
/// gives `s` back.
pub proof fn lemma_join_split_on(s: Seq<u8>, sep: u8)
    ensures
        join_with(split_on(s, sep), sep) == s,
    decreases s.len(),
{
    if s.len() == 0 {
        assert(split_on(s, sep) =~= seq![Seq::<u8>::empty()]);
        assert(join_with(split_on(s, sep), sep) =~= s);
    } else {
        let p = s.drop_last();
        lemma_join_split_on(p, sep);
        let (cols, cur) = split_scan(p, sep);
        if s.last() == sep {
            lemma_join_push_empty(cols, cur, sep);
        } else {
            lemma_join_push_byte(cols, cur, sep, s.last());
        }
        assert(p.push(s.last()) =~= s);
    }
}

/// Law: an `INSERT` tuple is exactly its columns joined with commas.
pub proof fn lemma_join_insert_columns(s: Seq<u8>)
    ensures
        join_with(insert_columns(s), COMMA) == s,
    decreases s.len(),
{
    if s.len() == 0 {
        assert(insert_columns(s) =~= seq![Seq::<u8>::empty()]);
        assert(join_with(insert_columns(s), COMMA) =~= s);
    } else {
        let p = s.drop_last();
        lemma_join_insert_columns(p);
        let st = insert_scan(p);
        let b = s.last();
        if !st.escape_next && b == COMMA && !st.inside_string {
            lemma_join_push_empty(st.cols, st.cur, COMMA);
        } else {
            lemma_join_push_byte(st.cols, st.cur, COMMA, b);
        }
        assert(p.push(b) =~= s);
    }
}

/// Law (split then join): for either format, joining the columns that
/// `split_tuple` finds gives the tuple back; a `COPY` row comes back with
/// its line ending normalised to a single `"\n"`.
pub proof fn lemma_split_join_tuple(data: Seq<u8>, format: InsertFormat)
    ensures
        spec_join_tuple(spec_split_tuple(data, format), format) == match format {
            InsertFormat::Copy => strip_line_end(data).push(LF),
            InsertFormat::Values => data,
        },
{
    match format {
        InsertFormat::Copy => lemma_join_split_on(strip_line_end(data), TAB),
        InsertFormat::Values => lemma_join_insert_columns(data),
    }
}

// ---------------------------------------------------------------------------
// Executable code
// ---------------------------------------------------------------------------

/// Splits a tuple into its columns, by the rules of its format.
pub fn split_tuple(data: &[u8], format: InsertFormat) -> (columns: Vec<Vec<u8>>)
    ensures
        columns.deep_view() == spec_split_tuple(data@, format),
{
    match format {
        InsertFormat::Copy => split_copy_tuple(data),
        InsertFormat::Values => split_insert_tuple(data),
    }
}

fn split_copy_tuple(data: &[u8]) -> (columns: Vec<Vec<u8>>)
    ensures
        columns.deep_view() == copy_columns(data@),
{
    let crlf: [u8; 2] = [CR, LF];
    let lf: [u8; 1] = [LF];
    assert(crlf@ =~= seq![CR, LF]);
    assert(lf@ =~= seq![LF]);
    let end: usize = if tail_matches(data, crlf.as_slice()) {
        data.len() - 2
    } else if tail_matches(data, lf.as_slice()) {
        data.len() - 1
    } else {
        data.len()
    };
    let ghost clean = strip_line_end(data@);
    assert(clean =~= data@.subrange(0, end as int));
    split_on_byte(data, 0, end, TAB)
}

/// Splits `data[start..end]` on every occurrence of `sep`.
pub(crate) fn split_on_byte(data: &[u8], start: usize, end: usize, sep: u8) -> (columns: Vec<
    Vec<u8>,
>)
    requires
        start <= end <= data@.len(),
    ensures
        columns.deep_view() == split_on(data@.subrange(start as int, end as int), sep),
{
    let mut columns: Vec<Vec<u8>> = Vec::new();
    let mut current: Vec<u8> = Vec::new();
    let mut i: usize = start;
    assert(data@.subrange(start as int, start as int) =~= Seq::<u8>::empty());
    while i < end
        invariant
            start <= i <= end <= data@.len(),
            columns.deep_view() == split_scan(data@.subrange(start as int, i as int), sep).0,
            current@ == split_scan(data@.subrange(start as int, i as int), sep).1,
        decreases end - i,
    {
        let b = data[i];
        let ghost prefix = data@.subrange(start as int, i as int);
        let ghost next = data@.subrange(start as int, i + 1);
        assert(next.drop_last() =~= prefix);
        assert(next.last() == b);
        if b == sep {
            let mut done: Vec<u8> = Vec::new();
            std::mem::swap(&mut done, &mut current);
            let ghost before = columns.deep_view();
            assert(done.deep_view() =~= done@);
            columns.push(done);
            assert(columns.deep_view() =~= before.push(done@));
        } else {
            current.push(b);
        }
        i += 1;
    }
    let ghost before = columns.deep_view();
    let ghost last = current@;
    assert(current.deep_view() =~= current@);
    columns.push(current);
    assert(columns.deep_view() =~= before.push(last));
    columns
}

fn split_insert_tuple(data: &[u8]) -> (columns: Vec<Vec<u8>>)
    ensures
        columns.deep_view() == insert_columns(data@),
{
    let mut columns: Vec<Vec<u8>> = Vec::new();
    let mut current_col: Vec<u8> = Vec::new();
    let mut inside_string = false;
    let mut escape_next = false;
    let mut i: usize = 0;
    while i < data.len()
        invariant
            i <= data@.len(),
            columns.deep_view() == insert_scan(data@.subrange(0, i as int)).cols,
            current_col@ == insert_scan(data@.subrange(0, i as int)).cur,
            inside_string == insert_scan(data@.subrange(0, i as int)).inside_string,
            escape_next == insert_scan(data@.subrange(0, i as int)).escape_next,
        decreases data@.len() - i,
    {
        let byte = data[i];
        let ghost prefix = data@.subrange(0, i as int);
        let ghost next = data@.subrange(0, i + 1);
        assert(next.drop_last() =~= prefix);
        assert(next.last() == byte);
        if escape_next {
            current_col.push(byte);
            escape_next = false;
        } else if byte == BACKSLASH {
            current_col.push(byte);
            escape_next = true;
        } else if byte == QUOTE {
            current_col.push(byte);
            inside_string = !inside_string;
        } else if byte == COMMA && !inside_string {
            let mut done: Vec<u8> = Vec::new();
            std::mem::swap(&mut done, &mut current_col);
            let ghost before = columns.deep_view();
            assert(done.deep_view() =~= done@);
            columns.push(done);
            assert(columns.deep_view() =~= before.push(done@));
        } else {
            current_col.push(byte);
        }
        i += 1;
    }
    assert(data@.subrange(0, data@.len() as int) =~= data@);
    let ghost before = columns.deep_view();
    let ghost last = current_col@;
    assert(current_col.deep_view() =~= current_col@);
    columns.push(current_col);
    assert(columns.deep_view() =~= before.push(last));
    columns
}

/// Joins columns back into a tuple: tab-separated with a closing newline for
/// `COPY`, comma-separated for `INSERT`.
pub fn join_tuple(columns: &[Vec<u8>], format: InsertFormat) -> (joined: Vec<u8>)
    ensures
        joined@ == spec_join_tuple(columns.deep_view(), format),
{
    match format {
        InsertFormat::Copy => {
            let mut joined = join_bytes(columns, TAB);
            joined.push(LF);
            joined
        },
        InsertFormat::Values => join_bytes(columns, COMMA),
    }
}

fn join_bytes(columns: &[Vec<u8>], sep: u8) -> (joined: Vec<u8>)
    ensures
        joined@ == join_with(columns.deep_view(), sep),
{
    let ghost cols = columns.deep_view();
    let mut joined: Vec<u8> = Vec::new();
    let mut i: usize = 0;
    while i < columns.len()
        invariant
            cols == columns.deep_view(),
            cols.len() == columns@.len(),
            i <= columns@.len(),
            joined@ == join_with(cols.subrange(0, i as int), sep),
        decreases columns@.len() - i,
    {
        let ghost before = joined@;
        if i > 0 {
            joined.push(sep);
        }
        let col = &columns[i];
        let mut j: usize = 0;
        let ghost base = joined@;
        while j < col.len()
            invariant
                j <= col@.len(),
                joined@ == base + col@.subrange(0, j as int),
            decreases col@.len() - j,
        {
            joined.push(col[j]);
            j += 1;
            assert(base + col@.subrange(0, j as int) =~= (base + col@.subrange(0, j - 1)).push(
                col@[j - 1],
            ));
        }
        assert(col@.subrange(0, col@.len() as int) =~= col@);
        assert(cols[i as int] == col@);
        let ghost next = cols.subrange(0, i + 1);
        assert(next.drop_last() =~= cols.subrange(0, i as int));
        assert(next.last() == col@);
        if i == 0 {
            assert(next.len() == 1);
            assert(joined@ =~= col@);
        } else {
            assert(joined@ =~= before.push(sep) + col@);
        }
        i += 1;
    }
    assert(cols.subrange(0, columns@.len() as int) =~= cols);
    joined
}

} // verus!
