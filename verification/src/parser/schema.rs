use vstd::prelude::*;

use crate::parser::state::{kw_copy, kw_insert};
use crate::parser::tokenizer::{split_on, split_on_byte};
use crate::text::{
    ascii_lower, ascii_lower_byte, copy_range, in_class, in_class_exec, span_back, span_back_exec, span_front, span_front_exec, trim_class,
    trim_range, ByteClass, COMMA, LPAREN,
};

verus! {

/// `INTO`
pub open spec fn kw_into() -> Seq<u8> {
    seq![73u8, 78, 84, 79]
}

/// `s` starts with `kw`, comparing bytes without regard to ASCII case.
pub open spec fn starts_with_ci(s: Seq<u8>, kw: Seq<u8>) -> bool {
    &&& kw.len() <= s.len()
    &&& forall|i: int| 0 <= i < kw.len() ==> #[trigger] ascii_lower(s[i]) == ascii_lower(kw[i])
}

/// `s` without its leading white space.
pub open spec fn skip_space(s: Seq<u8>) -> Seq<u8> {
    s.skip(span_front(s, ByteClass::Space) as int)
}

/// The text of a header from its table name on: after `INSERT` and
/// white space, `INTO` and white space; or after `COPY` and white space.
pub open spec fn table_clause(h: Seq<u8>) -> Option<Seq<u8>> {
    if starts_with_ci(h, kw_insert()) {
        let r = skip_space(h.skip(6));
        if starts_with_ci(r, kw_into()) && r.len() > 4 && in_class(r[4], ByteClass::Space) {
            Some(skip_space(r.skip(4)))
        } else {
            None
        }
    } else if starts_with_ci(h, kw_copy()) {
        Some(skip_space(h.skip(4)))
    } else {
        None
    }
}

/// An identifier without surrounding white space and `"`/`` ` `` quotes.
pub open spec fn clean_ident(c: Seq<u8>) -> Seq<u8> {
    trim_class(trim_class(c, ByteClass::Space), ByteClass::IdentQuote)
}

/// The column list that opens `a`: the names between `(` and the first
/// `)`, separated by commas; `None` when `a` does not open with `(` or the
/// list is not closed.
pub open spec fn column_list(a: Seq<u8>) -> Option<Seq<Seq<u8>>> {
    if a.len() > 0 && a[0] == LPAREN {
        let inner = a.skip(1);
        let k = span_front(inner, ByteClass::NotRParen);
        if k < inner.len() {
            Some(split_on(inner.take(k as int), COMMA).map_values(|c: Seq<u8>| clean_ident(c)))
        } else {
            None
        }
    } else {
        None
    }
}

/// Table name and column list of an `INSERT INTO t (a, b) VALUES` or
/// `COPY t (a, b) FROM stdin;` header.  A schema qualifier (`public.`) and
/// identifier quotes are dropped from the table name.  `None` when the
/// header names no table.
pub open spec fn spec_extract_metadata(h: Seq<u8>) -> Option<(Seq<u8>, Option<Seq<Seq<u8>>>)> {
    match table_clause(h) {
        None => None,
        Some(r) => {
            let n = span_front(r, ByteClass::NameChar);
            let qualified = r.take(n as int);
            let last = qualified.skip(qualified.len() - span_back(qualified, ByteClass::NotDot));
            let table = trim_class(last, ByteClass::IdentQuote);
            if table.len() == 0 {
                None
            } else {
                Some((table, column_list(skip_space(r.skip(n as int)))))
            }
        },
    }
}

fn starts_with_ci_at(s: &[u8], at: usize, kw: &[u8]) -> (r: bool)
    requires
        at <= s@.len(),
    ensures
        r == starts_with_ci(s@.skip(at as int), kw@),
{
    let n = s.len();
    if kw.len() > n - at {
        return false;
    }
    let mut i: usize = 0;
    while i < kw.len()
        invariant
            n == s@.len(),
            at <= s@.len(),
            kw@.len() <= s@.len() - at,
            i <= kw@.len(),
            forall|j: int| 0 <= j < i ==> #[trigger] ascii_lower(s@.skip(at as int)[j]) == ascii_lower(kw@[j]),
        decreases kw@.len() - i,
    {
        if ascii_lower_byte(s[at + i]) != ascii_lower_byte(kw[i]) {
            assert(!(ascii_lower(s@.skip(at as int)[i as int]) == ascii_lower(kw@[i as int])));
            return false;
        }
        i += 1;
    }
    true
}

/// Where the table clause of `h` starts, if it has one.
fn table_clause_start(h: &[u8]) -> (r: Option<usize>)
    ensures
        match r {
            Some(i) => i <= h@.len() && table_clause(h@) == Some(h@.skip(i as int)),
            None => table_clause(h@) is None,
        },
{
    let n = h.len();
    let insert: [u8; 6] = [73, 78, 83, 69, 82, 84];
    let copy: [u8; 4] = [67, 79, 80, 89];
    let into: [u8; 4] = [73, 78, 84, 79];
    assert(insert@ =~= kw_insert());
    assert(copy@ =~= kw_copy());
    assert(into@ =~= kw_into());
    assert(h@.skip(0) =~= h@);
    if starts_with_ci_at(h, 0, insert.as_slice()) {
        let a = span_front_exec(h, 6, n, ByteClass::Space);
        assert(h@.skip(6) =~= h@.subrange(6, n as int));
        assert(skip_space(h@.skip(6)) =~= h@.skip(a as int));
        if starts_with_ci_at(h, a, into.as_slice()) && n - a > 4 && in_class_exec(
            h[a + 4],
            ByteClass::Space,
        ) {
            let b = span_front_exec(h, a + 4, n, ByteClass::Space);
            assert(h@.skip(a as int).skip(4) =~= h@.subrange(a + 4, n as int));
            assert(skip_space(h@.skip(a as int).skip(4)) =~= h@.skip(b as int));
            Some(b)
        } else {
            None
        }
    } else if starts_with_ci_at(h, 0, copy.as_slice()) {
        let a = span_front_exec(h, 4, n, ByteClass::Space);
        assert(h@.skip(4) =~= h@.subrange(4, n as int));
        assert(skip_space(h@.skip(4)) =~= h@.skip(a as int));
        Some(a)
    } else {
        None
    }
}

fn clean_ident_exec(s: &[u8], lo: usize, hi: usize) -> (r: Vec<u8>)
    requires
        lo <= hi <= s@.len(),
    ensures
        r@ == clean_ident(s@.subrange(lo as int, hi as int)),
{
    let (a, b) = trim_range(s, lo, hi, ByteClass::Space);
    let (c, d) = trim_range(s, a, b, ByteClass::IdentQuote);
    copy_range(s, c, d)
}

/// The column list that opens `h[at..]`.
fn column_list_exec(h: &[u8], at: usize) -> (r: Option<Vec<Vec<u8>>>)
    requires
        at <= h@.len(),
    ensures
        r.deep_view() == column_list(h@.skip(at as int)),
{
    let n = h.len();
    let ghost a = h@.skip(at as int);
    if at < n && h[at] == LPAREN {
        let close = span_front_exec(h, at + 1, n, ByteClass::NotRParen);
        assert(a.skip(1) =~= h@.subrange(at + 1, n as int));
        if close < n {
            let pieces = split_on_byte(h, at + 1, close, COMMA);
            assert(a.skip(1).take(close - (at + 1)) =~= h@.subrange(at + 1, close as int));
            let ghost raw = split_on(h@.subrange(at + 1, close as int), COMMA);
            let mut names: Vec<Vec<u8>> = Vec::new();
            let mut i: usize = 0;
            while i < pieces.len()
                invariant
                    pieces.deep_view() == raw,
                    i <= pieces@.len(),
                    names.deep_view() =~= raw.subrange(0, i as int).map_values(
                        |c: Seq<u8>| clean_ident(c),
                    ),
                decreases pieces@.len() - i,
            {
                let piece = &pieces[i];
                let name = clean_ident_exec(piece.as_slice(), 0, piece.len());
                assert(piece@.subrange(0, piece@.len() as int) =~= piece@);
                assert(raw[i as int] == piece@);
                let ghost before = names.deep_view();
                assert(name.deep_view() =~= name@);
                names.push(name);
                assert(names.deep_view() =~= before.push(clean_ident(raw[i as int])));
                i += 1;
                assert(raw.subrange(0, i as int).map_values(|c: Seq<u8>| clean_ident(c))
                    =~= raw.subrange(0, i - 1).map_values(|c: Seq<u8>| clean_ident(c)).push(
                    clean_ident(raw[i - 1]),
                ));
            }
            assert(raw.subrange(0, raw.len() as int) =~= raw);
            Some(names)
        } else {
            None
        }
    } else {
        None
    }
}

/// Finds the table name and the column list of a data block's header.
pub fn extract_metadata(header: &[u8]) -> (r: Option<(Vec<u8>, Option<Vec<Vec<u8>>>)>)
    ensures
        r.deep_view() == spec_extract_metadata(header@),
{
    let n = header.len();
    let start = match table_clause_start(header) {
        Some(i) => i,
        None => {
            return None;
        },
    };
    let ghost r = header@.skip(start as int);
    let name_end = span_front_exec(header, start, n, ByteClass::NameChar);
    assert(r =~= header@.subrange(start as int, n as int));
    let ghost qualified = r.take(name_end - start);
    assert(qualified =~= header@.subrange(start as int, name_end as int));
    let dot = span_back_exec(header, start, name_end, ByteClass::NotDot);
    let ghost last = qualified.skip(qualified.len() - span_back(qualified, ByteClass::NotDot));
    assert(last =~= header@.subrange(dot as int, name_end as int));
    let (t0, t1) = trim_range(header, dot, name_end, ByteClass::IdentQuote);
    if t0 == t1 {
        return None;
    }
    let table = copy_range(header, t0, t1);
    let after = span_front_exec(header, name_end, n, ByteClass::Space);
    assert(r.skip(name_end - start) =~= header@.subrange(name_end as int, n as int));
    assert(skip_space(r.skip(name_end - start)) =~= header@.skip(after as int));
    let columns = column_list_exec(header, after);
    proof {
        assert(table.deep_view() =~= table@);
    }
    Some((table, columns))
}

} // verus!
