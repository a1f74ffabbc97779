use vstd::prelude::*;

verus! {

pub const TAB: u8 = 9;
pub const LF: u8 = 10;
pub const CR: u8 = 13;
pub const SPACE: u8 = 32;
pub const QUOTE: u8 = 39;
pub const LPAREN: u8 = 40;
pub const RPAREN: u8 = 41;
pub const COMMA: u8 = 44;
pub const STAR: u8 = 42;
pub const DASH: u8 = 45;
pub const DOT: u8 = 46;
pub const SLASH: u8 = 47;
pub const DIGIT_ZERO: u8 = 48;
pub const SEMICOLON: u8 = 59;
pub const UPPER_A: u8 = 65;
pub const UPPER_Z: u8 = 90;
pub const BACKSLASH: u8 = 92;
pub const DOUBLE_QUOTE: u8 = 34;
pub const BACKTICK: u8 = 96;

/// The deep view of a byte vector is its view.
pub broadcast proof fn lemma_bytes_deep_view(v: Vec<u8>)
    ensures
        #[trigger] v.deep_view() == v@,
{
    assert(v.deep_view() =~= v@);
}

/// ASCII lower-casing of one byte; every other byte is left as it is.
pub open spec fn ascii_lower(b: u8) -> u8 {
    if UPPER_A <= b && b <= UPPER_Z {
        (b + 32) as u8
    } else {
        b
    }
}

/// `s` ends with `kw`, comparing bytes without regard to ASCII case.
pub open spec fn ends_with_ci(s: Seq<u8>, kw: Seq<u8>) -> bool {
    &&& kw.len() <= s.len()
    &&& forall|i: int|
        0 <= i < kw.len() ==> #[trigger] ascii_lower(s[s.len() - kw.len() + i]) == ascii_lower(
            kw[i],
        )
}

/// `s` ends with `suffix`, byte for byte.
pub open spec fn ends_with(s: Seq<u8>, suffix: Seq<u8>) -> bool {
    suffix.len() <= s.len() && s.subrange(s.len() - suffix.len(), s.len() as int) == suffix
}

pub fn ascii_lower_byte(b: u8) -> (r: u8)
    ensures
        r == ascii_lower(b),
{
    if UPPER_A <= b && b <= UPPER_Z {
        b + 32
    } else {
        b
    }
}

/// Case-insensitive (ASCII) test that `s` ends with `kw`.
pub fn tail_matches_ci(s: &[u8], kw: &[u8]) -> (r: bool)
    ensures
        r == ends_with_ci(s@, kw@),
{
    let n = s.len();
    let k = kw.len();
    if k > n {
        return false;
    }
    let start = n - k;
    let mut i: usize = 0;
    while i < k
        invariant
            n == s@.len(),
            k == kw@.len(),
            k <= n,
            start == n - k,
            i <= k,
            forall|j: int| 0 <= j < i ==> #[trigger] ascii_lower(s@[start + j]) == ascii_lower(kw@[j]),
        decreases k - i,
    {
        if ascii_lower_byte(s[start + i]) != ascii_lower_byte(kw[i]) {
            assert(!(ascii_lower(s@[s@.len() - kw@.len() + i as int]) == ascii_lower(kw@[i as int])));
            return false;
        }
        i += 1;
    }
    true
}

/// Exact test that `s` ends with `suffix`.
pub fn tail_matches(s: &[u8], suffix: &[u8]) -> (r: bool)
    ensures
        r == ends_with(s@, suffix@),
{
    let n = s.len();
    let k = suffix.len();
    if k > n {
        return false;
    }
    let start = n - k;
    let mut i: usize = 0;
    while i < k
        invariant
            n == s@.len(),
            k == suffix@.len(),
            k <= n,
            start == n - k,
            i <= k,
            forall|j: int| 0 <= j < i ==> s@[start + j] == suffix@[j],
        decreases k - i,
    {
        if s[start + i] != suffix[i] {
            assert(s@.subrange(start as int, n as int)[i as int] != suffix@[i as int]);
            return false;
        }
        i += 1;
    }
    assert(s@.subrange(start as int, n as int) =~= suffix@);
    true
}

/// Exact equality of two byte slices.
pub fn bytes_eq(a: &[u8], b: &[u8]) -> (r: bool)
    ensures
        r == (a@ == b@),
{
    if a.len() != b.len() {
        return false;
    }
    let mut i: usize = 0;
    while i < a.len()
        invariant
            a@.len() == b@.len(),
            i <= a@.len(),
            forall|j: int| 0 <= j < i ==> a@[j] == b@[j],
        decreases a@.len() - i,
    {
        if a[i] != b[i] {
            return false;
        }
        i += 1;
    }
    assert(a@ =~= b@);
    true
}

// ---------------------------------------------------------------------------
// Classes of bytes, spans and trimming
// ---------------------------------------------------------------------------

/// Classes of bytes that the scanners skip over or stop at.
#[derive(Debug, Clone, Copy, PartialEq, Eq, Structural)]
pub enum ByteClass {
    /// ASCII white space: space, tab, newline, vertical tab, form feed, carriage return.
    Space,
    /// The bytes that wrap a value in a tuple: `'`, `(` and `)`.
    Wrapper,
    /// The bytes that quote an identifier: `"` and `` ` ``.
    IdentQuote,
    /// A byte of a (possibly qualified) table name: neither white space nor `(`.
    NameChar,
    /// Any byte but `)`.
    NotRParen,
    /// Any byte but `.`.
    NotDot,
}

pub open spec fn is_space(b: u8) -> bool {
    b == SPACE || (TAB <= b && b <= CR)
}

pub open spec fn in_class(b: u8, c: ByteClass) -> bool {
    match c {
        ByteClass::Space => is_space(b),
        ByteClass::Wrapper => b == QUOTE || b == LPAREN || b == RPAREN,
        ByteClass::IdentQuote => b == DOUBLE_QUOTE || b == BACKTICK,
        ByteClass::NameChar => !is_space(b) && b != LPAREN,
        ByteClass::NotRParen => b != RPAREN,
        ByteClass::NotDot => b != DOT,
    }
}

/// Length of the longest prefix of `s` made of bytes of class `c`.
pub open spec fn span_front(s: Seq<u8>, c: ByteClass) -> nat
    decreases s.len(),
{
    if s.len() > 0 && in_class(s[0], c) {
        1 + span_front(s.drop_first(), c)
    } else {
        0
    }
}

/// Length of the longest suffix of `s` made of bytes of class `c`.
pub open spec fn span_back(s: Seq<u8>, c: ByteClass) -> nat
    decreases s.len(),
{
    if s.len() > 0 && in_class(s.last(), c) {
        1 + span_back(s.drop_last(), c)
    } else {
        0
    }
}

/// `s` without its leading and trailing bytes of class `c`.
pub open spec fn trim_class(s: Seq<u8>, c: ByteClass) -> Seq<u8> {
    let t = s.skip(span_front(s, c) as int);
    t.take(t.len() - span_back(t, c))
}

pub fn in_class_exec(b: u8, c: ByteClass) -> (r: bool)
    ensures
        r == in_class(b, c),
{
    let space = b == SPACE || (TAB <= b && b <= CR);
    match c {
        ByteClass::Space => space,
        ByteClass::Wrapper => b == QUOTE || b == LPAREN || b == RPAREN,
        ByteClass::IdentQuote => b == DOUBLE_QUOTE || b == BACKTICK,
        ByteClass::NameChar => !space && b != LPAREN,
        ByteClass::NotRParen => b != RPAREN,
        ByteClass::NotDot => b != DOT,
    }
}

/// The end of the run of class-`c` bytes that starts at `lo` in `s[lo..hi]`.
pub fn span_front_exec(s: &[u8], lo: usize, hi: usize, c: ByteClass) -> (r: usize)
    requires
        lo <= hi <= s@.len(),
    ensures
        lo <= r <= hi,
        r - lo == span_front(s@.subrange(lo as int, hi as int), c),
{
    let mut i = lo;
    while i < hi && in_class_exec(s[i], c)
        invariant
            lo <= i <= hi <= s@.len(),
            span_front(s@.subrange(lo as int, hi as int), c) == (i - lo) + span_front(
                s@.subrange(i as int, hi as int),
                c,
            ),
        decreases hi - i,
    {
        assert(s@.subrange(i as int, hi as int).drop_first() =~= s@.subrange(i + 1, hi as int));
        i += 1;
    }
    i
}

/// The start of the run of class-`c` bytes that ends at `hi` in `s[lo..hi]`.
pub fn span_back_exec(s: &[u8], lo: usize, hi: usize, c: ByteClass) -> (r: usize)
    requires
        lo <= hi <= s@.len(),
    ensures
        lo <= r <= hi,
        hi - r == span_back(s@.subrange(lo as int, hi as int), c),
{
    let mut j = hi;
    while j > lo && in_class_exec(s[j - 1], c)
        invariant
            lo <= j <= hi <= s@.len(),
            span_back(s@.subrange(lo as int, hi as int), c) == (hi - j) + span_back(
                s@.subrange(lo as int, j as int),
                c,
            ),
        decreases j - lo,
    {
        assert(s@.subrange(lo as int, j as int).drop_last() =~= s@.subrange(lo as int, j - 1));
        j -= 1;
    }
    j
}

/// The bounds of `trim_class(s[lo..hi], c)` within `s`.
pub fn trim_range(s: &[u8], lo: usize, hi: usize, c: ByteClass) -> (r: (usize, usize))
    requires
        lo <= hi <= s@.len(),
    ensures
        lo <= r.0 <= r.1 <= hi,
        s@.subrange(r.0 as int, r.1 as int) == trim_class(s@.subrange(lo as int, hi as int), c),
{
    let a = span_front_exec(s, lo, hi, c);
    let b = span_back_exec(s, a, hi, c);
    let ghost whole = s@.subrange(lo as int, hi as int);
    assert(whole.skip(a - lo) =~= s@.subrange(a as int, hi as int));
    assert(s@.subrange(a as int, hi as int).take(b - a) =~= s@.subrange(a as int, b as int));
    (a, b)
}

/// A copy of `s[lo..hi]`.
pub fn copy_range(s: &[u8], lo: usize, hi: usize) -> (r: Vec<u8>)
    requires
        lo <= hi <= s@.len(),
    ensures
        r@ == s@.subrange(lo as int, hi as int),
{
    let mut r: Vec<u8> = Vec::with_capacity(hi - lo);
    let mut i = lo;
    while i < hi
        invariant
            lo <= i <= hi <= s@.len(),
            r@ == s@.subrange(lo as int, i as int),
        decreases hi - i,
    {
        r.push(s[i]);
        i += 1;
        assert(r@ =~= s@.subrange(lo as int, i as int));
    }
    r
}

// ---------------------------------------------------------------------------
// Unicode white space in UTF-8 text
// ---------------------------------------------------------------------------

/// The three-byte UTF-8 encodings of white space: U+1680, U+2000 to
/// U+200A, U+2028, U+2029, U+202F, U+205F and U+3000.
pub open spec fn is_space3(a: u8, b: u8, c: u8) -> bool {
    ||| (a == 0xE1 && b == 0x9A && c == 0x80)
    ||| (a == 0xE2 && b == 0x80 && ((0x80 <= c && c <= 0x8A) || c == 0xA8 || c == 0xA9 || c == 0xAF))
    ||| (a == 0xE2 && b == 0x81 && c == 0x9F)
    ||| (a == 0xE3 && b == 0x80 && c == 0x80)
}

/// The length of the white-space character (by `char::is_whitespace`)
/// that UTF-8 text `s` starts with, or 0.  The two-byte ones are U+0085
/// and U+00A0.
pub open spec fn space_lead(s: Seq<u8>) -> nat {
    if s.len() >= 1 && is_space(s[0]) {
        1
    } else if s.len() >= 2 && s[0] == 0xC2 && (s[1] == 0x85 || s[1] == 0xA0) {
        2
    } else if s.len() >= 3 && is_space3(s[0], s[1], s[2]) {
        3
    } else {
        0
    }
}

/// The length of the white-space character that UTF-8 text `s` ends with, or 0.
pub open spec fn space_trail(s: Seq<u8>) -> nat {
    let n = s.len() as int;
    if n >= 1 && is_space(s[n - 1]) {
        1
    } else if n >= 2 && s[n - 2] == 0xC2 && (s[n - 1] == 0x85 || s[n - 1] == 0xA0) {
        2
    } else if n >= 3 && is_space3(s[n - 3], s[n - 2], s[n - 1]) {
        3
    } else {
        0
    }
}

/// UTF-8 text without its leading white space.
pub open spec fn trim_space_start(s: Seq<u8>) -> Seq<u8>
    decreases s.len(),
{
    if space_lead(s) > 0 {
        trim_space_start(s.skip(space_lead(s) as int))
    } else {
        s
    }
}

/// UTF-8 text without its trailing white space.
pub open spec fn trim_space_end(s: Seq<u8>) -> Seq<u8>
    decreases s.len(),
{
    if space_trail(s) > 0 {
        trim_space_end(s.take(s.len() - space_trail(s)))
    } else {
        s
    }
}

/// UTF-8 text without surrounding white space, as `str::trim` has it.
pub open spec fn trim_space(s: Seq<u8>) -> Seq<u8> {
    trim_space_end(trim_space_start(s))
}

fn space_lead_at(s: &[u8], a: usize, hi: usize) -> (k: usize)
    requires
        a <= hi <= s@.len(),
    ensures
        k == space_lead(s@.subrange(a as int, hi as int)),
{
    let n = hi - a;
    if n >= 1 && in_class_exec(s[a], ByteClass::Space) {
        1
    } else if n >= 2 && s[a] == 0xC2 && (s[a + 1] == 0x85 || s[a + 1] == 0xA0) {
        2
    } else if n >= 3 && space3_exec(s[a], s[a + 1], s[a + 2]) {
        3
    } else {
        0
    }
}

fn space_trail_at(s: &[u8], lo: usize, b: usize) -> (k: usize)
    requires
        lo <= b <= s@.len(),
    ensures
        k == space_trail(s@.subrange(lo as int, b as int)),
{
    let n = b - lo;
    if n >= 1 && in_class_exec(s[b - 1], ByteClass::Space) {
        1
    } else if n >= 2 && s[b - 2] == 0xC2 && (s[b - 1] == 0x85 || s[b - 1] == 0xA0) {
        2
    } else if n >= 3 && space3_exec(s[b - 3], s[b - 2], s[b - 1]) {
        3
    } else {
        0
    }
}

fn space3_exec(a: u8, b: u8, c: u8) -> (r: bool)
    ensures
        r == is_space3(a, b, c),
{
    (a == 0xE1 && b == 0x9A && c == 0x80) || (a == 0xE2 && b == 0x80 && ((0x80 <= c && c <= 0x8A)
        || c == 0xA8 || c == 0xA9 || c == 0xAF)) || (a == 0xE2 && b == 0x81 && c == 0x9F) || (a
        == 0xE3 && b == 0x80 && c == 0x80)
}

/// The bounds of `trim_space(s[lo..hi])` within `s`.
pub fn trim_space_range(s: &[u8], lo: usize, hi: usize) -> (r: (usize, usize))
    requires
        lo <= hi <= s@.len(),
    ensures
        lo <= r.0 <= r.1 <= hi,
        s@.subrange(r.0 as int, r.1 as int) == trim_space(s@.subrange(lo as int, hi as int)),
{
    let mut a = lo;
    loop
        invariant
            lo <= a <= hi <= s@.len(),
            trim_space_start(s@.subrange(lo as int, hi as int)) == trim_space_start(
                s@.subrange(a as int, hi as int),
            ),
        ensures
            lo <= a <= hi,
            trim_space_start(s@.subrange(lo as int, hi as int)) == s@.subrange(a as int, hi as int),
        decreases hi - a,
    {
        let k = space_lead_at(s, a, hi);
        if k == 0 {
            break;
        }
        assert(s@.subrange(a as int, hi as int).skip(k as int) =~= s@.subrange(a + k, hi as int));
        a = a + k;
    }
    let mut b = hi;
    loop
        invariant
            a <= b <= hi <= s@.len(),
            trim_space_end(s@.subrange(a as int, hi as int)) == trim_space_end(
                s@.subrange(a as int, b as int),
            ),
        ensures
            a <= b <= hi,
            trim_space_end(s@.subrange(a as int, hi as int)) == s@.subrange(a as int, b as int),
        decreases b - a,
    {
        let k = space_trail_at(s, a, b);
        if k == 0 {
            break;
        }
        assert(s@.subrange(a as int, b as int).take((b - a) - k) =~= s@.subrange(
            a as int,
            b - k,
        ));
        b = b - k;
    }
    (a, b)
}

// ---------------------------------------------------------------------------
// Facts about spans and trimming
// ---------------------------------------------------------------------------

/// Every byte of `w` is of class `c`.
pub open spec fn all_in_class(w: Seq<u8>, c: ByteClass) -> bool {
    forall|i: int| 0 <= i < w.len() ==> in_class(#[trigger] w[i], c)
}

/// A leading run of class bytes adds its length to the span.
pub proof fn lemma_span_front_prefix(w: Seq<u8>, y: Seq<u8>, c: ByteClass)
    requires
        all_in_class(w, c),
    ensures
        span_front(w + y, c) == w.len() + span_front(y, c),
    decreases w.len(),
{
    if w.len() == 0 {
        assert(w + y =~= y);
    } else {
        assert((w + y)[0] == w[0]);
        assert((w + y).drop_first() =~= w.drop_first() + y);
        assert(all_in_class(w.drop_first(), c)) by {
            assert forall|i: int| 0 <= i < w.drop_first().len() implies in_class(
                #[trigger] w.drop_first()[i],
                c,
            ) by {
                assert(w.drop_first()[i] == w[i + 1]);
            }
        }
        lemma_span_front_prefix(w.drop_first(), y, c);
    }
}

/// A trailing run of class bytes adds its length to the span from the back.
pub proof fn lemma_span_back_suffix(y: Seq<u8>, w: Seq<u8>, c: ByteClass)
    requires
        all_in_class(w, c),
    ensures
        span_back(y + w, c) == span_back(y, c) + w.len(),
    decreases w.len(),
{
    if w.len() == 0 {
        assert(y + w =~= y);
    } else {
        assert((y + w).last() == w.last());
        assert(w[w.len() - 1] == w.last());
        assert((y + w).drop_last() =~= y + w.drop_last());
        assert(all_in_class(w.drop_last(), c)) by {
            assert forall|i: int| 0 <= i < w.drop_last().len() implies in_class(
                #[trigger] w.drop_last()[i],
                c,
            ) by {
                assert(w.drop_last()[i] == w[i]);
            }
        }
        lemma_span_back_suffix(y, w.drop_last(), c);
    }
}

/// The bytes within the span are all of its class.
pub proof fn lemma_span_front_in_class(s: Seq<u8>, c: ByteClass)
    ensures
        span_front(s, c) <= s.len(),
        all_in_class(s.take(span_front(s, c) as int), c),
    decreases s.len(),
{
    if s.len() > 0 && in_class(s[0], c) {
        lemma_span_front_in_class(s.drop_first(), c);
        let k = span_front(s, c) as int;
        assert forall|i: int| 0 <= i < k implies in_class(#[trigger] s.take(k)[i], c) by {
            if i > 0 {
                assert(s.take(k)[i] == s.drop_first().take(k - 1)[i - 1]);
            }
        }
    }
}

/// The span from the back is no longer than the sequence.
pub proof fn lemma_span_back_le(s: Seq<u8>, c: ByteClass)
    ensures
        span_back(s, c) <= s.len(),
    decreases s.len(),
{
    if s.len() > 0 {
        lemma_span_back_le(s.drop_last(), c);
    }
}

/// Trimming class-`c` bytes off `w1 + v + w2`, where `w1` and `w2` are made
/// of them and `v` neither starts nor ends with one, leaves `v`.
pub proof fn lemma_trim_class_exact(w1: Seq<u8>, v: Seq<u8>, w2: Seq<u8>, c: ByteClass)
    requires
        all_in_class(w1, c),
        all_in_class(w2, c),
        v.len() > 0,
        !in_class(v[0], c),
        !in_class(v.last(), c),
    ensures
        trim_class(w1 + v + w2, c) == v,
{
    let s = w1 + v + w2;
    assert(s =~= w1 + (v + w2));
    lemma_span_front_prefix(w1, v + w2, c);
    assert((v + w2)[0] == v[0]);
    assert(span_front(v + w2, c) == 0);
    let t = s.skip(w1.len() as int);
    assert(t =~= v + w2);
    lemma_span_back_suffix(v, w2, c);
    assert(v[v.len() - 1] == v.last());
    assert(span_back(v, c) == 0);
    assert(t.take(t.len() - w2.len()) =~= v);
}

/// Every byte of `s` is ASCII white space.
pub open spec fn all_ascii_space(s: Seq<u8>) -> bool {
    forall|i: int| 0 <= i < s.len() ==> is_space(#[trigger] s[i])
}

/// An ASCII byte that is not white space: it neither is nor starts nor
/// ends any white-space character.
pub open spec fn ascii_non_space(b: u8) -> bool {
    b < 128 && !is_space(b)
}

/// Trimming white space off `s1 + x + s2`, where `s1` and `s2` are ASCII
/// white space and `x` starts and ends with an ASCII non-space byte,
/// leaves `x`.
pub proof fn lemma_trim_space_exact(s1: Seq<u8>, x: Seq<u8>, s2: Seq<u8>)
    requires
        all_ascii_space(s1),
        all_ascii_space(s2),
        x.len() > 0,
        ascii_non_space(x[0]),
        ascii_non_space(x.last()),
    ensures
        trim_space(s1 + x + s2) == x,
{
    lemma_trim_space_start_exact(s1, x + s2);
    assert(s1 + x + s2 =~= s1 + (x + s2));
    lemma_trim_space_end_exact(x, s2);
}

proof fn lemma_trim_space_start_exact(s1: Seq<u8>, y: Seq<u8>)
    requires
        all_ascii_space(s1),
        y.len() > 0,
        ascii_non_space(y[0]),
    ensures
        trim_space_start(s1 + y) == y,
    decreases s1.len(),
{
    if s1.len() == 0 {
        assert(s1 + y =~= y);
        assert(space_lead(y) == 0);
    } else {
        assert((s1 + y)[0] == s1[0]);
        assert(is_space(s1[0]));
        assert((s1 + y).skip(1) =~= s1.drop_first() + y);
        assert(all_ascii_space(s1.drop_first())) by {
            assert forall|i: int| 0 <= i < s1.drop_first().len() implies is_space(
                #[trigger] s1.drop_first()[i],
            ) by {
                assert(s1.drop_first()[i] == s1[i + 1]);
            }
        }
        lemma_trim_space_start_exact(s1.drop_first(), y);
    }
}

proof fn lemma_trim_space_end_exact(x: Seq<u8>, s2: Seq<u8>)
    requires
        all_ascii_space(s2),
        x.len() > 0,
        ascii_non_space(x.last()),
    ensures
        trim_space_end(x + s2) == x,
    decreases s2.len(),
{
    if s2.len() == 0 {
        assert(x + s2 =~= x);
        let n = x.len() as int;
        assert(x[n - 1] == x.last());
        assert(space_trail(x) == 0);
    } else {
        let n = (x + s2).len() as int;
        assert((x + s2)[n - 1] == s2.last());
        assert(s2[s2.len() - 1] == s2.last());
        assert((x + s2).take(n - 1) =~= x + s2.drop_last());
        assert(all_ascii_space(s2.drop_last())) by {
            assert forall|i: int| 0 <= i < s2.drop_last().len() implies is_space(
                #[trigger] s2.drop_last()[i],
            ) by {
                assert(s2.drop_last()[i] == s2[i]);
            }
        }
        lemma_trim_space_end_exact(x, s2.drop_last());
    }
}

} // verus!
