//! Small string-building helpers shared by the formatters.

use vstd::prelude::*;
use vstd::string::*;

verus! {

/// The ASCII digit for `d` (0-9).
pub open spec fn digit_char(d: nat) -> char {
    (48 + d) as char
}

/// The decimal rendering of `n`, without sign or padding.
pub open spec fn decimal(n: nat) -> Seq<char>
    decreases n,
{
    if n < 10 {
        seq![digit_char(n)]
    } else {
        decimal(n / 10).push(digit_char(n % 10))
    }
}

/// `n` zeros.
pub open spec fn zeros(n: nat) -> Seq<char> {
    Seq::new(n, |i: int| '0')
}

/// The decimal rendering of `n` left-padded with zeros to `width` chars.
pub open spec fn zero_padded(n: nat, width: nat) -> Seq<char> {
    let d = decimal(n);
    if d.len() >= width {
        d
    } else {
        zeros((width - d.len()) as nat) + d
    }
}

/// `String::push`: appends one char.
#[verifier::external_body]
pub(crate) fn push_char(s: &mut String, c: char)
    ensures
        final(s)@ == old(s)@.push(c),
{
    s.push(c);
}

/// Appends the decimal rendering of `n` to `s`.
pub fn push_decimal(s: &mut String, n: u64)
    ensures
        final(s)@ == old(s)@ + decimal(n as nat),
    decreases n,
{
    if n >= 10 {
        push_decimal(s, n / 10);
    }
    let d = (n % 10) as u8;
    push_char(s, (48u8 + d) as char);
    proof {
        assert(((48u8 + d) as char) == digit_char((n % 10) as nat));
        if n >= 10 {
            assert(decimal(n as nat) == decimal((n / 10) as nat).push(digit_char((n % 10) as nat)));
        }
    }
    assert(s@ =~= old(s)@ + decimal(n as nat));
}

proof fn lemma_decimal_len(n: nat)
    ensures
        decimal(n).len() >= 1,
        n < 10 <==> decimal(n).len() == 1,
        n >= 1 ==> decimal(n).len() <= n,
    decreases n,
{
    if n >= 10 {
        lemma_decimal_len(n / 10);
    }
}

/// Appends `n` left-padded with zeros to `width` chars.
pub fn push_padded(s: &mut String, n: u64, width: u64)
    ensures
        final(s)@ == old(s)@ + zero_padded(n as nat, width as nat),
{
    let mut digits: u64 = 1;
    let mut m = n;
    proof {
        lemma_decimal_len(n as nat);
    }
    while m >= 10
        invariant
            1 <= digits,
            decimal(n as nat).len() == digits + decimal(m as nat).len() - 1,
            decimal(n as nat).len() <= (if n == 0 { 1 } else { n as int }),
        decreases m,
    {
        proof {
            lemma_decimal_len(m as nat);
            lemma_decimal_len((m / 10) as nat);
        }
        m = m / 10;
        digits = digits + 1;
    }
    proof {
        lemma_decimal_len(m as nat);
    }
    assert(decimal(m as nat).len() == 1);
    let mut k: u64 = digits;
    let ghost start = s@;
    while k < width
        invariant
            digits <= k <= if width > digits { width } else { digits },
            s@ == start + zeros((k - digits) as nat),
        decreases width - k,
    {
        push_char(s, '0');
        k = k + 1;
        assert(s@ =~= start + zeros((k - digits) as nat));
    }
    push_decimal(s, n);
    assert(s@ =~= old(s)@ + zero_padded(n as nat, width as nat));
}

} // verus!

verus! {

/// The chars of `s`, in order.
pub fn chars_of(s: &str) -> (v: Vec<char>)
    ensures
        v@ == s@,
{
    let mut v: Vec<char> = Vec::new();
    for c in it: s.chars()
        invariant
            v@ == it.seq().take(it.index() as int),
    {
        v.push(c);
    }
    v
}

} // verus!

verus! {

/// The chars `char::is_whitespace` accepts: those with the Unicode
/// White_Space property.
pub open spec fn is_ws(c: char) -> bool {
    ||| ('\u{9}' <= c && c <= '\u{d}')
    ||| c == ' '
    ||| c == '\u{85}'
    ||| c == '\u{a0}'
    ||| c == '\u{1680}'
    ||| ('\u{2000}' <= c && c <= '\u{200a}')
    ||| c == '\u{2028}'
    ||| c == '\u{2029}'
    ||| c == '\u{202f}'
    ||| c == '\u{205f}'
    ||| c == '\u{3000}'
}

pub fn is_whitespace(c: char) -> (b: bool)
    ensures
        b == is_ws(c),
{
    ('\u{9}' <= c && c <= '\u{d}') || c == ' ' || c == '\u{85}' || c == '\u{a0}' || c
        == '\u{1680}' || ('\u{2000}' <= c && c <= '\u{200a}') || c == '\u{2028}' || c
        == '\u{2029}' || c == '\u{202f}' || c == '\u{205f}' || c == '\u{3000}'
}

/// `s` without leading whitespace.
pub open spec fn trim_start(s: Seq<char>) -> Seq<char>
    decreases s.len(),
{
    if s.len() > 0 && is_ws(s[0]) {
        trim_start(s.drop_first())
    } else {
        s
    }
}

/// `s` without trailing whitespace.
pub open spec fn trim_end(s: Seq<char>) -> Seq<char>
    decreases s.len(),
{
    if s.len() > 0 && is_ws(s.last()) {
        trim_end(s.drop_last())
    } else {
        s
    }
}

/// `s` without leading or trailing whitespace (`str::trim`).
pub open spec fn trim(s: Seq<char>) -> Seq<char> {
    trim_end(trim_start(s))
}

/// Index range `[lo, hi)` of `trim(s.subrange(from, to))` within `s`.
proof fn lemma_trim_start_range(s: Seq<char>, from: int, to: int, lo: int)
    requires
        0 <= from <= lo <= to <= s.len(),
        forall|k: int| from <= k < lo ==> is_ws(s[k]),
        lo == to || !is_ws(s[lo]),
    ensures
        trim_start(s.subrange(from, to)) == s.subrange(lo, to),
    decreases lo - from,
{
    if from < lo {
        assert(s.subrange(from, to).drop_first() =~= s.subrange(from + 1, to));
        lemma_trim_start_range(s, from + 1, to, lo);
    }
}

proof fn lemma_trim_end_range(s: Seq<char>, lo: int, to: int, hi: int)
    requires
        0 <= lo <= hi <= to <= s.len(),
        forall|k: int| hi <= k < to ==> is_ws(s[k]),
        hi == lo || !is_ws(s[hi - 1]),
    ensures
        trim_end(s.subrange(lo, to)) == s.subrange(lo, hi),
    decreases to - hi,
{
    if hi < to {
        assert(s.subrange(lo, to).drop_last() =~= s.subrange(lo, to - 1));
        lemma_trim_end_range(s, lo, to - 1, hi);
    }
}

/// The bounds `(lo, hi)` of the trimmed part of `v[from..to]`.
pub fn trim_bounds(v: &Vec<char>, from: usize, to: usize) -> (r: (usize, usize))
    requires
        from <= to <= v@.len(),
    ensures
        from <= r.0 <= r.1 <= to,
        trim(v@.subrange(from as int, to as int)) == v@.subrange(r.0 as int, r.1 as int),
{
    let mut lo = from;
    while lo < to && is_whitespace(v[lo])
        invariant
            from <= lo <= to <= v@.len(),
            forall|k: int| from <= k < lo ==> is_ws(v@[k]),
        decreases to - lo,
    {
        lo = lo + 1;
    }
    proof {
        lemma_trim_start_range(v@, from as int, to as int, lo as int);
    }
    let mut hi = to;
    while hi > lo && is_whitespace(v[hi - 1])
        invariant
            lo <= hi <= to <= v@.len(),
            forall|k: int| hi <= k < to ==> is_ws(v@[k]),
        decreases hi - lo,
    {
        hi = hi - 1;
    }
    proof {
        lemma_trim_end_range(v@, lo as int, to as int, hi as int);
    }
    (lo, hi)
}

/// A `String` holding exactly `s[from..to]`.
pub fn string_of(v: &Vec<char>, from: usize, to: usize) -> (r: String)
    requires
        from <= to <= v@.len(),
    ensures
        r@ == v@.subrange(from as int, to as int),
{
    let mut r = String::new();
    let mut i = from;
    while i < to
        invariant
            from <= i <= to <= v@.len(),
            r@ == v@.subrange(from as int, i as int),
        decreases to - i,
    {
        push_char(&mut r, v[i]);
        i = i + 1;
        assert(r@ =~= v@.subrange(from as int, i as int));
    }
    r
}

/// Index of the first '\n' in `s`, or `s.len()`.
pub open spec fn first_newline(s: Seq<char>) -> int
    decreases s.len(),
{
    if s.len() == 0 {
        0
    } else if s[0] == '\n' {
        0
    } else {
        1 + first_newline(s.drop_first())
    }
}

/// `s` without one trailing '\r'.
pub open spec fn strip_cr(s: Seq<char>) -> Seq<char> {
    if s.len() > 0 && s.last() == '\r' {
        s.drop_last()
    } else {
        s
    }
}

/// The lines of `s` as `str::lines` yields them: split at '\n' (a '\r'
/// right before it belongs to the line ending), with no empty last line
/// after a final line ending.
pub open spec fn lines_of(s: Seq<char>) -> Seq<Seq<char>>
    decreases s.len(),
{
    if s.len() == 0 {
        seq![]
    } else {
        let i = first_newline(s);
        proof {
            lemma_first_newline_bounds(s);
        }
        if i >= s.len() {
            seq![s]
        } else {
            seq![strip_cr(s.take(i))] + lines_of(s.skip(i + 1))
        }
    }
}

pub proof fn lemma_first_newline_bounds(s: Seq<char>)
    ensures
        0 <= first_newline(s) <= s.len(),
    decreases s.len(),
{
    if s.len() > 0 && s[0] != '\n' {
        lemma_first_newline_bounds(s.drop_first());
    }
}

proof fn lemma_first_newline(s: Seq<char>, i: int)
    requires
        0 <= i <= s.len(),
        forall|k: int| 0 <= k < i ==> s[k] != '\n',
        i == s.len() || s[i] == '\n',
    ensures
        first_newline(s) == i,
    decreases i,
{
    if i > 0 {
        assert forall|k: int| 0 <= k < i - 1 implies s.drop_first()[k] != '\n' by {
            assert(s.drop_first()[k] == s[k + 1]);
        }
        lemma_first_newline(s.drop_first(), i - 1);
    }
}

/// A line of `s`: the chars `[start, end)` (before the '\r' of a "\r\n").
pub struct LineSpan {
    pub start: usize,
    pub end: usize,
}

/// The line spans of `v`, in the order `str::lines` yields the lines.
pub fn line_spans(v: &Vec<char>) -> (r: Vec<LineSpan>)
    ensures
        r@.len() == lines_of(v@).len(),
        forall|k: int| 0 <= k < r@.len() ==> (#[trigger] r@[k]).start <= r@[k].end <= v@.len(),
        forall|k: int|
            0 <= k < r@.len() ==> v@.subrange((#[trigger] r@[k]).start as int, r@[k].end as int)
                == lines_of(v@)[k],
{
    let mut out: Vec<LineSpan> = Vec::new();
    let n = v.len();
    let mut start: usize = 0;
    let mut i: usize = 0;
    proof {
        assert(v@.skip(0) =~= v@);
        assert(Seq::new(0nat, |k: int| v@.subrange(out@[k].start as int, out@[k].end as int)) + lines_of(v@) =~= lines_of(v@));
    }
    while i < n
        invariant
            n == v@.len(),
            start <= i <= n,
            forall|k: int| start <= k < i ==> v@[k] != '\n',
            lines_of(v@) == Seq::new(out@.len() as nat, |k: int| v@.subrange(out@[k].start as int, out@[k].end as int)) + lines_of(v@.skip(start as int)),
            forall|k: int| 0 <= k < out@.len() ==> (#[trigger] out@[k]).start <= out@[k].end <= v@.len(),
        decreases n - i,
    {
        if v[i] == '\n' {
            let ghost rest = v@.skip(start as int);
            proof {
                lemma_first_newline(rest, (i - start) as int);
                assert(rest.take((i - start) as int) =~= v@.subrange(start as int, i as int));
                assert(rest.skip((i - start) as int + 1) =~= v@.skip(i + 1));
            }
            let end = if i > start && v[i - 1] == '\r' { i - 1 } else { i };
            proof {
                assert(strip_cr(v@.subrange(start as int, i as int)) =~= v@.subrange(start as int, end as int));
            }
            let ghost old_out = out@;
            out.push(LineSpan { start, end });
            proof {
                assert(Seq::new(out@.len() as nat, |k: int| v@.subrange(out@[k].start as int, out@[k].end as int))
                    =~= Seq::new(old_out.len() as nat, |k: int| v@.subrange(old_out[k].start as int, old_out[k].end as int))
                        + seq![v@.subrange(start as int, end as int)]);
            }
            start = i + 1;
        }
        i = i + 1;
    }
    let ghost rest = v@.skip(start as int);
    let ghost before = Seq::new(out@.len() as nat, |k: int| v@.subrange(out@[k].start as int, out@[k].end as int));
    assert(lines_of(v@) == before + lines_of(rest));
    if start < n {
        proof {
            lemma_first_newline(rest, (n - start) as int);
            assert(rest =~= v@.subrange(start as int, n as int));
            assert(lines_of(rest) == seq![rest]);
        }
        let ghost old_out = out@;
        out.push(LineSpan { start, end: n });
        proof {
            assert(Seq::new(out@.len() as nat, |k: int| v@.subrange(out@[k].start as int, out@[k].end as int))
                =~= before + seq![v@.subrange(start as int, n as int)]);
        }
    } else {
        assert(rest.len() == 0);
        assert(lines_of(rest) =~= Seq::<Seq<char>>::empty());
        assert(lines_of(v@) =~= before);
    }
    proof {
        let lines = Seq::new(out@.len() as nat, |k: int| v@.subrange(out@[k].start as int, out@[k].end as int));
        assert(lines_of(v@) =~= lines);
        assert forall|k: int| 0 <= k < out@.len() implies v@.subrange((#[trigger] out@[k]).start as int, out@[k].end as int) == lines_of(v@)[k] by {
            assert(lines[k] == v@.subrange(out@[k].start as int, out@[k].end as int));
            assert(lines_of(v@)[k] == lines[k]);
        }
    }
    out
}

} // verus!

verus! {

/// Whether `char::is_uppercase` holds of `c` (Unicode Uppercase property).
pub uninterp spec fn char_is_upper(c: char) -> bool;

/// Whether `char::is_lowercase` holds of `c` (Unicode Lowercase property).
pub uninterp spec fn char_is_lower(c: char) -> bool;

/// Whether `char::is_alphanumeric` holds of `c` (Unicode Alphabetic or
/// Numeric).
pub uninterp spec fn char_is_alnum(c: char) -> bool;

/// What `str::to_lowercase` returns for a string with chars `s`.
pub uninterp spec fn lowercase(s: Seq<char>) -> Seq<char>;

/// `char::is_uppercase`; the result is the name `char_is_upper(c)`.
#[verifier::external_body]
pub(crate) fn is_upper(c: char) -> (b: bool)
    ensures
        b == char_is_upper(c),
{
    c.is_uppercase()
}

/// `char::is_lowercase`; the result is the name `char_is_lower(c)`.
#[verifier::external_body]
pub(crate) fn is_lower(c: char) -> (b: bool)
    ensures
        b == char_is_lower(c),
{
    c.is_lowercase()
}

/// `char::is_alphanumeric`; the result is the name `char_is_alnum(c)`.
#[verifier::external_body]
pub(crate) fn is_alnum(c: char) -> (b: bool)
    ensures
        b == char_is_alnum(c),
{
    c.is_alphanumeric()
}

/// `str::to_lowercase`; the result's chars are the name `lowercase(s@)`.
#[verifier::external_body]
pub(crate) fn to_lower(s: &str) -> (r: String)
    ensures
        r@ == lowercase(s@),
{
    s.to_lowercase()
}

/// An ASCII decimal digit.
pub open spec fn is_digit(c: char) -> bool {
    '0' <= c && c <= '9'
}

/// Every char of `s` is an ASCII digit.
pub open spec fn all_digits(s: Seq<char>) -> bool {
    forall|i: int| 0 <= i < s.len() ==> is_digit(#[trigger] s[i])
}

/// `s` occurs in `t` starting at index `i`.
pub open spec fn occurs_at(t: Seq<char>, s: Seq<char>, i: int) -> bool {
    0 <= i && i + s.len() <= t.len() && t.subrange(i, i + s.len()) == s
}

/// `s` occurs somewhere in `t` (`str::contains`).
pub open spec fn contains_seq(t: Seq<char>, s: Seq<char>) -> bool {
    exists|i: int| occurs_at(t, s, i)
}

/// Whether `v[at..at + p.len()]` equals `p`.
pub fn matches_at(v: &Vec<char>, at: usize, p: &Vec<char>) -> (b: bool)
    requires
        at <= v@.len(),
    ensures
        b == occurs_at(v@, p@, at as int),
{
    if p.len() > v.len() - at {
        return false;
    }
    let mut k: usize = 0;
    while k < p.len()
        invariant
            at + p@.len() <= v@.len(),
            v@.len() == v.len(),
            k <= p@.len(),
            forall|j: int| 0 <= j < k ==> v@[at + j] == p@[j],
        decreases p@.len() - k,
    {
        if v[at + k] != p[k] {
            proof {
                if occurs_at(v@, p@, at as int) {
                    assert(v@.subrange(at as int, at + p@.len())[k as int] == v@[at + k]);
                }
            }
            return false;
        }
        k = k + 1;
    }
    assert(v@.subrange(at as int, at + p@.len()) =~= p@);
    true
}

/// Whether `p` occurs in `v`.
pub fn contains_chars(v: &Vec<char>, p: &Vec<char>) -> (b: bool)
    ensures
        b == contains_seq(v@, p@),
{
    if p.len() > v.len() {
        return false;
    }
    let last = v.len() - p.len();
    let mut i: usize = 0;
    while i < last
        invariant
            p@.len() <= v@.len(),
            last == v@.len() - p@.len(),
            i <= last,
            forall|j: int| 0 <= j < i ==> !occurs_at(v@, p@, j),
        decreases last - i,
    {
        if matches_at(v, i, p) {
            return true;
        }
        i = i + 1;
    }
    matches_at(v, last, p)
}

} // verus!

verus! {

/// Whether two strings hold the same chars.
pub fn str_eq(a: &str, b: &str) -> (r: bool)
    ensures
        r == (a@ == b@),
{
    let x = chars_of(a);
    let y = chars_of(b);
    if x.len() != y.len() {
        return false;
    }
    let mut i: usize = 0;
    while i < x.len()
        invariant
            x@ == a@,
            y@ == b@,
            x@.len() == y@.len(),
            i <= x@.len(),
            forall|k: int| 0 <= k < i ==> x@[k] == y@[k],
        decreases x@.len() - i,
    {
        if x[i] != y[i] {
            assert(x@[i as int] != y@[i as int]);
            return false;
        }
        i = i + 1;
    }
    assert(x@ =~= y@);
    true
}


/// `s` begins with `p`.
pub open spec fn has_prefix(s: Seq<char>, p: Seq<char>) -> bool {
    s.len() >= p.len() && s.take(p.len() as int) == p
}

/// `s` ends with `p`.
pub open spec fn has_suffix(s: Seq<char>, p: Seq<char>) -> bool {
    s.len() >= p.len() && s.skip(s.len() - p.len()) == p
}

/// `str::starts_with` for a string pattern.
pub fn starts_with(s: &str, p: &str) -> (b: bool)
    ensures
        b == has_prefix(s@, p@),
{
    let v = chars_of(s);
    let w = chars_of(p);
    let b = matches_at(&v, 0, &w);
    proof {
        if v@.len() >= w@.len() {
            assert(v@.subrange(0, w@.len() as int) =~= v@.take(w@.len() as int));
        }
    }
    b
}

/// `str::ends_with` for a string pattern.
pub fn ends_with(s: &str, p: &str) -> (b: bool)
    ensures
        b == has_suffix(s@, p@),
{
    let v = chars_of(s);
    let w = chars_of(p);
    if w.len() > v.len() {
        return false;
    }
    let at = v.len() - w.len();
    let b = matches_at(&v, at, &w);
    assert(v@.subrange(at as int, at + w@.len()) =~= v@.skip(at as int));
    b
}

/// The chars of `s` with each `from` replaced by `to`.
pub open spec fn replace_char(s: Seq<char>, from: char, to: char) -> Seq<char> {
    Seq::new(s.len(), |i: int| if s[i] == from { to } else { s[i] })
}

/// `str::replace` of one char by another.
pub fn replace_char_str(s: &str, from: char, to: char) -> (r: String)
    ensures
        r@ == replace_char(s@, from, to),
{
    let v = chars_of(s);
    let mut r = String::new();
    let mut i: usize = 0;
    while i < v.len()
        invariant
            v@ == s@,
            i <= v@.len(),
            r@ == replace_char(v@.take(i as int), from, to),
        decreases v@.len() - i,
    {
        let c = v[i];
        push_char(&mut r, if c == from { to } else { c });
        i = i + 1;
        assert(r@ =~= replace_char(v@.take(i as int), from, to));
    }
    assert(v@.take(v@.len() as int) =~= v@);
    r
}

/// `str::trim`, into a new string.
pub fn trimmed(s: &str) -> (r: String)
    ensures
        r@ == trim(s@),
{
    let v = chars_of(s);
    let (lo, hi) = trim_bounds(&v, 0, v.len());
    assert(v@.subrange(0, v@.len() as int) =~= v@);
    string_of(&v, lo, hi)
}

/// The value of a string of ASCII digits.
pub open spec fn digits_value(s: Seq<char>) -> nat
    decreases s.len(),
{
    if s.len() == 0 {
        0
    } else {
        digits_value(s.drop_last()) * 10 + ((s.last() as int) - 48) as nat
    }
}

/// The value of the all-digit `v`, or `None` past `u32::MAX`.
pub fn parse_digits(v: &Vec<char>) -> (r: Option<u32>)
    requires
        all_digits(v@),
    ensures
        match r {
            Some(n) => n == digits_value(v@),
            None => digits_value(v@) > u32::MAX,
        },
{
    let mut n: u64 = 0;
    let mut i: usize = 0;
    while i < v.len()
        invariant
            all_digits(v@),
            i <= v@.len(),
            n == digits_value(v@.take(i as int)),
            n <= u32::MAX,
        decreases v@.len() - i,
    {
        assert(v@.take(i + 1).drop_last() =~= v@.take(i as int));
        assert(is_digit(v@[i as int]));
        let d = (v[i] as u32 - 48) as u64;
        let m = n * 10 + d;
        if m > 4294967295 {
            proof {
                lemma_digits_value_grows(v@, i as int + 1);
            }
            return None;
        }
        n = m;
        i = i + 1;
    }
    assert(v@.take(v@.len() as int) =~= v@);
    Some(n as u32)
}

proof fn lemma_digits_value_grows(s: Seq<char>, i: int)
    requires
        0 <= i <= s.len(),
        all_digits(s),
    ensures
        digits_value(s.take(i)) <= digits_value(s),
    decreases s.len() - i,
{
    if i < s.len() {
        lemma_digits_value_grows(s, i + 1);
        assert(s.take(i + 1).drop_last() =~= s.take(i));
        assert(is_digit(s[i]));
    }
    assert(s.take(s.len() as int) =~= s);
}

/// Printing a number in decimal and reading the digits back gives the
/// number: the rendering is all ASCII digits, with no leading zero
/// (but for 0 itself), and its value is `n`.
pub proof fn lemma_decimal_reads_back(n: nat)
    ensures
        all_digits(decimal(n)),
        digits_value(decimal(n)) == n,
        decimal(n).len() >= 1,
        n > 0 ==> decimal(n)[0] != '0',
    decreases n,
{
    if n < 10 {
        let d = decimal(n);
        assert(d.drop_last() =~= Seq::<char>::empty());
        assert((digit_char(n) as int) == 48 + n);
        assert(digits_value(d) == digits_value(d.drop_last()) * 10 + ((d.last() as int) - 48) as nat);
    } else {
        lemma_decimal_reads_back(n / 10);
        let d = decimal(n);
        let p = decimal(n / 10);
        assert(d.drop_last() =~= p);
        assert((digit_char(n % 10) as int) == 48 + n % 10);
        assert(d.last() == digit_char(n % 10));
        assert((n / 10) * 10 + n % 10 == n) by (nonlinear_arith);
        assert(digits_value(d) == digits_value(p) * 10 + ((d.last() as int) - 48) as nat);
        assert(d[0] == p[0]);
        assert forall|i: int| 0 <= i < d.len() implies is_digit(#[trigger] d[i]) by {
            if i < p.len() {
                assert(d[i] == p[i]);
            }
        }
    }
}

} // verus!
