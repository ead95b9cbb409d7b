//! Wikitext handling for the d6gaming.org rule pages: page and category
//! URLs, percent-encoding, the infobox template, the prose blurb and the
//! markup that is stripped from values.

use vstd::prelude::*;
use vstd::string::*;
use vstd::utf8::{
    decode_utf8, encode_scalar, encode_utf8, has_width_1_encoding, is_ascii_chars,
    last_continuation_byte, leading_byte_width_2, leading_byte_width_3, leading_byte_width_4,
    second_last_continuation_byte, third_last_continuation_byte, valid_utf8,
};
use crate::text::{
    chars_of, decimal, ends_with, has_prefix, starts_with, has_suffix, line_spans, lines_of, lowercase, matches_at,
    push_char, push_decimal, replace_char, replace_char_str, str_eq, string_of, to_lower, trim,
    trim_bounds, trimmed,
};
use crate::keyed::{
    contains_str, find_key, lemma_first_key, map_set, pair_keys, pairs_map, set_insert, KeyedMap,
    sorted_keys, str_views,
};
use crate::canon::Entry;
use crate::ui::{bytes_at, find_close};
use crate::search::{at, find_first, first_at};

verus! {

// ---------------------------------------------------------------- URLs

/// A byte that stays as it is in a page URL: ASCII letters and digits,
/// `_`, `-`, `.` and `~`.
pub open spec fn is_unreserved(b: u8) -> bool {
    ||| (48 <= b && b <= 57)
    ||| (65 <= b && b <= 90)
    ||| (97 <= b && b <= 122)
    ||| b == 95 || b == 45 || b == 46 || b == 126
}

/// Upper-case hex digit for `n` (0-15).
pub open spec fn hex_upper(n: u8) -> char {
    if n < 10 { (48 + n) as char } else { (55 + n) as char }
}

/// How one byte of a page name is written in a URL: a space as `_`, an
/// unreserved byte as itself, anything else as `%XX`.
pub open spec fn pct_byte(b: u8) -> Seq<char> {
    if b == 32 {
        seq!['_']
    } else if is_unreserved(b) {
        seq![b as char]
    } else {
        seq!['%', hex_upper(b / 16), hex_upper(b % 16)]
    }
}

/// The URL form of the UTF-8 bytes of a page name.
pub open spec fn pct_encoded(bytes: Seq<u8>) -> Seq<char>
    decreases bytes.len(),
{
    if bytes.len() == 0 {
        Seq::empty()
    } else {
        pct_encoded(bytes.drop_last()) + pct_byte(bytes.last())
    }
}

fn hex_digit(n: u8) -> (c: char)
    requires
        n < 16,
    ensures
        c == hex_upper(n),
{
    if n < 10 { (48 + n) as char } else { (55 + n) as char }
}

/// Percent-encode a page name for use in a URL. Spaces become `_`
/// (MediaWiki convention); everything else outside the unreserved set
/// (alphanumerics, `_`, `-`, `.`, `~`) gets `%XX`-escaped per RFC 3986.
/// Multi-byte UTF-8 is encoded byte by byte (so `’` → `%E2%80%99`).
pub fn pct_encode_page(page: &str) -> (r: String)
    ensures
        r@ == pct_encoded(encode_utf8(page@)),
{
    let bytes = page.as_bytes();
    let mut out = String::new();
    let mut i: usize = 0;
    while i < bytes.len()
        invariant
            bytes@ == encode_utf8(page@),
            i <= bytes@.len(),
            out@ == pct_encoded(bytes@.take(i as int)),
        decreases bytes@.len() - i,
    {
        let b = bytes[i];
        let ghost before = out@;
        if b == 32 {
            push_char(&mut out, '_');
        } else if (48 <= b && b <= 57) || (65 <= b && b <= 90) || (97 <= b && b <= 122) || b == 95
            || b == 45 || b == 46 || b == 126 {
            push_char(&mut out, b as char);
        } else {
            push_char(&mut out, '%');
            push_char(&mut out, hex_digit(b / 16));
            push_char(&mut out, hex_digit(b % 16));
        }
        assert(bytes@.take(i + 1).drop_last() =~= bytes@.take(i as int));
        assert(out@ =~= before + pct_byte(b));
        i = i + 1;
    }
    assert(bytes@.take(bytes@.len() as int) =~= bytes@);
    out
}

/// The article URL of a page.
pub open spec fn page_url_of(page: Seq<char>) -> Seq<char> {
    "https://d6gaming.org/index.php/"@ + pct_encoded(encode_utf8(page))
}

/// The raw-wikitext URL of a page.
pub open spec fn raw_url_of(page: Seq<char>) -> Seq<char> {
    "https://d6gaming.org/index.php?title="@ + pct_encoded(encode_utf8(page)) + "&action=raw"@
}

/// The listing URL of a category.
pub open spec fn category_url_of(category: Seq<char>) -> Seq<char> {
    "https://d6gaming.org/index.php/Category:"@ + replace_char(category, ' ', '_')
}

pub fn page_url(page: &str) -> (r: String)
    ensures
        r@ == page_url_of(page@),
{
    let mut r = String::from_str("https://d6gaming.org/index.php/");
    let enc = pct_encode_page(page);
    r.append(enc.as_str());
    r
}

pub fn raw_url(page: &str) -> (r: String)
    ensures
        r@ == raw_url_of(page@),
{
    let mut r = String::from_str("https://d6gaming.org/index.php?title=");
    let enc = pct_encode_page(page);
    r.append(enc.as_str());
    r.append("&action=raw");
    r
}

pub fn category_url(category: &str) -> (r: String)
    ensures
        r@ == category_url_of(category@),
{
    let mut r = String::from_str("https://d6gaming.org/index.php/Category:");
    let tail = replace_char_str(category, ' ', '_');
    r.append(tail.as_str());
    r
}

// ------------------------------------------------------ percent-decoding

/// What `String::from_utf8_lossy` makes of `bytes`: the UTF-8 text they
/// hold, each invalid sequence replaced by U+FFFD.
pub uninterp spec fn utf8_lossy(bytes: Seq<u8>) -> Seq<char>;

/// `String::from_utf8_lossy`. The result is the name `utf8_lossy`; for
/// valid UTF-8 it is the text the bytes encode, as the documentation
/// says.
#[verifier::external_body]
fn from_utf8_lossy(bytes: &[u8]) -> (r: String)
    ensures
        r@ == utf8_lossy(bytes@),
        valid_utf8(bytes@) ==> r@ == decode_utf8(bytes@),
{
    String::from_utf8_lossy(bytes).into_owned()
}

/// The value of an ASCII hex digit.
pub open spec fn hex_value(b: u8) -> Option<u8> {
    if 48 <= b && b <= 57 {
        Some((b - 48) as u8)
    } else if 97 <= b && b <= 102 {
        Some((b - 87) as u8)
    } else if 65 <= b && b <= 70 {
        Some((b - 55) as u8)
    } else {
        None
    }
}

/// What the two bytes after a `%` read as in base 16 (`u8::from_str_radix`
/// on them): two hex digits, or a `+` sign and one digit.
pub open spec fn escape_value(b1: u8, b2: u8) -> Option<u8> {
    if b1 == 43 {
        hex_value(b2)
    } else {
        match (hex_value(b1), hex_value(b2)) {
            (Some(h), Some(l)) => Some((h * 16 + l) as u8),
            _ => None,
        }
    }
}

/// The bytes of a percent-encoded name after decoding: each `%` followed
/// by two more bytes that read as a hex number becomes that byte.
pub open spec fn pct_decoded(b: Seq<u8>) -> Seq<u8>
    decreases b.len(),
{
    if b.len() == 0 {
        Seq::empty()
    } else if b[0] == 37 && b.len() > 2 && escape_value(b[1], b[2]) is Some {
        seq![escape_value(b[1], b[2]).unwrap()] + pct_decoded(b.skip(3))
    } else {
        seq![b[0]] + pct_decoded(b.skip(1))
    }
}

fn hex_val(b: u8) -> (r: Option<u8>)
    ensures
        r == hex_value(b),
{
    if 48 <= b && b <= 57 {
        Some(b - 48)
    } else if 97 <= b && b <= 102 {
        Some(b - 87)
    } else if 65 <= b && b <= 70 {
        Some(b - 55)
    } else {
        None
    }
}

fn escape_val(b1: u8, b2: u8) -> (r: Option<u8>)
    ensures
        r == escape_value(b1, b2),
{
    if b1 == 43 {
        return hex_val(b2);
    }
    match (hex_val(b1), hex_val(b2)) {
        (Some(h), Some(l)) => Some(h * 16 + l),
        _ => None,
    }
}

proof fn lemma_pct_decoded_skip(b: Seq<u8>, i: int)
    requires
        0 <= i < b.len(),
    ensures
        b.skip(i).len() > 0,
        b.skip(i)[0] == b[i],
        b.skip(i).len() > 2 ==> b.skip(i)[1] == b[i + 1] && b.skip(i)[2] == b[i + 2],
        b.skip(i).skip(1) =~= b.skip(i + 1),
        b.skip(i).len() > 2 ==> b.skip(i).skip(3) =~= b.skip(i + 3),
{
}

/// Decode the `%XX` escapes of a page name (apostrophes, smart quotes).
/// A `%` not followed by two more bytes that read as a hex number stays
/// as it is; bytes that end up invalid UTF-8 become U+FFFD.
pub fn url_decode(s: &str) -> (r: String)
    ensures
        r@ == utf8_lossy(pct_decoded(encode_utf8(s@))),
        valid_utf8(pct_decoded(encode_utf8(s@))) ==> r@ == decode_utf8(pct_decoded(encode_utf8(s@))),
{
    let bytes = s.as_bytes();
    let mut out: Vec<u8> = Vec::new();
    let mut i: usize = 0;
    assert(bytes@.skip(0) =~= bytes@);
    while i < bytes.len()
        invariant
            bytes@ == encode_utf8(s@),
            i <= bytes@.len(),
            out@ + pct_decoded(bytes@.skip(i as int)) == pct_decoded(bytes@),
        decreases bytes@.len() - i,
    {
        proof {
            lemma_pct_decoded_skip(bytes@, i as int);
        }
        if bytes[i] == 37 && bytes.len() - i > 2 {
            match escape_val(bytes[i + 1], bytes[i + 2]) {
                Some(v) => {
                    let ghost before = out@;
                    out.push(v);
                    assert(out@ + pct_decoded(bytes@.skip(i + 3)) =~= before + pct_decoded(bytes@.skip(i as int)));
                    i = i + 3;
                    continue;
                },
                None => {},
            }
        }
        let ghost before = out@;
        out.push(bytes[i]);
        assert(out@ + pct_decoded(bytes@.skip(i + 1)) =~= before + pct_decoded(bytes@.skip(i as int)));
        i = i + 1;
    }
    assert(bytes@.skip(i as int) =~= Seq::<u8>::empty());
    assert(out@ =~= pct_decoded(bytes@));
    from_utf8_lossy(out.as_slice())
}

// ------------------------------------------------------------- infobox

/// The first index where `needle` occurs in `b`, if it does.
pub open spec fn first_bytes(b: Seq<u8>, needle: Seq<u8>) -> Option<int> {
    if exists|i: int| bytes_at(b, needle, i) {
        Some(choose|i: int| bytes_at(b, needle, i) && forall|j: int| 0 <= j < i ==> !bytes_at(b, needle, j))
    } else {
        None
    }
}

/// The bytes of `{{ infobox`.
pub open spec fn infobox_spaced() -> Seq<u8> {
    seq![123u8, 123, 32, 105, 110, 102, 111, 98, 111, 120]
}

/// The bytes of `{{infobox`.
pub open spec fn infobox_tight() -> Seq<u8> {
    seq![123u8, 123, 105, 110, 102, 111, 98, 111, 120]
}

/// Where the infobox walk ends: from byte `i` at `{{ }}` nesting `depth`
/// (the current template's content starting at `cs`), the content range
/// closed by the `}}` that brings the nesting back to 0, when it is not
/// empty. `{{` and `}}` are taken as pairs; other bytes one at a time.
pub open spec fn infobox_walk(b: Seq<u8>, i: int, depth: int, cs: int) -> Option<(int, int)>
    decreases b.len() - i,
{
    if i < 0 || i + 1 >= b.len() {
        None
    } else if b[i] == 123 && b[i + 1] == 123 {
        infobox_walk(b, i + 2, depth + 1, if depth + 1 == 1 { i + 2 } else { cs })
    } else if b[i] == 125 && b[i + 1] == 125 {
        if depth - 1 == 0 {
            if i > cs { Some((cs, i)) } else { None }
        } else {
            infobox_walk(b, i + 2, depth - 1, cs)
        }
    } else {
        infobox_walk(b, i + 1, depth, cs)
    }
}

/// The contents of the first `{{ infobox … }}` template of `w`. Its start
/// is found in the lowercased text (as a byte index) and the walk runs
/// over the bytes of `w` from there.
pub open spec fn infobox_of(w: Seq<char>) -> Option<Seq<char>> {
    infobox_in(w, lowercase(w))
}

/// The contents of the first `{{ infobox … }}` template of `w`, its start
/// found in `lowered` (`w` lowercased) as a byte index.
pub open spec fn infobox_in(w: Seq<char>, lowered: Seq<char>) -> Option<Seq<char>> {
    let lower = encode_utf8(lowered);
    let start = match first_bytes(lower, infobox_spaced()) {
        Some(i) => Some(i),
        None => first_bytes(lower, infobox_tight()),
    };
    match start {
        None => None,
        Some(st) => match infobox_walk(encode_utf8(w), st, 0, 0) {
            Some((cs, ce)) => Some(utf8_lossy(encode_utf8(w).subrange(cs, ce))),
            None => None,
        },
    }
}

/// The first occurrence of `needle` in `b`.
fn first_occurrence(b: &[u8], needle: &[u8]) -> (r: Option<usize>)
    ensures
        match r {
            Some(i) => first_bytes(b@, needle@) == Some(i as int),
            None => first_bytes(b@, needle@) is None,
        },
{
    let r = find_close(b, 0, needle);
    match r {
        Some(i) => {
            proof {
                let c = choose|k: int| bytes_at(b@, needle@, k) && forall|j: int| 0 <= j < k ==> !bytes_at(b@, needle@, j);
                assert(bytes_at(b@, needle@, i as int) && forall|j: int| 0 <= j < i ==> !bytes_at(b@, needle@, j));
                if c < i {
                    assert(!bytes_at(b@, needle@, c));
                } else if c > i {
                    assert(!bytes_at(b@, needle@, i as int));
                }
            }
            Some(i)
        },
        None => {
            assert(!exists|k: int| bytes_at(b@, needle@, k)) by {
                assert forall|k: int| !bytes_at(b@, needle@, k) by {
                    if k >= 0 {
                    }
                }
            }
            None
        },
    }
}

/// Pull the contents of the first `{{ infobox … }}` template, balanced
/// against nested `{{ … }}` so a `{{Note|…}}` inside the infobox doesn't
/// terminate the outer template prematurely.
pub fn extract_infobox(wikitext: &str) -> (r: Option<String>)
    ensures
        match r {
            Some(s) => infobox_of(wikitext@) == Some(s@),
            None => infobox_of(wikitext@) is None,
        },
{
    let lower = to_lower(wikitext);
    infobox_with_lowered(wikitext, lower.as_str())
}

/// The contents of the first `{{ infobox … }}` template of `wikitext`,
/// its start looked up in `lowered`, the text already lowercased.
pub fn infobox_with_lowered(wikitext: &str, lowered: &str) -> (r: Option<String>)
    ensures
        match r {
            Some(s) => infobox_in(wikitext@, lowered@) == Some(s@),
            None => infobox_in(wikitext@, lowered@) is None,
        },
{
    let lb = lowered.as_bytes();
    let spaced: Vec<u8> = vec![123u8, 123, 32, 105, 110, 102, 111, 98, 111, 120];
    let tight: Vec<u8> = vec![123u8, 123, 105, 110, 102, 111, 98, 111, 120];
    assert(spaced@ =~= infobox_spaced());
    assert(tight@ =~= infobox_tight());
    let start = match first_occurrence(lb, spaced.as_slice()) {
        Some(i) => i,
        None => match first_occurrence(lb, tight.as_slice()) {
            Some(i) => i,
            None => return None,
        },
    };
    let bytes = wikitext.as_bytes();
    match walk_infobox(bytes, start) {
        Some((cs, ce)) => {
            let part = vstd::slice::slice_subrange(bytes, cs, ce);
            Some(from_utf8_lossy(part))
        },
        None => None,
    }
}

/// The infobox walk from byte `start` at nesting 0.
fn walk_infobox(bytes: &[u8], start: usize) -> (r: Option<(usize, usize)>)
    ensures
        match r {
            Some((cs, ce)) => infobox_walk(bytes@, start as int, 0, 0) == Some((cs as int, ce as int))
                && cs <= ce <= bytes@.len(),
            None => infobox_walk(bytes@, start as int, 0, 0) is None,
        },
{
    let n = bytes.len();
    let mut depth: i64 = 0;
    let mut i: usize = start;
    let mut cs: usize = 0;
    while i < n && n - i > 1
        invariant
            n == bytes@.len(),
            start <= i,
            cs <= i,
            depth + depth <= i - start,
            -depth - depth <= i - start,
            infobox_walk(bytes@, start as int, 0, 0) == infobox_walk(bytes@, i as int, depth as int, cs as int),
        decreases n - i,
    {
        let b0 = bytes[i];
        let b1 = bytes[i + 1];
        if b0 == 123 && b1 == 123 {
            depth = depth + 1;
            if depth == 1 {
                cs = i + 2;
            }
            i = i + 2;
        } else if b0 == 125 && b1 == 125 {
            depth = depth - 1;
            if depth == 0 {
                if i > cs {
                    return Some((cs, i));
                }
                return None;
            }
            i = i + 2;
        } else {
            i = i + 1;
        }
    }
    None
}

// --------------------------------------------------------------- markup

/// `s` with each non-overlapping occurrence of `pat`, taken from the
/// left, replaced by `rep` (`str::replace`); an empty `pat` occurs before
/// every char and at the end.
pub open spec fn replaced(s: Seq<char>, pat: Seq<char>, rep: Seq<char>) -> Seq<char>
    decreases s.len(),
{
    if pat.len() == 0 {
        if s.len() == 0 {
            rep
        } else {
            rep + seq![s[0]] + replaced(s.skip(1), pat, rep)
        }
    } else if s.len() < pat.len() {
        s
    } else if s.take(pat.len() as int) == pat {
        rep + replaced(s.skip(pat.len() as int), pat, rep)
    } else {
        seq![s[0]] + replaced(s.skip(1), pat, rep)
    }
}

/// `str::replace`.
pub fn replace_str(s: &str, pat: &str, rep: &str) -> (r: String)
    ensures
        r@ == replaced(s@, pat@, rep@),
{
    let v = chars_of(s);
    let p = chars_of(pat);
    let mut out = String::new();
    if p.len() == 0 {
        let mut i: usize = 0;
        assert(v@.skip(0) =~= v@);
        while i < v.len()
            invariant
                v@ == s@,
                p@ == pat@,
                p@.len() == 0,
                i <= v@.len(),
                out@ + replaced(v@.skip(i as int), p@, rep@) == replaced(v@, p@, rep@),
            decreases v@.len() - i,
        {
            let ghost rest = v@.skip(i as int);
            let ghost before = out@;
            out.append(rep);
            push_char(&mut out, v[i]);
            assert(rest.skip(1) =~= v@.skip(i + 1));
            assert(out@ + replaced(v@.skip(i + 1), p@, rep@) =~= before + replaced(rest, p@, rep@));
            i = i + 1;
        }
        let ghost before = out@;
        out.append(rep);
        assert(v@.skip(i as int) =~= Seq::<char>::empty());
        assert(out@ =~= before + replaced(v@.skip(i as int), p@, rep@));
        return out;
    }
    let mut i: usize = 0;
    assert(v@.skip(0) =~= v@);
    while i < v.len()
        invariant
            v@ == s@,
            p@ == pat@,
            p@.len() > 0,
            i <= v@.len(),
            out@ + replaced(v@.skip(i as int), p@, rep@) == replaced(v@, p@, rep@),
        decreases v@.len() - i,
    {
        let ghost rest = v@.skip(i as int);
        let same = matches_at(&v, i, &p);
        let ghost before = out@;
        if same {
            assert(rest.take(p@.len() as int) =~= v@.subrange(i as int, i + p@.len()));
            out.append(rep);
            assert(rest.skip(p@.len() as int) =~= v@.skip(i + p@.len()));
            assert(out@ + replaced(v@.skip(i + p@.len()), p@, rep@) =~= before + replaced(rest, p@, rep@));
            i = i + p.len();
        } else {
            proof {
                if rest.len() >= p@.len() {
                    assert(rest.take(p@.len() as int) =~= v@.subrange(i as int, i + p@.len()));
                }
            }
            push_char(&mut out, v[i]);
            assert(rest.skip(1) =~= v@.skip(i + 1));
            assert(out@ + replaced(v@.skip(i + 1), p@, rep@) =~= before + replaced(rest, p@, rep@));
            i = i + 1;
        }
    }
    assert(v@.skip(i as int) =~= Seq::<char>::empty());
    assert(out@ =~= replaced(v@, p@, rep@));
    out
}

/// What `Regex::new(pattern)` and then `replace_all(text, rep)` give:
/// `text` with each successive non-overlapping match of `pattern`
/// replaced by `rep` (`$n` standing for the n-th group); `None` when the
/// pattern does not compile.
pub uninterp spec fn regex_replaced(pattern: Seq<char>, text: Seq<char>, rep: Seq<char>) -> Option<Seq<char>>;

/// `regex::Regex::new(pattern)` followed by `Regex::replace_all(text,
/// rep)`; the result is the name `regex_replaced`.
#[verifier::external_body]
fn regex_replace_all(pattern: &str, text: &str, rep: &str) -> (r: Option<String>)
    ensures
        match r {
            Some(s) => regex_replaced(pattern@, text@, rep@) == Some(s@),
            None => regex_replaced(pattern@, text@, rep@) is None,
        },
{
    match regex::Regex::new(pattern) {
        Ok(re) => Some(re.replace_all(text, rep).into_owned()),
        Err(_) => None,
    }
}

/// `[[X|Y]]` → `Y`, `[[X]]` → `X`.
pub open spec fn link_pattern() -> Seq<char> {
    "\\[\\[(?:[^\\]|]+\\|)?([^\\]]+)\\]\\]"@
}

/// `[http://… text]` → `text`.
pub open spec fn ext_link_pattern() -> Seq<char> {
    "\\[https?://[^\\s\\]]+\\s+([^\\]]+)\\]"@
}

/// `{{X|Y}}`, dropped.
pub open spec fn template_pattern() -> Seq<char> {
    "\\{\\{[^}]+\\}\\}"@
}

/// A regex replacement that keeps the text when the pattern does not
/// compile.
pub open spec fn regex_or_same(pattern: Seq<char>, text: Seq<char>, rep: Seq<char>) -> Seq<char> {
    match regex_replaced(pattern, text, rep) {
        Some(t) => t,
        None => text,
    }
}

/// `line` without bold/italic quotes, with internal and external links
/// reduced to their text and templates dropped.
pub open spec fn stripped(line: Seq<char>) -> Seq<char> {
    let s = replaced(replaced(line, seq!['\'', '\'', '\''], Seq::empty()), seq!['\'', '\''], Seq::empty());
    let s = regex_or_same(link_pattern(), s, "$1"@);
    let s = regex_or_same(ext_link_pattern(), s, "$1"@);
    regex_or_same(template_pattern(), s, ""@)
}

fn regex_or_keep(pattern: &str, text: String, rep: &str) -> (r: String)
    ensures
        r@ == regex_or_same(pattern@, text@, rep@),
{
    match regex_replace_all(pattern, text.as_str(), rep) {
        Some(t) => t,
        None => text,
    }
}

/// Strip the most common wikitext markup so a "Field: '''value'''" line
/// parses cleanly. Conservative — unfamiliar markup is left alone.
pub fn strip_wiki_markup(line: &str) -> (r: String)
    ensures
        r@ == stripped(line@),
{
    proof {
        reveal_strlit("'''");
        reveal_strlit("''");
        reveal_strlit("");
    }
    assert("'''"@ =~= seq!['\'', '\'', '\'']);
    assert("''"@ =~= seq!['\'', '\'']);
    assert(""@ =~= Seq::<char>::empty());
    let s = replace_str(line, "'''", "");
    let s = replace_str(s.as_str(), "''", "");
    let s = regex_or_keep("\\[\\[(?:[^\\]|]+\\|)?([^\\]]+)\\]\\]", s, "$1");
    let s = regex_or_keep("\\[https?://[^\\s\\]]+\\s+([^\\]]+)\\]", s, "$1");
    regex_or_keep("\\{\\{[^}]+\\}\\}", s, "")
}

// ---------------------------------------------------------------- blurb

/// `w` after the first occurrence of `pat` (all of `w` when there is none).
pub open spec fn after_first(w: Seq<char>, pat: Seq<char>) -> Seq<char> {
    if exists|i: int| at(w, pat, i) {
        w.skip(first_at(w, pat) + pat.len())
    } else {
        w
    }
}

/// `w` up to the first occurrence of `pat` (all of `w` when there is none).
pub open spec fn before_first(w: Seq<char>, pat: Seq<char>) -> Seq<char> {
    if exists|i: int| at(w, pat, i) {
        w.take(first_at(w, pat))
    } else {
        w
    }
}

/// The prose of a page: between the first `}}` and the first `==`
/// heading after it, markup stripped, trimmed, and cut at 300 chars with
/// a trailing `…`.
pub open spec fn blurb_of(w: Seq<char>) -> Seq<char> {
    let body = before_first(after_first(w, seq!['}', '}']), seq!['\n', '=', '=']);
    let cleaned = trim(stripped(body));
    if cleaned.len() > 300 {
        cleaned.take(300).push('…')
    } else {
        cleaned
    }
}

/// A vector holding `v[from..to]`.
fn sub_vec(v: &Vec<char>, from: usize, to: usize) -> (r: Vec<char>)
    requires
        from <= to <= v@.len(),
    ensures
        r@ == v@.subrange(from as int, to as int),
{
    let mut r: Vec<char> = Vec::new();
    let mut i = from;
    while i < to
        invariant
            from <= i <= to <= v@.len(),
            r@ == v@.subrange(from as int, i as int),
        decreases to - i,
    {
        r.push(v[i]);
        i = i + 1;
        assert(r@ =~= v@.subrange(from as int, i as int));
    }
    r
}

/// The chars of `v` after the first occurrence of `pat`.
fn after_first_vec(v: &Vec<char>, pat: &Vec<char>) -> (r: Vec<char>)
    ensures
        r@ == after_first(v@, pat@),
{
    match find_first(v, pat) {
        Some(i) => {
            assert(at(v@, pat@, i as int));
            assert(i + pat@.len() <= v@.len());
            assert(pat.len() <= v.len() - i);
            let r = sub_vec(v, i + pat.len(), v.len());
            assert(r@ =~= v@.skip(i + pat@.len()));
            r
        },
        None => {
            assert(v@.subrange(0, v@.len() as int) =~= v@);
            sub_vec(v, 0, v.len())
        },
    }
}

/// The chars of `v` before the first occurrence of `pat`.
fn before_first_vec(v: &Vec<char>, pat: &Vec<char>) -> (r: Vec<char>)
    ensures
        r@ == before_first(v@, pat@),
{
    match find_first(v, pat) {
        Some(i) => {
            assert(at(v@, pat@, i as int));
            let r = sub_vec(v, 0, i);
            assert(r@ =~= v@.take(i as int));
            r
        },
        None => {
            assert(v@.subrange(0, v@.len() as int) =~= v@);
            sub_vec(v, 0, v.len())
        },
    }
}

/// The chars between the first `}}` and the first `==` heading after it.
fn page_body(v: &Vec<char>) -> (r: Vec<char>)
    ensures
        r@ == before_first(after_first(v@, seq!['}', '}']), seq!['\n', '=', '=']),
{
    let close = vec!['}', '}'];
    let heading = vec!['\n', '=', '='];
    assert(close@ =~= seq!['}', '}']);
    assert(heading@ =~= seq!['\n', '=', '=']);
    let after = after_first_vec(v, &close);
    before_first_vec(&after, &heading)
}

/// Take the prose between the infobox and the first `==` heading: the
/// page's flavour description, capped at 300 chars.
pub fn body_after_infobox(wikitext: &str) -> (r: String)
    ensures
        r@ == blurb_of(wikitext@),
{
    let v = chars_of(wikitext);
    let b = page_body(&v);
    let body = string_of(&b, 0, b.len());
    assert(b@.subrange(0, b@.len() as int) =~= b@);
    let cleaned = strip_wiki_markup(body.as_str());
    let c = chars_of(cleaned.as_str());
    let (lo, hi) = trim_bounds(&c, 0, c.len());
    assert(c@.subrange(0, c@.len() as int) =~= c@);
    if hi - lo > 300 {
        let mut s = string_of(&c, lo, lo + 300);
        push_char(&mut s, '…');
        assert(c@.subrange(lo as int, lo + 300) =~= c@.subrange(lo as int, hi as int).take(300));
        s
    } else {
        string_of(&c, lo, hi)
    }
}

// ------------------------------------------------------------ captures

/// What `Regex::new(pattern)` and then `captures_iter(text)` give: for
/// each successive non-overlapping match, its groups in order (group 0
/// the whole match, `None` for a group that took no part); `None` when
/// the pattern does not compile.
pub uninterp spec fn regex_captures(pattern: Seq<char>, text: Seq<char>) -> Option<Seq<Seq<Option<Seq<char>>>>>;

/// `regex::Regex::new(pattern)` followed by `Regex::captures_iter(text)`,
/// each group's text copied out; the result is the name
/// `regex_captures`.
#[verifier::external_body]
fn regex_captures_all(pattern: &str, text: &str) -> (r: Option<Vec<Vec<Option<String>>>>)
    ensures
        r.deep_view() == regex_captures(pattern@, text@),
{
    let re = regex::Regex::new(pattern).ok()?;
    Some(
        re.captures_iter(text).map(|c| c.iter().map(|g| g.map(|m| m.as_str().to_string())).collect()).collect(),
    )
}

/// The matches of `pattern` in `text` (none when it does not compile).
pub open spec fn caps_of(pattern: Seq<char>, text: Seq<char>) -> Seq<Seq<Option<Seq<char>>>> {
    match regex_captures(pattern, text) {
        Some(c) => c,
        None => Seq::empty(),
    }
}

/// Group `g` of a match.
pub open spec fn group(cap: Seq<Option<Seq<char>>>, g: int) -> Option<Seq<char>> {
    if 0 <= g < cap.len() {
        cap[g]
    } else {
        None
    }
}

fn captures_or_none(pattern: &str, text: &str) -> (r: Vec<Vec<Option<String>>>)
    ensures
        r.deep_view() == caps_of(pattern@, text@),
{
    match regex_captures_all(pattern, text) {
        Some(c) => c,
        None => Vec::new(),
    }
}

/// Group `g` of a match, copied out.
fn group_of(cap: &Vec<Option<String>>, g: usize) -> (r: Option<String>)
    ensures
        r.deep_view() == group(cap.deep_view(), g as int),
{
    if g < cap.len() {
        match &cap[g] {
            Some(s) => Some(s.clone()),
            None => None,
        }
    } else {
        None
    }
}

// --------------------------------------------------------------- entries

/// One `| key = value` line of an infobox.
pub open spec fn kv_pattern() -> Seq<char> {
    "(?m)^\\s*\\|\\s*([A-Za-z][A-Za-z0-9 _/-]*?)\\s*=\\s*(.*?)\\s*$"@
}

/// A `[[Category:…]]` tag.
pub open spec fn category_pattern() -> Seq<char> {
    "\\[\\[Category:([^\\]]+)\\]\\]"@
}

/// The bullet list under `=== Ingredients ===`.
pub open spec fn ingredients_pattern() -> Seq<char> {
    "(?s)===\\s*Ingredients\\s*===\\s*\\n(.*?)(?:\\n\\n|\\nBack:|\\n\\[\\[Category)"@
}

/// How an infobox key is filed: trimmed, lowercased, spaces as `_`.
pub open spec fn raw_key(k: Seq<char>) -> Seq<char> {
    replace_char(lowercase(trim(k)), ' ', '_')
}

/// How an infobox value is filed: markup stripped, trimmed.
pub open spec fn raw_value(v: Seq<char>) -> Seq<char> {
    trim(stripped(v))
}

/// The infobox lines as a map, a later line with the same key winning.
pub open spec fn raw_fields(caps: Seq<Seq<Option<Seq<char>>>>) -> Map<Seq<char>, Seq<char>>
    decreases caps.len(),
{
    if caps.len() == 0 {
        Map::empty()
    } else {
        let m = raw_fields(caps.drop_last());
        match (group(caps.last(), 1), group(caps.last(), 2)) {
            (Some(k), Some(v)) => m.insert(raw_key(k), raw_value(v)),
            _ => m,
        }
    }
}

/// The field name a label becomes: lowercased, with ` `, `/` and `-`
/// as `_`.
pub open spec fn label_key(l: Seq<char>) -> Seq<char> {
    replace_char(replace_char(replace_char(lowercase(l), ' ', '_'), '/', '_'), '-', '_')
}

/// The fields `labelN = …` / `dataN = …` pairs give, for N from 1 to
/// `n`, both non-empty, a later N winning.
pub open spec fn paired_fields(raw: Map<Seq<char>, Seq<char>>, n: nat) -> Map<Seq<char>, Seq<char>>
    decreases n,
{
    if n == 0 {
        Map::empty()
    } else {
        let m = paired_fields(raw, (n - 1) as nat);
        let lk = "label"@ + decimal(n);
        let dk = "data"@ + decimal(n);
        if raw.contains_key(lk) && raw.contains_key(dk) && raw[lk].len() > 0 && raw[dk].len() > 0 {
            m.insert(label_key(raw[lk]), raw[dk])
        } else {
            m
        }
    }
}

/// An infobox line's key is filed trimmed and lowercased, with every
/// space made `_`, char for char; so it holds no space.
pub proof fn lemma_raw_key_chars(k: Seq<char>)
    ensures
        raw_key(k).len() == lowercase(trim(k)).len(),
        forall|i: int|
            0 <= i < lowercase(trim(k)).len() ==> #[trigger] raw_key(k)[i] == (if lowercase(trim(k))[i] == ' ' {
                '_'
            } else {
                lowercase(trim(k))[i]
            }),
        forall|i: int| 0 <= i < raw_key(k).len() ==> #[trigger] raw_key(k)[i] != ' ',
{
}

/// A label's field name is the lowercased label with every space, `/`
/// and `-` made `_`, char for char; so it holds none of those three.
pub proof fn lemma_label_key_chars(l: Seq<char>)
    ensures
        label_key(l).len() == lowercase(l).len(),
        forall|i: int|
            0 <= i < lowercase(l).len() ==> #[trigger] label_key(l)[i] == (if lowercase(l)[i] == ' '
                || lowercase(l)[i] == '/' || lowercase(l)[i] == '-' {
                '_'
            } else {
                lowercase(l)[i]
            }),
        forall|i: int|
            0 <= i < label_key(l).len() ==> #[trigger] label_key(l)[i] != ' ' && label_key(l)[i] != '/'
                && label_key(l)[i] != '-',
{
}

/// Every field the label/data pairs give is named after one of the
/// labels (the key is `label_key` of `labelN`, which holds no space,
/// `/` or `-`) and holds that pair's non-empty `dataN`.
pub proof fn lemma_paired_fields_keys(raw: Map<Seq<char>, Seq<char>>, n: nat, k: Seq<char>)
    requires
        paired_fields(raw, n).contains_key(k),
    ensures
        forall|i: int| 0 <= i < k.len() ==> #[trigger] k[i] != ' ' && k[i] != '/' && k[i] != '-',
        exists|m: nat|
            1 <= m <= n && raw.contains_key(#[trigger] ("label"@ + decimal(m))) && raw.contains_key(
                "data"@ + decimal(m),
            ) && k == label_key(raw["label"@ + decimal(m)]) && paired_fields(raw, n)[k] == raw["data"@
                + decimal(m)] && raw["data"@ + decimal(m)].len() > 0,
    decreases n,
{
    let m = paired_fields(raw, (n - 1) as nat);
    let lk = "label"@ + decimal(n);
    let dk = "data"@ + decimal(n);
    if raw.contains_key(lk) && raw.contains_key(dk) && raw[lk].len() > 0 && raw[dk].len() > 0 && k
        == label_key(raw[lk]) {
        lemma_label_key_chars(raw[lk]);
        assert(raw.contains_key("label"@ + decimal(n)));
    } else {
        lemma_paired_fields_keys(raw, (n - 1) as nat, k);
        let w = choose|w: nat|
            1 <= w <= n - 1 && raw.contains_key(#[trigger] ("label"@ + decimal(w))) && raw.contains_key(
                "data"@ + decimal(w),
            ) && k == label_key(raw["label"@ + decimal(w)]) && m[k] == raw["data"@ + decimal(w)]
                && raw["data"@ + decimal(w)].len() > 0;
        assert(raw.contains_key("label"@ + decimal(w)));
    }
}

/// The fields the infobox of page text `w` gives: the label/data pairs
/// for N = 1..=20, and `display_name` from a non-empty `above`.
pub open spec fn infobox_fields(w: Seq<char>) -> Map<Seq<char>, Seq<char>> {
    match infobox_of(w) {
        None => Map::empty(),
        Some(ib) => {
            let raw = raw_fields(caps_of(kv_pattern(), ib));
            let m = paired_fields(raw, 20);
            if raw.contains_key("above"@) && raw["above"@].len() > 0 {
                m.insert("display_name"@, raw["above"@])
            } else {
                m
            }
        },
    }
}

/// The `* ` bullet lines, without the bullet, trimmed.
pub open spec fn item_lines(ls: Seq<Seq<char>>) -> Seq<Seq<char>>
    decreases ls.len(),
{
    if ls.len() == 0 {
        Seq::empty()
    } else {
        let rest = item_lines(ls.drop_last());
        let l = ls.last();
        if has_prefix(l, seq!['*', ' ']) {
            rest.push(trim(l.skip(2)))
        } else {
            rest
        }
    }
}

/// Lines joined with `\n`.
pub open spec fn joined_lines(items: Seq<Seq<char>>) -> Seq<char>
    decreases items.len(),
{
    if items.len() == 0 {
        Seq::empty()
    } else if items.len() == 1 {
        items[0]
    } else {
        joined_lines(items.drop_last()) + seq!['\n'] + items.last()
    }
}

/// The ingredient bullets of page text `w` (first Ingredients section).
pub open spec fn ingredient_items(w: Seq<char>) -> Seq<Seq<char>> {
    let caps = caps_of(ingredients_pattern(), w);
    if caps.len() > 0 {
        match group(caps[0], 1) {
            Some(body) => item_lines(lines_of(body)),
            None => Seq::empty(),
        }
    } else {
        Seq::empty()
    }
}

/// All fields of the entry for page text `w`.
pub open spec fn entry_fields(w: Seq<char>) -> Map<Seq<char>, Seq<char>> {
    let m = infobox_fields(w);
    let b = blurb_of(w);
    let m = if b.len() > 0 { m.insert("description"@, b) } else { m };
    let items = ingredient_items(w);
    if items.len() > 0 {
        m.insert("ingredients"@, joined_lines(items))
    } else {
        m
    }
}

/// A category tag that names a domain: a `…_Magick` category, or
/// Spells, Rituals or Potions.
pub open spec fn is_domain_tag(t: Seq<char>) -> bool {
    has_suffix(t, "_Magick"@) || t == "Spells"@ || t == "Rituals"@ || t == "Potions"@
}

/// The domain tags of the `[[Category:…]]` links, first occurrence
/// order, each once.
pub open spec fn domain_tags(caps: Seq<Seq<Option<Seq<char>>>>) -> Seq<Seq<char>>
    decreases caps.len(),
{
    if caps.len() == 0 {
        Seq::empty()
    } else {
        let d = domain_tags(caps.drop_last());
        match group(caps.last(), 1) {
            Some(t) => if is_domain_tag(trim(t)) && !d.contains(trim(t)) {
                d.push(trim(t))
            } else {
                d
            },
            None => d,
        }
    }
}

/// Whether the entry for page text `w` counts as a bare placeholder: no
/// fields, and under 64 bytes of trimmed text.
pub open spec fn is_missing(w: Seq<char>) -> bool {
    entry_fields(w) == Map::<Seq<char>, Seq<char>>::empty() && (encode_utf8(trim(w)).len() as usize) < 64
}

proof fn lemma_pairs_map_empty(s: Seq<(String, String)>)
    ensures
        (pairs_map(s) == Map::<Seq<char>, Seq<char>>::empty()) <==> s.len() == 0,
{
    if s.len() == 0 {
        assert(pairs_map(s) =~= Map::<Seq<char>, Seq<char>>::empty());
    } else {
        lemma_first_key(pair_keys(s), s[0].0@, 0);
        assert(pairs_map(s).dom().contains(s[0].0@));
    }
}

/// The infobox key/value lines of `ib`, as a sorted map.
fn raw_infobox_fields(ib: &str) -> (r: Vec<(String, String)>)
    ensures
        sorted_keys(pair_keys(r@)),
        pairs_map(r@) == raw_fields(caps_of(kv_pattern(), ib@)),
{
    let caps = captures_or_none("(?m)^\\s*\\|\\s*([A-Za-z][A-Za-z0-9 _/-]*?)\\s*=\\s*(.*?)\\s*$", ib);
    fields_from_captures(&caps)
}

/// The infobox fields named by `| key = value` line captures (group 1 the
/// key, group 2 the value), as a sorted map: each key trimmed, lowercased
/// and with `_` for spaces; each value stripped of markup and trimmed; a
/// later line wins.
pub fn fields_from_captures(caps: &Vec<Vec<Option<String>>>) -> (r: Vec<(String, String)>)
    ensures
        sorted_keys(pair_keys(r@)),
        pairs_map(r@) == raw_fields(caps.deep_view()),
{
    let ghost cs = caps.deep_view();
    let mut raw: Vec<(String, String)> = Vec::new();
    assert(pairs_map(raw@) =~= Map::<Seq<char>, Seq<char>>::empty());
    let mut i: usize = 0;
    while i < caps.len()
        invariant
            cs == caps.deep_view(),
            i <= caps@.len(),
            sorted_keys(pair_keys(raw@)),
            pairs_map(raw@) == raw_fields(cs.take(i as int)),
        decreases caps@.len() - i,
    {
        assert(cs.take(i + 1).drop_last() =~= cs.take(i as int));
        assert(cs.take(i + 1).last() == caps@[i as int].deep_view());
        let k = group_of(&caps[i], 1);
        let v = group_of(&caps[i], 2);
        match (k, v) {
            (Some(k), Some(v)) => {
                let kt = trimmed(k.as_str());
                let kl = to_lower(kt.as_str());
                let key = replace_char_str(kl.as_str(), ' ', '_');
                let vs = strip_wiki_markup(v.as_str());
                let val = trimmed(vs.as_str());
                map_set(&mut raw, key, val);
            },
            _ => {},
        }
        i = i + 1;
    }
    assert(cs.take(cs.len() as int) =~= cs);
    raw
}

/// The value under key `k`, if the map has one.
fn map_get(m: &Vec<(String, String)>, k: &str) -> (r: Option<String>)
    ensures
        match r {
            Some(v) => pairs_map(m@).contains_key(k@) && pairs_map(m@)[k@] == v@,
            None => !pairs_map(m@).contains_key(k@),
        },
{
    match find_key(m, k) {
        Some(i) => Some(m[i].1.clone()),
        None => None,
    }
}

/// The fields the label/data pairs and `above` of the raw infobox map
/// give.
fn paired_infobox_fields(raw: &Vec<(String, String)>) -> (r: Vec<(String, String)>)
    ensures
        sorted_keys(pair_keys(r@)),
        pairs_map(r@) == ({
            let m = paired_fields(pairs_map(raw@), 20);
            if pairs_map(raw@).contains_key("above"@) && pairs_map(raw@)["above"@].len() > 0 {
                m.insert("display_name"@, pairs_map(raw@)["above"@])
            } else {
                m
            }
        }),
{
    let ghost rm = pairs_map(raw@);
    let mut fields: Vec<(String, String)> = Vec::new();
    assert(pairs_map(fields@) =~= Map::<Seq<char>, Seq<char>>::empty());
    let mut n: u64 = 1;
    while n <= 20
        invariant
            rm == pairs_map(raw@),
            1 <= n <= 21,
            sorted_keys(pair_keys(fields@)),
            pairs_map(fields@) == paired_fields(rm, (n - 1) as nat),
        decreases 21 - n,
    {
        let mut lk = String::from_str("label");
        push_decimal(&mut lk, n);
        let mut dk = String::from_str("data");
        push_decimal(&mut dk, n);
        match (map_get(raw, lk.as_str()), map_get(raw, dk.as_str())) {
            (Some(label), Some(value)) => {
                if !label.as_str().is_empty() && !value.as_str().is_empty() {
                    let l1 = to_lower(label.as_str());
                    let l2 = replace_char_str(l1.as_str(), ' ', '_');
                    let l3 = replace_char_str(l2.as_str(), '/', '_');
                    let key = replace_char_str(l3.as_str(), '-', '_');
                    map_set(&mut fields, key, value);
                }
            },
            _ => {},
        }
        n = n + 1;
    }
    match map_get(raw, "above") {
        Some(above) => {
            if !above.as_str().is_empty() {
                map_set(&mut fields, String::from_str("display_name"), above);
            }
        },
        None => {},
    }
    fields
}

/// The bullet items of `body`'s lines.
fn bullet_items(body: &str) -> (r: Vec<String>)
    ensures
        str_views(r@) == item_lines(lines_of(body@)),
{
    let v = chars_of(body);
    let spans = line_spans(&v);
    let ghost ls = lines_of(v@);
    let mut out: Vec<String> = Vec::new();
    let mut i: usize = 0;
    while i < spans.len()
        invariant
            v@ == body@,
            ls == lines_of(v@),
            spans@.len() == ls.len(),
            forall|k: int| 0 <= k < spans@.len() ==> (#[trigger] spans@[k]).start <= spans@[k].end <= v@.len(),
            forall|k: int| 0 <= k < spans@.len() ==> v@.subrange((#[trigger] spans@[k]).start as int, spans@[k].end as int) == ls[k],
            i <= spans@.len(),
            str_views(out@) == item_lines(ls.take(i as int)),
        decreases spans@.len() - i,
    {
        let s = spans[i].start;
        let e = spans[i].end;
        let ghost line = ls[i as int];
        assert(v@.subrange(s as int, e as int) == line);
        assert(ls.take(i + 1).drop_last() =~= ls.take(i as int));
        let star = e - s >= 2 && v[s] == '*' && v[s + 1] == ' ';
        proof {
            if line.len() >= 2 {
                assert(line[0] == v@[s as int] && line[1] == v@[s + 1]);
                if star {
                    assert(line.take(2) =~= seq!['*', ' ']);
                }
                if has_prefix(line, seq!['*', ' ']) {
                    assert(line.take(2)[0] == line[0] && line.take(2)[1] == line[1]);
                }
            }
        }
        if star {
            let (lo, hi) = trim_bounds(&v, s + 2, e);
            let item = string_of(&v, lo, hi);
            assert(v@.subrange(s + 2, e as int) =~= line.skip(2));
            let ghost old_out = out@;
            out.push(item);
            assert(str_views(out@) =~= str_views(old_out).push(trim(line.skip(2))));
        }
        i = i + 1;
    }
    assert(ls.take(ls.len() as int) =~= ls);
    out
}

/// The ingredient bullets of page text `wikitext`.
fn ingredient_list(wikitext: &str) -> (r: Vec<String>)
    ensures
        str_views(r@) == ingredient_items(wikitext@),
{
    let caps = captures_or_none(
        "(?s)===\\s*Ingredients\\s*===\\s*\\n(.*?)(?:\\n\\n|\\nBack:|\\n\\[\\[Category)",
        wikitext,
    );
    if caps.len() > 0 {
        assert(caps.deep_view()[0] == caps@[0].deep_view());
        match group_of(&caps[0], 1) {
            Some(body) => bullet_items(body.as_str()),
            None => {
                let r: Vec<String> = Vec::new();
                assert(str_views(r@) =~= Seq::<Seq<char>>::empty());
                r
            },
        }
    } else {
        let r: Vec<String> = Vec::new();
        assert(str_views(r@) =~= Seq::<Seq<char>>::empty());
        r
    }
}

/// Items joined with `\n`.
fn join_lines(items: &Vec<String>) -> (r: String)
    ensures
        r@ == joined_lines(str_views(items@)),
{
    let mut r = String::new();
    let mut i: usize = 0;
    while i < items.len()
        invariant
            i <= items@.len(),
            r@ == joined_lines(str_views(items@).take(i as int)),
        decreases items@.len() - i,
    {
        let ghost before = r@;
        assert(str_views(items@).take(i + 1).drop_last() =~= str_views(items@).take(i as int));
        if i > 0 {
            push_char(&mut r, '\n');
        }
        r.append(items[i].as_str());
        i = i + 1;
        proof {
            let t = str_views(items@).take(i as int);
            if i == 1 {
                assert(r@ =~= t[0]);
            } else {
                assert(r@ =~= joined_lines(t.drop_last()) + seq!['\n'] + t.last());
            }
        }
    }
    assert(str_views(items@).take(items@.len() as int) =~= str_views(items@));
    r
}

/// The domain tags of page text `wikitext`.
fn domain_list(wikitext: &str) -> (r: Vec<String>)
    ensures
        str_views(r@) == domain_tags(caps_of(category_pattern(), wikitext@)),
{
    let caps = captures_or_none("\\[\\[Category:([^\\]]+)\\]\\]", wikitext);
    domains_from_captures(&caps)
}

/// The domain tags named by `[[Category:…]]` link captures (group 1 the
/// category), in order, each once.
pub fn domains_from_captures(caps: &Vec<Vec<Option<String>>>) -> (r: Vec<String>)
    ensures
        str_views(r@) == domain_tags(caps.deep_view()),
{
    let ghost cs = caps.deep_view();
    let mut out: Vec<String> = Vec::new();
    assert(str_views(out@) =~= domain_tags(cs.take(0)));
    let mut i: usize = 0;
    while i < caps.len()
        invariant
            cs == caps.deep_view(),
            i <= caps@.len(),
            str_views(out@) == domain_tags(cs.take(i as int)),
        decreases caps@.len() - i,
    {
        assert(cs.take(i + 1).drop_last() =~= cs.take(i as int));
        assert(cs.take(i + 1).last() == caps@[i as int].deep_view());
        match group_of(&caps[i], 1) {
            Some(t) => {
                let tag = trimmed(t.as_str());
                let is_tag = ends_with(tag.as_str(), "_Magick") || str_eq(tag.as_str(), "Spells")
                    || str_eq(tag.as_str(), "Rituals") || str_eq(tag.as_str(), "Potions");
                if is_tag && !contains_str(&out, tag.as_str()) {
                    let ghost old_out = out@;
                    let ghost tv = tag@;
                    out.push(tag);
                    assert(str_views(out@) =~= str_views(old_out).push(tv));
                }
            },
            None => {},
        }
        i = i + 1;
    }
    assert(cs.take(cs.len() as int) =~= cs);
    out
}

/// Parse a page's wikitext into its entry: the infobox's label/data
/// pairs (and `above` as `display_name`), the prose blurb as
/// `description`, the ingredient bullets, and the domain categories.
pub fn parse_entry(page: &str, wikitext: &str) -> (e: Entry)
    ensures
        e.name@ == page@,
        e.url@ == page_url_of(page@),
        e.details@ == (if is_missing(wikitext@) { "missing"@ } else { "full"@ }),
        str_views(e.domains@) == domain_tags(caps_of(category_pattern(), wikitext@)),
        sorted_keys(pair_keys(e.fields@)),
        pairs_map(e.fields@) == entry_fields(wikitext@),
{
    let fields = entry_field_list(wikitext);
    let domains = domain_list(wikitext);
    let t = trimmed(wikitext);
    proof {
        lemma_pairs_map_empty(fields@);
    }
    let details = if fields.len() == 0 && t.as_str().len() < 64 {
        String::from_str("missing")
    } else {
        String::from_str("full")
    };
    Entry { name: String::from_str(page), url: page_url(page), details, domains, fields }
}

/// The fields of the entry for page text `wikitext`, as a sorted map.
fn entry_field_list(wikitext: &str) -> (r: Vec<(String, String)>)
    ensures
        sorted_keys(pair_keys(r@)),
        pairs_map(r@) == entry_fields(wikitext@),
{
    let mut fields: Vec<(String, String)> = match extract_infobox(wikitext) {
        Some(ib) => {
            let raw = raw_infobox_fields(ib.as_str());
            paired_infobox_fields(&raw)
        },
        None => {
            let f: Vec<(String, String)> = Vec::new();
            assert(pairs_map(f@) =~= Map::<Seq<char>, Seq<char>>::empty());
            f
        },
    };
    assert(pairs_map(fields@) == infobox_fields(wikitext@));
    let blurb = body_after_infobox(wikitext);
    if !blurb.as_str().is_empty() {
        map_set(&mut fields, String::from_str("description"), blurb);
    }
    let items = ingredient_list(wikitext);
    if items.len() > 0 {
        let joined = join_lines(&items);
        map_set(&mut fields, String::from_str("ingredients"), joined);
    }
    fields
}

// ------------------------------------------------------------ categories

/// Rule-document pages that category listings link to but that are not
/// entries.
pub open spec fn is_meta_page(n: Seq<char>) -> bool {
    ||| n == "Amar Lite"@
    ||| n == "Campaign tracker"@
    ||| n == "Combat"@
    ||| n == "Encounters"@
    ||| n == "Equipment"@
    ||| n == "Experimental Systems"@
    ||| n == "GM's Screen"@
    ||| n == "Incantation Magic"@
    ||| n == "Magick"@
    ||| n == "Movement and Weather"@
    ||| n == "Mythology"@
    ||| n == "The Character"@
    ||| n == "The Kingdom of Amar"@
    ||| n == "The World"@
    ||| n == "Advantages and Disadvantages"@
    ||| n == "Main Page"@
    ||| n == "Playable Races"@
    ||| n == "List of Magick Items"@
    ||| n == "Crystal of Spell Storing"@
}

/// Whether `n` names one of the rule-document pages.
pub fn is_meta_page_name(n: &str) -> (b: bool)
    ensures
        b == is_meta_page(n@),
{
    str_eq(n, "Amar Lite") || str_eq(n, "Campaign tracker") || str_eq(n, "Combat") || str_eq(
        n,
        "Encounters",
    ) || str_eq(n, "Equipment") || str_eq(n, "Experimental Systems") || str_eq(n, "GM's Screen")
        || str_eq(n, "Incantation Magic") || str_eq(n, "Magick") || str_eq(n, "Movement and Weather")
        || str_eq(n, "Mythology") || str_eq(n, "The Character") || str_eq(n, "The Kingdom of Amar")
        || str_eq(n, "The World") || str_eq(n, "Advantages and Disadvantages") || str_eq(n, "Main Page")
        || str_eq(n, "Playable Races") || str_eq(n, "List of Magick Items") || str_eq(
        n,
        "Crystal of Spell Storing",
    )
}

/// An article link in a category listing's HTML.
pub open spec fn href_pattern() -> Seq<char> {
    "href=\"/index\\.php/([^\":#?]+)\""@
}

/// A link target that is MediaWiki structure, not an article.
pub open spec fn is_structural_link(raw: Seq<char>) -> bool {
    ||| has_prefix(raw, "Category:"@)
    ||| has_prefix(raw, "Special:"@)
    ||| has_prefix(raw, "File:"@)
    ||| has_prefix(raw, "Help:"@)
    ||| has_prefix(raw, "Talk:"@)
    ||| raw == "Main_Page"@
}

/// The page name a link target stands for: `_` as spaces, percent
/// escapes decoded.
pub open spec fn link_page(raw: Seq<char>) -> Seq<char> {
    utf8_lossy(pct_decoded(encode_utf8(replace_char(raw, '_', ' '))))
}

/// The pages of the listing's links that are entries: not structural,
/// not rule documents, not "Legacy " snapshots.
pub open spec fn listed_pages(caps: Seq<Seq<Option<Seq<char>>>>) -> Set<Seq<char>>
    decreases caps.len(),
{
    if caps.len() == 0 {
        Set::empty()
    } else {
        let s = listed_pages(caps.drop_last());
        match group(caps.last(), 1) {
            Some(raw) => if !is_structural_link(raw) && !is_meta_page(link_page(raw)) && !has_prefix(
                link_page(raw),
                "Legacy "@,
            ) {
                s.insert(link_page(raw))
            } else {
                s
            },
            None => s,
        }
    }
}

/// The entry pages a category listing (its HTML) links to, sorted, each
/// once.
pub fn category_pages(html: &str) -> (r: Vec<String>)
    ensures
        sorted_keys(str_views(r@)),
        str_views(r@).to_set() == listed_pages(caps_of(href_pattern(), html@)),
{
    let caps = captures_or_none("href=\"/index\\.php/([^\":#?]+)\"", html);
    pages_from_captures(&caps)
}

/// The entry pages named by listing link captures (group 1 the link
/// target), sorted, each once.
pub fn pages_from_captures(caps: &Vec<Vec<Option<String>>>) -> (r: Vec<String>)
    ensures
        sorted_keys(str_views(r@)),
        str_views(r@).to_set() == listed_pages(caps.deep_view()),
{
    let ghost cs = caps.deep_view();
    let mut seen: Vec<String> = Vec::new();
    assert(str_views(seen@).to_set() =~= Set::<Seq<char>>::empty());
    let mut i: usize = 0;
    while i < caps.len()
        invariant
            cs == caps.deep_view(),
            i <= caps@.len(),
            sorted_keys(str_views(seen@)),
            str_views(seen@).to_set() == listed_pages(cs.take(i as int)),
        decreases caps@.len() - i,
    {
        assert(cs.take(i + 1).drop_last() =~= cs.take(i as int));
        assert(cs.take(i + 1).last() == caps@[i as int].deep_view());
        match group_of(&caps[i], 1) {
            Some(raw) => {
                let r = raw.as_str();
                let structural = starts_with(r, "Category:") || starts_with(r, "Special:") || starts_with(
                    r,
                    "File:",
                ) || starts_with(r, "Help:") || starts_with(r, "Talk:") || str_eq(r, "Main_Page");
                if !structural {
                    let spaced = replace_char_str(r, '_', ' ');
                    let name = url_decode(spaced.as_str());
                    if !is_meta_page_name(name.as_str()) && !starts_with(name.as_str(), "Legacy ") {
                        set_insert(&mut seen, name);
                    }
                }
            },
            None => {},
        }
        i = i + 1;
    }
    assert(cs.take(cs.len() as int) =~= cs);
    seen
}

/// A fetched page body, or the error for an empty one.
pub open spec fn body_result(body: Seq<char>) -> Result<Seq<char>, Seq<char>> {
    if trim(body).len() == 0 {
        Err("empty body"@)
    } else {
        Ok(body)
    }
}

/// Accept a fetched page body unless it is blank.
pub fn check_body(body: String) -> (r: Result<String, String>)
    ensures
        match r {
            Ok(b) => body_result(body@) == Ok::<Seq<char>, Seq<char>>(b@),
            Err(e) => body_result(body@) == Err::<Seq<char>, Seq<char>>(e@),
        },
{
    let t = trimmed(body.as_str());
    if t.as_str().is_empty() {
        Err(String::from_str("empty body"))
    } else {
        Ok(body)
    }
}

/// The placeholder entry of a page whose text could not be had.
pub fn missing_entry(page: &str) -> (e: Entry)
    ensures
        e.name@ == page@,
        e.url@ == page_url_of(page@),
        e.details@ == "missing"@,
        e.domains@.len() == 0,
        e.fields@.len() == 0,
{
    Entry {
        name: String::from_str(page),
        url: page_url(page),
        details: String::from_str("missing"),
        domains: Vec::new(),
        fields: Vec::new(),
    }
}

/// Files the pages of category `cat`: each is appended to the category's
/// list (created on its first page) and is recorded with the first
/// category it was seen in.
pub fn record_category(
    domain_index: &mut KeyedMap<Vec<String>>,
    first_cat: &mut KeyedMap<String>,
    cat: &str,
    pages: &Vec<String>,
)
    ensures
        pages@.len() == 0 ==> final(domain_index)@ == old(domain_index)@,
        pages@.len() > 0 ==> final(domain_index)@ == old(domain_index)@.insert(
            cat@,
            (if old(domain_index)@.contains_key(cat@) {
                old(domain_index)@[cat@]
            } else {
                Seq::empty()
            }) + pages@,
        ),
        forall|p: Seq<char>| #[trigger] final(first_cat)@.contains_key(p) <==> (old(first_cat)@.contains_key(p)
            || str_views(pages@).contains(p)),
        forall|p: Seq<char>| #[trigger] old(first_cat)@.contains_key(p) ==> final(first_cat)@[p] == old(
            first_cat,
        )@[p],
        forall|p: Seq<char>| !#[trigger] old(first_cat)@.contains_key(p) && str_views(pages@).contains(p)
            ==> final(first_cat)@[p] == cat@,
{
    if pages.len() > 0 {
        let ghost old_map = domain_index@;
        let mut list: Vec<String> = match domain_index.get(cat) {
            Some(l) => {
                let c = l.clone();
                assert(c@ =~= l@);
                c
            },
            None => Vec::new(),
        };
        let ghost base = list@;
        assert(base == (if old_map.contains_key(cat@) { old_map[cat@] } else { Seq::<String>::empty() }));
        let mut j: usize = 0;
        while j < pages.len()
            invariant
                j <= pages@.len(),
                list@ == base + pages@.take(j as int),
            decreases pages@.len() - j,
        {
            let c = pages[j].clone();
            list.push(c);
            j = j + 1;
            assert(list@ =~= base + pages@.take(j as int));
        }
        assert(pages@.take(pages@.len() as int) =~= pages@);
        domain_index.set(String::from_str(cat), list);
    }
    let ghost old_fc = first_cat@;
    let mut j: usize = 0;
    while j < pages.len()
        invariant
            j <= pages@.len(),
            forall|p: Seq<char>| #[trigger] first_cat@.contains_key(p) <==> (old_fc.contains_key(p)
                || str_views(pages@.take(j as int)).contains(p)),
            forall|p: Seq<char>| #[trigger] old_fc.contains_key(p) ==> first_cat@[p] == old_fc[p],
            forall|p: Seq<char>| !#[trigger] old_fc.contains_key(p) && str_views(pages@.take(j as int)).contains(p)
                ==> first_cat@[p] == cat@,
        decreases pages@.len() - j,
    {
        let ghost pj = pages@[j as int]@;
        let ghost before = first_cat@;
        let ghost seen = str_views(pages@.take(j as int));
        let ghost seen2 = str_views(pages@.take(j + 1));
        assert(seen2 =~= seen.push(pj));
        assert forall|p: Seq<char>| seen2.contains(p) <==> (seen.contains(p) || p == pj) by {
            if seen2.contains(p) {
                let k = choose|k: int| 0 <= k < seen2.len() && seen2[k] == p;
                if k < seen.len() {
                    assert(seen[k] == p);
                }
            }
            if seen.contains(p) {
                let k = choose|k: int| 0 <= k < seen.len() && seen[k] == p;
                assert(seen2[k] == p);
            }
            if p == pj {
                assert(seen2[j as int] == p);
            }
        }
        if !first_cat.contains_key(pages[j].as_str()) {
            first_cat.set(pages[j].clone(), String::from_str(cat));
        }
        j = j + 1;
    }
    assert(pages@.take(pages@.len() as int) =~= pages@);
}

// ------------------------------------------------------------ round trip

/// The hex digit byte (`0-9`, `A-F`) for `n` (0-15).
pub open spec fn hex_byte(n: u8) -> u8 {
    if n < 10 { (48 + n) as u8 } else { (55 + n) as u8 }
}

/// One byte of a page name as a listing link gives it back: its URL
/// form, with `_` read as a space.
pub open spec fn link_form(x: u8) -> Seq<u8> {
    if x == 32 || x == 95 {
        seq![32u8]
    } else if is_unreserved(x) {
        seq![x]
    } else {
        seq![37u8, hex_byte(x / 16), hex_byte(x % 16)]
    }
}

/// A page name's bytes as a listing link gives them back.
pub open spec fn link_bytes(b: Seq<u8>) -> Seq<u8>
    decreases b.len(),
{
    if b.len() == 0 {
        Seq::empty()
    } else {
        link_form(b[0]) + link_bytes(b.skip(1))
    }
}

/// `b` with each `_` byte made a space.
pub open spec fn underscores_as_spaces(b: Seq<u8>) -> Seq<u8> {
    Seq::new(b.len(), |i: int| if b[i] == 95 { 32u8 } else { b[i] })
}

proof fn lemma_pct_encoded_concat(a: Seq<u8>, c: Seq<u8>)
    ensures
        pct_encoded(a + c) == pct_encoded(a) + pct_encoded(c),
    decreases c.len(),
{
    if c.len() > 0 {
        lemma_pct_encoded_concat(a, c.drop_last());
        assert((a + c).drop_last() =~= a + c.drop_last());
        assert((a + c).last() == c.last());
    } else {
        assert(a + c =~= a);
    }
}

proof fn lemma_pct_encoded_front(b: Seq<u8>)
    requires
        b.len() > 0,
    ensures
        pct_encoded(b) == pct_byte(b[0]) + pct_encoded(b.skip(1)),
{
    assert(b =~= seq![b[0]] + b.skip(1));
    lemma_pct_encoded_concat(seq![b[0]], b.skip(1));
    assert(seq![b[0]].drop_last() =~= Seq::<u8>::empty());
    assert(pct_encoded(Seq::<u8>::empty()) =~= Seq::<char>::empty());
    assert(pct_encoded(seq![b[0]]) =~= pct_byte(b[0]));
}

/// The chars of one byte's URL form, read back as bytes with `_` as a
/// space.
proof fn lemma_pct_byte_bytes(x: u8)
    ensures
        is_ascii_chars(replace_char(pct_byte(x), '_', ' ')),
        encode_utf8(replace_char(pct_byte(x), '_', ' ')) == link_form(x),
{
    let cs = replace_char(pct_byte(x), '_', ' ');
    if x == 32 {
        assert(cs =~= seq![' ']);
    } else if is_unreserved(x) {
        if x == 95 {
            assert(cs =~= seq![' ']);
        } else {
            assert(cs =~= seq![x as char]);
        }
    } else {
        let h = x / 16;
        let l = x % 16;
        assert(cs =~= seq!['%', hex_upper(h), hex_upper(l)]);
    }
    assert(is_ascii_chars(cs));
    vstd::utf8::is_ascii_chars_encode_utf8(cs);
    let e = encode_utf8(cs);
    assert(e =~= link_form(x)) by {
        assert(e.len() == link_form(x).len());
        assert forall|i: int| 0 <= i < e.len() implies e[i] == link_form(x)[i] by {
            assert(cs[i] as u8 == e[i]);
        }
    }
}

proof fn lemma_ascii_concat(a: Seq<char>, c: Seq<char>)
    requires
        is_ascii_chars(a),
        is_ascii_chars(c),
    ensures
        is_ascii_chars(a + c),
        encode_utf8(a + c) == encode_utf8(a) + encode_utf8(c),
{
    assert forall|i: int| 0 <= i < (a + c).len() implies '\0' <= #[trigger] (a + c)[i] <= '\u{7f}' by {
        if i < a.len() {
            assert((a + c)[i] == a[i]);
        } else {
            assert((a + c)[i] == c[i - a.len()]);
        }
    }
    vstd::utf8::is_ascii_chars_encode_utf8(a);
    vstd::utf8::is_ascii_chars_encode_utf8(c);
    vstd::utf8::is_ascii_chars_encode_utf8(a + c);
    assert(encode_utf8(a + c) =~= encode_utf8(a) + encode_utf8(c)) by {
        assert forall|i: int| 0 <= i < (a + c).len() implies encode_utf8(a + c)[i] == (encode_utf8(a) + encode_utf8(c))[i] by {
            assert((a + c)[i] as u8 == encode_utf8(a + c)[i]);
            if i < a.len() {
                assert((a + c)[i] == a[i]);
                assert(a[i] as u8 == encode_utf8(a)[i]);
            } else {
                assert((a + c)[i] == c[i - a.len()]);
                assert(c[i - a.len()] as u8 == encode_utf8(c)[i - a.len()]);
            }
        }
    }
}

/// A page name's URL form, read back as bytes with `_` as a space, is
/// `link_bytes` of its bytes.
proof fn lemma_link_bytes(b: Seq<u8>)
    ensures
        is_ascii_chars(replace_char(pct_encoded(b), '_', ' ')),
        encode_utf8(replace_char(pct_encoded(b), '_', ' ')) == link_bytes(b),
    decreases b.len(),
{
    if b.len() == 0 {
        assert(replace_char(pct_encoded(b), '_', ' ') =~= Seq::<char>::empty());
        assert(is_ascii_chars(Seq::<char>::empty()));
        assert(encode_utf8(Seq::<char>::empty()) =~= Seq::<u8>::empty());
    } else {
        lemma_pct_encoded_front(b);
        lemma_link_bytes(b.skip(1));
        lemma_pct_byte_bytes(b[0]);
        let head = replace_char(pct_byte(b[0]), '_', ' ');
        let tail = replace_char(pct_encoded(b.skip(1)), '_', ' ');
        assert(replace_char(pct_encoded(b), '_', ' ') =~= head + tail);
        lemma_ascii_concat(head, tail);
    }
}

proof fn lemma_escape_of_hex(x: u8)
    ensures
        escape_value(hex_byte(x / 16), hex_byte(x % 16)) == Some(x),
{
    let h = x / 16;
    let l = x % 16;
    assert(hex_value(hex_byte(h)) == Some(h));
    assert(hex_value(hex_byte(l)) == Some(l));
    assert(hex_byte(h) != 43);
    assert(h * 16 + l == x);
}

/// Decoding a listing link's bytes gives back the name's bytes with `_`
/// as a space.
proof fn lemma_decode_link_bytes(b: Seq<u8>)
    ensures
        pct_decoded(link_bytes(b)) == underscores_as_spaces(b),
    decreases b.len(),
{
    if b.len() == 0 {
        assert(link_bytes(b) =~= Seq::<u8>::empty());
        assert(underscores_as_spaces(b) =~= Seq::<u8>::empty());
    } else {
        lemma_decode_link_bytes(b.skip(1));
        let x = b[0];
        let rest = link_bytes(b.skip(1));
        let s = link_form(x) + rest;
        if x == 32 || x == 95 || is_unreserved(x) {
            assert(s[0] != 37);
            assert(s.skip(1) =~= rest);
        } else {
            lemma_escape_of_hex(x);
            assert(s[1] == hex_byte(x / 16) && s[2] == hex_byte(x % 16));
            assert(s.skip(3) =~= rest);
        }
        assert(underscores_as_spaces(b) =~= seq![if x == 95 { 32u8 } else { x }] + underscores_as_spaces(b.skip(1)));
    }
}

/// A char's UTF-8 bytes: a `_` is the one byte 95, any other char has no
/// byte 95 at all.
proof fn lemma_scalar_underscore(c: char)
    ensures
        c == '_' ==> encode_scalar(c as u32) == seq![95u8],
        c != '_' ==> forall|i: int| 0 <= i < encode_scalar(c as u32).len() ==> #[trigger] encode_scalar(c as u32)[i] != 95,
{
    let v = c as u32;
    if has_width_1_encoding(v) {
        assert(v <= 0x7f ==> ((v & 0x7f) as u8) as u32 == v) by (bit_vector);
        if c != '_' {
            assert(v != 95) by {
                vstd::utf8::char_u32_cast(c, v);
                vstd::utf8::char_u32_cast('_', 95u32);
            }
        } else {
            assert(v == 95);
        }
    } else {
        assert(leading_byte_width_2(v) != 95u8) by (bit_vector);
        assert(leading_byte_width_3(v) != 95u8) by (bit_vector);
        assert(leading_byte_width_4(v) != 95u8) by (bit_vector);
        assert(last_continuation_byte(v) != 95u8) by (bit_vector);
        assert(second_last_continuation_byte(v) != 95u8) by (bit_vector);
        assert(third_last_continuation_byte(v) != 95u8) by (bit_vector);
        assert(c != '_') by {
            vstd::utf8::char_u32_cast('_', 95u32);
        }
    }
}

/// Reading `_` as a space in a name's UTF-8 bytes is the same as in its
/// chars.
proof fn lemma_underscores_in_bytes(p: Seq<char>)
    ensures
        underscores_as_spaces(encode_utf8(p)) == encode_utf8(replace_char(p, '_', ' ')),
    decreases p.len(),
{
    if p.len() == 0 {
        assert(replace_char(p, '_', ' ') =~= Seq::<char>::empty());
        assert(underscores_as_spaces(encode_utf8(p)) =~= Seq::<u8>::empty());
    } else {
        lemma_underscores_in_bytes(p.drop_first());
        let r = replace_char(p, '_', ' ');
        assert(r.drop_first() =~= replace_char(p.drop_first(), '_', ' '));
        let head = encode_scalar(p[0] as u32);
        let tail = encode_utf8(p.drop_first());
        assert(encode_utf8(p) == head + tail);
        assert(encode_utf8(r) == encode_scalar(r[0] as u32) + encode_utf8(r.drop_first()));
        lemma_scalar_underscore(p[0]);
        assert(underscores_as_spaces(head + tail) =~= underscores_as_spaces(head) + underscores_as_spaces(tail));
        if p[0] == '_' {
            assert(r[0] == ' ');
            assert(underscores_as_spaces(head) =~= seq![32u8]);
            assert((' ' as u32) == 32) by {
                vstd::utf8::char_u32_cast(' ', 32u32);
            }
            assert(encode_scalar(32u32) =~= seq![32u8]) by {
                assert(((32u32 & 0x7f) as u8) == 32u8) by (bit_vector);
            }
        } else {
            assert(r[0] == p[0]);
            assert(underscores_as_spaces(head) =~= head);
        }
    }
}

/// A page name survives the round trip through a category listing: the
/// link MediaWiki writes for it (its percent-encoded URL form), with `_`
/// read back as a space and then percent-decoded, gives exactly the
/// UTF-8 bytes of the name with `_` as a space — valid UTF-8, which
/// `url_decode` turns back into that text.
pub proof fn lemma_link_round_trip(name: Seq<char>)
    ensures
        pct_decoded(encode_utf8(replace_char(pct_encoded(encode_utf8(name)), '_', ' '))) == encode_utf8(
            replace_char(name, '_', ' '),
        ),
        valid_utf8(encode_utf8(replace_char(name, '_', ' '))),
        decode_utf8(encode_utf8(replace_char(name, '_', ' '))) == replace_char(name, '_', ' '),
{
    vstd::utf8::encode_utf8_valid_utf8(replace_char(name, '_', ' '));
    vstd::utf8::encode_utf8_decode_utf8(replace_char(name, '_', ' '));
    lemma_link_bytes(encode_utf8(name));
    lemma_decode_link_bytes(encode_utf8(name));
    lemma_underscores_in_bytes(name);
}

/// One byte of a page name as its URL form reads in bytes: a space as
/// `_`, an unreserved byte as itself, anything else as `%XX`.
pub open spec fn url_form(x: u8) -> Seq<u8> {
    if x == 32 {
        seq![95u8]
    } else if is_unreserved(x) {
        seq![x]
    } else {
        seq![37u8, hex_byte(x / 16), hex_byte(x % 16)]
    }
}

/// A page name's bytes as its URL form reads in bytes.
pub open spec fn url_bytes(b: Seq<u8>) -> Seq<u8>
    decreases b.len(),
{
    if b.len() == 0 {
        Seq::empty()
    } else {
        url_form(b[0]) + url_bytes(b.skip(1))
    }
}

/// `b` with each space byte made `_`.
pub open spec fn spaces_as_underscores(b: Seq<u8>) -> Seq<u8> {
    Seq::new(b.len(), |i: int| if b[i] == 32 { 95u8 } else { b[i] })
}

proof fn lemma_pct_byte_plain(x: u8)
    ensures
        is_ascii_chars(pct_byte(x)),
        encode_utf8(pct_byte(x)) == url_form(x),
{
    let cs = pct_byte(x);
    if x == 32 {
        assert(cs =~= seq!['_']);
    } else if is_unreserved(x) {
        assert(cs =~= seq![x as char]);
    } else {
        let h = x / 16;
        let l = x % 16;
        assert(cs =~= seq!['%', hex_upper(h), hex_upper(l)]);
    }
    assert(is_ascii_chars(cs));
    vstd::utf8::is_ascii_chars_encode_utf8(cs);
    let e = encode_utf8(cs);
    assert(e =~= url_form(x)) by {
        assert(e.len() == url_form(x).len());
        assert forall|i: int| 0 <= i < e.len() implies e[i] == url_form(x)[i] by {
            assert(cs[i] as u8 == e[i]);
        }
    }
}

proof fn lemma_url_bytes(b: Seq<u8>)
    ensures
        is_ascii_chars(pct_encoded(b)),
        encode_utf8(pct_encoded(b)) == url_bytes(b),
    decreases b.len(),
{
    if b.len() == 0 {
        assert(pct_encoded(b) =~= Seq::<char>::empty());
        assert(is_ascii_chars(Seq::<char>::empty()));
        assert(encode_utf8(Seq::<char>::empty()) =~= Seq::<u8>::empty());
    } else {
        lemma_pct_encoded_front(b);
        lemma_url_bytes(b.skip(1));
        lemma_pct_byte_plain(b[0]);
        lemma_ascii_concat(pct_byte(b[0]), pct_encoded(b.skip(1)));
    }
}

proof fn lemma_decode_url_bytes(b: Seq<u8>)
    ensures
        pct_decoded(url_bytes(b)) == spaces_as_underscores(b),
    decreases b.len(),
{
    if b.len() == 0 {
        assert(url_bytes(b) =~= Seq::<u8>::empty());
        assert(spaces_as_underscores(b) =~= Seq::<u8>::empty());
    } else {
        lemma_decode_url_bytes(b.skip(1));
        let x = b[0];
        let rest = url_bytes(b.skip(1));
        let s = url_form(x) + rest;
        if x == 32 || is_unreserved(x) {
            assert(s[0] != 37);
            assert(s.skip(1) =~= rest);
        } else {
            lemma_escape_of_hex(x);
            assert(s[1] == hex_byte(x / 16) && s[2] == hex_byte(x % 16));
            assert(s.skip(3) =~= rest);
        }
        assert(spaces_as_underscores(b) =~= seq![if x == 32 { 95u8 } else { x }] + spaces_as_underscores(b.skip(1)));
    }
}

/// A char's UTF-8 bytes: a space is the one byte 32, any other char has
/// no byte 32 at all.
proof fn lemma_scalar_space(c: char)
    ensures
        c == ' ' ==> encode_scalar(c as u32) == seq![32u8],
        c != ' ' ==> forall|i: int| 0 <= i < encode_scalar(c as u32).len() ==> #[trigger] encode_scalar(c as u32)[i] != 32,
{
    let v = c as u32;
    if has_width_1_encoding(v) {
        assert(v <= 0x7f ==> ((v & 0x7f) as u8) as u32 == v) by (bit_vector);
        if c != ' ' {
            assert(v != 32) by {
                vstd::utf8::char_u32_cast(c, v);
                vstd::utf8::char_u32_cast(' ', 32u32);
            }
        } else {
            assert(v == 32);
        }
    } else {
        assert(leading_byte_width_2(v) != 32u8) by (bit_vector);
        assert(leading_byte_width_3(v) != 32u8) by (bit_vector);
        assert(leading_byte_width_4(v) != 32u8) by (bit_vector);
        assert(last_continuation_byte(v) != 32u8) by (bit_vector);
        assert(second_last_continuation_byte(v) != 32u8) by (bit_vector);
        assert(third_last_continuation_byte(v) != 32u8) by (bit_vector);
        assert(c != ' ') by {
            vstd::utf8::char_u32_cast(' ', 32u32);
        }
    }
}

/// Making spaces `_` in a name's UTF-8 bytes is the same as in its chars.
proof fn lemma_spaces_in_bytes(p: Seq<char>)
    ensures
        spaces_as_underscores(encode_utf8(p)) == encode_utf8(replace_char(p, ' ', '_')),
    decreases p.len(),
{
    if p.len() == 0 {
        assert(replace_char(p, ' ', '_') =~= Seq::<char>::empty());
        assert(spaces_as_underscores(encode_utf8(p)) =~= Seq::<u8>::empty());
    } else {
        lemma_spaces_in_bytes(p.drop_first());
        let r = replace_char(p, ' ', '_');
        assert(r.drop_first() =~= replace_char(p.drop_first(), ' ', '_'));
        let head = encode_scalar(p[0] as u32);
        let tail = encode_utf8(p.drop_first());
        assert(encode_utf8(p) == head + tail);
        assert(encode_utf8(r) == encode_scalar(r[0] as u32) + encode_utf8(r.drop_first()));
        lemma_scalar_space(p[0]);
        assert(spaces_as_underscores(head + tail) =~= spaces_as_underscores(head) + spaces_as_underscores(tail));
        if p[0] == ' ' {
            assert(r[0] == '_');
            assert(spaces_as_underscores(head) =~= seq![95u8]);
            assert(('_' as u32) == 95) by {
                vstd::utf8::char_u32_cast('_', 95u32);
            }
            assert(encode_scalar(95u32) =~= seq![95u8]) by {
                assert(((95u32 & 0x7f) as u8) == 95u8) by (bit_vector);
            }
        } else {
            assert(r[0] == p[0]);
            assert(spaces_as_underscores(head) =~= head);
        }
    }
}

/// Decoding a page's URL form gives the page name back with its spaces
/// as `_`: percent-decoding what `pct_encode_page` writes yields the
/// UTF-8 bytes of the name with spaces made `_` — valid UTF-8, which
/// `url_decode` turns back into that text.
pub proof fn lemma_url_round_trip(name: Seq<char>)
    ensures
        pct_decoded(encode_utf8(pct_encoded(encode_utf8(name)))) == encode_utf8(replace_char(name, ' ', '_')),
        valid_utf8(encode_utf8(replace_char(name, ' ', '_'))),
        decode_utf8(encode_utf8(replace_char(name, ' ', '_'))) == replace_char(name, ' ', '_'),
{
    vstd::utf8::encode_utf8_valid_utf8(replace_char(name, ' ', '_'));
    vstd::utf8::encode_utf8_decode_utf8(replace_char(name, ' ', '_'));
    lemma_url_bytes(encode_utf8(name));
    lemma_decode_url_bytes(encode_utf8(name));
    lemma_spaces_in_bytes(name);
}

/// The rule-document pages of the wiki, as the scraper lists them: a
/// page is one exactly when it is one of these.
pub proof fn lemma_meta_pages(n: Seq<char>)
    ensures
        is_meta_page(n) <==> seq!["Amar Lite"@, "Campaign tracker"@, "Combat"@, "Encounters"@, "Equipment"@, "Experimental Systems"@, "GM's Screen"@, "Incantation Magic"@, "Magick"@, "Movement and Weather"@, "Mythology"@, "The Character"@, "The Kingdom of Amar"@, "The World"@, "Advantages and Disadvantages"@, "Main Page"@, "Playable Races"@, "List of Magick Items"@, "Crystal of Spell Storing"@].contains(n),
{
    let l = seq!["Amar Lite"@, "Campaign tracker"@, "Combat"@, "Encounters"@, "Equipment"@, "Experimental Systems"@, "GM's Screen"@, "Incantation Magic"@, "Magick"@, "Movement and Weather"@, "Mythology"@, "The Character"@, "The Kingdom of Amar"@, "The World"@, "Advantages and Disadvantages"@, "Main Page"@, "Playable Races"@, "List of Magick Items"@, "Crystal of Spell Storing"@];
    if is_meta_page(n) {
        if n == "Amar Lite"@ { assert(l[0] == n); }
        if n == "Campaign tracker"@ { assert(l[1] == n); }
        if n == "Combat"@ { assert(l[2] == n); }
        if n == "Encounters"@ { assert(l[3] == n); }
        if n == "Equipment"@ { assert(l[4] == n); }
        if n == "Experimental Systems"@ { assert(l[5] == n); }
        if n == "GM's Screen"@ { assert(l[6] == n); }
        if n == "Incantation Magic"@ { assert(l[7] == n); }
        if n == "Magick"@ { assert(l[8] == n); }
        if n == "Movement and Weather"@ { assert(l[9] == n); }
        if n == "Mythology"@ { assert(l[10] == n); }
        if n == "The Character"@ { assert(l[11] == n); }
        if n == "The Kingdom of Amar"@ { assert(l[12] == n); }
        if n == "The World"@ { assert(l[13] == n); }
        if n == "Advantages and Disadvantages"@ { assert(l[14] == n); }
        if n == "Main Page"@ { assert(l[15] == n); }
        if n == "Playable Races"@ { assert(l[16] == n); }
        if n == "List of Magick Items"@ { assert(l[17] == n); }
        if n == "Crystal of Spell Storing"@ { assert(l[18] == n); }
    }
    if l.contains(n) {
        let k = choose|k: int| 0 <= k < l.len() && l[k] == n;
        if k == 0 { assert(n == "Amar Lite"@); }
        if k == 1 { assert(n == "Campaign tracker"@); }
        if k == 2 { assert(n == "Combat"@); }
        if k == 3 { assert(n == "Encounters"@); }
        if k == 4 { assert(n == "Equipment"@); }
        if k == 5 { assert(n == "Experimental Systems"@); }
        if k == 6 { assert(n == "GM's Screen"@); }
        if k == 7 { assert(n == "Incantation Magic"@); }
        if k == 8 { assert(n == "Magick"@); }
        if k == 9 { assert(n == "Movement and Weather"@); }
        if k == 10 { assert(n == "Mythology"@); }
        if k == 11 { assert(n == "The Character"@); }
        if k == 12 { assert(n == "The Kingdom of Amar"@); }
        if k == 13 { assert(n == "The World"@); }
        if k == 14 { assert(n == "Advantages and Disadvantages"@); }
        if k == 15 { assert(n == "Main Page"@); }
        if k == 16 { assert(n == "Playable Races"@); }
        if k == 17 { assert(n == "List of Magick Items"@); }
        if k == 18 { assert(n == "Crystal of Spell Storing"@); }
    }
}

/// An upper-case hex digit and its value.
pub open spec fn upper_hex_digit(c: char, v: int) -> bool {
    (('0' <= c <= '9') && v == c as int - 48) || (('A' <= c <= 'F') && v == c as int - 55)
}

/// How a byte of a page name is written in its URL: a space as `_`; an
/// ASCII letter or digit, `_`, `-`, `.` or `~` as itself; any other byte
/// as `%` followed by its value in two upper-case hex digits.
pub proof fn lemma_url_byte_written(b: u8)
    ensures
        b == 32 ==> pct_byte(b) == seq!['_'],
        ({
            let plain = (48 <= b <= 57) || (65 <= b <= 90) || (97 <= b <= 122) || b == 95 || b == 45 || b == 46
                || b == 126;
            &&& plain ==> pct_byte(b) == seq![b as char]
            &&& b != 32 && !plain ==> pct_byte(b).len() == 3 && pct_byte(b)[0] == '%' && upper_hex_digit(
                pct_byte(b)[1],
                (b / 16) as int,
            ) && upper_hex_digit(pct_byte(b)[2], (b % 16) as int)
        }),
{
}

} // verus!
