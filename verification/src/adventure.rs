//! Adventure — a published / GM-authored adventure inside a campaign:
//! its narrative markdown's section list, its scene / floorplan /
//! portrait images and `.npc` stat-block documents, plus notes.

use vstd::prelude::*;
use crate::text::{
    all_digits, chars_of, has_prefix, char_is_lower, char_is_upper, is_lower, is_upper, line_spans, lines_of,
    is_ws, push_char, str_eq, string_of, trim, trim_bounds, trim_end, trim_start, LineSpan,
};
use crate::keyed::{lemma_lex_transitive, lemma_lex_trichotomy, lex_lt, str_lt, str_views};

verus! {

#[derive(Debug, Clone)]
pub struct TimestampedNote {
    /// Unix seconds.
    pub at: u64,
    pub text: String,
}

/// One filesystem asset (image or text doc) of an adventure.
#[derive(Debug, Clone)]
pub struct AdventureAsset {
    pub name: String,
    /// Path relative to the adventure's `root_dir`.
    pub path: String,
}

/// One parsed `##` / `###` heading of the narrative markdown.
#[derive(Debug, Clone)]
pub struct AdventureSection {
    pub heading: String,
    pub level: u8,
    /// 1-based line number of the heading itself.
    pub line_start: usize,
    /// 1-based line number of the last line of the section.
    pub line_end: usize,
    /// Scene / floorplan image rel-paths attached to this section.
    pub attached_images: Vec<String>,
    /// In-session GM notes appended to this section.
    pub notes: Vec<TimestampedNote>,
}

/// Heading level of a markdown line: 3 for "### ", 2 for "## ", else 0.
pub open spec fn heading_level(line: Seq<char>) -> u8 {
    if has_prefix(line, seq!['#', '#', '#', ' ']) {
        3
    } else if has_prefix(line, seq!['#', '#', ' ']) {
        2
    } else {
        0
    }
}

/// The trimmed text after a heading marker.
pub open spec fn heading_text(line: Seq<char>) -> Seq<char> {
    if heading_level(line) == 3 {
        trim(line.skip(4))
    } else {
        trim(line.skip(3))
    }
}

/// Indices of the heading lines among the first `m` lines.
pub open spec fn heading_indices(lines: Seq<Seq<char>>, m: int) -> Seq<int>
    decreases m,
{
    if m <= 0 {
        seq![]
    } else {
        heading_indices(lines, m - 1) + if heading_level(lines[m - 1]) > 0 {
            seq![m - 1]
        } else {
            seq![]
        }
    }
}

/// Where the section at `k` ends: the line before the first later
/// heading (searching from `j`) at the same or a higher level, or the
/// last line `n`.
pub open spec fn end_from(levels: Seq<u8>, starts: Seq<usize>, k: int, j: int, n: int) -> int
    decreases levels.len() - j,
{
    if j >= levels.len() || j < 0 {
        n
    } else if levels[j] <= levels[k] {
        starts[j] - 1
    } else {
        end_from(levels, starts, k, j + 1, n)
    }
}

/// Levels of a section list.
pub open spec fn levels_of(secs: Seq<AdventureSection>) -> Seq<u8> {
    secs.map_values(|s: AdventureSection| s.level)
}

/// Start lines of a section list.
pub open spec fn starts_of(secs: Seq<AdventureSection>) -> Seq<usize> {
    secs.map_values(|s: AdventureSection| s.line_start)
}

/// The sections `parse_sections` finds in `text`: one per `## ` / `### `
/// line, in order, with its level, trimmed heading text and 1-based start
/// line, ending just before the next heading of the same or a higher
/// level (or at the last line).
pub open spec fn sections_match(text: Seq<char>, secs: Seq<AdventureSection>) -> bool {
    let lines = lines_of(text);
    let idx = heading_indices(lines, lines.len() as int);
    &&& secs.len() == idx.len()
    &&& forall|k: int|
        0 <= k < secs.len() ==> {
            &&& (#[trigger] secs[k]).line_start == idx[k] + 1
            &&& secs[k].level == heading_level(lines[idx[k]])
            &&& secs[k].heading@ == heading_text(lines[idx[k]])
            &&& secs[k].line_end == end_from(levels_of(secs), starts_of(secs), k, k + 1, lines.len() as int)
            &&& secs[k].attached_images@.len() == 0
            &&& secs[k].notes@.len() == 0
        }
}

proof fn lemma_heading_indices_bounds(lines: Seq<Seq<char>>, m: int)
    requires
        0 <= m <= lines.len(),
    ensures
        forall|k: int|
            0 <= k < heading_indices(lines, m).len() ==> 0 <= #[trigger] heading_indices(lines, m)[k] < m
                && heading_level(lines[heading_indices(lines, m)[k]]) > 0,
        forall|a: int, b: int|
            0 <= a < b < heading_indices(lines, m).len() ==> heading_indices(lines, m)[a]
                < heading_indices(lines, m)[b],
    decreases m,
{
    if m > 0 {
        lemma_heading_indices_bounds(lines, m - 1);
        let prev = heading_indices(lines, m - 1);
        let cur = heading_indices(lines, m);
        assert forall|k: int| 0 <= k < cur.len() implies 0 <= #[trigger] cur[k] < m
            && heading_level(lines[cur[k]]) > 0 by {
            if k < prev.len() {
                assert(cur[k] == prev[k]);
            }
        }
        assert forall|a: int, b: int| 0 <= a < b < cur.len() implies cur[a] < cur[b] by {
            if b < prev.len() {
                assert(cur[a] == prev[a] && cur[b] == prev[b]);
            } else {
                assert(cur[a] == prev[a]);
            }
        }
    }
}

proof fn lemma_end_from(levels: Seq<u8>, starts: Seq<usize>, k: int, j: int, n: int)
    requires
        0 <= j,
    ensures
        end_from(levels, starts, k, j, n) == n || exists|t: int|
            j <= t < levels.len() && levels[t] <= levels[k] && end_from(levels, starts, k, j, n) == starts[t] - 1,
    decreases levels.len() - j,
{
    if j < levels.len() && levels[j] > levels[k] {
        lemma_end_from(levels, starts, k, j + 1, n);
    }
}

/// The sections `parse_sections` finds come in document order, and each
/// runs from its heading line to a line no earlier, within the text:
/// `1 <= line_start <= line_end <= ` the number of lines.
pub proof fn lemma_sections_in_order(text: Seq<char>, secs: Seq<AdventureSection>)
    requires
        sections_match(text, secs),
    ensures
        forall|k: int|
            0 <= k < secs.len() ==> 1 <= #[trigger] secs[k].line_start <= secs[k].line_end <= lines_of(text).len(),
        forall|a: int, b: int| 0 <= a < b < secs.len() ==> secs[a].line_start < secs[b].line_start,
{
    let lines = lines_of(text);
    let idx = heading_indices(lines, lines.len() as int);
    lemma_heading_indices_bounds(lines, lines.len() as int);
    assert forall|a: int, b: int| 0 <= a < b < secs.len() implies secs[a].line_start < secs[b].line_start by {
        assert(secs[a].line_start == idx[a] + 1);
        assert(secs[b].line_start == idx[b] + 1);
    }
    assert forall|k: int| 0 <= k < secs.len() implies 1 <= #[trigger] secs[k].line_start <= secs[k].line_end
        <= lines.len() by {
        assert(secs[k].line_start == idx[k] + 1);
        let levels = levels_of(secs);
        let starts = starts_of(secs);
        lemma_end_from(levels, starts, k, k + 1, lines.len() as int);
        if end_from(levels, starts, k, k + 1, lines.len() as int) != lines.len() {
            let t = choose|t: int|
                k + 1 <= t < levels.len() && levels[t] <= levels[k] && end_from(levels, starts, k, k + 1, lines.len() as int)
                    == starts[t] - 1;
            assert(starts[t] == secs[t].line_start);
            assert(secs[t].line_start == idx[t] + 1);
        }
    }
}

/// Level of the line `v[sp.start..sp.end]` and the bounds of its text.
fn line_heading(v: &Vec<char>, sp: &LineSpan) -> (r: (u8, usize, usize))
    requires
        sp.start <= sp.end <= v@.len(),
    ensures
        r.0 == heading_level(v@.subrange(sp.start as int, sp.end as int)),
        r.0 > 0 ==> sp.start <= r.1 <= r.2 <= sp.end && v@.subrange(r.1 as int, r.2 as int)
            == heading_text(v@.subrange(sp.start as int, sp.end as int)),
{
    let ghost line = v@.subrange(sp.start as int, sp.end as int);
    let len = sp.end - sp.start;
    let s = sp.start;
    if len >= 4 && v[s] == '#' && v[s + 1] == '#' && v[s + 2] == '#' && v[s + 3] == ' ' {
        assert(line.take(4) =~= seq!['#', '#', '#', ' ']);
        let (lo, hi) = trim_bounds(v, s + 4, sp.end);
        assert(line.skip(4) =~= v@.subrange(s + 4, sp.end as int));
        (3, lo, hi)
    } else if len >= 3 && v[s] == '#' && v[s + 1] == '#' && v[s + 2] == ' ' {
        assert(line.take(3) =~= seq!['#', '#', ' ']);
        proof {
            if has_prefix(line, seq!['#', '#', '#', ' ']) {
                assert(line[2] == line.take(4)[2]);
            }
        }
        let (lo, hi) = trim_bounds(v, s + 3, sp.end);
        assert(line.skip(3) =~= v@.subrange(s + 3, sp.end as int));
        (2, lo, hi)
    } else {
        proof {
            if has_prefix(line, seq!['#', '#', '#', ' ']) {
                assert(line[0] == line.take(4)[0]);
                assert(line[1] == line.take(4)[1]);
                assert(line[2] == line.take(4)[2]);
                assert(line[3] == line.take(4)[3]);
            }
            if has_prefix(line, seq!['#', '#', ' ']) {
                assert(line[0] == line.take(3)[0]);
                assert(line[1] == line.take(3)[1]);
                assert(line[2] == line.take(3)[2]);
            }
        }
        (0, 0, 0)
    }
}

/// Parse `## ` and `### ` headings out of a markdown text. `line_start` is
/// 1-based and points at the heading itself; `line_end` is 1-based and
/// the last line that still belongs to that section.
#[verifier::loop_isolation(false)]
pub fn parse_sections(text: &str) -> (secs: Vec<AdventureSection>)
    ensures
        sections_match(text@, secs@),
{
    let v = chars_of(text);
    let spans = line_spans(&v);
    let ghost lines = lines_of(v@);
    let nlines = spans.len();
    let mut levels: Vec<u8> = Vec::new();
    let mut starts: Vec<usize> = Vec::new();
    let mut los: Vec<usize> = Vec::new();
    let mut his: Vec<usize> = Vec::new();
    let mut i: usize = 0;
    while i < nlines
        invariant
            nlines == spans@.len() == lines.len(),
            lines == lines_of(v@),
            forall|k: int| 0 <= k < spans@.len() ==> (#[trigger] spans@[k]).start <= spans@[k].end <= v@.len(),
            forall|k: int|
                0 <= k < spans@.len() ==> v@.subrange((#[trigger] spans@[k]).start as int, spans@[k].end as int)
                    == lines[k],
            i <= nlines,
            levels@.len() == starts@.len() == los@.len() == his@.len() == heading_indices(lines, i as int).len(),
            forall|k: int|
                0 <= k < levels@.len() ==> {
                    &&& #[trigger] starts@[k] == heading_indices(lines, i as int)[k] + 1
                    &&& levels@[k] == heading_level(lines[heading_indices(lines, i as int)[k]])
                    &&& v@.subrange(los@[k] as int, his@[k] as int) == heading_text(lines[heading_indices(lines, i as int)[k]])
                },
            forall|k: int| 0 <= k < los@.len() ==> #[trigger] los@[k] <= his@[k] <= v@.len(),
            forall|k: int| 0 <= k < starts@.len() ==> 1 <= #[trigger] starts@[k] <= i,
        decreases nlines - i,
    {
        let sp = &spans[i];
        let (lvl, lo, hi) = line_heading(&v, sp);
        proof {
            assert(heading_indices(lines, i + 1) == heading_indices(lines, i as int) + if heading_level(lines[i as int]) > 0 {
                seq![i as int]
            } else {
                seq![]
            });
            lemma_heading_indices_bounds(lines, i as int);
        }
        if lvl > 0 {
            let ghost old_los = los@;
            let ghost old_his = his@;
            levels.push(lvl);
            starts.push(i + 1);
            los.push(lo);
            his.push(hi);
            assert forall|k: int| 0 <= k < los@.len() implies #[trigger] los@[k] <= his@[k] <= v@.len() by {
                if k < old_los.len() {
                    assert(los@[k] == old_los[k] && his@[k] == old_his[k]);
                }
            }
        }
        i = i + 1;
    }
    let nsec = levels.len();
    let mut ends: Vec<usize> = Vec::new();
    let mut a: usize = 0;
    while a < nsec
        invariant
            nsec == levels@.len() == starts@.len(),
            a <= nsec,
            ends@.len() == a,
            forall|k: int| 0 <= k < starts@.len() ==> 1 <= #[trigger] starts@[k] <= nlines,
            forall|k: int|
                0 <= k < a ==> #[trigger] ends@[k] == end_from(levels@, starts@, k, k + 1, nlines as int),
        decreases nsec - a,
    {
        let mut b: usize = a + 1;
        let mut found: bool = false;
        let mut end: usize = nlines;
        while b < nsec && !found
            invariant
                nsec == levels@.len() == starts@.len(),
                a < nsec,
                a + 1 <= b <= nsec,
                forall|k: int| 0 <= k < starts@.len() ==> 1 <= #[trigger] starts@[k] <= nlines,
                !found ==> end_from(levels@, starts@, a as int, a + 1, nlines as int) == end_from(levels@, starts@, a as int, b as int, nlines as int),
                found ==> end == end_from(levels@, starts@, a as int, a + 1, nlines as int),
            decreases nsec - b + if found { 0int } else { 1int },
        {
            if levels[b] <= levels[a] {
                end = starts[b] - 1;
                found = true;
            } else {
                b = b + 1;
            }
        }
        if !found {
            end = nlines;
        }
        ends.push(end);
        a = a + 1;
    }
    let mut secs: Vec<AdventureSection> = Vec::new();
    let mut c: usize = 0;
    while c < nsec
        invariant
            nsec == levels@.len() == starts@.len() == los@.len() == his@.len() == ends@.len(),
            c <= nsec,
            secs@.len() == c,
            forall|k: int|
                0 <= k < c ==> {
                    &&& (#[trigger] secs@[k]).level == levels@[k]
                    &&& secs@[k].line_start == starts@[k]
                    &&& secs@[k].line_end == ends@[k]
                    &&& secs@[k].heading@ == v@.subrange(los@[k] as int, his@[k] as int)
                    &&& secs@[k].attached_images@.len() == 0
                    &&& secs@[k].notes@.len() == 0
                },
        decreases nsec - c,
    {
        let heading = string_of(&v, los[c], his[c]);
        secs.push(AdventureSection {
            heading,
            level: levels[c],
            line_start: starts[c],
            line_end: ends[c],
            attached_images: Vec::new(),
            notes: Vec::new(),
        });
        c = c + 1;
    }
    proof {
        assert(levels_of(secs@) =~= levels@);
        assert(starts_of(secs@) =~= starts@);
    }
    secs
}


/// Index just past the last '/' of `p` (0 when there is none).
pub open spec fn after_last_slash(p: Seq<char>) -> int
    decreases p.len(),
{
    if p.len() == 0 {
        0
    } else if p.last() == '/' {
        p.len() as int
    } else {
        after_last_slash(p.drop_last())
    }
}

pub proof fn lemma_after_last_slash(p: Seq<char>)
    ensures
        0 <= after_last_slash(p) <= p.len(),
        forall|i: int| after_last_slash(p) <= i < p.len() ==> p[i] != '/',
        after_last_slash(p) > 0 ==> p[after_last_slash(p) - 1] == '/',
    decreases p.len(),
{
    if p.len() > 0 && p.last() != '/' {
        lemma_after_last_slash(p.drop_last());
        assert forall|i: int| after_last_slash(p) <= i < p.len() implies p[i] != '/' by {
            if i < p.len() - 1 {
                assert(p[i] == p.drop_last()[i]);
            }
        }
        if after_last_slash(p) > 0 {
            assert(p[after_last_slash(p) - 1] == p.drop_last()[after_last_slash(p) - 1]);
        }
    }
}

/// The last component of the '/'-separated path `p`, skipping empty and
/// "." components, as `Path::file_name` sees it (empty when there is
/// none).
pub open spec fn last_component(p: Seq<char>) -> Seq<char>
    decreases p.len(),
{
    if p.len() == 0 {
        seq![]
    } else if p.last() == '/' {
        last_component(p.drop_last())
    } else {
        let k = after_last_slash(p);
        proof {
            lemma_after_last_slash(p);
        }
        if p.skip(k) == seq!['.'] {
            last_component(p.take(k))
        } else {
            p.skip(k)
        }
    }
}

/// The file name of `p`: its last component, unless that is "..".
pub open spec fn file_name_of(p: Seq<char>) -> Seq<char> {
    let c = last_component(p);
    if c == seq!['.', '.'] {
        seq![]
    } else {
        c
    }
}

/// Index of the last '.' of `s`, or -1.
pub open spec fn last_dot(s: Seq<char>) -> int
    decreases s.len(),
{
    if s.len() == 0 {
        -1
    } else if s.last() == '.' {
        s.len() - 1
    } else {
        last_dot(s.drop_last())
    }
}

/// The stem of a file name as `Path::file_stem` gives it: everything
/// before the last '.', unless that '.' is the first char or absent.
pub open spec fn stem_of(name: Seq<char>) -> Seq<char> {
    let i = last_dot(name);
    if i <= 0 {
        name
    } else {
        name.take(i)
    }
}

/// Index of the first '_' or '-' of `s`, or `s.len()`.
pub open spec fn first_sep(s: Seq<char>) -> int
    decreases s.len(),
{
    if s.len() == 0 {
        0
    } else if s[0] == '_' || s[0] == '-' {
        0
    } else {
        1 + first_sep(s.drop_first())
    }
}

/// `s` without a leading "N_" / "N-" sort prefix (N all digits, not empty).
pub open spec fn strip_sort_prefix(s: Seq<char>) -> Seq<char> {
    let i = first_sep(s);
    if 0 < i < s.len() && all_digits(s.take(i)) {
        s.skip(i + 1)
    } else {
        s
    }
}

/// Word-splitting of a stem: '_' and '-' become spaces, and a space is
/// put before an uppercase char that follows a lowercase one.
pub open spec fn split_words(s: Seq<char>, prev_lower: bool) -> Seq<char>
    decreases s.len(),
{
    if s.len() == 0 {
        seq![]
    } else {
        let c = s[0];
        if c == '_' || c == '-' {
            seq![' '] + split_words(s.drop_first(), false)
        } else if char_is_upper(c) && prev_lower {
            seq![' ', c] + split_words(s.drop_first(), false)
        } else {
            seq![c] + split_words(s.drop_first(), char_is_lower(c))
        }
    }
}

/// The display name of the file at `path`.
pub open spec fn pretty_name_of(path: Seq<char>) -> Seq<char> {
    trim(split_words(strip_sort_prefix(stem_of(file_name_of(path))), false))
}

proof fn lemma_last_dot(s: Seq<char>)
    ensures
        -1 <= last_dot(s) < s.len(),
        last_dot(s) >= 0 ==> s[last_dot(s)] == '.',
        forall|i: int| last_dot(s) < i < s.len() ==> s[i] != '.',
    decreases s.len(),
{
    if s.len() > 0 && s.last() != '.' {
        lemma_last_dot(s.drop_last());
        assert forall|i: int| last_dot(s) < i < s.len() implies s[i] != '.' by {
            if i < s.len() - 1 {
                assert(s[i] == s.drop_last()[i]);
            }
        }
        if last_dot(s) >= 0 {
            assert(s[last_dot(s)] == s.drop_last()[last_dot(s)]);
        }
    }
}

proof fn lemma_first_sep(s: Seq<char>, i: int)
    requires
        0 <= i <= s.len(),
        forall|k: int| 0 <= k < i ==> s[k] != '_' && s[k] != '-',
        i == s.len() || s[i] == '_' || s[i] == '-',
    ensures
        first_sep(s) == i,
    decreases i,
{
    if i > 0 {
        assert forall|k: int| 0 <= k < i - 1 implies s.drop_first()[k] != '_' && s.drop_first()[k] != '-' by {
            assert(s.drop_first()[k] == s[k + 1]);
        }
        lemma_first_sep(s.drop_first(), i - 1);
    }
}

/// Bounds of `last_component(v@)` within `v`.
fn last_component_bounds(v: &Vec<char>) -> (r: (usize, usize))
    ensures
        r.0 <= r.1 <= v@.len(),
        v@.subrange(r.0 as int, r.1 as int) == last_component(v@),
{
    let mut end: usize = v.len();
    assert(v@.take(end as int) =~= v@);
    loop
        invariant
            end <= v@.len(),
            last_component(v@.take(end as int)) == last_component(v@),
        decreases end,
    {
        let ghost end0 = end;
        while end > 0 && v[end - 1] == '/'
            invariant
                end <= end0,
                end <= v@.len(),
                last_component(v@.take(end as int)) == last_component(v@),
            decreases end,
        {
            assert(v@.take(end as int).drop_last() =~= v@.take(end - 1));
            end = end - 1;
        }
        if end == 0 {
            assert(v@.subrange(0, 0) =~= Seq::<char>::empty());
            return (0, 0);
        }
        let mut k: usize = end;
        while k > 0 && v[k - 1] != '/'
            invariant
                k <= end <= v@.len(),
                forall|i: int| k <= i < end ==> v@[i] != '/',
            decreases k,
        {
            k = k - 1;
        }
        let ghost t = v@.take(end as int);
        proof {
            lemma_after_last_slash(t);
            let a = after_last_slash(t);
            if a > k {
                assert(t[a - 1] == '/');
            }
            if a < k {
                assert(t[k - 1] == '/');
            }
            assert(a == k);
            assert(t.skip(k as int) =~= v@.subrange(k as int, end as int));
        }
        if end - k == 1 && v[k] == '.' {
            proof {
                assert(t.skip(k as int) =~= seq!['.']);
                assert(t.take(k as int) =~= v@.take(k as int));
            }
            end = k;
        } else {
            proof {
                if t.skip(k as int) == seq!['.'] {
                    assert(t.skip(k as int)[0] == v@[k as int]);
                }
            }
            return (k, end);
        }
    }
}

/// Turn a file path into a readable display name: takes the file stem,
/// drops a numeric sort prefix ("1_Bandits" → "Bandits"), splits
/// CamelCase / snake_case / kebab-case into words and trims.
/// Bounds of `file_name_of(v@)` within `v`.
fn file_name_bounds(v: &Vec<char>) -> (r: (usize, usize))
    ensures
        r.0 <= r.1 <= v@.len(),
        v@.subrange(r.0 as int, r.1 as int) == file_name_of(v@),
{
    let (c0, c1) = last_component_bounds(v);
    if c1 - c0 == 2 && v[c0] == '.' && v[c0 + 1] == '.' {
        assert(v@.subrange(c0 as int, c1 as int) =~= seq!['.', '.']);
        assert(v@.subrange(c0 as int, c0 as int) =~= Seq::<char>::empty());
        (c0, c0)
    } else {
        proof {
            if v@.subrange(c0 as int, c1 as int) == seq!['.', '.'] {
                assert(v@.subrange(c0 as int, c1 as int).len() == 2);
                assert(v@.subrange(c0 as int, c1 as int)[0] == v@[c0 as int]);
                assert(v@.subrange(c0 as int, c1 as int)[1] == v@[c0 + 1]);
            }
        }
        (c0, c1)
    }
}

/// End of `stem_of(v[f0..f1])` within `v`.
fn stem_end(v: &Vec<char>, f0: usize, f1: usize) -> (s1: usize)
    requires
        f0 <= f1 <= v@.len(),
    ensures
        f0 <= s1 <= f1,
        v@.subrange(f0 as int, s1 as int) == stem_of(v@.subrange(f0 as int, f1 as int)),
{
    let mut d: usize = f1;
    while d > f0 && v[d - 1] != '.'
        invariant
            f0 <= d <= f1 <= v@.len(),
            forall|i: int| d <= i < f1 ==> v@[i] != '.',
        decreases d,
    {
        d = d - 1;
    }
    let ghost nm = v@.subrange(f0 as int, f1 as int);
    proof {
        lemma_last_dot(nm);
        let ld = last_dot(nm);
        if ld >= 0 && ld + f0 >= d {
            assert(nm[ld] == v@[f0 + ld]);
        }
        if d > f0 {
            assert(nm[d - 1 - f0] == v@[d - 1]);
        }
        assert(ld == d - 1 - f0);
    }
    let s1 = if d > f0 && d - f0 > 1 { d - 1 } else { f1 };
    assert(v@.subrange(f0 as int, s1 as int) =~= stem_of(nm));
    s1
}

/// Start of `strip_sort_prefix(v[f0..s1])` within `v`.
fn sort_prefix_end(v: &Vec<char>, f0: usize, s1: usize) -> (start: usize)
    requires
        f0 <= s1 <= v@.len(),
    ensures
        f0 <= start <= s1,
        v@.subrange(start as int, s1 as int) == strip_sort_prefix(v@.subrange(f0 as int, s1 as int)),
{
    let mut i: usize = f0;
    while i < s1 && v[i] != '_' && v[i] != '-'
        invariant
            f0 <= i <= s1 <= v@.len(),
            forall|k: int| f0 <= k < i ==> v@[k] != '_' && v@[k] != '-',
        decreases s1 - i,
    {
        i = i + 1;
    }
    let ghost stem = v@.subrange(f0 as int, s1 as int);
    proof {
        lemma_first_sep(stem, i - f0);
    }
    let mut digits = i > f0 && i < s1;
    let mut j: usize = f0;
    while digits && j < i
        invariant
            f0 <= j <= i <= s1 <= v@.len(),
            stem == v@.subrange(f0 as int, s1 as int),
            digits ==> i > f0 && i < s1,
            digits ==> forall|k: int| f0 <= k < j ==> '0' <= v@[k] && v@[k] <= '9',
            !digits ==> !(i > f0 && i < s1 && all_digits(stem.take(i - f0))),
        decreases i - j,
    {
        if !('0' <= v[j] && v[j] <= '9') {
            proof {
                assert(stem.take(i - f0)[j - f0] == v@[j as int]);
            }
            digits = false;
        }
        j = j + 1;
    }
    proof {
        if digits {
            assert forall|k: int| 0 <= k < stem.take(i - f0).len() implies crate::text::is_digit(#[trigger] stem.take(i - f0)[k]) by {
                assert(stem.take(i - f0)[k] == v@[f0 + k]);
            }
        }
    }
    let start = if digits { i + 1 } else { f0 };
    assert(v@.subrange(start as int, s1 as int) =~= strip_sort_prefix(stem));
    start
}

/// `split_words(v[start..end], false)`.
fn split_words_of(v: &Vec<char>, start: usize, end: usize) -> (words: Vec<char>)
    requires
        start <= end <= v@.len(),
    ensures
        words@ == split_words(v@.subrange(start as int, end as int), false),
{
    let ghost core = v@.subrange(start as int, end as int);
    let mut words: Vec<char> = Vec::new();
    let mut prev_lower = false;
    let mut k: usize = start;
    proof {
        assert(core.skip(0) =~= core);
    }
    while k < end
        invariant
            start <= k <= end <= v@.len(),
            core == v@.subrange(start as int, end as int),
            split_words(core, false) == words@ + split_words(core.skip(k - start), prev_lower),
        decreases end - k,
    {
        let ch = v[k];
        let ghost rest = core.skip(k - start);
        assert(rest[0] == ch);
        assert(rest.drop_first() =~= core.skip(k + 1 - start));
        if ch == '_' || ch == '-' {
            words.push(' ');
            prev_lower = false;
        } else if is_upper(ch) && prev_lower {
            words.push(' ');
            words.push(ch);
            prev_lower = false;
        } else {
            words.push(ch);
            prev_lower = is_lower(ch);
        }
        k = k + 1;
        assert(split_words(core, false) =~= words@ + split_words(core.skip(k - start), prev_lower));
    }
    assert(core.skip(end - start) =~= Seq::<char>::empty());
    assert(words@ =~= split_words(core, false));
    words
}

/// Turn a file path into a readable display name: takes the file stem,
/// drops a numeric sort prefix ("1_Bandits" → "Bandits"), splits
/// CamelCase / snake_case / kebab-case into words and trims.
pub fn pretty_name(path: &str) -> (r: String)
    ensures
        r@ == pretty_name_of(path@),
{
    let v = chars_of(path);
    let (f0, f1) = file_name_bounds(&v);
    let s1 = stem_end(&v, f0, f1);
    let start = sort_prefix_end(&v, f0, s1);
    proof {
        assert(v@.subrange(f0 as int, s1 as int) == stem_of(file_name_of(path@)));
    }
    let words = split_words_of(&v, start, s1);
    let (t0, t1) = trim_bounds(&words, 0, words.len());
    assert(words@.subrange(0, words@.len() as int) =~= words@);
    string_of(&words, t0, t1)
}

} // verus!
verus! {

// ------------------------------------------------------------- adventure

/// One adventure inside a campaign. Asset paths are relative to
/// `root_dir`, so the campaign file stays valid if the directory moves.
#[derive(Debug, Clone)]
pub struct Adventure {
    pub id: u64,
    pub name: String,
    /// Filesystem path of the adventure's root directory.
    pub root_dir: String,
    /// Path (relative to `root_dir`) of the main narrative markdown;
    /// empty when there is none.
    pub narrative_md: String,
    /// The `##` / `###` sections of the narrative.
    pub sections: Vec<AdventureSection>,
    /// Index into `sections` of the section the GM is on.
    pub current_section: Option<usize>,
    pub scenes: Vec<AdventureAsset>,
    pub floorplans: Vec<AdventureAsset>,
    pub npc_portraits: Vec<AdventureAsset>,
    /// `.npc` stat-block text files.
    pub npc_docs: Vec<AdventureAsset>,
    /// Free-form GM notes.
    pub notes: String,
}

impl Default for Adventure {
    fn default() -> (r: Adventure)
        ensures
            r.id == 0,
            r.name@.len() == 0,
            r.root_dir@.len() == 0,
            r.narrative_md@.len() == 0,
            r.sections@.len() == 0,
            r.current_section is None,
            r.scenes@.len() == 0,
            r.floorplans@.len() == 0,
            r.npc_portraits@.len() == 0,
            r.npc_docs@.len() == 0,
            r.notes@.len() == 0,
    {
        Adventure {
            id: 0,
            name: String::new(),
            root_dir: String::new(),
            narrative_md: String::new(),
            sections: Vec::new(),
            current_section: None,
            scenes: Vec::new(),
            floorplans: Vec::new(),
            npc_portraits: Vec::new(),
            npc_docs: Vec::new(),
            notes: String::new(),
        }
    }
}

/// What `Path::new(base).join(rel)` gives, as text.
pub uninterp spec fn path_joined(base: Seq<char>, rel: Seq<char>) -> Seq<char>;

/// How `Path::join` joins on Unix, as its documentation shows it: an
/// absolute `rel` (one that starts with `/`) replaces `base`; a relative
/// one is appended to a non-empty `base` that does not end in `/` after
/// a separator.
pub open spec fn documented_join(base: Seq<char>, rel: Seq<char>) -> Option<Seq<char>> {
    if rel.len() > 0 && rel[0] == '/' {
        Some(rel)
    } else if base.len() > 0 && base.last() != '/' && rel.len() > 0 {
        Some(base + seq!['/'] + rel)
    } else {
        None
    }
}

/// `std::path::Path::join`, the joined path read back as text; the
/// result is the name `path_joined`. This library runs on Unix targets
/// only (the programs around it open files with Unix tools), and there
/// the result is also what `documented_join` gives where that is
/// defined: the cases that `PathBuf::push`'s documentation shows. Its
/// documentation does not show the others (an empty `base` or `rel`, a
/// `base` ending in `/`), so they are left to the name. On Windows the
/// `documented_join` clause would not hold (`\` separates there).
#[verifier::external_body]
fn join_path(base: &str, rel: &str) -> (r: String)
    ensures
        r@ == path_joined(base@, rel@),
        documented_join(base@, rel@) matches Some(j) ==> r@ == j,
{
    std::path::Path::new(base).join(rel).to_string_lossy().into_owned()
}

impl Adventure {
    /// Resolve an asset's stored relative path against `root_dir`.
    pub fn absolute(&self, rel: &str) -> (r: String)
        ensures
            r@ == path_joined(self.root_dir@, rel@),
            documented_join(self.root_dir@, rel@) matches Some(j) ==> r@ == j,
    {
        join_path(self.root_dir.as_str(), rel)
    }

    /// Refresh `sections` from the narrative text (`None` when the file
    /// could not be read, which leaves no sections).
    pub fn rescan_sections_from(&mut self, text: Option<&str>)
        ensures
            match text {
                Some(t) => sections_match(t@, final(self).sections@),
                None => final(self).sections@.len() == 0,
            },
            final(self).name == old(self).name,
            final(self).root_dir == old(self).root_dir,
            final(self).narrative_md == old(self).narrative_md,
            final(self).scenes == old(self).scenes,
            final(self).floorplans == old(self).floorplans,
            final(self).id == old(self).id,
            final(self).current_section == old(self).current_section,
            final(self).npc_portraits == old(self).npc_portraits,
            final(self).npc_docs == old(self).npc_docs,
            final(self).notes == old(self).notes,
    {
        match text {
            Some(t) => {
                self.sections = parse_sections(t);
            },
            None => {
                self.sections = Vec::new();
            },
        }
    }
}

/// The lines of a section's body: after its heading line, up to its last
/// line (cut at the text's end).
pub open spec fn section_lines(lines: Seq<Seq<char>>, line_start: int, line_end: int) -> Seq<Seq<char>> {
    let end = if line_end < lines.len() { line_end } else { lines.len() as int };
    if line_start >= end {
        Seq::empty()
    } else {
        lines.subrange(line_start, end)
    }
}

/// The body lines of section `sec_idx` of `adv` in the narrative `text`;
/// none for an unknown section.
pub fn section_body(adv: &Adventure, sec_idx: usize, text: &str) -> (r: Vec<String>)
    ensures
        sec_idx >= adv.sections@.len() ==> r@.len() == 0,
        sec_idx < adv.sections@.len() ==> str_views(r@) == section_lines(
            lines_of(text@),
            adv.sections@[sec_idx as int].line_start as int,
            adv.sections@[sec_idx as int].line_end as int,
        ),
{
    if sec_idx >= adv.sections.len() {
        return Vec::new();
    }
    let v = chars_of(text);
    let spans = line_spans(&v);
    let ghost ls = lines_of(v@);
    let start = adv.sections[sec_idx].line_start;
    let end = if adv.sections[sec_idx].line_end < spans.len() { adv.sections[sec_idx].line_end } else { spans.len() };
    let mut out: Vec<String> = Vec::new();
    if start >= end {
        assert(str_views(out@) =~= Seq::<Seq<char>>::empty());
        return out;
    }
    let mut i = start;
    while i < end
        invariant
            v@ == text@,
            ls == lines_of(v@),
            spans@.len() == ls.len(),
            forall|k: int| 0 <= k < spans@.len() ==> (#[trigger] spans@[k]).start <= spans@[k].end <= v@.len(),
            forall|k: int| 0 <= k < spans@.len() ==> v@.subrange((#[trigger] spans@[k]).start as int, spans@[k].end as int) == ls[k],
            start <= i <= end <= spans@.len(),
            str_views(out@) == ls.subrange(start as int, i as int),
        decreases end - i,
    {
        let ghost sp = spans@[i as int];
        let line = string_of(&v, spans[i].start, spans[i].end);
        assert(line@ == ls[i as int]);
        let ghost old_out = out@;
        let ghost lv = line@;
        out.push(line);
        assert(str_views(out@) =~= str_views(old_out).push(lv));
        i = i + 1;
        assert(str_views(out@) =~= ls.subrange(start as int, i as int));
    }
    out
}

// ---------------------------------------------------------------- assets

/// `c` with ASCII upper case made lower (`char::to_ascii_lowercase`).
pub open spec fn ascii_lower(c: char) -> char {
    if 'A' <= c && c <= 'Z' {
        ((c as u32 + 32) as u8) as char
    } else {
        c
    }
}

/// The extension of a file name as `Path::extension` gives it: after the
/// last '.', unless that '.' is the first char or absent.
pub open spec fn extension_of(name: Seq<char>) -> Option<Seq<char>> {
    if last_dot(name) > 0 {
        Some(name.skip(last_dot(name) + 1))
    } else {
        None
    }
}

/// The extension of the file at `path`, ASCII-lowercased, is one of
/// `exts`.
pub open spec fn has_ext_in(path: Seq<char>, exts: Seq<&str>) -> bool {
    match extension_of(file_name_of(path)) {
        Some(e) => exists|i: int| 0 <= i < exts.len() && exts[i]@ == Seq::new(e.len(), |k: int| ascii_lower(e[k])),
        None => false,
    }
}

/// The image extensions scene, floorplan and portrait files carry.
pub open spec fn image_ext_list() -> Seq<&'static str> {
    seq!["png", "jpg", "jpeg", "webp", "gif"]
}

pub fn image_exts() -> (r: [&'static str; 5])
    ensures
        r@ == image_ext_list(),
{
    ["png", "jpg", "jpeg", "webp", "gif"]
}

/// The chars `[from, to)` of the file name's extension within `v`, if
/// it has one.
fn extension_bounds(v: &Vec<char>) -> (r: Option<(usize, usize)>)
    ensures
        match r {
            Some((a, b)) => a <= b <= v@.len() && extension_of(file_name_of(v@)) == Some(v@.subrange(a as int, b as int)),
            None => extension_of(file_name_of(v@)) is None,
        },
{
    let (f0, f1) = file_name_bounds(v);
    let s1 = stem_end(v, f0, f1);
    let ghost nm = v@.subrange(f0 as int, f1 as int);
    proof {
        lemma_last_dot(nm);
    }
    if s1 < f1 {
        proof {
            let ld = last_dot(nm);
            assert(stem_of(nm) == v@.subrange(f0 as int, s1 as int));
            assert(ld > 0);
            assert(nm.take(ld).len() == s1 - f0);
            assert(nm.skip(ld + 1) =~= v@.subrange(s1 + 1, f1 as int));
        }
        Some((s1 + 1, f1))
    } else {
        proof {
            if last_dot(nm) > 0 {
                assert(stem_of(nm).len() == last_dot(nm));
            }
        }
        None
    }
}

/// Whether the file at `p` has an extension, matched without regard to
/// ASCII case, from `exts`.
pub fn is_image_or_ext(p: &str, exts: &[&str]) -> (b: bool)
    ensures
        b == has_ext_in(p@, exts@),
{
    let v = chars_of(p);
    match extension_bounds(&v) {
        None => false,
        Some((a, e)) => {
            let mut low = String::new();
            let mut i = a;
            while i < e
                invariant
                    a <= i <= e <= v@.len(),
                    low@ == Seq::new((i - a) as nat, |k: int| ascii_lower(v@[a + k])),
                decreases e - i,
            {
                let c = v[i];
                let l = if 'A' <= c && c <= 'Z' { ((c as u32 + 32) as u8) as char } else { c };
                push_char(&mut low, l);
                i = i + 1;
                assert(low@ =~= Seq::new((i - a) as nat, |k: int| ascii_lower(v@[a + k])));
            }
            let ghost ext = v@.subrange(a as int, e as int);
            assert(low@ =~= Seq::new(ext.len(), |k: int| ascii_lower(ext[k])));
            str_in(exts, low.as_str())
        },
    }
}

/// Whether `s` is one of `list`.
fn str_in(list: &[&str], s: &str) -> (b: bool)
    ensures
        b == exists|i: int| 0 <= i < list@.len() && list@[i]@ == s@,
{
    let mut j: usize = 0;
    while j < list.len()
        invariant
            j <= list@.len(),
            forall|t: int| 0 <= t < j ==> list@[t]@ != s@,
        decreases list@.len() - j,
    {
        if str_eq(list[j], s) {
            return true;
        }
        j = j + 1;
    }
    false
}

/// An asset as its (name, path) text.
pub open spec fn asset_view(a: AdventureAsset) -> (Seq<char>, Seq<char>) {
    (a.name@, a.path@)
}

pub open spec fn asset_views(s: Seq<AdventureAsset>) -> Seq<(Seq<char>, Seq<char>)> {
    Seq::new(s.len(), |i: int| asset_view(s[i]))
}

/// `s` (sorted by name) with `x` placed after every entry whose name
/// does not sort after it.
pub open spec fn insert_by_name(s: Seq<(Seq<char>, Seq<char>)>, x: (Seq<char>, Seq<char>)) -> Seq<(Seq<char>, Seq<char>)>
    decreases s.len(),
{
    if s.len() == 0 {
        seq![x]
    } else if lex_lt(x.0, s.last().0) {
        insert_by_name(s.drop_last(), x).push(s.last())
    } else {
        s.push(x)
    }
}

/// `s` sorted by name, entries with equal names in their order in `s`
/// (the stable sort `sort_by` on the names gives).
pub open spec fn sorted_by_name(s: Seq<(Seq<char>, Seq<char>)>) -> Seq<(Seq<char>, Seq<char>)>
    decreases s.len(),
{
    if s.len() == 0 {
        Seq::empty()
    } else {
        insert_by_name(sorted_by_name(s.drop_last()), s.last())
    }
}

proof fn lemma_insert_by_name_at(s: Seq<(Seq<char>, Seq<char>)>, x: (Seq<char>, Seq<char>), p: int)
    requires
        0 <= p <= s.len(),
        forall|i: int| p <= i < s.len() ==> lex_lt(x.0, #[trigger] s[i].0),
        p == 0 || !lex_lt(x.0, s[p - 1].0),
    ensures
        insert_by_name(s, x) == s.insert(p, x),
    decreases s.len(),
{
    if s.len() == 0 {
        assert(s.insert(p, x) =~= seq![x]);
    } else if p < s.len() {
        assert(lex_lt(x.0, s.last().0));
        lemma_insert_by_name_at(s.drop_last(), x, p);
        assert(s.drop_last().insert(p, x).push(s.last()) =~= s.insert(p, x));
    } else {
        assert(s.insert(p, x) =~= s.push(x));
    }
}

/// Names in order: no name sorts before an earlier one.
pub open spec fn names_sorted(s: Seq<(Seq<char>, Seq<char>)>) -> bool {
    forall|i: int, j: int| 0 <= i < j < s.len() ==> !lex_lt(#[trigger] s[j].0, #[trigger] s[i].0)
}

proof fn lemma_insert_by_name_sorted(s: Seq<(Seq<char>, Seq<char>)>, x: (Seq<char>, Seq<char>))
    requires
        names_sorted(s),
    ensures
        names_sorted(insert_by_name(s, x)),
        insert_by_name(s, x).len() == s.len() + 1,
        forall|k: int| 0 <= k < insert_by_name(s, x).len() ==> #[trigger] insert_by_name(s, x)[k] == x
            || s.contains(insert_by_name(s, x)[k]),
    decreases s.len(),
{
    if s.len() > 0 {
        let last = s.last();
        if lex_lt(x.0, last.0) {
            let d = s.drop_last();
            assert(names_sorted(d)) by {
                assert forall|i: int, j: int| 0 <= i < j < d.len() implies !lex_lt(#[trigger] d[j].0, #[trigger] d[i].0) by {
                    assert(d[i] == s[i] && d[j] == s[j]);
                }
            }
            lemma_insert_by_name_sorted(d, x);
            let r = insert_by_name(d, x);
            let t = r.push(last);
            assert forall|k: int| 0 <= k < r.len() implies !lex_lt(last.0, #[trigger] r[k].0) by {
                if r[k] == x {
                    lemma_lex_trichotomy(x.0, last.0);
                } else {
                    assert(d.contains(r[k]));
                    let m = choose|m: int| 0 <= m < d.len() && d[m] == r[k];
                    assert(s[m] == d[m]);
                    assert(s[s.len() - 1] == last);
                }
            }
            assert forall|i: int, j: int| 0 <= i < j < t.len() implies !lex_lt(#[trigger] t[j].0, #[trigger] t[i].0) by {
                if j < r.len() {
                    assert(t[i] == r[i] && t[j] == r[j]);
                } else {
                    assert(t[i] == r[i] && t[j] == last);
                }
            }
            assert forall|k: int| 0 <= k < t.len() implies #[trigger] t[k] == x || s.contains(t[k]) by {
                if k < r.len() {
                    assert(t[k] == r[k]);
                    if r[k] != x {
                        let m = choose|m: int| 0 <= m < d.len() && d[m] == r[k];
                        assert(s[m] == d[m]);
                    }
                } else {
                    assert(s[s.len() - 1] == last);
                }
            }
        } else {
            let t = s.push(x);
            assert forall|i: int, j: int| 0 <= i < j < t.len() implies !lex_lt(#[trigger] t[j].0, #[trigger] t[i].0) by {
                if j < s.len() {
                    assert(t[i] == s[i] && t[j] == s[j]);
                } else if i < s.len() - 1 {
                    assert(t[i] == s[i] && t[j] == x);
                    assert(!lex_lt(s[s.len() - 1].0, s[i].0));
                    lemma_lex_trichotomy(x.0, last.0);
                    lemma_lex_trichotomy(last.0, s[i].0);
                    if lex_lt(x.0, s[i].0) {
                        if lex_lt(last.0, x.0) {
                            lemma_lex_transitive(last.0, x.0, s[i].0);
                        }
                    }
                } else {
                    assert(t[i] == last && t[j] == x);
                }
            }
            assert forall|k: int| 0 <= k < t.len() implies #[trigger] t[k] == x || s.contains(t[k]) by {
                if k < s.len() {
                    assert(t[k] == s[k]);
                }
            }
        }
    }
}

/// Sorting by name puts the names in order.
pub proof fn lemma_sorted_by_name_sorted(s: Seq<(Seq<char>, Seq<char>)>)
    ensures
        names_sorted(sorted_by_name(s)),
        sorted_by_name(s).len() == s.len(),
    decreases s.len(),
{
    if s.len() > 0 {
        lemma_sorted_by_name_sorted(s.drop_last());
        lemma_insert_by_name_sorted(sorted_by_name(s.drop_last()), s.last());
    }
}

/// Inserts `a` into the name-sorted `out` as `insert_by_name` does.
fn insert_asset(out: &mut Vec<AdventureAsset>, a: AdventureAsset)
    ensures
        asset_views(final(out)@) == insert_by_name(asset_views(old(out)@), asset_view(a)),
{
    let mut p = out.len();
    while p > 0 && str_lt(a.name.as_str(), out[p - 1].name.as_str())
        invariant
            p <= out@.len(),
            forall|i: int| p <= i < out@.len() ==> lex_lt(a.name@, #[trigger] out@[i].name@),
        decreases p,
    {
        p = p - 1;
    }
    let ghost before = asset_views(out@);
    let ghost av = asset_view(a);
    proof {
        lemma_insert_by_name_at(before, av, p as int);
    }
    out.insert(p, a);
    assert(asset_views(out@) =~= before.insert(p as int, av));
}

/// The assets among `paths` (relative file paths, in walk order) whose
/// extension is in `exts`: the file's display name and its path.
pub open spec fn matching_assets(paths: Seq<Seq<char>>, exts: Seq<&str>) -> Seq<(Seq<char>, Seq<char>)>
    decreases paths.len(),
{
    if paths.len() == 0 {
        Seq::empty()
    } else {
        let rest = matching_assets(paths.drop_last(), exts);
        let p = paths.last();
        if has_ext_in(p, exts) {
            rest.push((pretty_name_of(p), p))
        } else {
            rest
        }
    }
}

/// The assets of a set of walked files: those with one of the `exts`,
/// named from their file names, sorted by name.
pub fn scan_assets(paths: &Vec<String>, exts: &[&str]) -> (r: Vec<AdventureAsset>)
    ensures
        asset_views(r@) == sorted_by_name(matching_assets(str_views(paths@), exts@)),
{
    let ghost ps = str_views(paths@);
    let mut out: Vec<AdventureAsset> = Vec::new();
    let mut i: usize = 0;
    assert(asset_views(out@) =~= sorted_by_name(matching_assets(ps.take(0), exts@)));
    while i < paths.len()
        invariant
            ps == str_views(paths@),
            i <= paths@.len(),
            asset_views(out@) == sorted_by_name(matching_assets(ps.take(i as int), exts@)),
        decreases paths@.len() - i,
    {
        assert(ps.take(i + 1).drop_last() =~= ps.take(i as int));
        assert(ps.take(i + 1).last() == paths@[i as int]@);
        let p = paths[i].as_str();
        let ghost m = matching_assets(ps.take(i as int), exts@);
        if is_image_or_ext(p, exts) {
            let a = AdventureAsset { name: pretty_name(p), path: paths[i].clone() };
            assert(matching_assets(ps.take(i + 1), exts@) == m.push(asset_view(a)));
            assert(m.push(asset_view(a)).drop_last() =~= m);
            insert_asset(&mut out, a);
        } else {
            assert(matching_assets(ps.take(i + 1), exts@) == m);
        }
        i = i + 1;
    }
    assert(ps.take(ps.len() as int) =~= ps);
    out
}

/// The `.npc` documents among `paths`, each path once (its first
/// occurrence kept), in walk order.
pub open spec fn npc_files(paths: Seq<Seq<char>>) -> Seq<(Seq<char>, Seq<char>)>
    decreases paths.len(),
{
    if paths.len() == 0 {
        Seq::empty()
    } else {
        let rest = npc_files(paths.drop_last());
        let p = paths.last();
        if extension_of(file_name_of(p)) == Some(seq!['n', 'p', 'c'])
            && !(exists|i: int| 0 <= i < rest.len() && rest[i].1 == p) {
            rest.push((pretty_name_of(p), p))
        } else {
            rest
        }
    }
}

/// Whether one of the assets has path `p`.
fn has_path(v: &Vec<AdventureAsset>, p: &str) -> (b: bool)
    ensures
        b == exists|i: int| 0 <= i < v@.len() && v@[i].path@ == p@,
{
    let mut i: usize = 0;
    while i < v.len()
        invariant
            i <= v@.len(),
            forall|k: int| 0 <= k < i ==> v@[k].path@ != p@,
        decreases v@.len() - i,
    {
        if str_eq(v[i].path.as_str(), p) {
            return true;
        }
        i = i + 1;
    }
    false
}

/// The `.npc` stat-block documents of a set of walked files (the root's
/// files, then the usual subdirectories), each path once, sorted by name.
pub fn scan_npc_docs(paths: &Vec<String>) -> (r: Vec<AdventureAsset>)
    ensures
        asset_views(r@) == sorted_by_name(npc_files(str_views(paths@))),
{
    let ghost ps = str_views(paths@);
    let mut found: Vec<AdventureAsset> = Vec::new();
    let mut i: usize = 0;
    assert(asset_views(found@) =~= npc_files(ps.take(0)));
    while i < paths.len()
        invariant
            ps == str_views(paths@),
            i <= paths@.len(),
            asset_views(found@) == npc_files(ps.take(i as int)),
        decreases paths@.len() - i,
    {
        assert(ps.take(i + 1).drop_last() =~= ps.take(i as int));
        assert(ps.take(i + 1).last() == paths@[i as int]@);
        let p = paths[i].as_str();
        let v = chars_of(p);
        let is_npc = match extension_bounds(&v) {
            Some((a, e)) => {
                let ok = e - a == 3 && v[a] == 'n' && v[a + 1] == 'p' && v[a + 2] == 'c';
                proof {
                    let ext = v@.subrange(a as int, e as int);
                    if ok {
                        assert(ext =~= seq!['n', 'p', 'c']);
                    }
                    if ext == seq!['n', 'p', 'c'] {
                        assert(ext.len() == 3);
                        assert(ext[0] == v@[a as int]);
                        assert(ext[1] == v@[a + 1]);
                        assert(ext[2] == v@[a + 2]);
                    }
                }
                ok
            },
            None => false,
        };
        let ghost rest = asset_views(found@);
        let dup = has_path(&found, p);
        assert(dup == exists|k: int| 0 <= k < rest.len() && rest[k].1 == p@) by {
            if dup {
                let k = choose|k: int| 0 <= k < found@.len() && found@[k].path@ == p@;
                assert(rest[k].1 == p@);
            }
        }
        if is_npc && !dup {
            let a = AdventureAsset { name: pretty_name(p), path: paths[i].clone() };
            found.push(a);
            assert(asset_views(found@) =~= rest.push((pretty_name_of(p@), p@)));
        }
        i = i + 1;
    }
    assert(ps.take(ps.len() as int) =~= ps);
    let mut out: Vec<AdventureAsset> = Vec::new();
    let ghost fv = asset_views(found@);
    let mut j: usize = 0;
    assert(asset_views(out@) =~= sorted_by_name(fv.take(0)));
    while j < found.len()
        invariant
            fv == asset_views(found@),
            j <= found@.len(),
            asset_views(out@) == sorted_by_name(fv.take(j as int)),
        decreases found@.len() - j,
    {
        assert(fv.take(j + 1).drop_last() =~= fv.take(j as int));
        let a = AdventureAsset { name: found[j].name.clone(), path: found[j].path.clone() };
        insert_asset(&mut out, a);
        j = j + 1;
    }
    assert(fv.take(fv.len() as int) =~= fv);
    out
}

/// The name of the largest `.md` file among the root's entries (the
/// first of equal largest ones), if any.
pub open spec fn largest_md(entries: Seq<(Seq<char>, u64)>) -> Option<(Seq<char>, u64)>
    decreases entries.len(),
{
    if entries.len() == 0 {
        None
    } else {
        let best = largest_md(entries.drop_last());
        let (name, size) = entries.last();
        if extension_of(file_name_of(name)) == Some(seq!['m', 'd']) && (best is None || size > best.unwrap().1) {
            Some((name, size))
        } else {
            best
        }
    }
}

/// The root entries as (file name, size) text.
pub open spec fn entry_views(s: Seq<(String, u64)>) -> Seq<(Seq<char>, u64)> {
    Seq::new(s.len(), |i: int| (s[i].0@, s[i].1))
}

/// Of the root directory's entries (file name and size, in listing
/// order), the name of the largest `.md`.
pub fn find_largest_md(entries: &Vec<(String, u64)>) -> (r: Option<String>)
    ensures
        match r {
            Some(n) => largest_md(entry_views(entries@)) matches Some(b) && b.0 == n@,
            None => largest_md(entry_views(entries@)) is None,
        },
{
    let ghost es = entry_views(entries@);
    let mut best: Option<(u64, usize)> = None;
    let mut i: usize = 0;
    while i < entries.len()
        invariant
            es == entry_views(entries@),
            i <= entries@.len(),
            match best {
                Some((s, k)) => k < i && largest_md(es.take(i as int)) == Some((es[k as int].0, s)),
                None => largest_md(es.take(i as int)) is None,
            },
        decreases entries@.len() - i,
    {
        assert(es.take(i + 1).drop_last() =~= es.take(i as int));
        assert(es.take(i + 1).last() == es[i as int]);
        let v = chars_of(entries[i].0.as_str());
        let is_md = match extension_bounds(&v) {
            Some((a, e)) => {
                let ok = e - a == 2 && v[a] == 'm' && v[a + 1] == 'd';
                proof {
                    let ext = v@.subrange(a as int, e as int);
                    if ok {
                        assert(ext =~= seq!['m', 'd']);
                    }
                    if ext == seq!['m', 'd'] {
                        assert(ext.len() == 2);
                        assert(ext[0] == v@[a as int]);
                        assert(ext[1] == v@[a + 1]);
                    }
                }
                ok
            },
            None => false,
        };
        let size = entries[i].1;
        if is_md {
            let better = match best {
                Some((s, _)) => size > s,
                None => true,
            };
            if better {
                best = Some((size, i));
            }
        }
        i = i + 1;
    }
    assert(es.take(es.len() as int) =~= es);
    match best {
        Some((_, k)) => Some(entries[k].0.clone()),
        None => None,
    }
}

/// What the importer reads from an adventure directory.
pub struct DirScan {
    /// The directory's path.
    pub root: String,
    /// Whether it is a directory.
    pub is_dir: bool,
    /// Its last path component, when it has a readable one.
    pub file_name: Option<String>,
    /// Whether `<name>.md` is a file in it.
    pub preferred_is_file: bool,
    /// Its entries (file name, size in bytes), in listing order.
    pub root_entries: Vec<(String, u64)>,
    /// Files under the scene folders (`Scenes`, `scenes`), relative.
    pub scene_files: Vec<String>,
    /// Files under the floorplan folders (`Floorplans`, `floorplans`,
    /// `Maps`, `maps`), relative.
    pub floorplan_files: Vec<String>,
    /// Files under the portrait folders (`NPCs`, `npcs`, `Portraits`,
    /// `portraits`), relative.
    pub portrait_files: Vec<String>,
    /// The root's files, then the files under `GeneralNPCs`, `NPCs`,
    /// `npcs`, `Trial` and `Encounters`, relative.
    pub npc_doc_files: Vec<String>,
}

/// The narrative file an import picks: `<name>.md` when it is a file,
/// else the largest `.md` at the root, else none.
pub open spec fn narrative_choice(name: Seq<char>, preferred: bool, entries: Seq<(Seq<char>, u64)>) -> Seq<char> {
    if preferred {
        name + seq!['.', 'm', 'd']
    } else {
        match largest_md(entries) {
            Some(b) => b.0,
            None => Seq::empty(),
        }
    }
}

/// The adventure name of a directory: its last component, or
/// "Adventure".
pub open spec fn adventure_name(file_name: Option<Seq<char>>) -> Seq<char> {
    match file_name {
        Some(n) => n,
        None => "Adventure"@,
    }
}

/// The adventure name of a directory with last component `file_name`.
pub fn dir_adventure_name(file_name: &Option<String>) -> (r: String)
    ensures
        r@ == adventure_name(match file_name { Some(n) => Some(n@), None => None }),
{
    match file_name {
        Some(n) => n.clone(),
        None => String::from_str("Adventure"),
    }
}

/// Build an adventure from what was read of its directory: name,
/// narrative file, and the scene / floorplan / portrait images and
/// `.npc` documents, each list sorted by name. Its sections come from
/// the narrative text (`rescan_sections_from`) and
/// `attach_scene_images`.
pub fn import_from_dir(scan: &DirScan, next_id: u64) -> (r: Result<Adventure, String>)
    ensures
        !scan.is_dir <==> r is Err,
        r matches Err(e) ==> e@ == "not a directory: "@ + scan.root@,
        r matches Ok(a) ==> {
            let name = adventure_name(match scan.file_name { Some(n) => Some(n@), None => None });
            &&& a.id == next_id
            &&& a.name@ == name
            &&& a.root_dir@ == scan.root@
            &&& a.narrative_md@ == narrative_choice(name, scan.preferred_is_file, entry_views(scan.root_entries@))
            &&& a.sections@.len() == 0
            &&& a.current_section is None
            &&& asset_views(a.scenes@) == sorted_by_name(matching_assets(str_views(scan.scene_files@), image_ext_list()))
            &&& asset_views(a.floorplans@) == sorted_by_name(matching_assets(str_views(scan.floorplan_files@), image_ext_list()))
            &&& asset_views(a.npc_portraits@) == sorted_by_name(matching_assets(str_views(scan.portrait_files@), image_ext_list()))
            &&& asset_views(a.npc_docs@) == sorted_by_name(npc_files(str_views(scan.npc_doc_files@)))
            &&& a.notes@.len() == 0
        },
{
    if !scan.is_dir {
        let mut e = String::from_str("not a directory: ");
        e.append(scan.root.as_str());
        return Err(e);
    }
    let name = dir_adventure_name(&scan.file_name);
    let narrative_md = if scan.preferred_is_file {
        let mut m = name.clone();
        push_char(&mut m, '.');
        push_char(&mut m, 'm');
        push_char(&mut m, 'd');
        assert(m@ =~= name@ + seq!['.', 'm', 'd']);
        m
    } else {
        match find_largest_md(&scan.root_entries) {
            Some(n) => n,
            None => String::new(),
        }
    };
    let exts = image_exts();
    Ok(Adventure {
        id: next_id,
        name,
        root_dir: scan.root.clone(),
        narrative_md,
        sections: Vec::new(),
        current_section: None,
        scenes: scan_assets(&scan.scene_files, exts.as_slice()),
        floorplans: scan_assets(&scan.floorplan_files, exts.as_slice()),
        npc_portraits: scan_assets(&scan.portrait_files, exts.as_slice()),
        npc_docs: scan_npc_docs(&scan.npc_doc_files),
        notes: String::new(),
    })
}

/// Whether section `sec_idx` has a deeper heading right under it, before
/// the next sibling-or-shallower one (which makes it expandable).
pub fn section_has_children(adv: &Adventure, sec_idx: usize) -> (b: bool)
    ensures
        b == (sec_idx + 1 < adv.sections@.len() && adv.sections@[sec_idx + 1].level > adv.sections@[sec_idx as int].level),
{
    if sec_idx >= adv.sections.len() {
        return false;
    }
    sec_idx + 1 < adv.sections.len() && adv.sections[sec_idx + 1].level > adv.sections[sec_idx].level
}

/// A markdown line is a section heading of level 3 when it begins
/// `### `, of level 2 when it begins `## ` (but not `### `), and no
/// heading otherwise (a single `#` title included).
pub proof fn lemma_heading_levels(line: Seq<char>)
    ensures
        line.len() >= 4 && line[0] == '#' && line[1] == '#' && line[2] == '#' && line[3] == ' ' ==> heading_level(line) == 3,
        line.len() >= 3 && line[0] == '#' && line[1] == '#' && line[2] == ' ' ==> heading_level(line) == 2,
        !(line.len() >= 3 && line[0] == '#' && line[1] == '#' && (line[2] == ' ' || (line[2] == '#' && line.len() >= 4
            && line[3] == ' '))) ==> heading_level(line) == 0,
{
    if line.len() >= 4 && line[0] == '#' && line[1] == '#' && line[2] == '#' && line[3] == ' ' {
        assert(line.take(4) =~= seq!['#', '#', '#', ' ']);
    }
    if line.len() >= 3 && line[0] == '#' && line[1] == '#' && line[2] == ' ' {
        assert(line.take(3) =~= seq!['#', '#', ' ']);
    }
    if has_prefix(line, seq!['#', '#', '#', ' ']) {
        assert(line.take(4)[3] == line[3]);
        assert(line.take(4)[2] == line[2]);
        assert(line.take(4)[0] == line[0] && line.take(4)[1] == line[1]);
    }
    if has_prefix(line, seq!['#', '#', ' ']) {
        assert(line.take(3)[2] == line[2]);
        assert(line.take(3)[0] == line[0] && line.take(3)[1] == line[1]);
    }
}

/// The image extensions an adventure's scenes, maps and portraits may
/// have, as the program lists them.
pub proof fn lemma_image_exts()
    ensures
        image_ext_list().len() == 5,
        image_ext_list()[0]@ == "png"@,
        image_ext_list()[1]@ == "jpg"@,
        image_ext_list()[2]@ == "jpeg"@,
        image_ext_list()[3]@ == "webp"@,
        image_ext_list()[4]@ == "gif"@,
{
}

/// Splitting into words turns every `_` and `-` into a space.
proof fn lemma_split_words_no_joiners(s: Seq<char>, prev_lower: bool)
    ensures
        forall|i: int| 0 <= i < split_words(s, prev_lower).len() ==> #[trigger] split_words(s, prev_lower)[i] != '_'
            && split_words(s, prev_lower)[i] != '-',
    decreases s.len(),
{
    if s.len() > 0 {
        let c = s[0];
        if c == '_' || c == '-' {
            lemma_split_words_no_joiners(s.drop_first(), false);
        } else if char_is_upper(c) && prev_lower {
            lemma_split_words_no_joiners(s.drop_first(), false);
        } else {
            lemma_split_words_no_joiners(s.drop_first(), char_is_lower(c));
        }
        let r = split_words(s, prev_lower);
        assert forall|i: int| 0 <= i < r.len() implies #[trigger] r[i] != '_' && r[i] != '-' by {
            if c == '_' || c == '-' {
                if i > 0 {
                    assert(r[i] == split_words(s.drop_first(), false)[i - 1]);
                }
            } else if char_is_upper(c) && prev_lower {
                if i > 1 {
                    assert(r[i] == split_words(s.drop_first(), false)[i - 2]);
                }
            } else {
                if i > 0 {
                    assert(r[i] == split_words(s.drop_first(), char_is_lower(c))[i - 1]);
                }
            }
        }
    }
}

proof fn lemma_trim_keeps_out(s: Seq<char>, c: char)
    requires
        forall|i: int| 0 <= i < s.len() ==> #[trigger] s[i] != c,
    ensures
        forall|i: int| 0 <= i < trim_start(s).len() ==> #[trigger] trim_start(s)[i] != c,
        forall|i: int| 0 <= i < trim_end(s).len() ==> #[trigger] trim_end(s)[i] != c,
    decreases s.len(),
{
    if s.len() > 0 {
        assert forall|i: int| 0 <= i < s.drop_first().len() implies #[trigger] s.drop_first()[i] != c by {
            assert(s.drop_first()[i] == s[i + 1]);
        }
        assert forall|i: int| 0 <= i < s.drop_last().len() implies #[trigger] s.drop_last()[i] != c by {
            assert(s.drop_last()[i] == s[i]);
        }
        lemma_trim_keeps_out(s.drop_first(), c);
        lemma_trim_keeps_out(s.drop_last(), c);
        if !is_ws(s[0]) {
            assert forall|i: int| 0 <= i < trim_start(s).len() implies #[trigger] trim_start(s)[i] != c by {
                assert(trim_start(s)[i] == s[i]);
            }
        } else {
            assert(trim_start(s) == trim_start(s.drop_first()));
        }
        if is_ws(s.last()) {
            assert(trim_end(s) == trim_end(s.drop_last()));
        } else {
            assert forall|i: int| 0 <= i < trim_end(s).len() implies #[trigger] trim_end(s)[i] != c by {
                assert(trim_end(s)[i] == s[i]);
            }
        }
    }
}

/// A display name never holds `_` or `-`: the words they join are
/// split apart by spaces.
pub proof fn lemma_pretty_name_splits_words(path: Seq<char>)
    ensures
        forall|i: int| 0 <= i < pretty_name_of(path).len() ==> #[trigger] pretty_name_of(path)[i] != '_'
            && pretty_name_of(path)[i] != '-',
{
    let w = split_words(strip_sort_prefix(stem_of(file_name_of(path))), false);
    lemma_split_words_no_joiners(strip_sort_prefix(stem_of(file_name_of(path))), false);
    lemma_trim_keeps_out(w, '_');
    lemma_trim_keeps_out(w, '-');
    lemma_trim_keeps_out(trim_start(w), '_');
    lemma_trim_keeps_out(trim_start(w), '-');
}

/// A root entry is a markdown file: its name's extension is `md`.
pub open spec fn is_md_entry(e: (Seq<char>, u64)) -> bool {
    extension_of(file_name_of(e.0)) == Some(seq!['m', 'd'])
}

/// The narrative picked by size is the largest markdown file at the
/// root, the first listed among equally large ones; there is none
/// exactly when the root holds no markdown file.
pub proof fn lemma_largest_md_is_largest(es: Seq<(Seq<char>, u64)>)
    ensures
        (largest_md(es) is None) <==> (forall|j: int| 0 <= j < es.len() ==> !is_md_entry(#[trigger] es[j])),
        largest_md(es) matches Some(b) ==> exists|k: int|
            0 <= k < es.len() && #[trigger] es[k] == b && is_md_entry(b) && (forall|j: int|
                0 <= j < es.len() && is_md_entry(#[trigger] es[j]) ==> es[j].1 <= b.1) && (forall|j: int|
                0 <= j < k && is_md_entry(#[trigger] es[j]) ==> es[j].1 < b.1),
    decreases es.len(),
{
    if es.len() > 0 {
        let p = es.drop_last();
        lemma_largest_md_is_largest(p);
        let l = es.last();
        assert(l == es[es.len() - 1]);
        assert forall|j: int| 0 <= j < p.len() implies #[trigger] p[j] == es[j] by {}
        match largest_md(p) {
            Some(b) => {
                let k = choose|k: int|
                    0 <= k < p.len() && #[trigger] p[k] == b && is_md_entry(b) && (forall|j: int|
                        0 <= j < p.len() && is_md_entry(#[trigger] p[j]) ==> p[j].1 <= b.1) && (forall|j: int|
                        0 <= j < k && is_md_entry(#[trigger] p[j]) ==> p[j].1 < b.1);
                if is_md_entry(l) && l.1 > b.1 {
                    assert forall|j: int| 0 <= j < es.len() && is_md_entry(#[trigger] es[j]) implies es[j].1 <= l.1 by {
                        if j < p.len() {
                            assert(p[j] == es[j]);
                        }
                    }
                    assert forall|j: int| 0 <= j < es.len() - 1 && is_md_entry(#[trigger] es[j]) implies es[j].1 < l.1 by {
                        assert(p[j] == es[j]);
                    }
                    assert(es[es.len() - 1] == l);
                } else {
                    assert(es[k] == b);
                    assert forall|j: int| 0 <= j < es.len() && is_md_entry(#[trigger] es[j]) implies es[j].1 <= b.1 by {
                        if j < p.len() {
                            assert(p[j] == es[j]);
                        }
                    }
                    assert forall|j: int| 0 <= j < k && is_md_entry(#[trigger] es[j]) implies es[j].1 < b.1 by {
                        assert(p[j] == es[j]);
                    }
                    assert(largest_md(es) == Some(b));
                    assert(!(forall|j: int| 0 <= j < es.len() ==> !is_md_entry(#[trigger] es[j]))) by {
                        assert(is_md_entry(es[k]));
                    }
                }
            },
            None => {
                if is_md_entry(l) {
                    assert forall|j: int| 0 <= j < es.len() && is_md_entry(#[trigger] es[j]) implies es[j].1 <= l.1 by {
                        if j < p.len() {
                            assert(p[j] == es[j]);
                            assert(!is_md_entry(p[j]));
                        }
                    }
                    assert forall|j: int| 0 <= j < es.len() - 1 && is_md_entry(#[trigger] es[j]) implies es[j].1 < l.1 by {
                        assert(p[j] == es[j]);
                        assert(!is_md_entry(p[j]));
                    }
                    assert(es[es.len() - 1] == l);
                } else {
                    assert forall|j: int| 0 <= j < es.len() implies !is_md_entry(#[trigger] es[j]) by {
                        if j < p.len() {
                            assert(p[j] == es[j]);
                            assert(!is_md_entry(p[j]));
                        }
                    }
                }
            },
        }
    }
}

} // verus!
