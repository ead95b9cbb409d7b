//! Binding scene and floorplan images to the narrative sections they
//! illustrate.

use vstd::prelude::*;
use vstd::utf8::encode_utf8;
use crate::adventure::{asset_view, asset_views, Adventure, AdventureSection};
use crate::keyed::str_views;
use crate::text::{
    all_digits, char_is_alnum, chars_of, digits_value, parse_digits, contains_chars, contains_seq, decimal, has_prefix, is_alnum,
    lowercase, push_char, push_decimal, str_eq, string_of, to_lower, trim, trim_bounds,
};

verus! {

/// A heading that reads like an NPC / creature stat block: it carries a
/// demographic in parentheses or a `[Level N]` mark.
pub open spec fn stat_block(h: Seq<char>) -> bool {
    stat_block_lowered(lowercase(h))
}

/// An already lowercased heading that reads like a stat block.
pub open spec fn stat_block_lowered(hl: Seq<char>) -> bool {
    ||| contains_seq(hl, "[level "@)
    ||| contains_seq(hl, "(m,"@)
    ||| contains_seq(hl, "(f,"@)
    ||| contains_seq(hl, "(m "@)
    ||| contains_seq(hl, "(f "@)
}

/// Whether `chars` contains the chars of `pat`.
fn contains_str(chars: &Vec<char>, pat: &str) -> (b: bool)
    ensures
        b == contains_seq(chars@, pat@),
{
    let p = chars_of(pat);
    contains_chars(chars, &p)
}

/// True if a heading looks like an NPC / creature stat block (a
/// demographic in parens or a `[Level N]` suffix), so that an image
/// keyword does not bind to an NPC entry.
pub fn is_stat_block_heading(h: &str) -> (b: bool)
    ensures
        b == stat_block(h@),
{
    let hl = to_lower(h);
    lowered_is_stat_block(hl.as_str())
}

/// Whether an already lowercased heading reads like a stat block.
pub fn lowered_is_stat_block(hl: &str) -> (b: bool)
    ensures
        b == stat_block_lowered(hl@),
{
    let v = chars_of(hl);
    contains_str(&v, "[level ") || contains_str(&v, "(m,") || contains_str(&v, "(f,") || contains_str(
        &v,
        "(m ",
    ) || contains_str(&v, "(f ")
}

/// The headings of the sections.
pub open spec fn headings(secs: Seq<AdventureSection>) -> Seq<Seq<char>> {
    Seq::new(secs.len(), |i: int| secs[i].heading@)
}

/// The first section from `i` on whose lowercased heading starts with
/// `a` or `b`.
pub open spec fn first_prefixed(hs: Seq<Seq<char>>, a: Seq<char>, b: Seq<char>, i: int) -> Option<int>
    decreases hs.len() - i,
{
    if i < 0 || i >= hs.len() {
        None
    } else if has_prefix(lowercase(hs[i]), a) || has_prefix(lowercase(hs[i]), b) {
        Some(i)
    } else {
        first_prefixed(hs, a, b, i + 1)
    }
}

/// The first section from `i` on, not a stat block, whose lowercased
/// heading contains `key`.
pub open spec fn first_containing(hs: Seq<Seq<char>>, key: Seq<char>, i: int) -> Option<int>
    decreases hs.len() - i,
{
    if i < 0 || i >= hs.len() {
        None
    } else if !stat_block(hs[i]) && contains_seq(lowercase(hs[i]), key) {
        Some(i)
    } else {
        first_containing(hs, key, i + 1)
    }
}

/// The section a numbered image `n` binds to: `Scene n` first, then
/// `Map n`, then a numbered heading `n.` / `n:`.
pub open spec fn numeric_match(hs: Seq<Seq<char>>, n: nat) -> Option<int> {
    let d = decimal(n);
    match first_prefixed(hs, "scene "@ + d + seq![':'], "scene "@ + d + seq![' '], 0) {
        Some(i) => Some(i),
        None => match first_prefixed(hs, "map "@ + d + seq![':'], "map "@ + d + seq![' '], 0) {
            Some(i) => Some(i),
            None => first_prefixed(hs, d + seq!['.', ' '], d + seq![':', ' '], 0),
        },
    }
}

/// The image name with every char that is neither alphanumeric nor a
/// space made a space, trimmed.
pub open spec fn keyword_full(s: Seq<char>) -> Seq<char> {
    trim(Seq::new(s.len(), |k: int| if char_is_alnum(s[k]) || s[k] == ' ' { s[k] } else { ' ' }))
}

/// UTF-8 byte length, as `str::len` reports it.
pub open spec fn blen(s: Seq<char>) -> usize {
    encode_utf8(s).len() as usize
}

/// The pieces of `s` between non-alphanumeric chars (`str::split`).
pub open spec fn split_alnum(s: Seq<char>) -> Seq<Seq<char>>
    decreases s.len(),
{
    if s.len() == 0 {
        seq![Seq::empty()]
    } else {
        let rest = split_alnum(s.drop_last());
        if char_is_alnum(s.last()) {
            rest.update(rest.len() - 1, rest.last().push(s.last()))
        } else {
            rest.push(Seq::empty())
        }
    }
}

/// Words too common to be match keys.
pub open spec fn is_stop_word(t: Seq<char>) -> bool {
    ||| t == "the"@ || t == "and"@ || t == "for"@ || t == "with"@
    ||| t == "from"@ || t == "into"@ || t == "onto"@ || t == "over"@
    ||| t == "that"@ || t == "this"@ || t == "your"@ || t == "you"@
    ||| t == "are"@ || t == "was"@ || t == "not"@ || t == "all"@
}

/// A piece that can serve as a match key: at least 3 bytes, not a stop
/// word.
pub open spec fn key_token(t: Seq<char>) -> bool {
    t.len() > 0 && blen(t) >= 3 && !is_stop_word(t)
}

/// The pieces that can serve as match keys, in order.
pub open spec fn key_tokens(ps: Seq<Seq<char>>) -> Seq<Seq<char>>
    decreases ps.len(),
{
    if ps.len() == 0 {
        Seq::empty()
    } else if key_token(ps.last()) {
        key_tokens(ps.drop_last()).push(ps.last())
    } else {
        key_tokens(ps.drop_last())
    }
}

/// `s` (longest first) with `x` placed after every piece at least as
/// long.
pub open spec fn insert_by_len(s: Seq<Seq<char>>, x: Seq<char>) -> Seq<Seq<char>>
    decreases s.len(),
{
    if s.len() == 0 {
        seq![x]
    } else if blen(s.last()) < blen(x) {
        insert_by_len(s.drop_last(), x).push(s.last())
    } else {
        s.push(x)
    }
}

/// `s` sorted longest first (by bytes), equal lengths in their order in
/// `s`.
pub open spec fn longest_first(s: Seq<Seq<char>>) -> Seq<Seq<char>>
    decreases s.len(),
{
    if s.len() == 0 {
        Seq::empty()
    } else {
        insert_by_len(longest_first(s.drop_last()), s.last())
    }
}

/// The first key (from the `t`-th on) that some section matches, and
/// that section.
pub open spec fn token_match(hs: Seq<Seq<char>>, toks: Seq<Seq<char>>, t: int) -> Option<int>
    decreases toks.len() - t,
{
    if t < 0 || t >= toks.len() {
        None
    } else {
        match first_containing(hs, toks[t], 0) {
            Some(i) => Some(i),
            None => token_match(hs, toks, t + 1),
        }
    }
}

/// The section an image (by its display name) binds to, if any: a
/// numbered image to `Scene N`, `Map N` or an `N.` heading; otherwise
/// the first section, not a stat block, whose heading contains the whole
/// name, or else the longest usable word of it.
#[verifier::opaque]
pub open spec fn best_section(hs: Seq<Seq<char>>, img: Seq<char>) -> Option<int> {
    let il = lowercase(img);
    if il.len() > 0 && all_digits(il) {
        if digits_value(il) > u32::MAX {
            None
        } else {
            numeric_match(hs, digits_value(il))
        }
    } else {
        let full = keyword_full(il);
        let by_full = if full.len() > 0 && blen(full) >= 3 { first_containing(hs, full, 0) } else { None };
        match by_full {
            Some(i) => Some(i),
            None => token_match(hs, longest_first(key_tokens(split_alnum(il))), 0),
        }
    }
}

/// The lowercased headings and their stat-block flags.
fn heading_table(secs: &Vec<AdventureSection>) -> (r: (Vec<Vec<char>>, Vec<bool>))
    ensures
        r.0@.len() == secs@.len(),
        r.1@.len() == secs@.len(),
        forall|i: int| 0 <= i < secs@.len() ==> (#[trigger] r.0@[i])@ == lowercase(secs@[i].heading@),
        forall|i: int| 0 <= i < secs@.len() ==> #[trigger] r.1@[i] == stat_block(secs@[i].heading@),
{
    let mut low: Vec<Vec<char>> = Vec::new();
    let mut stat: Vec<bool> = Vec::new();
    let mut i: usize = 0;
    while i < secs.len()
        invariant
            i <= secs@.len(),
            low@.len() == i,
            stat@.len() == i,
            forall|k: int| 0 <= k < i ==> (#[trigger] low@[k])@ == lowercase(secs@[k].heading@),
            forall|k: int| 0 <= k < i ==> #[trigger] stat@[k] == stat_block(secs@[k].heading@),
        decreases secs@.len() - i,
    {
        let h = to_lower(secs[i].heading.as_str());
        low.push(chars_of(h.as_str()));
        stat.push(is_stat_block_heading(secs[i].heading.as_str()));
        i = i + 1;
    }
    (low, stat)
}

/// `first_prefixed` over the lowercased headings.
fn find_prefixed(
    low: &Vec<Vec<char>>,
    Ghost(hs): Ghost<Seq<Seq<char>>>,
    a: &Vec<char>,
    b: &Vec<char>,
) -> (r: Option<usize>)
    requires
        low@.len() == hs.len(),
        forall|i: int| 0 <= i < hs.len() ==> (#[trigger] low@[i])@ == lowercase(hs[i]),
    ensures
        match r {
            Some(i) => first_prefixed(hs, a@, b@, 0) == Some(i as int),
            None => first_prefixed(hs, a@, b@, 0) is None,
        },
        r matches Some(i) ==> i < hs.len(),
{
    let mut i: usize = 0;
    while i < low.len()
        invariant
            low@.len() == hs.len(),
            forall|k: int| 0 <= k < hs.len() ==> (#[trigger] low@[k])@ == lowercase(hs[k]),
            i <= hs.len(),
            first_prefixed(hs, a@, b@, 0) == first_prefixed(hs, a@, b@, i as int),
        decreases hs.len() - i,
    {
        let hi = &low[i];
        let pa = a.len() <= hi.len() && crate::text::matches_at(hi, 0, a);
        let pb = b.len() <= hi.len() && crate::text::matches_at(hi, 0, b);
        proof {
            let h = hi@;
            if h.len() >= a@.len() {
                assert(h.subrange(0, a@.len() as int) =~= h.take(a@.len() as int));
            }
            if h.len() >= b@.len() {
                assert(h.subrange(0, b@.len() as int) =~= h.take(b@.len() as int));
            }
        }
        if pa || pb {
            return Some(i);
        }
        i = i + 1;
    }
    None
}

/// `first_containing` over the lowercased headings and stat-block flags.
fn find_containing(
    low: &Vec<Vec<char>>,
    stat: &Vec<bool>,
    Ghost(hs): Ghost<Seq<Seq<char>>>,
    key: &Vec<char>,
) -> (r: Option<usize>)
    requires
        low@.len() == hs.len(),
        stat@.len() == hs.len(),
        forall|i: int| 0 <= i < hs.len() ==> (#[trigger] low@[i])@ == lowercase(hs[i]),
        forall|i: int| 0 <= i < hs.len() ==> #[trigger] stat@[i] == stat_block(hs[i]),
    ensures
        match r {
            Some(i) => first_containing(hs, key@, 0) == Some(i as int),
            None => first_containing(hs, key@, 0) is None,
        },
        r matches Some(i) ==> i < hs.len(),
{
    let mut i: usize = 0;
    while i < low.len()
        invariant
            low@.len() == hs.len(),
            stat@.len() == hs.len(),
            forall|k: int| 0 <= k < hs.len() ==> (#[trigger] low@[k])@ == lowercase(hs[k]),
            forall|k: int| 0 <= k < hs.len() ==> #[trigger] stat@[k] == stat_block(hs[k]),
            i <= hs.len(),
            first_containing(hs, key@, 0) == first_containing(hs, key@, i as int),
        decreases hs.len() - i,
    {
        if !stat[i] && contains_chars(&low[i], key) {
            return Some(i);
        }
        i = i + 1;
    }
    None
}

/// `p` followed by the decimal digits of `n` and then `tail`.
fn pattern(p: &str, n: u32, tail: &Vec<char>) -> (r: Vec<char>)
    ensures
        r@ == p@ + decimal(n as nat) + tail@,
{
    let mut s = String::from_str(p);
    push_decimal(&mut s, n as u64);
    let mut i: usize = 0;
    let ghost start = s@;
    while i < tail.len()
        invariant
            i <= tail@.len(),
            s@ == start + tail@.take(i as int),
        decreases tail@.len() - i,
    {
        push_char(&mut s, tail[i]);
        i = i + 1;
        assert(s@ =~= start + tail@.take(i as int));
    }
    assert(tail@.take(tail@.len() as int) =~= tail@);
    chars_of(s.as_str())
}

/// `numeric_match` over the lowercased headings.
fn numbered_section(low: &Vec<Vec<char>>, Ghost(hs): Ghost<Seq<Seq<char>>>, n: u32) -> (r: Option<usize>)
    requires
        low@.len() == hs.len(),
        forall|i: int| 0 <= i < hs.len() ==> (#[trigger] low@[i])@ == lowercase(hs[i]),
    ensures
        match r {
            Some(i) => numeric_match(hs, n as nat) == Some(i as int),
            None => numeric_match(hs, n as nat) is None,
        },
{
    let colon = vec![':'];
    let space = vec![' '];
    let dot_sp = vec!['.', ' '];
    let colon_sp = vec![':', ' '];
    assert(colon@ =~= seq![':']);
    assert(space@ =~= seq![' ']);
    assert(dot_sp@ =~= seq!['.', ' ']);
    assert(colon_sp@ =~= seq![':', ' ']);
    proof {
        reveal_strlit("");
    }
    assert(""@ + decimal(n as nat) =~= decimal(n as nat));
    let a = pattern("scene ", n, &colon);
    let b = pattern("scene ", n, &space);
    match find_prefixed(low, Ghost(hs), &a, &b) {
        Some(i) => return Some(i),
        None => {},
    }
    let a = pattern("map ", n, &colon);
    let b = pattern("map ", n, &space);
    match find_prefixed(low, Ghost(hs), &a, &b) {
        Some(i) => return Some(i),
        None => {},
    }
    let a = pattern("", n, &dot_sp);
    let b = pattern("", n, &colon_sp);
    find_prefixed(low, Ghost(hs), &a, &b)
}

/// Whether `t` is one of the stop words.
fn stop_word(t: &str) -> (b: bool)
    ensures
        b == is_stop_word(t@),
{
    str_eq(t, "the") || str_eq(t, "and") || str_eq(t, "for") || str_eq(t, "with") || str_eq(t, "from")
        || str_eq(t, "into") || str_eq(t, "onto") || str_eq(t, "over") || str_eq(t, "that") || str_eq(
        t,
        "this",
    ) || str_eq(t, "your") || str_eq(t, "you") || str_eq(t, "are") || str_eq(t, "was") || str_eq(t, "not")
        || str_eq(t, "all")
}

proof fn lemma_key_tokens_push(ps: Seq<Seq<char>>, x: Seq<char>)
    ensures
        key_tokens(ps.push(x)) == if key_token(x) { key_tokens(ps).push(x) } else { key_tokens(ps) },
{
    assert(ps.push(x).drop_last() =~= ps);
}

/// The usable match keys among the alphanumeric pieces of `v`.
fn tokens_of(v: &Vec<char>) -> (r: Vec<String>)
    ensures
        str_views(r@) == key_tokens(split_alnum(v@)),
{
    let mut out: Vec<String> = Vec::new();
    let mut cur = String::new();
    let mut i: usize = 0;
    assert(split_alnum(v@.take(0)) =~= seq![Seq::<char>::empty()]);
    assert(seq![Seq::<char>::empty()].drop_last() =~= Seq::<Seq<char>>::empty());
    assert(str_views(out@) =~= Seq::<Seq<char>>::empty());
    while i < v.len()
        invariant
            i <= v@.len(),
            split_alnum(v@.take(i as int)).len() > 0,
            cur@ == split_alnum(v@.take(i as int)).last(),
            str_views(out@) == key_tokens(split_alnum(v@.take(i as int)).drop_last()),
        decreases v@.len() - i,
    {
        let ghost before = split_alnum(v@.take(i as int));
        assert(v@.take(i + 1).drop_last() =~= v@.take(i as int));
        assert(v@.take(i + 1).last() == v@[i as int]);
        let c = v[i];
        if is_alnum(c) {
            push_char(&mut cur, c);
            assert(split_alnum(v@.take(i + 1)).drop_last() =~= before.drop_last());
        } else {
            let ghost cv = cur@;
            let keep = !cur.as_str().is_empty() && cur.as_str().len() >= 3 && !stop_word(cur.as_str());
            assert(keep == key_token(cv));
            assert(split_alnum(v@.take(i + 1)).drop_last() =~= before);
            assert(before =~= before.drop_last().push(cv));
            proof {
                lemma_key_tokens_push(before.drop_last(), cv);
            }
            if keep {
                let ghost old_out = out@;
                out.push(cur);
                assert(str_views(out@) =~= str_views(old_out).push(cv));
            }
            cur = String::new();
        }
        i = i + 1;
    }
    let ghost all = split_alnum(v@.take(i as int));
    assert(v@.take(v@.len() as int) =~= v@);
    let ghost cv = cur@;
    let keep = !cur.as_str().is_empty() && cur.as_str().len() >= 3 && !stop_word(cur.as_str());
    assert(all =~= all.drop_last().push(cv));
    proof {
        lemma_key_tokens_push(all.drop_last(), cv);
    }
    if keep {
        let ghost old_out = out@;
        out.push(cur);
        assert(str_views(out@) =~= str_views(old_out).push(cv));
    }
    out
}

proof fn lemma_insert_by_len_at(s: Seq<Seq<char>>, x: Seq<char>, p: int)
    requires
        0 <= p <= s.len(),
        forall|i: int| p <= i < s.len() ==> blen(#[trigger] s[i]) < blen(x),
        p == 0 || !(blen(s[p - 1]) < blen(x)),
    ensures
        insert_by_len(s, x) == s.insert(p, x),
    decreases s.len(),
{
    if s.len() == 0 {
        assert(s.insert(p, x) =~= seq![x]);
    } else if p < s.len() {
        lemma_insert_by_len_at(s.drop_last(), x, p);
        assert(s.drop_last().insert(p, x).push(s.last()) =~= s.insert(p, x));
    } else {
        assert(s.insert(p, x) =~= s.push(x));
    }
}

/// The keys sorted longest first, stably.
fn sort_longest_first(toks: Vec<String>) -> (r: Vec<String>)
    ensures
        str_views(r@) == longest_first(str_views(toks@)),
{
    let ghost tv = str_views(toks@);
    let mut out: Vec<String> = Vec::new();
    let mut i: usize = 0;
    assert(str_views(out@) =~= longest_first(tv.take(0)));
    while i < toks.len()
        invariant
            tv == str_views(toks@),
            i <= toks@.len(),
            str_views(out@) == longest_first(tv.take(i as int)),
        decreases toks@.len() - i,
    {
        assert(tv.take(i + 1).drop_last() =~= tv.take(i as int));
        let x = toks[i].clone();
        let xl = x.as_str().len();
        let mut p = out.len();
        while p > 0 && out[p - 1].as_str().len() < xl
            invariant
                p <= out@.len(),
                xl == blen(x@),
                forall|k: int| p <= k < out@.len() ==> blen(#[trigger] out@[k]@) < blen(x@),
            decreases p,
        {
            p = p - 1;
        }
        let ghost before = str_views(out@);
        let ghost xv = x@;
        proof {
            lemma_insert_by_len_at(before, xv, p as int);
        }
        out.insert(p, x);
        assert(str_views(out@) =~= before.insert(p as int, xv));
        i = i + 1;
    }
    assert(tv.take(tv.len() as int) =~= tv);
    out
}

/// Return the index of the most plausible section for an image (by its
/// display name); `None` if no rule matches. Numbered images bind to
/// `Scene N`, then `Map N`, then a numbered `N.` heading; other names
/// bind by the whole name, then by their longest usable word, to the
/// first section that is not a stat block whose heading contains it.
pub fn best_section_for(adv: &Adventure, img_name: &str) -> (r: Option<usize>)
    ensures
        match r {
            Some(i) => best_section(headings(adv.sections@), img_name@) == Some(i as int),
            None => best_section(headings(adv.sections@), img_name@) is None,
        },
{
    reveal(best_section);
    let ghost hs = headings(adv.sections@);
    let (low, stat) = heading_table(&adv.sections);
    let il = to_lower(img_name);
    let v = chars_of(il.as_str());
    let mut digits = v.len() > 0;
    let mut k: usize = 0;
    while k < v.len()
        invariant
            k <= v@.len(),
            digits == (v@.len() > 0 && forall|t: int| 0 <= t < k ==> crate::text::is_digit(v@[t])),
        decreases v@.len() - k,
    {
        if !('0' <= v[k] && v[k] <= '9') {
            digits = false;
        }
        k = k + 1;
    }
    if digits {
        return match parse_digits(&v) {
            Some(n) => numbered_section(&low, Ghost(hs), n),
            None => None,
        };
    }
    let mut spaced: Vec<char> = Vec::new();
    let mut j: usize = 0;
    while j < v.len()
        invariant
            j <= v@.len(),
            spaced@ == Seq::new(j as nat, |t: int| if char_is_alnum(v@[t]) || v@[t] == ' ' { v@[t] } else { ' ' }),
        decreases v@.len() - j,
    {
        let c = v[j];
        spaced.push(if is_alnum(c) || c == ' ' { c } else { ' ' });
        j = j + 1;
        assert(spaced@ =~= Seq::new(j as nat, |t: int| if char_is_alnum(v@[t]) || v@[t] == ' ' { v@[t] } else { ' ' }));
    }
    let (lo, hi) = trim_bounds(&spaced, 0, spaced.len());
    assert(spaced@.subrange(0, spaced@.len() as int) =~= spaced@);
    let full_s = string_of(&spaced, lo, hi);
    let full = chars_of(full_s.as_str());
    assert(v@ == lowercase(img_name@));
    assert(!(v@.len() > 0 && all_digits(v@)));
    assert(full@ == keyword_full(v@));
    if full.len() > 0 && full_s.as_str().len() >= 3 {
        assert(blen(full@) >= 3);
        match find_containing(&low, &stat, Ghost(hs), &full) {
            Some(i) => {
                assert(first_containing(hs, keyword_full(lowercase(img_name@)), 0) == Some(i as int));
                assert(hs == headings(adv.sections@));
                return Some(i);
            },
            None => {},
        }
    }
    let toks = sort_longest_first(tokens_of(&v));
    let ghost tv = str_views(toks@);
    assert(best_section(hs, img_name@) == token_match(hs, tv, 0));
    let mut t: usize = 0;
    while t < toks.len()
        invariant
            tv == str_views(toks@),
            hs == headings(adv.sections@),
            best_section(hs, img_name@) == token_match(hs, tv, 0),
            low@.len() == hs.len(),
            stat@.len() == hs.len(),
            forall|i: int| 0 <= i < hs.len() ==> (#[trigger] low@[i])@ == lowercase(hs[i]),
            forall|i: int| 0 <= i < hs.len() ==> #[trigger] stat@[i] == stat_block(hs[i]),
            t <= toks@.len(),
            token_match(hs, tv, 0) == token_match(hs, tv, t as int),
        decreases toks@.len() - t,
    {
        let key = chars_of(toks[t].as_str());
        assert(key@ == tv[t as int]);
        match find_containing(&low, &stat, Ghost(hs), &key) {
            Some(i) => return Some(i),
            None => {},
        }
        t = t + 1;
    }
    None
}

/// The images that may attach to sections: the scenes, then the
/// floorplans, as (display name, path).
pub open spec fn image_candidates(adv: Adventure) -> Seq<(Seq<char>, Seq<char>)> {
    asset_views(adv.scenes@) + asset_views(adv.floorplans@)
}

/// The paths, in order, of the candidates that bind to section `i`.
pub open spec fn attached_to(hs: Seq<Seq<char>>, cands: Seq<(Seq<char>, Seq<char>)>, i: int) -> Seq<Seq<char>>
    decreases cands.len(),
{
    if cands.len() == 0 {
        Seq::empty()
    } else {
        let r = attached_to(hs, cands.drop_last(), i);
        if best_section(hs, cands.last().0) == Some(i) {
            r.push(cands.last().1)
        } else {
            r
        }
    }
}

/// The section each candidate binds to.
fn candidate_sections(adv: &Adventure) -> (r: (Vec<String>, Vec<Option<usize>>))
    ensures
        r.0@.len() == r.1@.len() == image_candidates(*adv).len(),
        forall|c: int| 0 <= c < r.0@.len() ==> (#[trigger] r.0@[c])@ == image_candidates(*adv)[c].1,
        forall|c: int|
            0 <= c < r.1@.len() ==> match #[trigger] r.1@[c] {
                Some(i) => best_section(headings(adv.sections@), image_candidates(*adv)[c].0) == Some(i as int),
                None => best_section(headings(adv.sections@), image_candidates(*adv)[c].0) is None,
            },
{
    let ghost cands = image_candidates(*adv);
    let ghost ns = adv.scenes@.len();
    let mut paths: Vec<String> = Vec::new();
    let mut best: Vec<Option<usize>> = Vec::new();
    let mut c: usize = 0;
    while c < adv.scenes.len()
        invariant
            cands == image_candidates(*adv),
            c <= adv.scenes@.len(),
            paths@.len() == c,
            best@.len() == c,
            forall|k: int| 0 <= k < c ==> (#[trigger] paths@[k])@ == cands[k].1,
            forall|k: int|
                0 <= k < c ==> match #[trigger] best@[k] {
                    Some(i) => best_section(headings(adv.sections@), cands[k].0) == Some(i as int),
                    None => best_section(headings(adv.sections@), cands[k].0) is None,
                },
        decreases adv.scenes@.len() - c,
    {
        let a = &adv.scenes[c];
        assert(asset_view(*a) == cands[c as int]);
        paths.push(a.path.clone());
        best.push(best_section_for(adv, a.name.as_str()));
        c = c + 1;
    }
    let mut f: usize = 0;
    while f < adv.floorplans.len()
        invariant
            cands == image_candidates(*adv),
            ns == adv.scenes@.len(),
            f <= adv.floorplans@.len(),
            paths@.len() == ns + f,
            best@.len() == ns + f,
            forall|k: int| 0 <= k < ns + f ==> (#[trigger] paths@[k])@ == cands[k].1,
            forall|k: int|
                0 <= k < ns + f ==> match #[trigger] best@[k] {
                    Some(i) => best_section(headings(adv.sections@), cands[k].0) == Some(i as int),
                    None => best_section(headings(adv.sections@), cands[k].0) is None,
                },
        decreases adv.floorplans@.len() - f,
    {
        let a = &adv.floorplans[f];
        assert(asset_view(*a) == cands[ns + f]);
        paths.push(a.path.clone());
        best.push(best_section_for(adv, a.name.as_str()));
        f = f + 1;
    }
    (paths, best)
}

/// The paths of the candidates bound to section `i`.
fn paths_for(paths: &Vec<String>, best: &Vec<Option<usize>>, i: usize, Ghost(hs): Ghost<Seq<Seq<char>>>, Ghost(cands): Ghost<Seq<(Seq<char>, Seq<char>)>>) -> (r: Vec<String>)
    requires
        paths@.len() == best@.len() == cands.len(),
        forall|c: int| 0 <= c < paths@.len() ==> (#[trigger] paths@[c])@ == cands[c].1,
        forall|c: int|
            0 <= c < best@.len() ==> match #[trigger] best@[c] {
                Some(j) => best_section(hs, cands[c].0) == Some(j as int),
                None => best_section(hs, cands[c].0) is None,
            },
    ensures
        str_views(r@) == attached_to(hs, cands, i as int),
{
    let mut out: Vec<String> = Vec::new();
    let mut c: usize = 0;
    assert(str_views(out@) =~= attached_to(hs, cands.take(0), i as int));
    while c < paths.len()
        invariant
            paths@.len() == best@.len() == cands.len(),
            forall|k: int| 0 <= k < paths@.len() ==> (#[trigger] paths@[k])@ == cands[k].1,
            forall|k: int|
                0 <= k < best@.len() ==> match #[trigger] best@[k] {
                    Some(j) => best_section(hs, cands[k].0) == Some(j as int),
                    None => best_section(hs, cands[k].0) is None,
                },
            c <= paths@.len(),
            str_views(out@) == attached_to(hs, cands.take(c as int), i as int),
        decreases paths@.len() - c,
    {
        assert(cands.take(c + 1).drop_last() =~= cands.take(c as int));
        assert(cands.take(c + 1).last() == cands[c as int]);
        let hit = match best[c] {
            Some(j) => j == i,
            None => false,
        };
        let b = best[c];
        if hit {
            let ghost old_out = out@;
            let p = paths[c].clone();
            let ghost pv = p@;
            out.push(p);
            assert(str_views(out@) =~= str_views(old_out).push(pv));
        }
        c = c + 1;
    }
    assert(cands.take(cands.len() as int) =~= cands);
    out
}

/// Bind each scene and floorplan image to the section it illustrates
/// (see `best_section_for`), replacing earlier bindings: an image goes
/// to at most one section; unmatched ones stay only in the asset lists.
pub fn attach_scene_images(adv: &mut Adventure)
    ensures
        final(adv).sections@.len() == old(adv).sections@.len(),
        forall|i: int|
            0 <= i < old(adv).sections@.len() ==> {
                let (o, n) = (old(adv).sections@[i], #[trigger] final(adv).sections@[i]);
                &&& n.heading == o.heading
                &&& n.level == o.level
                &&& n.line_start == o.line_start
                &&& n.line_end == o.line_end
                &&& n.notes == o.notes
                &&& str_views(n.attached_images@) == attached_to(
                    headings(old(adv).sections@),
                    image_candidates(*old(adv)),
                    i,
                )
            },
        final(adv).scenes == old(adv).scenes,
        final(adv).floorplans == old(adv).floorplans,
        final(adv).npc_portraits == old(adv).npc_portraits,
        final(adv).npc_docs == old(adv).npc_docs,
        final(adv).name == old(adv).name,
        final(adv).root_dir == old(adv).root_dir,
        final(adv).narrative_md == old(adv).narrative_md,
        final(adv).current_section == old(adv).current_section,
        final(adv).id == old(adv).id,
        final(adv).notes == old(adv).notes,
{
    let ghost hs = headings(adv.sections@);
    let ghost cands = image_candidates(*adv);
    let (paths, best) = candidate_sections(adv);
    let mut rest: Vec<AdventureSection> = Vec::new();
    std::mem::swap(&mut rest, &mut adv.sections);
    let ghost orig = rest@;
    let n = rest.len();
    let mut out: Vec<AdventureSection> = Vec::new();
    let mut i: usize = 0;
    assert(orig.skip(0) =~= orig);
    while i < n
        invariant
            n == orig.len(),
            hs == headings(orig),
            i <= n,
            rest@ == orig.skip(i as int),
            out@.len() == i,
            paths@.len() == best@.len() == cands.len(),
            forall|c: int| 0 <= c < paths@.len() ==> (#[trigger] paths@[c])@ == cands[c].1,
            forall|c: int|
                0 <= c < best@.len() ==> match #[trigger] best@[c] {
                    Some(j) => best_section(hs, cands[c].0) == Some(j as int),
                    None => best_section(hs, cands[c].0) is None,
                },
            forall|k: int|
                0 <= k < i ==> {
                    let (o, s) = (orig[k], #[trigger] out@[k]);
                    &&& s.heading == o.heading
                    &&& s.level == o.level
                    &&& s.line_start == o.line_start
                    &&& s.line_end == o.line_end
                    &&& s.notes == o.notes
                    &&& str_views(s.attached_images@) == attached_to(hs, cands, k)
                },
        decreases n - i,
    {
        let mut sec = rest.remove(0);
        assert(sec == orig[i as int]);
        assert(rest@ =~= orig.skip(i + 1));
        sec.attached_images = paths_for(&paths, &best, i, Ghost(hs), Ghost(cands));
        out.push(sec);
        i = i + 1;
    }
    adv.sections = out;
}

/// `x` is the path of a candidate whose best section is `i`.
pub open spec fn bound_to(hs: Seq<Seq<char>>, cands: Seq<(Seq<char>, Seq<char>)>, i: int, x: Seq<char>) -> bool {
    exists|c: int| 0 <= c < cands.len() && cands[c].1 == x && best_section(hs, cands[c].0) == Some(i)
}

/// Every image bound to section `i` is a candidate whose best section is
/// `i`; since each candidate has one best section, an image binds to at
/// most one section.
pub proof fn lemma_attached_only_to_best(hs: Seq<Seq<char>>, cands: Seq<(Seq<char>, Seq<char>)>, i: int)
    ensures
        forall|k: int|
            0 <= k < attached_to(hs, cands, i).len() ==> bound_to(hs, cands, i, #[trigger] attached_to(hs, cands, i)[k]),
        attached_to(hs, cands, i).len() <= cands.len(),
    decreases cands.len(),
{
    if cands.len() > 0 {
        let prev = cands.drop_last();
        lemma_attached_only_to_best(hs, prev, i);
        let r = attached_to(hs, prev, i);
        let cur = attached_to(hs, cands, i);
        assert forall|k: int| 0 <= k < cur.len() implies bound_to(hs, cands, i, #[trigger] cur[k]) by {
            if k < r.len() {
                assert(bound_to(hs, prev, i, r[k]));
                let c = choose|c: int| 0 <= c < prev.len() && prev[c].1 == r[k] && best_section(hs, prev[c].0) == Some(i);
                assert(cands[c] == prev[c]);
                assert(cur[k] == r[k]);
            } else {
                let c = cands.len() - 1;
                assert(cands[c].1 == cur[k]);
            }
        }
    }
}

/// Heading `h`, lowercased, begins with `a` or with `b`.
pub open spec fn heading_starts(h: Seq<char>, a: Seq<char>, b: Seq<char>) -> bool {
    has_prefix(lowercase(h), a) || has_prefix(lowercase(h), b)
}

/// Heading `i` of `hs` is the first that begins with `a` or `b`.
pub open spec fn first_starting(hs: Seq<Seq<char>>, a: Seq<char>, b: Seq<char>, i: int) -> bool {
    &&& 0 <= i < hs.len()
    &&& heading_starts(hs[i], a, b)
    &&& forall|j: int| 0 <= j < i ==> !heading_starts(#[trigger] hs[j], a, b)
}

/// No heading of `hs` begins with `a` or `b`.
pub open spec fn none_starting(hs: Seq<Seq<char>>, a: Seq<char>, b: Seq<char>) -> bool {
    forall|j: int| 0 <= j < hs.len() ==> !heading_starts(#[trigger] hs[j], a, b)
}

proof fn lemma_first_prefixed_finds(hs: Seq<Seq<char>>, a: Seq<char>, b: Seq<char>, from: int)
    requires
        0 <= from <= hs.len(),
    ensures
        forall|i: int| from <= i < hs.len() && heading_starts(hs[i], a, b) && (forall|j: int| from <= j < i ==> !heading_starts(#[trigger] hs[j], a, b))
            ==> first_prefixed(hs, a, b, from) == Some(i),
        (forall|j: int| from <= j < hs.len() ==> !heading_starts(#[trigger] hs[j], a, b)) ==> first_prefixed(hs, a, b, from) is None,
    decreases hs.len() - from,
{
    if from < hs.len() {
        lemma_first_prefixed_finds(hs, a, b, from + 1);
        assert forall|i: int| from <= i < hs.len() && heading_starts(hs[i], a, b) && (forall|j: int| from <= j < i ==> !heading_starts(#[trigger] hs[j], a, b))
            implies first_prefixed(hs, a, b, from) == Some(i) by {
            if i > from {
                assert(!heading_starts(hs[from], a, b));
            }
        }
    }
}

/// A numbered image `n` binds in three tiers: to the first heading that
/// (lowercased) begins `scene n:` or `scene n `; when there is none, to
/// the first that begins `map n:` or `map n `; when there is none of
/// those either, to the first that begins `n. ` or `n: `; and otherwise
/// to no section.
pub proof fn lemma_numbered_image_tiers(hs: Seq<Seq<char>>, n: nat, i: int)
    ensures
        ({
            let d = decimal(n);
            let (s1, s2) = ("scene "@ + d + seq![':'], "scene "@ + d + seq![' ']);
            let (m1, m2) = ("map "@ + d + seq![':'], "map "@ + d + seq![' ']);
            let (n1, n2) = (d + seq!['.', ' '], d + seq![':', ' ']);
            &&& first_starting(hs, s1, s2, i) ==> numeric_match(hs, n) == Some(i)
            &&& none_starting(hs, s1, s2) && first_starting(hs, m1, m2, i) ==> numeric_match(hs, n) == Some(i)
            &&& none_starting(hs, s1, s2) && none_starting(hs, m1, m2) && first_starting(hs, n1, n2, i)
                ==> numeric_match(hs, n) == Some(i)
            &&& none_starting(hs, s1, s2) && none_starting(hs, m1, m2) && none_starting(hs, n1, n2)
                ==> numeric_match(hs, n) is None
        }),
{
    let d = decimal(n);
    lemma_first_prefixed_finds(hs, "scene "@ + d + seq![':'], "scene "@ + d + seq![' '], 0);
    lemma_first_prefixed_finds(hs, "map "@ + d + seq![':'], "map "@ + d + seq![' '], 0);
    lemma_first_prefixed_finds(hs, d + seq!['.', ' '], d + seq![':', ' '], 0);
}

/// The words too common to key an image to a heading, as the program
/// lists them: a word is a stop word exactly when it is one of these.
pub proof fn lemma_stop_words(t: Seq<char>)
    ensures
        is_stop_word(t) <==> seq!["the"@, "and"@, "for"@, "with"@, "from"@, "into"@, "onto"@, "over"@, "that"@, "this"@, "your"@, "you"@, "are"@, "was"@, "not"@, "all"@].contains(t),
{
    let l = seq!["the"@, "and"@, "for"@, "with"@, "from"@, "into"@, "onto"@, "over"@, "that"@, "this"@, "your"@, "you"@, "are"@, "was"@, "not"@, "all"@];
    if is_stop_word(t) {
        if t == "the"@ { assert(l[0] == t); }
        if t == "and"@ { assert(l[1] == t); }
        if t == "for"@ { assert(l[2] == t); }
        if t == "with"@ { assert(l[3] == t); }
        if t == "from"@ { assert(l[4] == t); }
        if t == "into"@ { assert(l[5] == t); }
        if t == "onto"@ { assert(l[6] == t); }
        if t == "over"@ { assert(l[7] == t); }
        if t == "that"@ { assert(l[8] == t); }
        if t == "this"@ { assert(l[9] == t); }
        if t == "your"@ { assert(l[10] == t); }
        if t == "you"@ { assert(l[11] == t); }
        if t == "are"@ { assert(l[12] == t); }
        if t == "was"@ { assert(l[13] == t); }
        if t == "not"@ { assert(l[14] == t); }
        if t == "all"@ { assert(l[15] == t); }
    }
    if l.contains(t) {
        let k = choose|k: int| 0 <= k < l.len() && l[k] == t;
        if k == 0 { assert(t == "the"@); }
        if k == 1 { assert(t == "and"@); }
        if k == 2 { assert(t == "for"@); }
        if k == 3 { assert(t == "with"@); }
        if k == 4 { assert(t == "from"@); }
        if k == 5 { assert(t == "into"@); }
        if k == 6 { assert(t == "onto"@); }
        if k == 7 { assert(t == "over"@); }
        if k == 8 { assert(t == "that"@); }
        if k == 9 { assert(t == "this"@); }
        if k == 10 { assert(t == "your"@); }
        if k == 11 { assert(t == "you"@); }
        if k == 12 { assert(t == "are"@); }
        if k == 13 { assert(t == "was"@); }
        if k == 14 { assert(t == "not"@); }
        if k == 15 { assert(t == "all"@); }
    }
}

/// Pieces in order of byte length, longest first.
pub open spec fn longest_first_order(s: Seq<Seq<char>>) -> bool {
    forall|i: int, j: int| 0 <= i < j < s.len() ==> blen(s[i]) >= blen(s[j])
}

proof fn lemma_insert_by_len(s: Seq<Seq<char>>, x: Seq<char>)
    requires
        longest_first_order(s),
    ensures
        longest_first_order(insert_by_len(s, x)),
        insert_by_len(s, x).to_multiset() == s.to_multiset().insert(x),
        insert_by_len(s, x).len() == s.len() + 1,
        forall|i: int| 0 <= i < insert_by_len(s, x).len() ==> (#[trigger] insert_by_len(s, x)[i] == x || s.contains(
            insert_by_len(s, x)[i],
        )),
    decreases s.len(),
{
    broadcast use vstd::seq_lib::group_to_multiset_ensures;

    if s.len() == 0 {
        assert(insert_by_len(s, x) =~= seq![x]);
        assert(s =~= Seq::<Seq<char>>::empty());
        assert(seq![x] =~= Seq::<Seq<char>>::empty().push(x));
    } else if blen(s.last()) < blen(x) {
        let p = s.drop_last();
        assert forall|i: int, j: int| 0 <= i < j < p.len() implies blen(p[i]) >= blen(p[j]) by {
            assert(p[i] == s[i] && p[j] == s[j]);
        }
        lemma_insert_by_len(p, x);
        let t = insert_by_len(p, x);
        let r = t.push(s.last());
        assert(s =~= p.push(s.last()));
        assert forall|i: int| 0 <= i < r.len() implies (#[trigger] r[i] == x || s.contains(r[i])) by {
            if i < t.len() {
                assert(r[i] == t[i]);
                if t[i] != x {
                    let k = choose|k: int| 0 <= k < p.len() && p[k] == t[i];
                    assert(s[k] == t[i]);
                }
            } else {
                assert(s[s.len() - 1] == r[i]);
            }
        }
        assert forall|i: int, j: int| 0 <= i < j < r.len() implies blen(r[i]) >= blen(r[j]) by {
            if j == r.len() - 1 {
                assert(r[i] == t[i]);
                if t[i] == x {
                } else {
                    let k = choose|k: int| 0 <= k < p.len() && p[k] == t[i];
                    assert(s[k] == p[k]);
                    assert(blen(s[k]) >= blen(s[s.len() - 1]));
                }
            } else {
                assert(r[i] == t[i] && r[j] == t[j]);
            }
        }
    } else {
        let r = s.push(x);
        assert forall|i: int, j: int| 0 <= i < j < r.len() implies blen(r[i]) >= blen(r[j]) by {
            if j == r.len() - 1 {
                assert(r[i] == s[i]);
                if i < s.len() - 1 {
                    assert(blen(s[i]) >= blen(s[s.len() - 1]));
                }
            } else {
                assert(r[i] == s[i] && r[j] == s[j]);
            }
        }
        assert forall|i: int| 0 <= i < r.len() implies (#[trigger] r[i] == x || s.contains(r[i])) by {
            if i < s.len() {
                assert(r[i] == s[i]);
            }
        }
    }
}

/// The keys of an image name are tried longest first: `longest_first`
/// orders the pieces by byte length, longest first, and keeps every
/// piece, each as often as it came.
pub proof fn lemma_longest_first_sorts(s: Seq<Seq<char>>)
    ensures
        longest_first_order(longest_first(s)),
        longest_first(s).to_multiset() == s.to_multiset(),
    decreases s.len(),
{
    broadcast use vstd::seq_lib::group_to_multiset_ensures;

    if s.len() == 0 {
    } else {
        lemma_longest_first_sorts(s.drop_last());
        lemma_insert_by_len(longest_first(s.drop_last()), s.last());
        assert(s =~= s.drop_last().push(s.last()));
    }
}

} // verus!
