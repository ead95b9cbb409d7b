//! Closest-name scoring for the `/` search.

use vstd::prelude::*;
use crate::text::{chars_of, lowercase, to_lower};

verus! {

/// Bytes `c` takes in UTF-8.
pub open spec fn char_utf8_len(c: char) -> nat {
    if (c as u32) < 0x80 {
        1
    } else if (c as u32) < 0x800 {
        2
    } else if (c as u32) < 0x10000 {
        3
    } else {
        4
    }
}

/// Bytes `s` takes in UTF-8.
pub open spec fn utf8_len(s: Seq<char>) -> nat
    decreases s.len(),
{
    if s.len() == 0 {
        0
    } else {
        utf8_len(s.drop_last()) + char_utf8_len(s.last())
    }
}

/// An ASCII letter or digit.
pub open spec fn is_ascii_alnum(c: char) -> bool {
    ('0' <= c && c <= '9') || ('a' <= c && c <= 'z') || ('A' <= c && c <= 'Z')
}

/// `s` occurs in `t` at char index `i`.
pub open spec fn at(t: Seq<char>, s: Seq<char>, i: int) -> bool {
    0 <= i && i + s.len() <= t.len() && t.subrange(i, i + s.len()) == s
}

/// First char index where `s` occurs in `t` (meaningful when it does).
pub open spec fn first_at(t: Seq<char>, s: Seq<char>) -> int {
    choose|i: int| at(t, s, i) && forall|j: int| 0 <= j < i ==> !at(t, s, j)
}

/// First index `j >= k` with `n[j] == c`, or `n.len()`.
pub open spec fn next_match(n: Seq<char>, c: char, k: int) -> int
    decreases n.len() - k,
{
    if k >= n.len() {
        n.len() as int
    } else if k >= 0 && n[k] == c {
        k
    } else {
        next_match(n, c, k + 1)
    }
}

/// Char index in `n` where the `t`-th char of `q` lands in a greedy
/// in-order match (`n.len()` or more once the match has failed).
pub open spec fn greedy_pos(n: Seq<char>, q: Seq<char>, t: nat) -> int
    decreases t,
{
    if t == 0 {
        next_match(n, q[0], 0)
    } else {
        let prev = greedy_pos(n, q, (t - 1) as nat);
        if prev >= n.len() {
            n.len() as int
        } else {
            next_match(n, q[t as int], prev + 1)
        }
    }
}

/// `x`, capped at `usize::MAX`.
pub open spec fn sat(x: int) -> int {
    if x > usize::MAX { usize::MAX as int } else { x }
}

/// Char index `i` of `n` starts a word: it is the first char, or the
/// char before it is no ASCII letter or digit.
pub open spec fn starts_word(n: Seq<char>, i: int) -> bool {
    i == 0 || !is_ascii_alnum(n[i - 1])
}

/// `q` occurs in `n` at char index `i`, where a word starts.
pub open spec fn word_at(n: Seq<char>, q: Seq<char>, i: int) -> bool {
    at(n, q, i) && starts_word(n, i)
}

/// First char index where `q` occurs in `n` at the start of a word
/// (meaningful when it does).
pub open spec fn first_word_at(n: Seq<char>, q: Seq<char>) -> int {
    choose|i: int| word_at(n, q, i) && forall|j: int| 0 <= j < i ==> !word_at(n, q, j)
}

/// Score of a name `n` in which `q` occurs at char index `i`, ranked
/// from `base`: `base + 4 * byte offset + byte length`.
pub open spec fn substring_score(n: Seq<char>, i: int, base: int) -> int {
    sat(base + utf8_len(n.take(i)) as int * 4 + utf8_len(n) as int)
}

/// Score of the in-order (fuzzy) match of the non-empty `q` in `n`, by
/// the byte span between its first and last matched chars; `None` when
/// `q` is not a subsequence of `n`.
pub open spec fn fuzzy_score(q: Seq<char>, n: Seq<char>) -> Option<int> {
    if greedy_pos(n, q, (q.len() - 1) as nat) < n.len() {
        let first = greedy_pos(n, q, 0);
        let last = greedy_pos(n, q, (q.len() - 1) as nat);
        let span = utf8_len(n.take(last)) - utf8_len(n.take(first));
        Some(sat(5000 + span * 10 + utf8_len(n) as int))
    } else {
        None
    }
}

/// Closest-name score of query `q` against the lowercased name `n`
/// (lower = better): exact < prefix < word-start (the first occurrence
/// that starts a word) < substring (the first occurrence) < in-order
/// subsequence; `None` when not even a subsequence. Shorter names score
/// lower within a kind. Byte lengths and offsets as in UTF-8.
pub open spec fn match_score(q: Seq<char>, n: Seq<char>) -> Option<int> {
    if n == q {
        Some(0)
    } else if n.len() >= q.len() && n.take(q.len() as int) == q {
        Some(sat(100 + utf8_len(n) as int))
    } else if exists|i: int| word_at(n, q, i) {
        Some(substring_score(n, first_word_at(n, q), 500))
    } else if exists|i: int| at(n, q, i) {
        Some(substring_score(n, first_at(n, q), 1000))
    } else if q.len() == 0 {
        Some(sat(5000 + utf8_len(n) as int))
    } else {
        fuzzy_score(q, n)
    }
}

/// Only an exact match scores 0; every other plausible match scores more.
pub proof fn lemma_only_exact_scores_zero(q: Seq<char>, n: Seq<char>)
    ensures
        (match_score(q, n) == Some(0int)) <==> n == q,
{
    if q.len() > 0 && greedy_pos(n, q, (q.len() - 1) as nat) < n.len() {
        let last = greedy_pos(n, q, (q.len() - 1) as nat);
        lemma_greedy_first_le(n, q, (q.len() - 1) as nat);
        lemma_utf8_len_mono(n, greedy_pos(n, q, 0), last);
    }
}

proof fn lemma_first_word_found(n: Seq<char>, q: Seq<char>, k: int)
    requires
        word_at(n, q, k),
    ensures
        word_at(n, q, first_word_at(n, q)),
        0 <= first_word_at(n, q) <= n.len(),
    decreases k,
{
    if exists|j: int| 0 <= j < k && word_at(n, q, j) {
        let j = choose|j: int| 0 <= j < k && word_at(n, q, j);
        lemma_first_word_found(n, q, j);
    } else {
        assert(word_at(n, q, k) && forall|j: int| 0 <= j < k ==> !word_at(n, q, j));
    }
}

proof fn lemma_first_at_found(n: Seq<char>, q: Seq<char>, k: int)
    requires
        at(n, q, k),
    ensures
        at(n, q, first_at(n, q)),
        0 <= first_at(n, q) <= n.len(),
    decreases k,
{
    if exists|j: int| 0 <= j < k && at(n, q, j) {
        let j = choose|j: int| 0 <= j < k && at(n, q, j);
        lemma_first_at_found(n, q, j);
    } else {
        assert(at(n, q, k) && forall|j: int| 0 <= j < k ==> !at(n, q, j));
    }
}

proof fn lemma_prefix_tier(q: Seq<char>, n: Seq<char>)
    requires
        utf8_len(n) < 100,
        n != q,
        n.len() >= q.len(),
        n.take(q.len() as int) == q,
    ensures
        match_score(q, n) matches Some(s) && 100 < s < 500,
{
    if n.len() == q.len() {
        assert(n =~= q);
    }
    lemma_utf8_nonneg(n);
}

proof fn lemma_word_score(q: Seq<char>, n: Seq<char>)
    requires
        n != q,
        !(n.len() >= q.len() && n.take(q.len() as int) == q),
        exists|i: int| word_at(n, q, i),
    ensures
        match_score(q, n) == Some(substring_score(n, first_word_at(n, q), 500)),
{
}

proof fn lemma_substring_bound(n: Seq<char>, f: int, base: int)
    requires
        utf8_len(n) < 100,
        0 <= f <= n.len(),
        base == 500 || base == 1000,
    ensures
        base <= substring_score(n, f, base) < base + 500,
{
    assert(n.take(n.len() as int) =~= n);
    lemma_utf8_len_mono(n, f, n.len() as int);
    lemma_utf8_nonneg(n.take(f));
}

proof fn lemma_word_tier(q: Seq<char>, n: Seq<char>)
    requires
        utf8_len(n) < 100,
        !(n.len() >= q.len() && n.take(q.len() as int) == q),
        exists|i: int| word_at(n, q, i),
    ensures
        match_score(q, n) matches Some(s) && 500 <= s < 1000,
{
    assert(n != q) by {
        if n == q {
            assert(n.take(q.len() as int) =~= q);
        }
    }
    let k = choose|i: int| word_at(n, q, i);
    lemma_first_word_found(n, q, k);
    lemma_word_score(q, n);
    lemma_substring_bound(n, first_word_at(n, q), 500);
}

#[verifier::rlimit(80)]
proof fn lemma_inner_tier(q: Seq<char>, n: Seq<char>)
    requires
        utf8_len(n) < 100,
        !(n.len() >= q.len() && n.take(q.len() as int) == q),
        !(exists|i: int| word_at(n, q, i)),
        exists|i: int| at(n, q, i),
    ensures
        match_score(q, n) matches Some(s) && 1000 <= s < 5000,
{
    assert(n != q) by {
        if n == q {
            assert(n.take(q.len() as int) =~= q);
        }
    }
    assert(n.take(n.len() as int) =~= n);
    let k = choose|i: int| at(n, q, i);
    lemma_first_at_found(n, q, k);
    let f = first_at(n, q);
    assert(0 <= f <= n.len());
    lemma_utf8_len_mono(n, f, n.len() as int);
    lemma_utf8_nonneg(n.take(f));
    let pos = utf8_len(n.take(f)) as int;
    let len = utf8_len(n) as int;
    assert(0 <= pos <= len < 100);
    assert(substring_score(n, f, 1000) == 1000 + pos * 4 + len);
    assert(match_score(q, n) == Some(substring_score(n, f, 1000)));
}

proof fn lemma_fuzzy_tier(q: Seq<char>, n: Seq<char>)
    requires
        !(exists|i: int| at(n, q, i)),
    ensures
        match_score(q, n) is None || (match_score(q, n) matches Some(s) && s >= 5000),
{
    if q.len() == 0 {
        assert(n.take(0) =~= q);
    }
    if n.len() >= q.len() && n.take(q.len() as int) == q {
        assert(n.subrange(0, q.len() as int) =~= n.take(q.len() as int));
        assert(at(n, q, 0));
    }
    if exists|i: int| word_at(n, q, i) {
        let k = choose|i: int| word_at(n, q, i);
        assert(at(n, q, k));
    }
    assert(n != q) by {
        if n == q {
            assert(n.take(q.len() as int) =~= q);
        }
    }
    assert(!(exists|i: int| word_at(n, q, i)));
    assert(q.len() > 0);
    assert(match_score(q, n) == fuzzy_score(q, n));
    lemma_utf8_nonneg(n);
    if greedy_pos(n, q, (q.len() - 1) as nat) < n.len() {
        let first = greedy_pos(n, q, 0);
        let last = greedy_pos(n, q, (q.len() - 1) as nat);
        lemma_greedy_first_le(n, q, (q.len() - 1) as nat);
        lemma_utf8_len_mono(n, first, last);
        assert(utf8_len(n.take(last)) - utf8_len(n.take(first)) >= 0);
    }
}

/// The ranking of `/` search, for a name of under 100 bytes: an exact
/// match scores 0; a name the query begins scores 101-499; a name where
/// the query starts a word (anywhere) scores 500-999; one that holds the
/// query only inside words scores 1000-4999; a name that holds the
/// query's chars only in order scores 5000 or more, and one that does
/// not even do that has no score.
pub proof fn lemma_score_tiers(q: Seq<char>, n: Seq<char>)
    requires
        utf8_len(n) < 100,
    ensures
        n == q ==> match_score(q, n) == Some(0int),
        n != q && n.len() >= q.len() && n.take(q.len() as int) == q ==> (match_score(q, n) matches Some(s)
            && 100 < s < 500),
        !(n.len() >= q.len() && n.take(q.len() as int) == q) && (exists|i: int| word_at(n, q, i))
            ==> (match_score(q, n) matches Some(s) && 500 <= s < 1000),
        !(n.len() >= q.len() && n.take(q.len() as int) == q) && !(exists|i: int| word_at(n, q, i)) && (exists|i: int|
            at(n, q, i)) ==> (match_score(q, n) matches Some(s) && 1000 <= s < 5000),
        !(exists|i: int| at(n, q, i)) ==> (match_score(q, n) is None || (match_score(q, n) matches Some(s) && s
            >= 5000)),
{
    if n != q && n.len() >= q.len() && n.take(q.len() as int) == q {
        lemma_prefix_tier(q, n);
    }
    if !(n.len() >= q.len() && n.take(q.len() as int) == q) && (exists|i: int| word_at(n, q, i)) {
        lemma_word_tier(q, n);
    }
    if !(n.len() >= q.len() && n.take(q.len() as int) == q) && !(exists|i: int| word_at(n, q, i)) && (exists|i: int|
        at(n, q, i)) {
        lemma_inner_tier(q, n);
    }
    if !(exists|i: int| at(n, q, i)) {
        lemma_fuzzy_tier(q, n);
    }
}

proof fn lemma_utf8_nonneg(s: Seq<char>)
    ensures
        utf8_len(s) >= 0,
        s.len() > 0 ==> utf8_len(s) >= 1,
    decreases s.len(),
{
    if s.len() > 0 {
        lemma_utf8_nonneg(s.drop_last());
    }
}

proof fn lemma_next_match_bounds(n: Seq<char>, c: char, k: int)
    requires
        k >= 0,
    ensures
        k <= next_match(n, c, k) || k >= n.len(),
        next_match(n, c, k) <= n.len(),
    decreases n.len() - k,
{
    if k < n.len() && n[k] != c {
        lemma_next_match_bounds(n, c, k + 1);
    }
}

proof fn lemma_greedy_first_le(n: Seq<char>, q: Seq<char>, t: nat)
    ensures
        0 <= greedy_pos(n, q, 0) <= greedy_pos(n, q, t) <= n.len(),
    decreases t,
{
    lemma_next_match_bounds(n, q[0], 0);
    if t > 0 {
        lemma_greedy_first_le(n, q, (t - 1) as nat);
        let prev = greedy_pos(n, q, (t - 1) as nat);
        if prev < n.len() {
            lemma_next_match_bounds(n, q[t as int], prev + 1);
        }
    }
}

/// Among names that the query is a proper prefix of, the shorter name
/// (in bytes) scores lower.
pub proof fn lemma_shorter_prefix_name_wins(q: Seq<char>, n1: Seq<char>, n2: Seq<char>)
    requires
        n1 != q,
        n2 != q,
        n1.len() >= q.len() && n1.take(q.len() as int) == q,
        n2.len() >= q.len() && n2.take(q.len() as int) == q,
        utf8_len(n1) < utf8_len(n2),
        100 + utf8_len(n2) <= usize::MAX,
    ensures
        match_score(q, n1).unwrap() < match_score(q, n2).unwrap(),
{
}

fn sat_add(a: usize, b: usize) -> (r: usize)
    ensures
        r == sat(a + b),
{
    if a > usize::MAX - b { usize::MAX } else { a + b }
}

fn sat_mul(a: usize, b: usize) -> (r: usize)
    requires
        b >= 1,
    ensures
        r == sat(a * b),
{
    if a > usize::MAX / b {
        assert(a * b > usize::MAX) by (nonlinear_arith)
            requires
                a > usize::MAX / b,
                b >= 1,
        ;
        usize::MAX
    } else {
        assert(a * b <= usize::MAX) by (nonlinear_arith)
            requires
                a <= usize::MAX / b,
                b >= 1,
        ;
        a * b
    }
}

fn char_len_utf8(c: char) -> (r: usize)
    ensures
        r == char_utf8_len(c),
{
    let x = c as u32;
    if x < 0x80 {
        1
    } else if x < 0x800 {
        2
    } else if x < 0x10000 {
        3
    } else {
        4
    }
}

/// UTF-8 byte offsets of every char index of `v` (one more entry than
/// `v` has chars, the last being the whole length), capped at
/// `usize::MAX`.
fn byte_offsets(v: &Vec<char>) -> (r: Vec<usize>)
    ensures
        r@.len() == v@.len() + 1,
        forall|j: int| 0 <= j <= v@.len() ==> #[trigger] r@[j] == sat(utf8_len(v@.take(j)) as int),
{
    let mut r: Vec<usize> = Vec::new();
    r.push(0);
    assert(v@.take(0) =~= Seq::<char>::empty());
    let mut i: usize = 0;
    let mut acc: usize = 0;
    while i < v.len()
        invariant
            i <= v@.len(),
            r@.len() == i + 1,
            acc == sat(utf8_len(v@.take(i as int)) as int),
            forall|j: int| 0 <= j <= i ==> #[trigger] r@[j] == sat(utf8_len(v@.take(j)) as int),
        decreases v@.len() - i,
    {
        let w = char_len_utf8(v[i]);
        assert(v@.take(i + 1).drop_last() =~= v@.take(i as int));
        acc = sat_add(acc, w);
        i = i + 1;
        r.push(acc);
    }
    r
}

proof fn lemma_utf8_len_mono(s: Seq<char>, a: int, b: int)
    requires
        0 <= a <= b <= s.len(),
    ensures
        utf8_len(s.take(a)) <= utf8_len(s.take(b)),
    decreases b - a,
{
    if a < b {
        assert(s.take(b).drop_last() =~= s.take(b - 1));
        lemma_utf8_len_mono(s, a, b - 1);
    }
}

proof fn lemma_greedy_fails(n: Seq<char>, q: Seq<char>, t: nat, u: nat)
    requires
        t <= u,
        greedy_pos(n, q, t) >= n.len(),
    ensures
        greedy_pos(n, q, u) >= n.len(),
    decreases u - t,
{
    if t < u {
        lemma_greedy_fails(n, q, t, (u - 1) as nat);
    }
}

proof fn lemma_next_match(n: Seq<char>, c: char, k: int, j: int)
    requires
        0 <= k <= j <= n.len(),
        forall|m: int| k <= m < j ==> n[m] != c,
        j == n.len() || n[j] == c,
    ensures
        next_match(n, c, k) == j,
    decreases j - k,
{
    if k < j {
        lemma_next_match(n, c, k + 1, j);
    }
}

/// `sat(base + sat(x) * k + sat(len))`, computed without overflow, equals
/// `sat(base + x * k + len)`.
fn score_sum(base: usize, x: usize, k: usize, len: usize, Ghost(xs): Ghost<int>, Ghost(ls): Ghost<int>) -> (r: usize)
    requires
        k >= 1,
        xs >= 0,
        ls >= 0,
        x == sat(xs),
        len == sat(ls),
    ensures
        r == sat(base + xs * k + ls),
{
    let xk = sat_mul(x, k);
    assert(xk == sat(xs * k)) by (nonlinear_arith)
        requires
            xk == sat(x * k),
            x == sat(xs),
            xs >= 0,
            k >= 1,
    ;
    let a = sat_add(base, xk);
    sat_add(a, len)
}

/// Whether `q` is a prefix of `n`.
fn is_prefix(n: &Vec<char>, q: &Vec<char>) -> (b: bool)
    ensures
        b == (n@.len() >= q@.len() && n@.take(q@.len() as int) == q@),
{
    if q.len() > n.len() {
        return false;
    }
    let mut k: usize = 0;
    while k < q.len()
        invariant
            q@.len() <= n@.len(),
            k <= q@.len(),
            forall|t: int| 0 <= t < k ==> n@[t] == q@[t],
        decreases q@.len() - k,
    {
        if n[k] != q[k] {
            assert(n@.take(q@.len() as int)[k as int] == n@[k as int]);
            return false;
        }
        k = k + 1;
    }
    assert(n@.take(q@.len() as int) =~= q@);
    true
}

/// Whether `q` occurs in `n` at char index `i`.
fn occurs(n: &Vec<char>, q: &Vec<char>, i: usize) -> (b: bool)
    requires
        i + q@.len() <= n@.len(),
    ensures
        b == at(n@, q@, i as int),
{
    let mut t: usize = 0;
    while t < q.len()
        invariant
            i + q@.len() <= n@.len(),
            n@.len() == n.len(),
            t <= q@.len(),
            forall|u: int| 0 <= u < t ==> n@[i + u] == q@[u],
        decreases q@.len() - t,
    {
        if n[i + t] != q[t] {
            assert(n@.subrange(i as int, i + q@.len())[t as int] == n@[i + t]);
            return false;
        }
        t = t + 1;
    }
    assert(n@.subrange(i as int, i + q@.len()) =~= q@);
    true
}

/// The first char index where `q` occurs in `n`.
pub fn find_first(n: &Vec<char>, q: &Vec<char>) -> (r: Option<usize>)
    ensures
        match r {
            Some(i) => at(n@, q@, i as int) && first_at(n@, q@) == i,
            None => !exists|i: int| at(n@, q@, i),
        },
{
    if q.len() > n.len() {
        return None;
    }
    let last = n.len() - q.len();
    let mut i: usize = 0;
    while i < last
        invariant
            q@.len() <= n@.len(),
            last == n@.len() - q@.len(),
            i <= last,
            forall|j: int| 0 <= j < i ==> !at(n@, q@, j),
        decreases last - i,
    {
        if occurs(n, q, i) {
            proof {
                let f = first_at(n@, q@);
                assert(at(n@, q@, f) && forall|j: int| 0 <= j < f ==> !at(n@, q@, j));
            }
            return Some(i);
        }
        i = i + 1;
    }
    if occurs(n, q, last) {
        proof {
            let f = first_at(n@, q@);
            assert(at(n@, q@, f) && forall|j: int| 0 <= j < f ==> !at(n@, q@, j));
        }
        return Some(last);
    }
    None
}

/// Whether char index `i` of `n` starts a word.
fn is_word_start(n: &Vec<char>, i: usize) -> (b: bool)
    requires
        i <= n@.len(),
    ensures
        b == starts_word(n@, i as int),
{
    if i == 0 {
        return true;
    }
    let c = n[i - 1];
    !(('0' <= c && c <= '9') || ('a' <= c && c <= 'z') || ('A' <= c && c <= 'Z'))
}

/// The first char index where `q` occurs in `n` at the start of a word.
pub fn find_word_start(n: &Vec<char>, q: &Vec<char>) -> (r: Option<usize>)
    ensures
        match r {
            Some(i) => word_at(n@, q@, i as int) && first_word_at(n@, q@) == i,
            None => !exists|i: int| word_at(n@, q@, i),
        },
{
    if q.len() > n.len() {
        return None;
    }
    let last = n.len() - q.len();
    let mut i: usize = 0;
    loop
        invariant
            q@.len() <= n@.len(),
            last == n@.len() - q@.len(),
            i <= last,
            forall|j: int| 0 <= j < i ==> !word_at(n@, q@, j),
        decreases last - i,
    {
        if is_word_start(n, i) && occurs(n, q, i) {
            proof {
                assert(word_at(n@, q@, i as int) && forall|j: int|
                    0 <= j < i ==> !word_at(n@, q@, j));
                let f = first_word_at(n@, q@);
                assert(word_at(n@, q@, f) && forall|j: int| 0 <= j < f ==> !word_at(n@, q@, j));
                if f < i {
                    assert(!word_at(n@, q@, f));
                }
                if f > i {
                    assert(!word_at(n@, q@, i as int));
                }
            }
            return Some(i);
        }
        if i == last {
            proof {
                assert forall|j: int| #![trigger word_at(n@, q@, j)] !word_at(n@, q@, j) by {
                    if 0 <= j < i {
                    }
                }
            }
            return None;
        }
        i = i + 1;
    }
}

/// The greedy in-order match of the non-empty `q` in `n`: the char
/// indices of its first and last matched chars.
fn greedy_match(n: &Vec<char>, q: &Vec<char>) -> (r: Option<(usize, usize)>)
    requires
        q@.len() > 0,
    ensures
        match r {
            Some((f, l)) => greedy_pos(n@, q@, (q@.len() - 1) as nat) < n@.len() && f == greedy_pos(n@, q@, 0)
                && l == greedy_pos(n@, q@, (q@.len() - 1) as nat) && f <= l,
            None => greedy_pos(n@, q@, (q@.len() - 1) as nat) >= n@.len(),
        },
{
    let mut j: usize = 0;
    let mut first: usize = 0;
    let mut lastp: usize = 0;
    let mut t: usize = 0;
    while t < q.len()
        invariant
            0 < q@.len(),
            t <= q@.len(),
            j <= n@.len(),
            t > 0 ==> greedy_pos(n@, q@, (t - 1) as nat) < n@.len() && j == greedy_pos(n@, q@, (t - 1) as nat) + 1,
            t > 0 ==> first == greedy_pos(n@, q@, 0) && lastp == greedy_pos(n@, q@, (t - 1) as nat),
            t > 0 ==> first <= lastp,
            t == 0 ==> j == 0,
        decreases q@.len() - t,
    {
        let c = q[t];
        let ghost start = j;
        while j < n.len() && n[j] != c
            invariant
                start <= j <= n@.len(),
                forall|m: int| start <= m < j ==> n@[m] != c,
            decreases n@.len() - j,
        {
            j = j + 1;
        }
        proof {
            lemma_next_match(n@, c, start as int, j as int);
        }
        if j == n.len() {
            proof {
                assert(greedy_pos(n@, q@, t as nat) >= n@.len());
                lemma_greedy_fails(n@, q@, t as nat, (q@.len() - 1) as nat);
            }
            return None;
        }
        if t == 0 {
            first = j;
        }
        lastp = j;
        j = j + 1;
        t = t + 1;
    }
    Some((first, lastp))
}

/// Closest-name match score for `/` search (lower = better): exact <
/// prefix < word-start < substring < in-order subsequence (fuzzy typo
/// tolerance); `None` = not a plausible match. Shorter names win ties.
/// `q` is expected lowercase; `name` is lowercased here.
pub fn name_match_score(q: &str, name: &str) -> (r: Option<usize>)
    ensures
        match r {
            Some(x) => match_score(q@, lowercase(name@)) == Some(x as int),
            None => match_score(q@, lowercase(name@)) is None,
        },
{
    let lowered = to_lower(name);
    lowered_match_score(q, lowered.as_str())
}

/// The closest-name match score of query `q` against the already
/// lowercased name `n` (see `match_score`).
pub fn lowered_match_score(q: &str, n: &str) -> (r: Option<usize>)
    ensures
        match r {
            Some(x) => match_score(q@, n@) == Some(x as int),
            None => match_score(q@, n@) is None,
        },
{
    let n = chars_of(n);
    let qv = chars_of(q);
    let offs = byte_offsets(&n);
    let len = offs[n.len()];
    assert(n@.take(n@.len() as int) =~= n@);
    if is_prefix(&n, &qv) {
        if n.len() == qv.len() {
            assert(n@ =~= qv@);
            return Some(0);
        }
        return Some(score_sum(100, 0, 1, len, Ghost(0), Ghost(utf8_len(n@) as int)));
    }
    proof {
        if n@ == qv@ {
            assert(n@.take(qv@.len() as int) =~= n@);
        }
    }
    match substring_tier(&n, &qv, &offs) {
        Some(x) => {
            return Some(x);
        },
        None => {},
    }
    if qv.len() == 0 {
        return Some(score_sum(5000, 0, 1, len, Ghost(0), Ghost(utf8_len(n@) as int)));
    }
    fuzzy(&n, &qv, &offs)
}

/// The word-start or substring score of `q` in `n`, when `q` occurs in
/// `n` at all.
fn substring_tier(n: &Vec<char>, q: &Vec<char>, offs: &Vec<usize>) -> (r: Option<usize>)
    requires
        offs@.len() == n@.len() + 1,
        forall|j: int| 0 <= j <= n@.len() ==> #[trigger] offs@[j] == sat(utf8_len(n@.take(j)) as int),
    ensures
        match r {
            Some(x) => if exists|i: int| word_at(n@, q@, i) {
                x == substring_score(n@, first_word_at(n@, q@), 500)
            } else {
                (exists|i: int| at(n@, q@, i)) && x == substring_score(n@, first_at(n@, q@), 1000)
            },
            None => !exists|i: int| at(n@, q@, i),
        },
{
    match find_word_start(n, q) {
        Some(i) => {
            return Some(substring_at(n, offs, i, 500));
        },
        None => {},
    }
    match find_first(n, q) {
        Some(i) => Some(substring_at(n, offs, i, 1000)),
        None => {
            proof {
                assert forall|i: int| #![trigger at(n@, q@, i)] !word_at(n@, q@, i) by {}
            }
            None
        },
    }
}

/// The score of an occurrence at char index `i` of `n`, ranked from `base`.
fn substring_at(n: &Vec<char>, offs: &Vec<usize>, i: usize, base: usize) -> (r: usize)
    requires
        i <= n@.len(),
        offs@.len() == n@.len() + 1,
        forall|j: int| 0 <= j <= n@.len() ==> #[trigger] offs@[j] == sat(utf8_len(n@.take(j)) as int),
    ensures
        r == substring_score(n@, i as int, base as int),
{
    let len = offs[n.len()];
    assert(n@.take(n@.len() as int) =~= n@);
    let pos = offs[i];
    score_sum(base, pos, 4, len, Ghost(utf8_len(n@.take(i as int)) as int), Ghost(utf8_len(n@) as int))
}

/// The fuzzy score of the non-empty `q` against `n`.
fn fuzzy(n: &Vec<char>, q: &Vec<char>, offs: &Vec<usize>) -> (r: Option<usize>)
    requires
        q@.len() > 0,
        offs@.len() == n@.len() + 1,
        forall|j: int| 0 <= j <= n@.len() ==> #[trigger] offs@[j] == sat(utf8_len(n@.take(j)) as int),
    ensures
        match r {
            Some(x) => fuzzy_score(q@, n@) == Some(x as int),
            None => fuzzy_score(q@, n@) is None,
        },
{
    let len = offs[n.len()];
    assert(n@.take(n@.len() as int) =~= n@);
    match greedy_match(n, q) {
        Some((first, lastp)) => {
            proof {
                lemma_utf8_len_mono(n@, first as int, lastp as int);
                lemma_utf8_len_mono(n@, lastp as int, n@.len() as int);
            }
            let ghost span_s = utf8_len(n@.take(lastp as int)) - utf8_len(n@.take(first as int));
            if len == usize::MAX {
                // The name alone already fills the score.
                return Some(usize::MAX);
            }
            let span = offs[lastp] - offs[first];
            Some(score_sum(5000, span, 10, len, Ghost(span_s), Ghost(utf8_len(n@) as int)))
        },
        None => None,
    }
}

} // verus!
