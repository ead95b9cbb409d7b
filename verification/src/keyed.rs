//! String-keyed maps and sets kept as vectors sorted by key, in the
//! order `String`'s `Ord` gives (char by char, by code point, a proper
//! prefix first).

use vstd::prelude::*;
use crate::text::{chars_of, str_eq};

verus! {

/// Index of the first key of `keys` equal to `k`, or `keys.len()`.
pub open spec fn first_key(keys: Seq<Seq<char>>, k: Seq<char>) -> int
    decreases keys.len(),
{
    if keys.len() == 0 {
        0
    } else if keys[0] == k {
        0
    } else {
        1 + first_key(keys.drop_first(), k)
    }
}

/// No key occurs twice.
pub open spec fn keys_distinct(keys: Seq<Seq<char>>) -> bool {
    forall|i: int, j: int| 0 <= i < j < keys.len() ==> keys[i] != keys[j]
}

pub proof fn lemma_first_key(keys: Seq<Seq<char>>, k: Seq<char>, i: int)
    requires
        0 <= i <= keys.len(),
        forall|j: int| 0 <= j < i ==> keys[j] != k,
        i == keys.len() || keys[i] == k,
    ensures
        first_key(keys, k) == i,
    decreases i,
{
    if i > 0 {
        assert forall|j: int| 0 <= j < i - 1 implies keys.drop_first()[j] != k by {
            assert(keys.drop_first()[j] == keys[j + 1]);
        }
        lemma_first_key(keys.drop_first(), k, i - 1);
    }
}

/// `a` sorts strictly before `b`.
pub open spec fn lex_lt(a: Seq<char>, b: Seq<char>) -> bool
    decreases a.len(),
{
    if a.len() == 0 {
        b.len() > 0
    } else if b.len() == 0 {
        false
    } else if a[0] != b[0] {
        a[0] < b[0]
    } else {
        lex_lt(a.drop_first(), b.drop_first())
    }
}

/// Exactly one of `a < b`, `a == b`, `b < a` holds.
pub proof fn lemma_lex_trichotomy(a: Seq<char>, b: Seq<char>)
    ensures
        lex_lt(a, b) || a == b || lex_lt(b, a),
        !(lex_lt(a, b) && lex_lt(b, a)),
        !lex_lt(a, a),
    decreases a.len(),
{
    if a.len() > 0 && b.len() > 0 {
        lemma_lex_trichotomy(a.drop_first(), b.drop_first());
        if a[0] == b[0] && a.drop_first() == b.drop_first() {
            assert(a =~= seq![a[0]] + a.drop_first());
            assert(b =~= seq![b[0]] + b.drop_first());
        }
    } else if a.len() == 0 && b.len() == 0 {
        assert(a =~= b);
    }
    if a.len() > 0 {
        lemma_lex_trichotomy(a.drop_first(), a.drop_first());
    }
}

/// The order is transitive.
pub proof fn lemma_lex_transitive(a: Seq<char>, b: Seq<char>, c: Seq<char>)
    requires
        lex_lt(a, b),
        lex_lt(b, c),
    ensures
        lex_lt(a, c),
    decreases a.len(),
{
    if a.len() > 0 && b.len() > 0 && c.len() > 0 && a[0] == b[0] && b[0] == c[0] {
        lemma_lex_transitive(a.drop_first(), b.drop_first(), c.drop_first());
    }
}

/// Whether `a` sorts strictly before `b`.
pub fn str_lt(a: &str, b: &str) -> (r: bool)
    ensures
        r == lex_lt(a@, b@),
{
    let x = chars_of(a);
    let y = chars_of(b);
    let mut i: usize = 0;
    assert(x@.skip(0) =~= x@);
    assert(y@.skip(0) =~= y@);
    while i < x.len() && i < y.len()
        invariant
            x@ == a@,
            y@ == b@,
            i <= x@.len(),
            i <= y@.len(),
            lex_lt(x@, y@) == lex_lt(x@.skip(i as int), y@.skip(i as int)),
        decreases x@.len() - i,
    {
        if x[i] != y[i] {
            let ghost xs = x@.skip(i as int);
            let ghost ys = y@.skip(i as int);
            assert(xs.len() > 0 && ys.len() > 0);
            assert(xs[0] == x@[i as int] && ys[0] == y@[i as int]);
            assert(lex_lt(xs, ys) == (xs[0] < ys[0]));
            return x[i] < y[i];
        }
        assert(x@.skip(i as int).drop_first() =~= x@.skip(i + 1));
        assert(y@.skip(i as int).drop_first() =~= y@.skip(i + 1));
        i = i + 1;
    }
    assert(x@.skip(i as int).len() == x@.len() - i);
    i < y.len()
}

/// The keys of a list of pairs.
pub open spec fn pair_keys<V>(s: Seq<(String, V)>) -> Seq<Seq<char>> {
    Seq::new(s.len(), |i: int| s[i].0@)
}

/// The chars of each string of a list.
pub open spec fn str_views(s: Seq<String>) -> Seq<Seq<char>> {
    Seq::new(s.len(), |i: int| s[i]@)
}

/// Strictly increasing keys: sorted, without duplicates.
pub open spec fn sorted_keys(keys: Seq<Seq<char>>) -> bool {
    forall|i: int, j: int| 0 <= i < j < keys.len() ==> lex_lt(keys[i], keys[j])
}

proof fn lemma_sorted_after_insert(keys: Seq<Seq<char>>, p: int, k: Seq<char>)
    requires
        sorted_keys(keys),
        0 <= p <= keys.len(),
        forall|i: int| 0 <= i < p ==> lex_lt(keys[i], k),
        p < keys.len() ==> lex_lt(k, keys[p]),
    ensures
        sorted_keys(keys.insert(p, k)),
{
    let n = keys.insert(p, k);
    assert forall|i: int, j: int| 0 <= i < j < n.len() implies lex_lt(n[i], n[j]) by {
        if j < p {
        } else if j == p {
        } else if i < p {
            lemma_lex_transitive(keys[i], k, keys[p]);
            if j - 1 > p {
                lemma_lex_transitive(keys[i], keys[p], keys[j - 1]);
            }
        } else if i == p {
            if j - 1 > p {
                lemma_lex_transitive(k, keys[p], keys[j - 1]);
            }
        } else {
        }
    }
}

/// Position where key `k` belongs in the sorted `keys`: the number of
/// keys before it.
fn key_position(keys: &Vec<String>, k: &str) -> (p: usize)
    requires
        sorted_keys(str_views(keys@)),
    ensures
        p <= keys@.len(),
        forall|i: int| 0 <= i < p ==> lex_lt(keys@[i]@, k@),
        p < keys@.len() ==> !lex_lt(keys@[p as int]@, k@),
{
    let mut p: usize = 0;
    while p < keys.len() && str_lt(keys[p].as_str(), k)
        invariant
            p <= keys@.len(),
            forall|i: int| 0 <= i < p ==> lex_lt(keys@[i]@, k@),
        decreases keys@.len() - p,
    {
        p = p + 1;
    }
    p
}

/// Inserts `v` under key `k` in the key-sorted `m`, replacing the value
/// the key had; returns the pair's position.
pub(crate) fn map_insert<V>(m: &mut Vec<(String, V)>, k: String, v: V) -> (p: usize)
    requires
        sorted_keys(pair_keys(old(m)@)),
    ensures
        sorted_keys(pair_keys(final(m)@)),
        p <= old(m)@.len(),
        forall|i: int| 0 <= i < p ==> lex_lt(old(m)@[i].0@, k@),
        if p < old(m)@.len() && old(m)@[p as int].0@ == k@ {
            final(m)@ == old(m)@.update(p as int, (k, v))
        } else {
            &&& final(m)@ == old(m)@.insert(p as int, (k, v))
            &&& p < old(m)@.len() ==> lex_lt(k@, old(m)@[p as int].0@)
        },
{
    let ghost keys = pair_keys(m@);
    let mut p: usize = 0;
    while p < m.len() && str_lt(m[p].0.as_str(), k.as_str())
        invariant
            keys == pair_keys(m@),
            p <= m@.len(),
            forall|i: int| 0 <= i < p ==> lex_lt(m@[i].0@, k@),
        decreases m@.len() - p,
    {
        p = p + 1;
    }
    if p < m.len() && str_eq(m[p].0.as_str(), k.as_str()) {
        let ghost before = m@;
        m.set(p, (k, v));
        proof {
            assert(pair_keys(m@) =~= keys.update(p as int, k@));
            assert(keys.update(p as int, k@) =~= keys);
        }
        p
    } else {
        proof {
            if p < m@.len() {
                lemma_lex_trichotomy(m@[p as int].0@, k@);
            }
            lemma_sorted_after_insert(keys, p as int, k@);
        }
        let ghost kv = k@;
        m.insert(p, (k, v));
        proof {
            assert(pair_keys(m@) =~= keys.insert(p as int, kv));
        }
        p
    }
}

/// Adds `s` to the sorted set `v` (a no-op when it is there already).
pub(crate) fn set_insert(v: &mut Vec<String>, s: String)
    requires
        sorted_keys(str_views(old(v)@)),
    ensures
        sorted_keys(str_views(final(v)@)),
        str_views(final(v)@).to_set() == str_views(old(v)@).to_set().insert(s@),
{
    let ghost keys = str_views(v@);
    let p = key_position(v, s.as_str());
    if p < v.len() && str_eq(v[p].as_str(), s.as_str()) {
        assert(keys.to_set().contains(s@)) by {
            assert(keys[p as int] == s@);
        }
        assert(keys.to_set().insert(s@) =~= keys.to_set());
    } else {
        proof {
            if p < v@.len() {
                lemma_lex_trichotomy(v@[p as int]@, s@);
            }
            lemma_sorted_after_insert(keys, p as int, s@);
        }
        let ghost sv = s@;
        v.insert(p, s);
        proof {
            assert(str_views(v@) =~= keys.insert(p as int, sv));
            assert(str_views(v@).to_set() =~= keys.to_set().insert(sv)) by {
                assert forall|x: Seq<char>| #[trigger] str_views(v@).to_set().contains(x) <==> keys.to_set().insert(sv).contains(x) by {
                    if str_views(v@).to_set().contains(x) {
                        let i = choose|i: int| 0 <= i < str_views(v@).len() && str_views(v@)[i] == x;
                        if i < p {
                            assert(keys[i] == x);
                        } else if i > p {
                            assert(keys[i - 1] == x);
                        }
                    }
                    if keys.to_set().contains(x) {
                        let i = choose|i: int| 0 <= i < keys.len() && keys[i] == x;
                        if i < p {
                            assert(str_views(v@)[i] == x);
                        } else {
                            assert(str_views(v@)[i + 1] == x);
                        }
                    }
                    if x == sv {
                        assert(str_views(v@)[p as int] == x);
                    }
                }
            }
        }
    }
}

/// The map a list of string pairs stands for: each key to the value of
/// its first pair.
pub open spec fn pairs_map<V: View>(s: Seq<(String, V)>) -> Map<Seq<char>, V::V> {
    Map::new(
        |k: Seq<char>| first_key(pair_keys(s), k) < s.len(),
        |k: Seq<char>| s[first_key(pair_keys(s), k)].1@,
    )
}

pub proof fn lemma_first_key_bounds(keys: Seq<Seq<char>>, k: Seq<char>)
    ensures
        0 <= first_key(keys, k) <= keys.len(),
        first_key(keys, k) < keys.len() ==> keys[first_key(keys, k)] == k,
        forall|j: int| 0 <= j < first_key(keys, k) ==> keys[j] != k,
    decreases keys.len(),
{
    if keys.len() > 0 && keys[0] != k {
        lemma_first_key_bounds(keys.drop_first(), k);
        assert forall|j: int| 0 <= j < first_key(keys, k) implies keys[j] != k by {
            if j > 0 {
                assert(keys.drop_first()[j - 1] == keys[j]);
            }
        }
    }
}

/// What `map_insert` does to the map a sorted pair list stands for: it
/// becomes that map with `k` set to `v`.
pub proof fn lemma_map_insert_map<V: View>(old_s: Seq<(String, V)>, new_s: Seq<(String, V)>, p: int, k: String, v: V)
    requires
        sorted_keys(pair_keys(old_s)),
        0 <= p <= old_s.len(),
        forall|i: int| 0 <= i < p ==> lex_lt(old_s[i].0@, k@),
        if p < old_s.len() && old_s[p].0@ == k@ {
            new_s == old_s.update(p, (k, v))
        } else {
            &&& new_s == old_s.insert(p, (k, v))
            &&& p < old_s.len() ==> lex_lt(k@, old_s[p].0@)
        },
    ensures
        pairs_map(new_s) == pairs_map(old_s).insert(k@, v@),
{
    let ok = pair_keys(old_s);
    let nk = pair_keys(new_s);
    if p < old_s.len() && old_s[p].0@ == k@ {
        assert(nk =~= ok.update(p, k@));
        assert(nk =~= ok);
    } else {
        assert(nk =~= ok.insert(p, k@));
    }
    assert forall|i: int| 0 <= i < p implies ok[i] != k@ by {
        lemma_lex_trichotomy(ok[i], k@);
    }
    lemma_first_key(nk, k@, p);
    assert forall|x: Seq<char>| x != k@ implies #[trigger] first_key(nk, x) == (if first_key(ok, x) < p {
        first_key(ok, x)
    } else if p < old_s.len() && old_s[p].0@ == k@ {
        first_key(ok, x)
    } else {
        first_key(ok, x) + 1
    }) by {
        lemma_first_key_bounds(ok, x);
        let f = first_key(ok, x);
        if f < p {
            lemma_first_key(nk, x, f);
        } else if p < old_s.len() && old_s[p].0@ == k@ {
            lemma_first_key(nk, x, f);
        } else {
            assert forall|j: int| 0 <= j < f + 1 implies nk[j] != x by {
                if j > p {
                    assert(nk[j] == ok[j - 1]);
                }
            }
            lemma_first_key(nk, x, f + 1);
        }
    }
    assert(pairs_map(new_s) =~= pairs_map(old_s).insert(k@, v@)) by {
        assert forall|x: Seq<char>| #[trigger] pairs_map(new_s).dom().contains(x) <==> pairs_map(old_s).insert(k@, v@).dom().contains(x) by {
            lemma_first_key_bounds(ok, x);
        }
        assert forall|x: Seq<char>| pairs_map(new_s).dom().contains(x) implies #[trigger] pairs_map(new_s)[x] == pairs_map(old_s).insert(k@, v@)[x] by {
            lemma_first_key_bounds(ok, x);
        }
    }
}

/// Sets key `k` to `v` in the key-sorted `m`.
pub(crate) fn map_set<V: View>(m: &mut Vec<(String, V)>, k: String, v: V)
    requires
        sorted_keys(pair_keys(old(m)@)),
    ensures
        sorted_keys(pair_keys(final(m)@)),
        pairs_map(final(m)@) == pairs_map(old(m)@).insert(k@, v@),
{
    let ghost old_m = m@;
    let ghost kv = k@;
    let ghost vv = v@;
    let p = map_insert(m, k, v);
    proof {
        lemma_map_insert_map(old_m, m@, p as int, m@[p as int].0, m@[p as int].1);
    }
}

/// Index of the pair with key `k`, if any.
pub fn find_key<V>(m: &Vec<(String, V)>, k: &str) -> (r: Option<usize>)
    ensures
        match r {
            Some(i) => i == first_key(pair_keys(m@), k@) && i < m@.len(),
            None => first_key(pair_keys(m@), k@) == m@.len(),
        },
{
    let mut i: usize = 0;
    while i < m.len()
        invariant
            i <= m@.len(),
            forall|j: int| 0 <= j < i ==> pair_keys(m@)[j] != k@,
        decreases m@.len() - i,
    {
        if str_eq(m[i].0.as_str(), k) {
            proof {
                lemma_first_key(pair_keys(m@), k@, i as int);
            }
            return Some(i);
        }
        i = i + 1;
    }
    proof {
        lemma_first_key(pair_keys(m@), k@, i as int);
    }
    None
}

/// Whether the list holds a string equal to `s`.
pub fn contains_str(v: &Vec<String>, s: &str) -> (b: bool)
    ensures
        b == str_views(v@).contains(s@),
{
    let mut i: usize = 0;
    while i < v.len()
        invariant
            i <= v@.len(),
            forall|j: int| 0 <= j < i ==> str_views(v@)[j] != s@,
        decreases v@.len() - i,
    {
        if str_eq(v[i].as_str(), s) {
            assert(str_views(v@)[i as int] == s@);
            return true;
        }
        i = i + 1;
    }
    false
}

// ------------------------------------------------------------ the map

/// A map from strings, its pairs kept sorted by key, each key once.
pub struct KeyedMap<V> {
    entries: Vec<(String, V)>,
}

impl<V> KeyedMap<V> {
    #[verifier::type_invariant]
    spec fn sorted(self) -> bool {
        sorted_keys(pair_keys(self.entries@))
    }
}

impl<V: View> View for KeyedMap<V> {
    type V = Map<Seq<char>, V::V>;

    closed spec fn view(&self) -> Map<Seq<char>, V::V> {
        pairs_map(self.entries@)
    }
}

impl<V: View> KeyedMap<V> {
    /// The empty map.
    pub fn new() -> (r: Self)
        ensures
            r@ == Map::<Seq<char>, V::V>::empty(),
    {
        let r = KeyedMap { entries: Vec::new() };
        assert(r@ =~= Map::<Seq<char>, V::V>::empty());
        r
    }

    /// Sets key `k` to `v`.
    pub fn set(&mut self, k: String, v: V)
        ensures
            final(self)@ == old(self)@.insert(k@, v@),
    {
        proof {
            use_type_invariant(&*self);
        }
        let mut e: Vec<(String, V)> = Vec::new();
        std::mem::swap(&mut self.entries, &mut e);
        map_set(&mut e, k, v);
        *self = KeyedMap { entries: e };
    }

    /// Whether key `k` has a value.
    pub fn contains_key(&self, k: &str) -> (b: bool)
        ensures
            b == self@.contains_key(k@),
    {
        let r = find_key(&self.entries, k);
        proof {
            lemma_first_key_bounds(pair_keys(self.entries@), k@);
        }
        r.is_some()
    }

    /// The value under key `k`, if any.
    pub fn get(&self, k: &str) -> (r: Option<&V>)
        ensures
            match r {
                Some(v) => self@.contains_key(k@) && self@[k@] == v@,
                None => !self@.contains_key(k@),
            },
    {
        proof {
            lemma_first_key_bounds(pair_keys(self.entries@), k@);
        }
        match find_key(&self.entries, k) {
            Some(i) => Some(&self.entries[i].1),
            None => None,
        }
    }

    /// The pairs, sorted by key.
    pub fn entries(&self) -> (r: &Vec<(String, V)>)
        ensures
            sorted_keys(pair_keys(r@)),
            pairs_map(r@) == self@,
    {
        proof {
            use_type_invariant(self);
        }
        &self.entries
    }

    /// The pairs, sorted by key, taken out of the map.
    pub fn into_entries(self) -> (r: Vec<(String, V)>)
        ensures
            sorted_keys(pair_keys(r@)),
            pairs_map(r@) == self@,
    {
        proof {
            use_type_invariant(&self);
        }
        self.entries
    }
}

} // verus!
