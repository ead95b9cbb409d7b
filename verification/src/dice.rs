//! O6 — the open-ended d6 used by the Amar RPG.
//!
//! Roll procedure:
//!   - Roll a d6.
//!   - On a 6: reroll, +1 per 4/5/6, stop on 1/2/3.
//!   - On a 1: reroll, -1 per 1/2/3, stop on 4/5/6.
//!   - Two consecutive 6s anywhere -> Critical.
//!   - Two consecutive 1s anywhere -> Fumble.

use vstd::prelude::*;
/// The natural-number type of the stream model, for implementors of `Rng`.
pub use vstd::prelude::nat;

verus! {

#[derive(Debug, Clone, Copy, PartialEq, Eq, Structural)]
pub enum Outcome {
    Normal,
    Critical,
    Fumble,
}

#[derive(Debug, Clone)]
pub struct Roll {
    pub total: i32,
    pub outcome: Outcome,
    pub sequence: Vec<u8>,
}

/// A source of d6 rolls.
pub trait Rng {
    /// The face that the `k`-th call of `d6` from this state hands out
    /// (`k == 0` for the next call).
    spec fn face_at(&self, k: nat) -> u8;

    /// One die face: the next face of the stream, which then moves on by one.
    fn d6(&mut self) -> (r: u8)
        ensures
            1 <= r <= 6,
            r == old(self).face_at(0),
            forall|k: nat| #[trigger] final(self).face_at(k) == old(self).face_at(k + 1),
    ;
}

/// The first `n` faces that `r` hands out, in order.
pub open spec fn drawn<R: Rng>(r: R, n: nat) -> Seq<u8> {
    Seq::new(n, |i: int| r.face_at(i as nat))
}

/// `after` is `before` with its first `n` faces drawn.
pub open spec fn advanced<R: Rng>(before: R, after: R, n: nat) -> bool {
    forall|k: nat| #[trigger] after.face_at(k) == before.face_at(k + n)
}

/// A die face that continues an upward (6-started) cascade.
pub open spec fn extends_up(d: u8) -> bool {
    4 <= d <= 6
}

/// A die face that continues a downward (1-started) cascade.
pub open spec fn extends_down(d: u8) -> bool {
    1 <= d <= 3
}

/// How many dice of `s` are 4, 5 or 6.
pub open spec fn ups(s: Seq<u8>) -> int
    decreases s.len(),
{
    if s.len() == 0 {
        0
    } else {
        ups(s.drop_last()) + if extends_up(s.last()) { 1int } else { 0int }
    }
}

/// How many dice of `s` are 1, 2 or 3.
pub open spec fn downs(s: Seq<u8>) -> int
    decreases s.len(),
{
    if s.len() == 0 {
        0
    } else {
        downs(s.drop_last()) + if extends_down(s.last()) { 1int } else { 0int }
    }
}

/// `s` holds two consecutive dice that both show `face`.
pub open spec fn has_double(s: Seq<u8>, face: u8) -> bool {
    exists|i: int| 1 <= i < s.len() && #[trigger] s[i] == face && s[i - 1] == face
}

/// The total an O6 cascade with dice `s` yields: a middle first die
/// stands alone; a 6 counts one up for every 4/5/6 after it; a 1 counts
/// one down for every 1/2/3 after it.
pub open spec fn o6_total(s: Seq<u8>) -> int {
    let first = s[0];
    if 2 <= first <= 5 {
        first as int
    } else if first == 6 {
        5 + ups(s)
    } else {
        2 - downs(s)
    }
}

/// The outcome flag of an O6 cascade with dice `s`.
pub open spec fn o6_outcome(s: Seq<u8>) -> Outcome {
    let first = s[0];
    if 2 <= first <= 5 {
        Outcome::Normal
    } else if first == 6 {
        if has_double(s, 6) { Outcome::Critical } else { Outcome::Normal }
    } else {
        if has_double(s, 1) { Outcome::Fumble } else { Outcome::Normal }
    }
}

/// `s` is the full sequence of dice of one O6 roll: every die is a face;
/// a middle first die is alone; otherwise every die after the first but
/// the last continues the cascade and the last die stops it — unless the
/// running total has reached the end of the `i32` range, where the
/// cascade is cut off with every die after the first continuing it.
pub open spec fn o6_sequence(s: Seq<u8>) -> bool {
    &&& s.len() >= 1
    &&& forall|i: int| 0 <= i < s.len() ==> 1 <= #[trigger] s[i] <= 6
    &&& {
        let first = s[0];
        if 2 <= first <= 5 {
            s.len() == 1
        } else if first == 6 {
            &&& forall|i: int| 1 <= i < s.len() - 1 ==> extends_up(#[trigger] s[i])
            &&& ((s.len() >= 2 && !extends_up(s.last())) || (extends_up(s.last())
                && o6_total(s) == i32::MAX))
        } else {
            &&& forall|i: int| 1 <= i < s.len() - 1 ==> extends_down(#[trigger] s[i])
            &&& ((s.len() >= 2 && !extends_down(s.last())) || (extends_down(s.last())
                && o6_total(s) == i32::MIN))
        }
    }
}

proof fn lemma_push_double(s: Seq<u8>, r: u8, face: u8)
    requires
        s.len() >= 1,
    ensures
        has_double(s.push(r), face) == (has_double(s, face) || (s.last() == face && r == face)),
{
    let t = s.push(r);
    if has_double(s, face) {
        let i = choose|i: int| 1 <= i < s.len() && #[trigger] s[i] == face && s[i - 1] == face;
        assert(t[i] == face && t[i - 1] == face);
    }
    if s.last() == face && r == face {
        assert(t[s.len() as int] == face && t[s.len() - 1] == face);
    }
    if has_double(t, face) {
        let i = choose|i: int| 1 <= i < t.len() && #[trigger] t[i] == face && t[i - 1] == face;
        if i < s.len() {
            assert(s[i] == face && s[i - 1] == face);
        }
    }
}

proof fn lemma_ups_at_least(s: Seq<u8>, i: int)
    requires
        0 <= i < s.len(),
        extends_up(s[i]),
    ensures
        ups(s) >= ups(s.take(i)) + 1,
        ups(s.take(i)) >= 0,
    decreases s.len(),
{
    if i < s.len() - 1 {
        lemma_ups_at_least(s.drop_last(), i);
        assert(s.drop_last().take(i) =~= s.take(i));
    } else {
        assert(s.drop_last() =~= s.take(i));
    }
    lemma_ups_nonneg(s.take(i));
}

proof fn lemma_ups_nonneg(s: Seq<u8>)
    ensures
        ups(s) >= 0,
        downs(s) >= 0,
    decreases s.len(),
{
    if s.len() > 0 {
        lemma_ups_nonneg(s.drop_last());
    }
}

proof fn lemma_downs_at_least(s: Seq<u8>, i: int)
    requires
        0 <= i < s.len(),
        extends_down(s[i]),
    ensures
        downs(s) >= downs(s.take(i)) + 1,
    decreases s.len(),
{
    if i < s.len() - 1 {
        lemma_downs_at_least(s.drop_last(), i);
        assert(s.drop_last().take(i) =~= s.take(i));
    } else {
        assert(s.drop_last() =~= s.take(i));
    }
}

proof fn lemma_ups_two(s: Seq<u8>, i: int)
    requires
        1 <= i < s.len(),
        s[i] == 6,
        s[i - 1] == 6,
    ensures
        ups(s) >= 2,
{
    lemma_ups_at_least(s, i);
    lemma_ups_at_least(s.take(i), i - 1);
    assert(s.take(i)[i - 1] == s[i - 1]);
    lemma_ups_nonneg(s.take(i).take(i - 1));
}

proof fn lemma_downs_two(s: Seq<u8>, i: int)
    requires
        1 <= i < s.len(),
        s[i] == 1,
        s[i - 1] == 1,
    ensures
        downs(s) >= 2,
{
    lemma_downs_at_least(s, i);
    lemma_downs_at_least(s.take(i), i - 1);
    assert(s.take(i)[i - 1] == s[i - 1]);
    lemma_ups_nonneg(s.take(i).take(i - 1));
}

/// In any O6 roll, a Critical is exactly two 6s in a row and a Fumble
/// exactly two 1s in a row; a Critical has a total of at least 7 and a
/// Fumble one of at most 0.
pub proof fn lemma_doubles_decide_outcome(s: Seq<u8>)
    requires
        o6_sequence(s),
    ensures
        (o6_outcome(s) == Outcome::Critical) <==> has_double(s, 6),
        (o6_outcome(s) == Outcome::Fumble) <==> has_double(s, 1),
        o6_outcome(s) == Outcome::Critical ==> s[0] == 6 && o6_total(s) >= 7,
        o6_outcome(s) == Outcome::Fumble ==> s[0] == 1 && o6_total(s) <= 0,
{
    let first = s[0];
    if 2 <= first <= 5 {
        assert(!has_double(s, 6));
        assert(!has_double(s, 1));
    } else if first == 6 {
        if has_double(s, 1) {
            let i = choose|i: int| 1 <= i < s.len() && #[trigger] s[i] == 1 && s[i - 1] == 1;
            if i - 1 >= 1 {
                assert(extends_up(s[i - 1]));
            }
        }
        if has_double(s, 6) {
            let i = choose|i: int| 1 <= i < s.len() && #[trigger] s[i] == 6 && s[i - 1] == 6;
            lemma_ups_two(s, i);
        }
    } else {
        if has_double(s, 6) {
            let i = choose|i: int| 1 <= i < s.len() && #[trigger] s[i] == 6 && s[i - 1] == 6;
            if i - 1 >= 1 {
                assert(extends_down(s[i - 1]));
            }
        }
        if has_double(s, 1) {
            let i = choose|i: int| 1 <= i < s.len() && #[trigger] s[i] == 1 && s[i - 1] == 1;
            lemma_downs_two(s, i);
        }
    }
}

/// How an O6 total builds up, die by die: a middle first die (2-5) is
/// the total; a first 6 counts 6, and every later 4, 5 or 6 adds one
/// while a 1, 2 or 3 adds nothing; a first 1 counts 1, and every later
/// 1, 2 or 3 takes one away while a 4, 5 or 6 takes nothing.
pub proof fn lemma_o6_total_by_die(s: Seq<u8>, d: u8)
    requires
        s.len() >= 1,
    ensures
        2 <= s[0] <= 5 ==> o6_total(s) == s[0],
        s[0] == 6 ==> o6_total(seq![6u8]) == 6,
        s[0] == 1 ==> o6_total(seq![1u8]) == 1,
        s[0] == 6 ==> o6_total(s.push(d)) == o6_total(s) + (if 4 <= d <= 6 { 1int } else { 0int }),
        s[0] == 1 ==> o6_total(s.push(d)) == o6_total(s) - (if 1 <= d <= 3 { 1int } else { 0int }),
{
    assert(s.push(d)[0] == s[0]);
    assert(s.push(d).drop_last() =~= s);
    assert(seq![6u8].drop_last() =~= Seq::<u8>::empty());
    assert(seq![1u8].drop_last() =~= Seq::<u8>::empty());
    assert(ups(seq![6u8]) == ups(Seq::<u8>::empty()) + 1);
    assert(downs(seq![1u8]) == downs(Seq::<u8>::empty()) + 1);
}

/// Whether a check succeeds: a Critical always does and a Fumble never
/// does, whatever the numbers; a Normal roll does exactly when its final
/// total reaches the DR.
pub proof fn lemma_check_success(final_total: int, dr: int)
    ensures
        check_succeeds(Outcome::Critical, final_total, dr),
        !check_succeeds(Outcome::Fumble, final_total, dr),
        check_succeeds(Outcome::Normal, final_total, dr) <==> final_total >= dr,
        clamp_i32(final_total) == final_total <==> i32::MIN <= final_total <= i32::MAX,
{
}

/// The shape of a full O6 roll: a middle first die (2-5) is the whole
/// roll; after a first 6 every die but the last shows 4-6 and the last
/// shows 1-3 (unless the total reached `i32::MAX`); after a first 1
/// every die but the last shows 1-3 and the last shows 4-6 (unless the
/// total reached `i32::MIN`). Every die is a face, 1-6.
pub proof fn lemma_o6_sequence_shape(s: Seq<u8>)
    requires
        o6_sequence(s),
    ensures
        forall|i: int| 0 <= i < s.len() ==> 1 <= #[trigger] s[i] <= 6,
        2 <= s[0] <= 5 ==> s.len() == 1,
        s[0] == 6 ==> forall|i: int| 1 <= i < s.len() - 1 ==> 4 <= #[trigger] s[i] <= 6,
        s[0] == 6 && o6_total(s) < i32::MAX ==> s.len() >= 2 && 1 <= s.last() <= 3,
        s[0] == 1 ==> forall|i: int| 1 <= i < s.len() - 1 ==> 1 <= #[trigger] s[i] <= 3,
        s[0] == 1 && o6_total(s) > i32::MIN ==> s.len() >= 2 && 4 <= s.last() <= 6,
{
    assert(s.last() == s[s.len() - 1]);
}

/// When an O6 roll is a Critical or a Fumble: a Critical exactly when
/// the roll starts with a 6 and two dice in a row show 6; a Fumble
/// exactly when it starts with a 1 and two dice in a row show 1;
/// otherwise it is Normal.
pub proof fn lemma_o6_outcome_by_dice(s: Seq<u8>)
    requires
        s.len() >= 1,
        1 <= s[0] <= 6,
    ensures
        (o6_outcome(s) == Outcome::Critical) <==> (s[0] == 6 && exists|i: int| 1 <= i < s.len() && #[trigger] s[i] == 6
            && s[i - 1] == 6),
        (o6_outcome(s) == Outcome::Fumble) <==> (s[0] == 1 && exists|i: int| 1 <= i < s.len() && #[trigger] s[i] == 1
            && s[i - 1] == 1),
{
    if exists|i: int| 1 <= i < s.len() && #[trigger] s[i] == 6 && s[i - 1] == 6 {
        let i = choose|i: int| 1 <= i < s.len() && #[trigger] s[i] == 6 && s[i - 1] == 6;
        assert(has_double(s, 6));
    }
    if exists|i: int| 1 <= i < s.len() && #[trigger] s[i] == 1 && s[i - 1] == 1 {
        let i = choose|i: int| 1 <= i < s.len() && #[trigger] s[i] == 1 && s[i - 1] == 1;
        assert(has_double(s, 1));
    }
    if has_double(s, 1) {
        let i = choose|i: int| 1 <= i < s.len() && #[trigger] s[i] == 1 && s[i - 1] == 1;
        assert(s[i] == 1 && s[i - 1] == 1);
    }
    if has_double(s, 6) {
        let i = choose|i: int| 1 <= i < s.len() && #[trigger] s[i] == 6 && s[i - 1] == 6;
        assert(s[i] == 6 && s[i - 1] == 6);
    }
}

/// A full O6 sequence whose total lies strictly inside the `i32` range
/// is a prefix of another full O6 sequence only when they are equal in
/// length.
proof fn lemma_o6_no_proper_prefix(s1: Seq<u8>, s2: Seq<u8>)
    requires
        o6_sequence(s1),
        o6_sequence(s2),
        s1.len() <= s2.len(),
        s2.take(s1.len() as int) == s1,
        i32::MIN < o6_total(s1) < i32::MAX,
    ensures
        s1.len() == s2.len(),
{
    if s1.len() < s2.len() {
        let n1 = s1.len() as int;
        assert(s2[0] == s1[0]);
        let first = s1[0];
        if first == 6 || first == 1 {
            if n1 >= 2 {
                assert(s2[n1 - 1] == s1[n1 - 1]);
                assert(s1.last() == s1[n1 - 1]);
            } else {
                assert(s1.take(1) =~= s1);
                assert(s1.drop_last() =~= Seq::<u8>::empty());
            }
        }
    }
}

/// The O6 roll that a die stream makes is one roll: two rolls whose dice
/// are each the first faces of the same stream, each a full O6 sequence
/// with its total and outcome, are the same roll — unless a total reaches
/// the end of the `i32` range, where the cascade is cut off. So the roll
/// inside `check` is the roll `o6` makes on the same stream.
pub proof fn lemma_one_roll_per_stream<R: Rng>(r: R, a: Roll, b: Roll)
    requires
        a.sequence@ == drawn(r, a.sequence@.len()),
        b.sequence@ == drawn(r, b.sequence@.len()),
        o6_sequence(a.sequence@),
        o6_sequence(b.sequence@),
        a.total == o6_total(a.sequence@),
        b.total == o6_total(b.sequence@),
        a.outcome == o6_outcome(a.sequence@),
        b.outcome == o6_outcome(b.sequence@),
        i32::MIN < a.total < i32::MAX,
        i32::MIN < b.total < i32::MAX,
    ensures
        a.sequence@ == b.sequence@,
        a.total == b.total,
        a.outcome == b.outcome,
{
    let s1 = a.sequence@;
    let s2 = b.sequence@;
    if s1.len() < s2.len() {
        assert(s2.take(s1.len() as int) =~= s1);
        lemma_o6_no_proper_prefix(s1, s2);
    } else if s2.len() < s1.len() {
        assert(s1.take(s2.len() as int) =~= s2);
        lemma_o6_no_proper_prefix(s2, s1);
    } else {
        assert(s1 =~= s2);
    }
}

/// Roll O6: draw dice from `rng` until the cascade stops.
pub fn o6<R: Rng>(rng: &mut R) -> (roll: Roll)
    ensures
        roll.sequence@ == drawn(*old(rng), roll.sequence@.len()),
        advanced(*old(rng), *final(rng), roll.sequence@.len()),
        o6_sequence(roll.sequence@),
        roll.total == o6_total(roll.sequence@),
        roll.outcome == o6_outcome(roll.sequence@),
{
    let ghost r0 = *rng;
    let mut sequence: Vec<u8> = Vec::with_capacity(2);
    let first = rng.d6();
    sequence.push(first);
    assert(sequence@.drop_last() =~= Seq::<u8>::empty());
    assert(sequence@ =~= drawn(r0, 1));
    if first >= 2 && first <= 5 {
        return Roll { total: first as i32, outcome: Outcome::Normal, sequence };
    }
    if first == 6 {
        assert(ups(sequence@.drop_last()) == 0);
        let mut total: i32 = 6;
        let mut prev: u8 = 6;
        let mut outcome = Outcome::Normal;
        while total < i32::MAX
            invariant
                sequence@.len() >= 1,
                sequence@[0] == 6,
                forall|i: int| 0 <= i < sequence@.len() ==> 1 <= #[trigger] sequence@[i] <= 6,
                forall|i: int| 1 <= i < sequence@.len() ==> extends_up(#[trigger] sequence@[i]),
                total == 5 + ups(sequence@),
                prev == sequence@.last(),
                outcome == (if has_double(sequence@, 6) { Outcome::Critical } else { Outcome::Normal }),
                sequence@ == drawn(r0, sequence@.len()),
                advanced(r0, *rng, sequence@.len()),
                r0 == *old(rng),
            decreases i32::MAX - total,
        {
            let ghost before = *rng;
            let r = rng.d6();
            proof {
                assert(r == r0.face_at(0 + sequence@.len()));
                assert forall|k: nat| #[trigger] rng.face_at(k) == r0.face_at(k + (sequence@.len() + 1)) by {
                    assert(rng.face_at(k) == before.face_at(k + 1));
                    assert(before.face_at(k + 1) == r0.face_at((k + 1) + sequence@.len()));
                }
            }
            proof {
                lemma_push_double(sequence@, r, 6);
            }
            let ghost old_seq = sequence@;
            sequence.push(r);
            assert(sequence@.drop_last() =~= old_seq);
            assert(sequence@ =~= drawn(r0, sequence@.len()));
            if prev == 6 && r == 6 {
                outcome = Outcome::Critical;
            }
            if r >= 4 {
                total = total + 1;
            } else {
                return Roll { total, outcome, sequence };
            }
            prev = r;
        }
        return Roll { total, outcome, sequence };
    }
    assert(downs(sequence@.drop_last()) == 0);
    let mut total: i32 = 1;
    let mut prev: u8 = 1;
    let mut outcome = Outcome::Normal;
    while total > i32::MIN
        invariant
            sequence@.len() >= 1,
            sequence@[0] == 1,
            forall|i: int| 0 <= i < sequence@.len() ==> 1 <= #[trigger] sequence@[i] <= 6,
            forall|i: int| 1 <= i < sequence@.len() ==> extends_down(#[trigger] sequence@[i]),
            total == 2 - downs(sequence@),
            prev == sequence@.last(),
            outcome == (if has_double(sequence@, 1) { Outcome::Fumble } else { Outcome::Normal }),
            sequence@ == drawn(r0, sequence@.len()),
            advanced(r0, *rng, sequence@.len()),
            r0 == *old(rng),
        decreases total - i32::MIN,
    {
        let ghost before = *rng;
        let r = rng.d6();
        proof {
            assert(r == r0.face_at(0 + sequence@.len()));
            assert forall|k: nat| #[trigger] rng.face_at(k) == r0.face_at(k + (sequence@.len() + 1)) by {
                assert(rng.face_at(k) == before.face_at(k + 1));
                assert(before.face_at(k + 1) == r0.face_at((k + 1) + sequence@.len()));
            }
        }
        proof {
            lemma_push_double(sequence@, r, 1);
        }
        let ghost old_seq = sequence@;
        sequence.push(r);
        assert(sequence@.drop_last() =~= old_seq);
        assert(sequence@ =~= drawn(r0, sequence@.len()));
        if prev == 1 && r == 1 {
            outcome = Outcome::Fumble;
        }
        if r <= 3 {
            total = total - 1;
        } else {
            return Roll { total, outcome, sequence };
        }
        prev = r;
    }
    Roll { total, outcome, sequence }
}


/// Deterministic SplitMix64 die source.
pub struct StdRng {
    state: u64,
}

/// The increment SplitMix64 adds to its state on every draw.
pub open spec fn splitmix_gamma() -> u64 {
    0x9e3779b97f4a7c15
}

/// The die face SplitMix64 yields from the (already advanced) state `z`.
pub open spec fn splitmix_face(z: u64) -> u8 {
    let a = (z ^ (z >> 30u64)).wrapping_mul(0xbf58476d1ce4e5b9u64);
    let b = (a ^ (a >> 27u64)).wrapping_mul(0x94d049bb133111ebu64);
    ((b >> 32u64) % 6 + 1) as u8
}

impl View for StdRng {
    type V = u64;

    closed spec fn view(&self) -> u64 {
        self.state
    }
}

impl StdRng {
    /// A generator seeded with `seed`; the zero seed is replaced by the
    /// SplitMix64 increment.
    pub fn new(seed: u64) -> (r: Self)
        ensures
            r@ == (if seed == 0 { splitmix_gamma() } else { seed }),
    {
        let s = if seed == 0 { 0x9e3779b97f4a7c15u64 } else { seed };
        StdRng { state: s }
    }

    /// A generator seeded from the wall clock (nanoseconds since the Unix
    /// epoch, truncated to 64 bits, or 0xdeadbeef when the clock reads before the epoch).
    pub fn from_time() -> (r: Self)
        ensures
            r@ != 0,
    {
        let nanos = unix_time_nanos();
        Self::new(clock_seed(nanos))
    }
}

/// The seed taken from a clock reading in nanoseconds since the Unix
/// epoch: its low 64 bits (`as u64` truncates), or 0xdeadbeef when the clock read before the
/// epoch (`None`).
pub fn clock_seed(nanos: Option<u128>) -> (seed: u64)
    ensures
        seed == (match nanos {
            Some(n) => n as u64,
            None => 0xdeadbeefu64,
        }),
{
    match nanos {
        Some(n) => n as u64,
        None => 0xdeadbeefu64,
    }
}

/// Two generators in the same state hand out the same faces, call after
/// call: every face of their streams agrees.
pub proof fn lemma_same_state_same_faces(a: StdRng, b: StdRng)
    requires
        a@ == b@,
    ensures
        forall|k: nat| #[trigger] a.face_at(k) == b.face_at(k),
{
}

/// From state `s`, the `k`-th face is drawn from the state reached after
/// `k + 1` SplitMix64 steps.
pub proof fn lemma_std_rng_faces(r: StdRng, k: nat)
    ensures
        r.face_at(k) == splitmix_face(splitmix_state(r@, k + 1)),
{
}

/// `std::time::SystemTime::now().duration_since(UNIX_EPOCH)`, in
/// nanoseconds; `None` when the clock reads before
/// the epoch. Nothing is promised of the value: it is the current time.
#[verifier::external_body]
fn unix_time_nanos() -> Option<u128> {
    match std::time::SystemTime::now().duration_since(std::time::UNIX_EPOCH) {
        Ok(d) => Some(d.as_nanos()),
        Err(_) => None,
    }
}

/// The SplitMix64 state after `n` draws from state `s`.
pub open spec fn splitmix_state(s: u64, n: nat) -> u64
    decreases n,
{
    if n == 0 {
        s
    } else {
        splitmix_state(s.wrapping_add(splitmix_gamma()), (n - 1) as nat)
    }
}

impl Rng for StdRng {
    closed spec fn face_at(&self, k: nat) -> u8 {
        splitmix_face(splitmix_state(self.state, k + 1))
    }

    fn d6(&mut self) -> (r: u8)
        ensures
            final(self)@ == old(self)@.wrapping_add(splitmix_gamma()),
            r == splitmix_face(final(self)@),
    {
        self.state = self.state.wrapping_add(0x9e3779b97f4a7c15u64);
        let z = self.state;
        let a = (z ^ (z >> 30u64)).wrapping_mul(0xbf58476d1ce4e5b9u64);
        let b = (a ^ (a >> 27u64)).wrapping_mul(0x94d049bb133111ebu64);
        let f = (b >> 32u64) % 6 + 1;
        proof {
            reveal_with_fuel(splitmix_state, 2);
            assert forall|k: nat| #[trigger] self.face_at(k) == old(self).face_at(k + 1) by {
                assert(splitmix_state(old(self).state, k + 2) == splitmix_state(
                    self.state,
                    k + 1,
                ));
            }
        }
        f as u8
    }
}

#[derive(Debug, Clone)]
pub struct CheckResult {
    pub roll: Roll,
    pub final_total: i32,
    pub dr: i32,
    pub success: bool,
}

/// `x` clamped into the `i32` range.
pub open spec fn clamp_i32(x: int) -> int {
    if x > i32::MAX {
        i32::MAX as int
    } else if x < i32::MIN {
        i32::MIN as int
    } else {
        x
    }
}

/// Whether a check with final total `final_total` against `dr` succeeds
/// given the roll's outcome: a Critical always succeeds, a Fumble always
/// fails, a Normal roll succeeds when it meets the DR.
pub open spec fn check_succeeds(outcome: Outcome, final_total: int, dr: int) -> bool {
    match outcome {
        Outcome::Critical => true,
        Outcome::Fumble => false,
        Outcome::Normal => final_total >= dr,
    }
}

/// Roll O6 + `skill_total` against the difficulty rating `dr`.
pub fn check<R: Rng>(rng: &mut R, skill_total: i32, dr: i32) -> (res: CheckResult)
    ensures
        res.roll.sequence@ == drawn(*old(rng), res.roll.sequence@.len()),
        advanced(*old(rng), *final(rng), res.roll.sequence@.len()),
        o6_sequence(res.roll.sequence@),
        res.roll.total == o6_total(res.roll.sequence@),
        res.roll.outcome == o6_outcome(res.roll.sequence@),
        res.final_total == clamp_i32(res.roll.total + skill_total),
        res.dr == dr,
        res.success == check_succeeds(res.roll.outcome, res.final_total as int, dr as int),
{
    let r = o6(rng);
    let sum: i64 = r.total as i64 + skill_total as i64;
    let final_total: i32 = if sum > i32::MAX as i64 {
        i32::MAX
    } else if sum < i32::MIN as i64 {
        i32::MIN
    } else {
        sum as i32
    };
    let success = match r.outcome {
        Outcome::Critical => true,
        Outcome::Fumble => false,
        Outcome::Normal => final_total >= dr,
    };
    CheckResult { roll: r, final_total, dr, success }
}


/// Category name on the critical table (`cat` 1-6).
pub open spec fn crit_category_name(cat: u8) -> &'static str {
    if cat == 1 {
        "Impression"
    } else if cat == 2 {
        "Side effect"
    } else if cat == 3 {
        "Increased effect"
    } else if cat == 4 {
        "Added effect"
    } else if cat == 5 {
        "Special"
    } else {
        "Roll twice (no 6s) + 1 mark"
    }
}

/// Category name on the fumble table (`cat` 1-6).
pub open spec fn fumble_category_name(cat: u8) -> &'static str {
    if cat == 1 {
        "Roll twice (no 1s) - 1 mark"
    } else if cat == 2 {
        "Special"
    } else if cat == 3 {
        "Unwanted effect"
    } else if cat == 4 {
        "Stun effect"
    } else if cat == 5 {
        "Added effect"
    } else {
        "Impression"
    }
}

/// Critical-table entry text for category `c` (1-5) and entry `e` (1-6).
pub open spec fn crit_text(c: u8, e: u8) -> &'static str {
    if c == 1 {
        if e == 1 {
            "Looks really cool"
        } else if e == 2 {
            "Impressive — adjacent friends get +1 next round"
        } else if e == 3 {
            "Very impressive — adjacent friends get +1 next D rounds"
        } else if e == 4 {
            "Fearsome — foe rolls on Fear Table with +9 adjustment"
        } else if e == 5 {
            "Awesome — foe rolls on Fear Table with +6 adjustment"
        } else {
            "Wild — foe rolls on Fear Table with +3 adjustment"
        }
    } else if c == 2 {
        if e == 1 {
            "Opponent off balance — Status -1 next round"
        } else if e == 2 {
            "Opponent confused — Status -3 next round"
        } else if e == 3 {
            "Opponent stunned — Status -3 for 3 rounds"
        } else if e == 4 {
            "Opponent staggered — Status -D for D rounds"
        } else if e == 5 {
            "Opponent reeling — Status -O for O rounds"
        } else {
            "Opponent shocked — Status -(O+3) for the rest of the fight"
        }
    } else if c == 3 {
        if e == 1 {
            "Good hit — +1 damage"
        } else if e == 2 {
            "Tough hit — +3 damage"
        } else if e == 3 {
            "Great hit — +(D+1) damage"
        } else if e == 4 {
            "Greater hit — +(O+2) damage"
        } else if e == 5 {
            "Power hit — double damage (after AP)"
        } else {
            "Opportunity found — immediate free attack"
        }
    } else if c == 4 {
        if e == 1 {
            "Foe knocked down on failed Tumble DR 8"
        } else if e == 2 {
            "Foe knocked down on failed Tumble DR 12"
        } else if e == 3 {
            "Roll for disarming the opponent"
        } else if e == 4 {
            "Damage also done to opponent's weapon"
        } else if e == 5 {
            "Damage also done to opponent's weapon (double damage to weapon)"
        } else {
            "Opponent loses equipment (GM's discretion)"
        }
    } else {
        if e == 1 {
            "Bleeding — -1 BP per minute"
        } else if e == 2 {
            "Bleeding — -1 BP per round"
        } else if e == 3 {
            "Muscle strained — opponent Status -3 until Medical Lore DR 8"
        } else if e == 4 {
            "Disable special location (eye, finger, …) — Medical Lore DR 8 to fix"
        } else if e == 5 {
            "Disable special location — Medical Lore DR 12 to fix"
        } else {
            "Opponent faints — Medical Lore DR 8 to awaken"
        }
    }
}

/// Fumble-table entry text for category `c` (2-6) and entry `e` (1-6).
pub open spec fn fumble_text(c: u8, e: u8) -> &'static str {
    if c == 2 {
        if e == 1 {
            "Lose next attack; opponent gets +10 to next attack"
        } else if e == 2 {
            "Hit self"
        } else if e == 3 {
            "Hit nearest friend"
        } else if e == 4 {
            "Hit nearest friend, half damage"
        } else if e == 5 {
            "Obstruct nearest friend — friend Status -3 next round"
        } else {
            "Muscle strained — Status -3 until Medical Lore DR 8"
        }
    } else if c == 3 {
        if e == 1 {
            "Lose equipment (GM's discretion)"
        } else if e == 2 {
            "Damage to own weapon"
        } else if e == 3 {
            "Weapon stuck — Strength DR 10 to free"
        } else if e == 4 {
            "Lose weapon — no attack until retrieved, -5 defense"
        } else if e == 5 {
            "Fall on failed Tumble DR 12"
        } else {
            "Fall on failed Tumble DR 8"
        }
    } else if c == 4 {
        if e == 1 {
            "Shocked — Status -(O+3) for rest of fight"
        } else if e == 2 {
            "Reeling — Status -O for O rounds"
        } else if e == 3 {
            "Staggered — Status -D for D rounds"
        } else if e == 4 {
            "Stunned — Status -3 for 3 rounds"
        } else if e == 5 {
            "Confused — Status -3 next round"
        } else {
            "Off balance — Status -1 next round"
        }
    } else if c == 5 {
        if e == 1 {
            "Very fatigued — Endurance -3 for rest of fight (min 1)"
        } else if e == 2 {
            "Very tired — Strength -3 for rest of fight (min 1)"
        } else if e == 3 {
            "Very dazed — Reaction Speed and Awareness -3 for rest of fight"
        } else if e == 4 {
            "Fatigued — Endurance -1 for rest of fight (min 1)"
        } else if e == 5 {
            "Tired — Strength -1 for rest of fight (min 1)"
        } else {
            "Dazed — Reaction Speed and Awareness -1 for rest of fight"
        }
    } else {
        if e == 1 {
            "Terrible for morale — friends -1 to all rolls for next D rounds"
        } else if e == 2 {
            "Very bad for morale — friends -1 to all rolls for rest of round"
        } else if e == 3 {
            "Bad for morale — friends -1 to attack for rest of round"
        } else if e == 4 {
            "You make a fool of yourself — laughter is heard"
        } else if e == 5 {
            "Botched it — giggles are heard"
        } else {
            "Awkward looking"
        }
    }
}

fn crit_category_label(cat: u8) -> (r: &'static str)
    ensures
        r == crit_category_name(cat),
{
    if cat == 1 {
        "Impression"
    } else if cat == 2 {
        "Side effect"
    } else if cat == 3 {
        "Increased effect"
    } else if cat == 4 {
        "Added effect"
    } else if cat == 5 {
        "Special"
    } else {
        "Roll twice (no 6s) + 1 mark"
    }
}

fn fumble_category_label(cat: u8) -> (r: &'static str)
    ensures
        r == fumble_category_name(cat),
{
    if cat == 1 {
        "Roll twice (no 1s) - 1 mark"
    } else if cat == 2 {
        "Special"
    } else if cat == 3 {
        "Unwanted effect"
    } else if cat == 4 {
        "Stun effect"
    } else if cat == 5 {
        "Added effect"
    } else {
        "Impression"
    }
}

fn crit_description(c: u8, e: u8) -> (r: &'static str)
    ensures
        r == crit_text(c, e),
{
    if c == 1 {
        if e == 1 {
            "Looks really cool"
        } else if e == 2 {
            "Impressive — adjacent friends get +1 next round"
        } else if e == 3 {
            "Very impressive — adjacent friends get +1 next D rounds"
        } else if e == 4 {
            "Fearsome — foe rolls on Fear Table with +9 adjustment"
        } else if e == 5 {
            "Awesome — foe rolls on Fear Table with +6 adjustment"
        } else {
            "Wild — foe rolls on Fear Table with +3 adjustment"
        }
    } else if c == 2 {
        if e == 1 {
            "Opponent off balance — Status -1 next round"
        } else if e == 2 {
            "Opponent confused — Status -3 next round"
        } else if e == 3 {
            "Opponent stunned — Status -3 for 3 rounds"
        } else if e == 4 {
            "Opponent staggered — Status -D for D rounds"
        } else if e == 5 {
            "Opponent reeling — Status -O for O rounds"
        } else {
            "Opponent shocked — Status -(O+3) for the rest of the fight"
        }
    } else if c == 3 {
        if e == 1 {
            "Good hit — +1 damage"
        } else if e == 2 {
            "Tough hit — +3 damage"
        } else if e == 3 {
            "Great hit — +(D+1) damage"
        } else if e == 4 {
            "Greater hit — +(O+2) damage"
        } else if e == 5 {
            "Power hit — double damage (after AP)"
        } else {
            "Opportunity found — immediate free attack"
        }
    } else if c == 4 {
        if e == 1 {
            "Foe knocked down on failed Tumble DR 8"
        } else if e == 2 {
            "Foe knocked down on failed Tumble DR 12"
        } else if e == 3 {
            "Roll for disarming the opponent"
        } else if e == 4 {
            "Damage also done to opponent's weapon"
        } else if e == 5 {
            "Damage also done to opponent's weapon (double damage to weapon)"
        } else {
            "Opponent loses equipment (GM's discretion)"
        }
    } else {
        if e == 1 {
            "Bleeding — -1 BP per minute"
        } else if e == 2 {
            "Bleeding — -1 BP per round"
        } else if e == 3 {
            "Muscle strained — opponent Status -3 until Medical Lore DR 8"
        } else if e == 4 {
            "Disable special location (eye, finger, …) — Medical Lore DR 8 to fix"
        } else if e == 5 {
            "Disable special location — Medical Lore DR 12 to fix"
        } else {
            "Opponent faints — Medical Lore DR 8 to awaken"
        }
    }
}

fn fumble_description(c: u8, e: u8) -> (r: &'static str)
    ensures
        r == fumble_text(c, e),
{
    if c == 2 {
        if e == 1 {
            "Lose next attack; opponent gets +10 to next attack"
        } else if e == 2 {
            "Hit self"
        } else if e == 3 {
            "Hit nearest friend"
        } else if e == 4 {
            "Hit nearest friend, half damage"
        } else if e == 5 {
            "Obstruct nearest friend — friend Status -3 next round"
        } else {
            "Muscle strained — Status -3 until Medical Lore DR 8"
        }
    } else if c == 3 {
        if e == 1 {
            "Lose equipment (GM's discretion)"
        } else if e == 2 {
            "Damage to own weapon"
        } else if e == 3 {
            "Weapon stuck — Strength DR 10 to free"
        } else if e == 4 {
            "Lose weapon — no attack until retrieved, -5 defense"
        } else if e == 5 {
            "Fall on failed Tumble DR 12"
        } else {
            "Fall on failed Tumble DR 8"
        }
    } else if c == 4 {
        if e == 1 {
            "Shocked — Status -(O+3) for rest of fight"
        } else if e == 2 {
            "Reeling — Status -O for O rounds"
        } else if e == 3 {
            "Staggered — Status -D for D rounds"
        } else if e == 4 {
            "Stunned — Status -3 for 3 rounds"
        } else if e == 5 {
            "Confused — Status -3 next round"
        } else {
            "Off balance — Status -1 next round"
        }
    } else if c == 5 {
        if e == 1 {
            "Very fatigued — Endurance -3 for rest of fight (min 1)"
        } else if e == 2 {
            "Very tired — Strength -3 for rest of fight (min 1)"
        } else if e == 3 {
            "Very dazed — Reaction Speed and Awareness -3 for rest of fight"
        } else if e == 4 {
            "Fatigued — Endurance -1 for rest of fight (min 1)"
        } else if e == 5 {
            "Tired — Strength -1 for rest of fight (min 1)"
        } else {
            "Dazed — Reaction Speed and Awareness -1 for rest of fight"
        }
    } else {
        if e == 1 {
            "Terrible for morale — friends -1 to all rolls for next D rounds"
        } else if e == 2 {
            "Very bad for morale — friends -1 to all rolls for rest of round"
        } else if e == 3 {
            "Bad for morale — friends -1 to attack for rest of round"
        } else if e == 4 {
            "You make a fool of yourself — laughter is heard"
        } else if e == 5 {
            "Botched it — giggles are heard"
        } else {
            "Awkward looking"
        }
    }
}

/// One entry on the critical/fumble tables: the category and entry
/// numbers rolled, plus the category name and entry description.
#[derive(Debug, Clone)]
pub struct TableHit {
    pub category: u8,
    pub category_name: &'static str,
    pub entry: u8,
    pub description: String,
}

/// Result of rolling on the critical or fumble table. `recursive` is true
/// when the roll-twice category came up and `hits` holds two sub-rolls.
#[derive(Debug, Clone)]
pub struct TableRoll {
    pub recursive: bool,
    pub hits: Vec<TableHit>,
}

/// `x` clamped into `lo..=hi`.
pub open spec fn clamp_u8(x: u8, lo: u8, hi: u8) -> u8 {
    if x < lo {
        lo
    } else if x > hi {
        hi
    } else {
        x
    }
}

/// The critical-table hit for category `cat` (1-6) and entry `entry`.
pub open spec fn crit_hit_ok(h: TableHit, cat: u8, entry: u8) -> bool {
    &&& h.category == cat
    &&& h.category_name == crit_category_name(cat)
    &&& h.entry == clamp_u8(entry, 1, 6)
    &&& h.description@ == crit_text(clamp_u8(cat, 1, 5), clamp_u8(entry, 1, 6))@
}

/// The fumble-table hit for category `cat` (1-6) and entry `entry`.
pub open spec fn fumble_hit_ok(h: TableHit, cat: u8, entry: u8) -> bool {
    &&& h.category == cat
    &&& h.category_name == fumble_category_name(cat)
    &&& h.entry == clamp_u8(entry, 1, 6)
    &&& h.description@ == fumble_text(clamp_u8(cat, 2, 6), clamp_u8(entry, 1, 6))@
}

fn clamp(x: u8, lo: u8, hi: u8) -> (r: u8)
    requires
        lo <= hi,
    ensures
        r == clamp_u8(x, lo, hi),
{
    if x < lo {
        lo
    } else if x > hi {
        hi
    } else {
        x
    }
}

fn crit_entry(cat: u8, entry: u8) -> (h: TableHit)
    requires
        1 <= cat <= 6,
    ensures
        crit_hit_ok(h, cat, entry),
{
    let c = clamp(cat, 1, 5);
    let e = clamp(entry, 1, 6);
    let d = crit_description(c, e);
    TableHit {
        category: cat,
        category_name: crit_category_label(cat),
        entry: e,
        description: d.to_string(),
    }
}

fn fumble_entry(cat: u8, entry: u8) -> (h: TableHit)
    requires
        1 <= cat <= 6,
    ensures
        fumble_hit_ok(h, cat, entry),
{
    let c = clamp(cat, 2, 6);
    let e = clamp(entry, 1, 6);
    let d = fumble_description(c, e);
    TableHit {
        category: cat,
        category_name: fumble_category_label(cat),
        entry: e,
        description: d.to_string(),
    }
}

/// The draw (counted from draw `i` of `r`) at which redrawing while the
/// die shows `skip` stops, with at most `left` redraws.
pub open spec fn redraw_stop<R: Rng>(r: R, i: nat, skip: u8, left: nat) -> nat
    decreases left,
{
    if left == 0 || r.face_at(i) != skip {
        i
    } else {
        redraw_stop(r, i + 1, skip, (left - 1) as nat)
    }
}

/// The face after `skip` on a die, 1 following 6.
pub open spec fn face_after(skip: u8) -> u8 {
    if skip >= 6 {
        1
    } else {
        (skip + 1) as u8
    }
}

/// The face that redrawing while the die shows `skip`, from draw `i` of
/// `r`, settles on: the first other face within `u64::MAX` redraws, or
/// else the face after `skip`.
pub open spec fn face_except<R: Rng>(r: R, i: nat, skip: u8) -> u8 {
    let j = redraw_stop(r, i, skip, u64::MAX as nat);
    if r.face_at(j) != skip {
        r.face_at(j)
    } else {
        face_after(skip)
    }
}

/// The (category, entry) pairs of a table roll drawn from `r` whose
/// roll-twice category is `twice`: a category other than `twice` and an
/// entry; or, on `twice`, two pairs whose categories are redrawn while
/// they show `twice`.
pub open spec fn table_picks<R: Rng>(r: R, twice: u8) -> Seq<(u8, u8)> {
    if r.face_at(0) != twice {
        seq![(r.face_at(0), r.face_at(1))]
    } else {
        let j1 = redraw_stop(r, 1, twice, u64::MAX as nat);
        let j2 = redraw_stop(r, j1 + 2, twice, u64::MAX as nat);
        seq![
            (face_except(r, 1, twice), r.face_at(j1 + 1)),
            (face_except(r, j1 + 2, twice), r.face_at(j2 + 1)),
        ]
    }
}

/// How many dice a table roll whose roll-twice category is `twice` draws
/// from `r`.
pub open spec fn table_draws<R: Rng>(r: R, twice: u8) -> nat {
    if r.face_at(0) != twice {
        2
    } else {
        let j1 = redraw_stop(r, 1, twice, u64::MAX as nat);
        redraw_stop(r, j1 + 2, twice, u64::MAX as nat) + 2
    }
}

proof fn lemma_redraw_stop_shift<R: Rng>(a: R, b: R, d: nat, i: nat, skip: u8, left: nat)
    requires
        advanced(a, b, d),
    ensures
        redraw_stop(b, i, skip, left) + d == redraw_stop(a, i + d, skip, left),
    decreases left,
{
    assert(b.face_at(i) == a.face_at(i + d));
    if left > 0 && b.face_at(i) == skip {
        lemma_redraw_stop_shift(a, b, d, i + 1, skip, (left - 1) as nat);
        assert(i + 1 + d == (i + d) + 1);
    }
}

proof fn lemma_face_except_shift<R: Rng>(a: R, b: R, d: nat, i: nat, skip: u8)
    requires
        advanced(a, b, d),
    ensures
        redraw_stop(b, i, skip, u64::MAX as nat) + d == redraw_stop(a, i + d, skip, u64::MAX as nat),
        face_except(b, i, skip) == face_except(a, i + d, skip),
{
    lemma_redraw_stop_shift(a, b, d, i, skip, u64::MAX as nat);
    let j = redraw_stop(b, i, skip, u64::MAX as nat);
    assert(b.face_at(j) == a.face_at(j + d));
}

proof fn lemma_advanced_trans<R: Rng>(a: R, b: R, c: R, d1: nat, d2: nat)
    requires
        advanced(a, b, d1),
        advanced(b, c, d2),
    ensures
        advanced(a, c, d1 + d2),
{
    assert forall|k: nat| #[trigger] c.face_at(k) == a.face_at(k + (d1 + d2)) by {
        assert(c.face_at(k) == b.face_at(k + d2));
        assert(b.face_at(k + d2) == a.face_at((k + d2) + d1));
        assert((k + d2) + d1 == k + (d1 + d2));
    }
}

/// Draw a die, redrawing while it shows `skip`: the face returned is never
/// `skip`. The redraws stop after `u64::MAX` attempts; should the last one
/// still show `skip`, the next face up (1 after 6) is taken.
fn draw_except<R: Rng>(rng: &mut R, skip: u8) -> (c: u8)
    ensures
        1 <= c <= 6,
        c != skip,
        c == face_except(*old(rng), 0, skip),
        advanced(*old(rng), *final(rng), redraw_stop(*old(rng), 0, skip, u64::MAX as nat) + 1),
{
    let ghost r0 = *rng;
    let mut c = rng.d6();
    let mut tries: u64 = 0;
    while c == skip && tries < u64::MAX
        invariant
            1 <= c <= 6,
            c == r0.face_at(tries as nat),
            advanced(r0, *rng, (tries + 1) as nat),
            redraw_stop(r0, 0, skip, u64::MAX as nat) == redraw_stop(
                r0,
                tries as nat,
                skip,
                (u64::MAX - tries) as nat,
            ),
            r0 == *old(rng),
        decreases u64::MAX - tries,
    {
        let ghost before = *rng;
        c = rng.d6();
        proof {
            assert(c == r0.face_at(0 + (tries + 1) as nat));
            assert forall|k: nat| #[trigger] rng.face_at(k) == r0.face_at(k + (tries + 2) as nat) by {
                assert(rng.face_at(k) == before.face_at(k + 1));
                assert(before.face_at(k + 1) == r0.face_at((k + 1) + (tries + 1) as nat));
            }
        }
        tries = tries + 1;
    }
    if c == skip {
        c = if skip >= 6 { 1 } else { skip + 1 };
    }
    c
}

/// Roll on the critical table. Category 6 rolls twice (6s redrawn) and
/// is reported as `recursive`; any other category gives one hit.
pub fn roll_critical<R: Rng>(rng: &mut R) -> (t: TableRoll)
    ensures
        t.recursive == (old(rng).face_at(0) == 6),
        t.hits.len() == table_picks(*old(rng), 6).len(),
        forall|k: int|
            0 <= k < t.hits.len() ==> crit_hit_ok(
                #[trigger] t.hits[k],
                table_picks(*old(rng), 6)[k].0,
                table_picks(*old(rng), 6)[k].1,
            ),
        advanced(*old(rng), *final(rng), table_draws(*old(rng), 6)),
        forall|k: int|
            0 <= k < t.hits.len() ==> 1 <= #[trigger] t.hits[k].category <= 5 && 1 <= t.hits[k].entry
                <= 6,
{
    broadcast use vstd::string::group_string_axioms;

    let ghost r0 = *rng;
    let cat = rng.d6();
    let ghost g1 = *rng;
    if cat == 6 {
        let mut hits: Vec<TableHit> = Vec::with_capacity(2);
        let c1 = draw_except(rng, 6);
        let ghost g2 = *rng;
        proof {
            lemma_face_except_shift(r0, g1, 1, 0, 6);
            lemma_advanced_trans(r0, g1, g2, 1, redraw_stop(g1, 0, 6, u64::MAX as nat) + 1);
        }
        let ghost j1 = redraw_stop(r0, 1, 6, u64::MAX as nat);
        let e1 = rng.d6();
        let ghost g3 = *rng;
        proof {
            assert(e1 == r0.face_at(0 + (j1 + 1)));
            lemma_advanced_trans(r0, g2, g3, j1 + 1, 1);
        }
        hits.push(crit_entry(c1, e1));
        let c2 = draw_except(rng, 6);
        let ghost g4 = *rng;
        proof {
            lemma_face_except_shift(r0, g3, j1 + 2, 0, 6);
            lemma_advanced_trans(r0, g3, g4, j1 + 2, redraw_stop(g3, 0, 6, u64::MAX as nat) + 1);
        }
        let ghost j2 = redraw_stop(r0, j1 + 2, 6, u64::MAX as nat);
        let e2 = rng.d6();
        proof {
            assert(e2 == r0.face_at(0 + (j2 + 1)));
            lemma_advanced_trans(r0, g4, *rng, j2 + 1, 1);
        }
        hits.push(crit_entry(c2, e2));
        return TableRoll { recursive: true, hits };
    }
    let entry = rng.d6();
    proof {
        assert(entry == r0.face_at(0 + 1));
        lemma_advanced_trans(r0, g1, *rng, 1, 1);
    }
    let h = crit_entry(cat, entry);
    let hits = vec![h];
    TableRoll { recursive: false, hits }
}

/// Roll on the fumble table. Category 1 rolls twice (1s redrawn) and
/// is reported as `recursive`; any other category gives one hit.
pub fn roll_fumble<R: Rng>(rng: &mut R) -> (t: TableRoll)
    ensures
        t.recursive == (old(rng).face_at(0) == 1),
        t.hits.len() == table_picks(*old(rng), 1).len(),
        forall|k: int|
            0 <= k < t.hits.len() ==> fumble_hit_ok(
                #[trigger] t.hits[k],
                table_picks(*old(rng), 1)[k].0,
                table_picks(*old(rng), 1)[k].1,
            ),
        advanced(*old(rng), *final(rng), table_draws(*old(rng), 1)),
        forall|k: int|
            0 <= k < t.hits.len() ==> 2 <= #[trigger] t.hits[k].category <= 6 && 1 <= t.hits[k].entry
                <= 6,
{
    broadcast use vstd::string::group_string_axioms;

    let ghost r0 = *rng;
    let cat = rng.d6();
    let ghost g1 = *rng;
    if cat == 1 {
        let mut hits: Vec<TableHit> = Vec::with_capacity(2);
        let c1 = draw_except(rng, 1);
        let ghost g2 = *rng;
        proof {
            lemma_face_except_shift(r0, g1, 1, 0, 1);
            lemma_advanced_trans(r0, g1, g2, 1, redraw_stop(g1, 0, 1, u64::MAX as nat) + 1);
        }
        let ghost j1 = redraw_stop(r0, 1, 1, u64::MAX as nat);
        let e1 = rng.d6();
        let ghost g3 = *rng;
        proof {
            assert(e1 == r0.face_at(0 + (j1 + 1)));
            lemma_advanced_trans(r0, g2, g3, j1 + 1, 1);
        }
        hits.push(fumble_entry(c1, e1));
        let c2 = draw_except(rng, 1);
        let ghost g4 = *rng;
        proof {
            lemma_face_except_shift(r0, g3, j1 + 2, 0, 1);
            lemma_advanced_trans(r0, g3, g4, j1 + 2, redraw_stop(g3, 0, 1, u64::MAX as nat) + 1);
        }
        let ghost j2 = redraw_stop(r0, j1 + 2, 1, u64::MAX as nat);
        let e2 = rng.d6();
        proof {
            assert(e2 == r0.face_at(0 + (j2 + 1)));
            lemma_advanced_trans(r0, g4, *rng, j2 + 1, 1);
        }
        hits.push(fumble_entry(c2, e2));
        return TableRoll { recursive: true, hits };
    }
    let entry = rng.d6();
    proof {
        assert(entry == r0.face_at(0 + 1));
        lemma_advanced_trans(r0, g1, *rng, 1, 1);
    }
    let h = fumble_entry(cat, entry);
    let hits = vec![h];
    TableRoll { recursive: false, hits }
}


/// The critical table as the wiki gives it: row `c` (category 1-5),
/// entry `e` (1-6). Every description `crit_text` gives is the entry of
/// this table at its category and entry.
pub proof fn lemma_crit_table(c: u8, e: u8)
    requires
        1 <= c <= 5,
        1 <= e <= 6,
    ensures
        crit_text(c, e)@ == seq![
            seq![
                "Looks really cool"@,
                "Impressive — adjacent friends get +1 next round"@,
                "Very impressive — adjacent friends get +1 next D rounds"@,
                "Fearsome — foe rolls on Fear Table with +9 adjustment"@,
                "Awesome — foe rolls on Fear Table with +6 adjustment"@,
                "Wild — foe rolls on Fear Table with +3 adjustment"@,
            ],
            seq![
                "Opponent off balance — Status -1 next round"@,
                "Opponent confused — Status -3 next round"@,
                "Opponent stunned — Status -3 for 3 rounds"@,
                "Opponent staggered — Status -D for D rounds"@,
                "Opponent reeling — Status -O for O rounds"@,
                "Opponent shocked — Status -(O+3) for the rest of the fight"@,
            ],
            seq![
                "Good hit — +1 damage"@,
                "Tough hit — +3 damage"@,
                "Great hit — +(D+1) damage"@,
                "Greater hit — +(O+2) damage"@,
                "Power hit — double damage (after AP)"@,
                "Opportunity found — immediate free attack"@,
            ],
            seq![
                "Foe knocked down on failed Tumble DR 8"@,
                "Foe knocked down on failed Tumble DR 12"@,
                "Roll for disarming the opponent"@,
                "Damage also done to opponent's weapon"@,
                "Damage also done to opponent's weapon (double damage to weapon)"@,
                "Opponent loses equipment (GM's discretion)"@,
            ],
            seq![
                "Bleeding — -1 BP per minute"@,
                "Bleeding — -1 BP per round"@,
                "Muscle strained — opponent Status -3 until Medical Lore DR 8"@,
                "Disable special location (eye, finger, …) — Medical Lore DR 8 to fix"@,
                "Disable special location — Medical Lore DR 12 to fix"@,
                "Opponent faints — Medical Lore DR 8 to awaken"@,
            ],
        ][c - 1][e - 1],
{
}

/// The fumble table as the wiki gives it: row `c - 1` (category 2-6),
/// entry `e` (1-6). Every description `fumble_text` gives is the entry
/// of this table at its category and entry.
pub proof fn lemma_fumble_table(c: u8, e: u8)
    requires
        2 <= c <= 6,
        1 <= e <= 6,
    ensures
        fumble_text(c, e)@ == seq![
            seq![
                "Lose next attack; opponent gets +10 to next attack"@,
                "Hit self"@,
                "Hit nearest friend"@,
                "Hit nearest friend, half damage"@,
                "Obstruct nearest friend — friend Status -3 next round"@,
                "Muscle strained — Status -3 until Medical Lore DR 8"@,
            ],
            seq![
                "Lose equipment (GM's discretion)"@,
                "Damage to own weapon"@,
                "Weapon stuck — Strength DR 10 to free"@,
                "Lose weapon — no attack until retrieved, -5 defense"@,
                "Fall on failed Tumble DR 12"@,
                "Fall on failed Tumble DR 8"@,
            ],
            seq![
                "Shocked — Status -(O+3) for rest of fight"@,
                "Reeling — Status -O for O rounds"@,
                "Staggered — Status -D for D rounds"@,
                "Stunned — Status -3 for 3 rounds"@,
                "Confused — Status -3 next round"@,
                "Off balance — Status -1 next round"@,
            ],
            seq![
                "Very fatigued — Endurance -3 for rest of fight (min 1)"@,
                "Very tired — Strength -3 for rest of fight (min 1)"@,
                "Very dazed — Reaction Speed and Awareness -3 for rest of fight"@,
                "Fatigued — Endurance -1 for rest of fight (min 1)"@,
                "Tired — Strength -1 for rest of fight (min 1)"@,
                "Dazed — Reaction Speed and Awareness -1 for rest of fight"@,
            ],
            seq![
                "Terrible for morale — friends -1 to all rolls for next D rounds"@,
                "Very bad for morale — friends -1 to all rolls for rest of round"@,
                "Bad for morale — friends -1 to attack for rest of round"@,
                "You make a fool of yourself — laughter is heard"@,
                "Botched it — giggles are heard"@,
                "Awkward looking"@,
            ],
        ][c - 2][e - 1],
{
}

/// The category names of the critical and fumble tables, in order of
/// category (1-6), as the wiki gives them.
pub proof fn lemma_category_names(c: u8)
    requires
        1 <= c <= 6,
    ensures
        crit_category_name(c)@ == seq![
            "Impression"@,
            "Side effect"@,
            "Increased effect"@,
            "Added effect"@,
            "Special"@,
            "Roll twice (no 6s) + 1 mark"@,
        ][c - 1],
        fumble_category_name(c)@ == seq![
            "Roll twice (no 1s) - 1 mark"@,
            "Special"@,
            "Unwanted effect"@,
            "Stun effect"@,
            "Added effect"@,
            "Impression"@,
        ][c - 1],
{
}

} // verus!
