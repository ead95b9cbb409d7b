use amar::dice::{check, clock_seed, o6, roll_critical, roll_fumble, Outcome, Rng, StdRng};

/// Deterministic queue-driven RNG for reproducible test rolls.
struct QueueRng(Vec<u8>);

impl Rng for QueueRng {
    /// The stream model exists for the verifier only; it is never called.
    fn face_at(&self, _k: amar::dice::nat) -> u8 {
        unreachable!()
    }

    fn d6(&mut self) -> u8 {
        self.0.remove(0)
    }
}

#[test]
fn middle_results_pass_through() {
    for v in 2..=5 {
        let mut q = QueueRng(vec![v]);
        let r = o6(&mut q);
        assert_eq!(r.total, v as i32);
        assert_eq!(r.outcome, Outcome::Normal);
        assert_eq!(r.sequence, vec![v]);
    }
}

#[test]
fn six_then_stop_low_extends_normal() {
    let mut q = QueueRng(vec![6, 5, 3]);
    let r = o6(&mut q);
    assert_eq!(r.total, 7);
    assert_eq!(r.outcome, Outcome::Normal);
    assert_eq!(r.sequence, vec![6, 5, 3]);
}

#[test]
fn up_terminator_always_in_sequence() {
    for term in 1u8..=3 {
        let mut q = QueueRng(vec![6, 4, 5, term]);
        let r = o6(&mut q);
        assert_eq!(r.total, 8);
        assert_eq!(r.outcome, Outcome::Normal);
        assert_eq!(r.sequence, vec![6, 4, 5, term]);
    }
}

#[test]
fn down_terminator_always_in_sequence() {
    for term in 4u8..=6 {
        let mut q = QueueRng(vec![1, 2, 3, term]);
        let r = o6(&mut q);
        assert_eq!(r.total, -1);
        assert_eq!(r.outcome, Outcome::Normal);
        assert_eq!(r.sequence, vec![1, 2, 3, term]);
    }
}

#[test]
fn double_six_sets_critical_flag_then_cascade_continues() {
    let mut q = QueueRng(vec![6, 6, 2]);
    let r = o6(&mut q);
    assert_eq!(r.outcome, Outcome::Critical);
    assert_eq!(r.total, 7);
    assert_eq!(r.sequence, vec![6, 6, 2]);
}

#[test]
fn critical_extends_through_cascade() {
    let mut q = QueueRng(vec![6, 5, 4, 6, 6, 4, 2]);
    let r = o6(&mut q);
    assert_eq!(r.total, 11);
    assert_eq!(r.outcome, Outcome::Critical);
    assert_eq!(r.sequence, vec![6, 5, 4, 6, 6, 4, 2]);
}

#[test]
fn one_then_stop_high_extends_normal() {
    let mut q = QueueRng(vec![1, 2, 4]);
    let r = o6(&mut q);
    assert_eq!(r.total, 0);
    assert_eq!(r.outcome, Outcome::Normal);
}

#[test]
fn double_one_sets_fumble_flag_then_cascade_continues() {
    let mut q = QueueRng(vec![1, 1, 4]);
    let r = o6(&mut q);
    assert_eq!(r.outcome, Outcome::Fumble);
    assert_eq!(r.total, 0);
    assert_eq!(r.sequence, vec![1, 1, 4]);
}

#[test]
fn fumble_extends_through_cascade() {
    let mut q = QueueRng(vec![1, 1, 2, 3, 1, 1, 2, 1, 6]);
    let r = o6(&mut q);
    assert_eq!(r.total, -6);
    assert_eq!(r.outcome, Outcome::Fumble);
    assert_eq!(r.sequence, vec![1, 1, 2, 3, 1, 1, 2, 1, 6]);
}

#[test]
fn check_dr_pass_and_fail() {
    let mut q = QueueRng(vec![5]);
    let res = check(&mut q, 5, 10);
    assert!(res.success);
    let mut q = QueueRng(vec![5]);
    let res = check(&mut q, 5, 11);
    assert!(!res.success);
}

#[test]
fn critical_always_succeeds_fumble_always_fails() {
    let mut q = QueueRng(vec![6, 6, 2]);
    let res = check(&mut q, 0, 100);
    assert!(res.success);
    let mut q = QueueRng(vec![1, 1, 4]);
    let res = check(&mut q, 100, 0);
    assert!(!res.success);
}

#[test]
fn check_reports_final_total_and_dr() {
    let mut q = QueueRng(vec![6, 4, 1]);
    let res = check(&mut q, 3, 9);
    assert_eq!(res.roll.total, 7);
    assert_eq!(res.final_total, 10);
    assert_eq!(res.dr, 9);
    assert!(res.success);
}

#[test]
fn check_saturates_instead_of_overflowing() {
    let mut q = QueueRng(vec![5]);
    let res = check(&mut q, i32::MAX, 0);
    assert_eq!(res.final_total, i32::MAX);
    let mut q = QueueRng(vec![1, 4]);
    let res = check(&mut q, i32::MIN, 0);
    assert_eq!(res.final_total, i32::MIN + 1);
}

#[test]
fn critical_table_single_hit() {
    let mut q = QueueRng(vec![3, 2]);
    let t = roll_critical(&mut q);
    assert!(!t.recursive);
    assert_eq!(t.hits.len(), 1);
    assert_eq!(t.hits[0].category, 3);
    assert_eq!(t.hits[0].category_name, "Increased effect");
    assert_eq!(t.hits[0].entry, 2);
    assert_eq!(t.hits[0].description, "Tough hit — +3 damage");
}

#[test]
fn critical_table_roll_twice_skips_sixes() {
    let mut q = QueueRng(vec![6, 6, 6, 1, 1, 5, 6]);
    let t = roll_critical(&mut q);
    assert!(t.recursive);
    assert_eq!(t.hits.len(), 2);
    assert_eq!(t.hits[0].category, 1);
    assert_eq!(t.hits[0].description, "Looks really cool");
    assert_eq!(t.hits[1].category, 5);
    assert_eq!(t.hits[1].entry, 6);
    assert_eq!(t.hits[1].description, "Opponent faints — Medical Lore DR 8 to awaken");
}

#[test]
fn fumble_table_single_and_twice() {
    let mut q = QueueRng(vec![6, 6]);
    let t = roll_fumble(&mut q);
    assert!(!t.recursive);
    assert_eq!(t.hits[0].category_name, "Impression");
    assert_eq!(t.hits[0].description, "Awkward looking");
    let mut q = QueueRng(vec![1, 1, 2, 1, 4, 3]);
    let t = roll_fumble(&mut q);
    assert!(t.recursive);
    assert_eq!(t.hits.len(), 2);
    assert_eq!(t.hits[0].category, 2);
    assert_eq!(t.hits[0].description, "Lose next attack; opponent gets +10 to next attack");
    assert_eq!(t.hits[1].category, 4);
    assert_eq!(t.hits[1].category_name, "Stun effect");
    assert_eq!(t.hits[1].description, "Staggered — Status -D for D rounds");
}

#[test]
fn std_rng_faces_are_dice() {
    let mut r = StdRng::new(0);
    for _ in 0..1000 {
        let f = r.d6();
        assert!((1..=6).contains(&f));
    }
    let mut a = StdRng::new(42);
    let mut b = StdRng::new(42);
    for _ in 0..20 {
        assert_eq!(a.d6(), b.d6());
    }
    let mut t = StdRng::from_time();
    let f = t.d6();
    assert!((1..=6).contains(&f));
}

#[test]
fn clock_seed_keeps_low_bits() {
    assert_eq!(clock_seed(None), 0xdeadbeef);
    assert_eq!(clock_seed(Some(42)), 42);
    assert_eq!(clock_seed(Some((1u128 << 64) + 7)), 7);
}

#[test]
fn table_roll_consumes_exactly_its_dice() {
    let mut q = QueueRng(vec![6, 6, 2, 3, 6, 4, 1, 5]);
    let t = roll_critical(&mut q);
    assert!(t.recursive);
    assert_eq!(t.hits[0].category, 2);
    assert_eq!(t.hits[0].entry, 3);
    assert_eq!(t.hits[1].category, 4);
    assert_eq!(t.hits[1].entry, 1);
    assert_eq!(q.0, vec![5]);
}

#[test]
fn check_rolls_what_o6_rolls_on_the_same_dice() {
    let faces = vec![6, 5, 6, 6, 2, 4];
    let r = o6(&mut QueueRng(faces.clone()));
    let c = check(&mut QueueRng(faces), 3, 10);
    assert_eq!(c.roll.sequence, r.sequence);
    assert_eq!(c.roll.total, r.total);
    assert_eq!(c.roll.outcome, r.outcome);
    assert_eq!(c.final_total, r.total + 3);
}
