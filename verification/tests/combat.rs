use amar::combat::{participant_status_off_def, StatusVitals, TimedStatus};
use amar::combat::{
    encumbrance_modifier, endurance_drain_tier, CombatRef, CombatState, Lighting, ManualStatus,
    Movement, Participant, RollEntry, RollKind, TagPool,
};

#[test]
fn tagpool_toggle_round_trip() {
    let mut p = TagPool::default();
    let r = CombatRef::Pc(3);
    assert!(p.toggle(r));
    assert!(p.contains(&r));
    assert!(!p.toggle(r));
    assert!(!p.contains(&r));
}

#[test]
fn endurance_drain_increments_every_n_rounds() {
    assert_eq!(endurance_drain_tier(1, 4), 0);
    assert_eq!(endurance_drain_tier(4, 4), 0);
    assert_eq!(endurance_drain_tier(5, 4), 1);
    assert_eq!(endurance_drain_tier(8, 4), 1);
    assert_eq!(endurance_drain_tier(9, 4), 2);
}

#[test]
fn encumbrance_tiers_match_wiki() {
    assert_eq!(encumbrance_modifier(0), 0);
    assert_eq!(encumbrance_modifier(1), -1);
    assert_eq!(encumbrance_modifier(2), -3);
    assert_eq!(encumbrance_modifier(3), -5);
}

#[test]
fn lighting_cycle() {
    let mut l = Lighting::Bright;
    l = l.next();
    assert_eq!(l, Lighting::Twilight);
    l = l.next();
    assert_eq!(l, Lighting::Moonlight);
    l = l.next();
    assert_eq!(l, Lighting::Starlight);
    l = l.next();
    assert_eq!(l, Lighting::Bright);
}

#[test]
fn movement_cycle_and_modifiers() {
    let mut m = Movement::Standing;
    for _ in 0..6 {
        m = m.next();
    }
    assert_eq!(m, Movement::Standing);
    assert_eq!(Movement::Run.off_def(), (-10, -5));
    assert_eq!(Movement::Disengage.off_def(), (i32::MIN, -5));
    assert_eq!(Movement::MoveAndFight.label(), "Move&Fight");
    assert_eq!(Lighting::Starlight.off_def(), (-3, -6));
    assert_eq!(Lighting::Twilight.label(), "twilight");
}

#[test]
fn manual_statuses() {
    let all = ManualStatus::all();
    assert_eq!(all.len(), 4);
    assert_eq!(all[0].label(), "Partially unaware");
    assert_eq!(ManualStatus::Unaware.off_def(), (i32::MIN, -10));
    assert_eq!(ManualStatus::Stunned.off_def(), (-3, -3));
    assert_eq!(RollKind::Dam.short(), "D");
}

#[test]
fn endurance_drain_degenerate_sheets() {
    assert_eq!(endurance_drain_tier(100, 0), 0);
    assert_eq!(endurance_drain_tier(100, -3), 0);
    assert_eq!(endurance_drain_tier(0, 1), -1);
    assert_eq!(endurance_drain_tier(0, 4), 0);
}

fn entry(round: u32) -> RollEntry {
    RollEntry {
        round,
        name: "Finlo".to_string(),
        weapon: None,
        kind: RollKind::Off,
        o6: 4,
        base: 10,
        status_mod: -2,
        total: 12,
        extra: String::new(),
    }
}

#[test]
fn roll_log_is_capped_at_100() {
    let mut cb = CombatState::new();
    assert_eq!(cb.round, 1);
    for i in 0..150 {
        cb.push_log(entry(i));
    }
    assert_eq!(cb.log.len(), 100);
    assert_eq!(cb.log[0].round, 50);
    assert_eq!(cb.log[99].round, 149);
    let d = CombatState::default();
    assert_eq!(d.round, 0);
}

#[test]
fn tag_pool_basics() {
    let mut p = TagPool::default();
    assert!(p.is_empty());
    p.toggle(CombatRef::Npc(1));
    p.toggle(CombatRef::EncounterNpc { enc_idx: 0, npc_idx: 2 });
    p.toggle(CombatRef::Pc(0));
    assert_eq!(p.len(), 3);
    assert!(!p.toggle(CombatRef::Npc(1)));
    assert_eq!(p.refs, vec![CombatRef::EncounterNpc { enc_idx: 0, npc_idx: 2 }, CombatRef::Pc(0)]);
    p.clear();
    assert!(p.is_empty());
    let q = Participant::new(CombatRef::Pc(5));
    assert_eq!(q.r, CombatRef::Pc(5));
    assert!(q.init.is_none());
    assert_eq!(q.movement, Movement::Standing);
}

#[test]
fn net_status_sums_every_source() {
    let mut cb = CombatState::new();
    cb.round = 5;
    cb.lighting = Lighting::Twilight;
    let mut p = Participant::new(CombatRef::Pc(0));
    p.encumbrance_tier = 1;
    p.manual_statuses.push(ManualStatus::Stunned);
    p.timed_statuses.push(TimedStatus { label: "crit".to_string(), off: -2, def: 0, dam: 0, rounds_left: 2 });
    p.movement = Movement::Move;
    let v = Some(StatusVitals { bp_current: 2, bp_max: 10, endurance: 4 });
    // Quarter BP −4, drain −1, encumbrance −1, stunned −3/−3, timed −2/0,
    // twilight −1/−2, moving −5/−2.
    assert_eq!(participant_status_off_def(v, &cb, &p), (-17, -13));
    // Half BP only: −2.
    let v = Some(StatusVitals { bp_current: 5, bp_max: 10, endurance: 0 });
    assert_eq!(participant_status_off_def(v, &cb, &p), (-14, -10));
    // No character: only the combat overlay counts.
    assert_eq!(participant_status_off_def(None, &cb, &p), (-12, -8));
}

#[test]
fn cannot_attack_marks() {
    let cb = CombatState::new();
    let mut p = Participant::new(CombatRef::Npc(1));
    p.manual_statuses.push(ManualStatus::Unaware);
    assert_eq!(participant_status_off_def(None, &cb, &p), (i32::MIN, -10));
    let mut q = Participant::new(CombatRef::Npc(2));
    q.movement = Movement::Disengage;
    assert_eq!(participant_status_off_def(None, &cb, &q), (i32::MIN, -5));
}

#[test]
fn combat_grid_layout() {
    use_layout();
}

fn use_layout() {
    let mut cb = CombatState::new();
    for r in [CombatRef::Npc(0), CombatRef::Pc(0), CombatRef::Npc(1), CombatRef::Npc(2), CombatRef::Pc(1)] {
        cb.participants.push(Participant::new(r));
    }
    let l = amar::combat::compute_combat_layout(&cb, 60);
    assert_eq!(l.npc_indices, vec![0, 2, 3]);
    assert_eq!(l.pc_indices, vec![1, 4]);
    assert_eq!((l.npc_cols, l.pc_cols), (2, 2));
    assert_eq!((l.npc_rows(), l.pc_rows()), (2, 1));
    assert_eq!(amar::combat::locate_in_layout(&l, 3), Some((0, 1, 0)));
    assert_eq!(amar::combat::locate_in_layout(&l, 4), Some((1, 0, 1)));
    assert_eq!(amar::combat::locate_in_layout(&l, 9), None);
    assert_eq!(amar::combat::flat_in_layout(&l, 0, 1, 5), Some(3));
    assert_eq!(amar::combat::flat_in_layout(&l, 1, 0, 0), Some(1));
    assert_eq!(amar::combat::flat_in_layout(&l, 0, 2, 0), None);
    assert_eq!(amar::combat::flat_in_layout(&l, 2, 0, 0), None);
    // A narrow body still gets one column per band.
    let l = amar::combat::compute_combat_layout(&cb, 10);
    assert_eq!((l.npc_cols, l.pc_cols), (1, 1));
}

#[test]
fn toggle_untags_a_ref_held_twice() {
    let mut p = TagPool::default();
    p.refs = vec![CombatRef::Pc(1), CombatRef::Npc(2), CombatRef::Pc(1)];
    assert!(!p.toggle(CombatRef::Pc(1)));
    assert!(!p.contains(&CombatRef::Pc(1)));
    assert_eq!(p.refs, vec![CombatRef::Npc(2)]);
    assert!(p.toggle(CombatRef::Pc(1)));
    assert_eq!(p.refs, vec![CombatRef::Npc(2), CombatRef::Pc(1)]);
}

#[test]
fn flat_in_layout_with_no_columns() {
    let l = amar::combat::CombatLayout { npc_indices: vec![4, 5], pc_indices: vec![], npc_cols: 0, pc_cols: 0 };
    assert_eq!(amar::combat::flat_in_layout(&l, 0, 3, 7), Some(4));
    assert_eq!(amar::combat::flat_in_layout(&l, 1, 0, 0), None);
}

#[test]
fn endurance_drain_reads_late_rounds_as_i32() {
    assert_eq!(endurance_drain_tier(u32::MAX, 4), 0);
    assert_eq!(endurance_drain_tier(2_147_483_649, 1), i32::MIN);
    assert_eq!(endurance_drain_tier(3_000_000_000, 10), -129_496_729);
}

#[test]
fn cannot_attack_mark_survives_later_sources() {
    let mut cb = CombatState::new();
    cb.lighting = Lighting::Twilight;
    let mut p = Participant::new(CombatRef::Npc(1));
    p.manual_statuses.push(ManualStatus::Unaware);
    p.manual_statuses.push(ManualStatus::Stunned);
    p.timed_statuses.push(TimedStatus { label: "boost".to_string(), off: 1, def: 1, dam: 0, rounds_left: 1 });
    p.movement = Movement::Move;
    // Unaware −10 def, stunned −3, timed +1, twilight −2, moving −2.
    assert_eq!(participant_status_off_def(None, &cb, &p), (i32::MIN, -16));
}
