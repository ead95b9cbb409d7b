//! Combat bookkeeping: whole-fight state, per-participant overlays,
//! status modifiers and the cross-source tag pool.

use vstd::prelude::*;
use std::collections::BTreeMap;

verus! {

/// Reference from a combatant to its character row in the campaign:
/// a PC, a campaign NPC, or an NPC of a saved encounter.
#[derive(Debug, Clone, Copy, PartialEq, Eq, Structural)]
pub enum CombatRef {
    Pc(usize),
    Npc(usize),
    EncounterNpc { enc_idx: usize, npc_idx: usize },
}

/// Global lighting condition — applies to every participant's rolls.
#[derive(Debug, Clone, Copy, PartialEq, Eq, Structural)]
pub enum Lighting {
    Bright,
    /// Twilight / torchlight: −1 Off, −2 Def.
    Twilight,
    /// Moonlight (full moon): −2 Off, −4 Def.
    Moonlight,
    /// Starlight: −3 Off, −6 Def.
    Starlight,
}

impl Default for Lighting {
    fn default() -> (r: Self)
        ensures
            r == Lighting::Bright,
    {
        Lighting::Bright
    }
}

/// Off/Def modifiers of a lighting condition.
pub open spec fn lighting_off_def(l: Lighting) -> (i32, i32) {
    match l {
        Lighting::Bright => (0i32, 0i32),
        Lighting::Twilight => (-1i32, -2i32),
        Lighting::Moonlight => (-2i32, -4i32),
        Lighting::Starlight => (-3i32, -6i32),
    }
}

/// The lighting condition after `l` in the bright → starlight cycle.
pub open spec fn lighting_after(l: Lighting) -> Lighting {
    match l {
        Lighting::Bright => Lighting::Twilight,
        Lighting::Twilight => Lighting::Moonlight,
        Lighting::Moonlight => Lighting::Starlight,
        Lighting::Starlight => Lighting::Bright,
    }
}

impl Lighting {
    pub fn label(self) -> (r: &'static str)
        ensures
            r == match self {
                Lighting::Bright => "bright",
                Lighting::Twilight => "twilight",
                Lighting::Moonlight => "moonlight",
                Lighting::Starlight => "starlight",
            },
    {
        match self {
            Lighting::Bright => "bright",
            Lighting::Twilight => "twilight",
            Lighting::Moonlight => "moonlight",
            Lighting::Starlight => "starlight",
        }
    }

    pub fn off_def(self) -> (r: (i32, i32))
        ensures
            r == lighting_off_def(self),
    {
        match self {
            Lighting::Bright => (0, 0),
            Lighting::Twilight => (-1, -2),
            Lighting::Moonlight => (-2, -4),
            Lighting::Starlight => (-3, -6),
        }
    }

    pub fn next(self) -> (r: Lighting)
        ensures
            r == lighting_after(self),
    {
        match self {
            Lighting::Bright => Lighting::Twilight,
            Lighting::Twilight => Lighting::Moonlight,
            Lighting::Moonlight => Lighting::Starlight,
            Lighting::Starlight => Lighting::Bright,
        }
    }
}

/// Per-turn movement choice.
#[derive(Debug, Clone, Copy, PartialEq, Eq, Structural)]
pub enum Movement {
    Standing,
    /// Run x2: −10 Off, −5 Def.
    Run,
    /// Move x1: −5 Off, −2 Def.
    Move,
    /// Move & Fight x½: −3 Off, −1 Def.
    MoveAndFight,
    /// Move in Melee x¼: −1 Off, −1 Def.
    MoveInMelee,
    /// Disengage x1: no Off, −5 Def.
    Disengage,
}

impl Default for Movement {
    fn default() -> (r: Self)
        ensures
            r == Movement::Standing,
    {
        Movement::Standing
    }
}

/// Off/Def modifiers of a movement choice; `i32::MIN` as the Off
/// modifier means "cannot attack".
pub open spec fn movement_off_def(m: Movement) -> (i32, i32) {
    match m {
        Movement::Standing => (0i32, 0i32),
        Movement::Run => (-10i32, -5i32),
        Movement::Move => (-5i32, -2i32),
        Movement::MoveAndFight => (-3i32, -1i32),
        Movement::MoveInMelee => (-1i32, -1i32),
        Movement::Disengage => (i32::MIN, -5i32),
    }
}

/// The movement choice after `m` in the cycle.
pub open spec fn movement_after(m: Movement) -> Movement {
    match m {
        Movement::Standing => Movement::Run,
        Movement::Run => Movement::Move,
        Movement::Move => Movement::MoveAndFight,
        Movement::MoveAndFight => Movement::MoveInMelee,
        Movement::MoveInMelee => Movement::Disengage,
        Movement::Disengage => Movement::Standing,
    }
}

impl Movement {
    pub fn label(self) -> (r: &'static str)
        ensures
            r == match self {
                Movement::Standing => "—",
                Movement::Run => "Run",
                Movement::Move => "Move",
                Movement::MoveAndFight => "Move&Fight",
                Movement::MoveInMelee => "Move(melee)",
                Movement::Disengage => "Disengage",
            },
    {
        match self {
            Movement::Standing => "—",
            Movement::Run => "Run",
            Movement::Move => "Move",
            Movement::MoveAndFight => "Move&Fight",
            Movement::MoveInMelee => "Move(melee)",
            Movement::Disengage => "Disengage",
        }
    }

    /// (off_mod, def_mod). Disengage returns (i32::MIN, -5) to signal
    /// "no attack" via the off_mod.
    pub fn off_def(self) -> (r: (i32, i32))
        ensures
            r == movement_off_def(self),
    {
        match self {
            Movement::Standing => (0, 0),
            Movement::Run => (-10, -5),
            Movement::Move => (-5, -2),
            Movement::MoveAndFight => (-3, -1),
            Movement::MoveInMelee => (-1, -1),
            Movement::Disengage => (i32::MIN, -5),
        }
    }

    pub fn next(self) -> (r: Movement)
        ensures
            r == movement_after(self),
    {
        match self {
            Movement::Standing => Movement::Run,
            Movement::Run => Movement::Move,
            Movement::Move => Movement::MoveAndFight,
            Movement::MoveAndFight => Movement::MoveInMelee,
            Movement::MoveInMelee => Movement::Disengage,
            Movement::Disengage => Movement::Standing,
        }
    }
}

/// GM-toggled situational status.
#[derive(Debug, Clone, Copy, PartialEq, Eq, Structural)]
pub enum ManualStatus {
    PartiallyUnaware,
    Stunned,
    Unaware,
    Immobilized,
}

/// Off/Def modifiers of a manual status; `i32::MIN` Off means "cannot
/// attack".
pub open spec fn manual_off_def(s: ManualStatus) -> (i32, i32) {
    match s {
        ManualStatus::PartiallyUnaware => (0i32, -5i32),
        ManualStatus::Stunned => (-3i32, -3i32),
        ManualStatus::Unaware => (i32::MIN, -10i32),
        ManualStatus::Immobilized => (i32::MIN, -5i32),
    }
}

impl ManualStatus {
    pub fn label(self) -> (r: &'static str)
        ensures
            r == match self {
                ManualStatus::PartiallyUnaware => "Partially unaware",
                ManualStatus::Stunned => "Stunned",
                ManualStatus::Unaware => "Unaware",
                ManualStatus::Immobilized => "Immobilized",
            },
    {
        match self {
            ManualStatus::PartiallyUnaware => "Partially unaware",
            ManualStatus::Stunned => "Stunned",
            ManualStatus::Unaware => "Unaware",
            ManualStatus::Immobilized => "Immobilized",
        }
    }

    pub fn off_def(self) -> (r: (i32, i32))
        ensures
            r == manual_off_def(self),
    {
        match self {
            ManualStatus::PartiallyUnaware => (0, -5),
            ManualStatus::Stunned => (-3, -3),
            ManualStatus::Unaware => (i32::MIN, -10),
            ManualStatus::Immobilized => (i32::MIN, -5),
        }
    }

    pub fn all() -> (r: [ManualStatus; 4])
        ensures
            r@ == seq![
                ManualStatus::PartiallyUnaware,
                ManualStatus::Stunned,
                ManualStatus::Unaware,
                ManualStatus::Immobilized,
            ],
    {
        [
            ManualStatus::PartiallyUnaware,
            ManualStatus::Stunned,
            ManualStatus::Unaware,
            ManualStatus::Immobilized,
        ]
    }
}

/// Round-counted effect (crit / fumble consequence or a GM custom one).
#[derive(Debug, Clone)]
pub struct TimedStatus {
    pub label: String,
    pub off: i32,
    pub def: i32,
    pub dam: i32,
    /// Rounds remaining. Ticked down each round; removed at 0.
    pub rounds_left: u32,
}

#[derive(Debug, Clone, Copy, PartialEq, Eq, Structural)]
pub enum RollKind {
    Init,
    Off,
    Def,
    Dam,
}

impl RollKind {
    pub fn short(self) -> (r: &'static str)
        ensures
            r == match self {
                RollKind::Init => "i",
                RollKind::Off => "o",
                RollKind::Def => "d",
                RollKind::Dam => "D",
            },
    {
        match self {
            RollKind::Init => "i",
            RollKind::Off => "o",
            RollKind::Def => "d",
            RollKind::Dam => "D",
        }
    }
}

/// One roll on the log, with its breakdown (`base + status_mod + o6`).
#[derive(Debug, Clone)]
pub struct RollEntry {
    pub round: u32,
    pub name: String,
    pub weapon: Option<String>,
    pub kind: RollKind,
    /// The exploding-d6 result added to the roll.
    pub o6: i32,
    /// Base value before status.
    pub base: i32,
    /// Net Status modifier applied to this roll.
    pub status_mod: i32,
    pub total: i32,
    /// Optional flavour text.
    pub extra: String,
}

/// One combatant: a reference to its character plus the combat overlay.
#[derive(Debug, Clone)]
pub struct Participant {
    pub r: CombatRef,
    /// Initiative with the current weapon; `None` until rolled this round.
    pub init: Option<i32>,
    /// Initiative without the weapon's I.
    pub init_noweapon: Option<i32>,
    /// Index into the character's weapons list.
    pub selected_weapon: usize,
    /// GM-toggled statuses.
    pub manual_statuses: Vec<ManualStatus>,
    /// Crit / fumble effects with a round counter.
    pub timed_statuses: Vec<TimedStatus>,
    /// Encumbrance tier: 0 → 0, 1 → −1, 2 → −3, 3 → −5.
    pub encumbrance_tier: u8,
    /// Movement this turn.
    pub movement: Movement,
    /// Doing something other than attacking this round.
    pub non_attack: bool,
    /// GM-edited combat-only field overrides, by short field key.
    pub overrides: BTreeMap<String, i32>,
}

impl Participant {
    /// A fresh combatant for `r`: nothing rolled, first weapon, no
    /// statuses, unencumbered, standing still, no overrides.
    pub fn new(r: CombatRef) -> (p: Self)
        ensures
            p.r == r,
            p.init.is_none(),
            p.init_noweapon.is_none(),
            p.selected_weapon == 0,
            p.manual_statuses@.len() == 0,
            p.timed_statuses@.len() == 0,
            p.encumbrance_tier == 0,
            p.movement == Movement::Standing,
            !p.non_attack,
            p.overrides@ == Map::<String, i32>::empty(),
    {
        Participant {
            r,
            init: None,
            init_noweapon: None,
            selected_weapon: 0,
            manual_statuses: Vec::new(),
            timed_statuses: Vec::new(),
            encumbrance_tier: 0,
            movement: Movement::Standing,
            non_attack: false,
            overrides: BTreeMap::new(),
        }
    }
}

/// Most roll-log entries kept.
pub const LOG_CAP: usize = 100;

/// The log after appending `e` to `log` and keeping only the last 100.
pub open spec fn capped_log(log: Seq<RollEntry>, e: RollEntry) -> Seq<RollEntry> {
    let s = log.push(e);
    if s.len() > 100 {
        s.subrange(s.len() - 100, s.len() as int)
    } else {
        s
    }
}

/// Whole-fight state.
#[derive(Debug, Clone)]
pub struct CombatState {
    pub round: u32,
    pub lighting: Lighting,
    pub participants: Vec<Participant>,
    pub selected: usize,
    pub log: Vec<RollEntry>,
}

fn default_round() -> (r: u32)
    ensures
        r == 1,
{
    1
}

impl Default for CombatState {
    fn default() -> (r: Self)
        ensures
            r.round == 0,
            r.lighting == Lighting::Bright,
            r.participants@.len() == 0,
            r.selected == 0,
            r.log@.len() == 0,
    {
        CombatState {
            round: 0,
            lighting: Lighting::Bright,
            participants: Vec::new(),
            selected: 0,
            log: Vec::new(),
        }
    }
}

impl CombatState {
    /// An empty fight at round 1.
    pub fn new() -> (r: Self)
        ensures
            r.round == 1,
            r.lighting == Lighting::Bright,
            r.participants@.len() == 0,
            r.selected == 0,
            r.log@.len() == 0,
    {
        let mut s = Self::default();
        s.round = default_round();
        s
    }

    /// Appends `entry` to the roll log, keeping only the last 100 entries.
    pub fn push_log(&mut self, entry: RollEntry)
        ensures
            final(self).log@ == capped_log(old(self).log@, entry),
            final(self).round == old(self).round,
            final(self).lighting == old(self).lighting,
            final(self).participants@ == old(self).participants@,
            final(self).selected == old(self).selected,
    {
        self.log.push(entry);
        if self.log.len() > LOG_CAP {
            let drop = self.log.len() - LOG_CAP;
            let tail = self.log.split_off(drop);
            self.log = tail;
        }
    }
}

/// Encumbrance tier → status modifier: ≤ 2× Strength → 0, ≤ 5× → −1,
/// ≤ 10× → −3, beyond → −5.
pub open spec fn encumbrance_mod(tier: u8) -> i32 {
    if tier == 0 {
        0i32
    } else if tier == 1 {
        -1i32
    } else if tier == 2 {
        -3i32
    } else {
        -5i32
    }
}

pub fn encumbrance_modifier(tier: u8) -> (r: i32)
    ensures
        r == encumbrance_mod(tier),
{
    match tier {
        0 => 0,
        1 => -1,
        2 => -3,
        _ => -5,
    }
}

/// Integer division truncating toward zero, as Rust's `/` on signed
/// integers does.
pub open spec fn div_trunc(a: int, b: int) -> int {
    if a >= 0 {
        a / b
    } else {
        -((-a) / b)
    }
}

/// `round` read as an `i32`, as `round as i32` does: rounds past
/// `i32::MAX` wrap round to negative values.
pub open spec fn round_as_i32(round: u32) -> int {
    if round <= i32::MAX {
        round as int
    } else {
        round - 0x1_0000_0000
    }
}

/// Endurance-drain tier at `round` for endurance `endurance`: −1 every
/// `endurance` rounds, i.e. `(round − 1) / endurance` with the round read
/// as an `i32`; 0 when endurance is not positive.
pub open spec fn drain_tier(round: u32, endurance: i32) -> int {
    if endurance <= 0 {
        0
    } else {
        div_trunc(round_as_i32(round) - 1, endurance as int)
    }
}

/// The round and endurance that `endurance_drain_tier` can work with: the
/// round read as an `i32` can step one down (only round `2^31`, read as
/// `i32::MIN`, cannot).
pub open spec fn drain_defined(round: u32, endurance: i32) -> bool {
    endurance <= 0 || round != 0x8000_0000
}

pub fn endurance_drain_tier(round: u32, endurance: i32) -> (r: i32)
    requires
        drain_defined(round, endurance),
    ensures
        r == drain_tier(round, endurance),
{
    if endurance <= 0 {
        return 0;
    }
    let n: i32 = if round <= 0x7fff_ffff {
        round as i32
    } else {
        (round - 0x8000_0000) as i32 + i32::MIN
    };
    assert(n as int == round_as_i32(round));
    let m: i64 = n as i64 - 1;
    let e: i64 = endurance as i64;
    if m >= 0 {
        let q = m / e;
        assert(q <= m) by (nonlinear_arith)
            requires
                q == m / e,
                m >= 0,
                e > 0,
        ;
        q as i32
    } else {
        let pm: i64 = -m;
        let q = pm / e;
        assert(q <= pm) by (nonlinear_arith)
            requires
                q == pm / e,
                pm > 0,
                e > 0,
        ;
        let r: i64 = -q;
        r as i32
    }
}

/// Cross-source tag pool: the combatants to launch a fight with.
#[derive(Debug, Clone)]
pub struct TagPool {
    pub refs: Vec<CombatRef>,
}

impl Default for TagPool {
    fn default() -> (r: Self)
        ensures
            r.refs@.len() == 0,
    {
        TagPool { refs: Vec::new() }
    }
}

/// No reference occurs twice in `s`.
pub open spec fn no_duplicates(s: Seq<CombatRef>) -> bool {
    forall|i: int, j: int| 0 <= i < j < s.len() ==> s[i] != s[j]
}

/// `s` with every occurrence of `r` taken out.
pub open spec fn without(s: Seq<CombatRef>, r: CombatRef) -> Seq<CombatRef> {
    s.filter(other_than(r))
}

/// Holds of every reference but `r`.
pub open spec fn other_than(r: CombatRef) -> spec_fn(CombatRef) -> bool {
    |x: CombatRef| x != r
}

/// The pool `s` after toggling `r`: every occurrence removed when
/// present, `r` appended when absent.
pub open spec fn toggled(s: Seq<CombatRef>, r: CombatRef) -> Seq<CombatRef> {
    if s.contains(r) {
        without(s, r)
    } else {
        s.push(r)
    }
}

impl TagPool {
    pub fn contains(&self, r: &CombatRef) -> (b: bool)
        ensures
            b == self.refs@.contains(*r),
    {
        let mut i: usize = 0;
        while i < self.refs.len()
            invariant
                i <= self.refs@.len(),
                forall|j: int| 0 <= j < i ==> self.refs@[j] != *r,
            decreases self.refs@.len() - i,
        {
            if self.refs[i] == *r {
                return true;
            }
            i = i + 1;
        }
        false
    }

    /// Toggle: insert if absent, remove if present (every occurrence, so
    /// that a pool holding a reference twice is untagged too). Returns the
    /// new membership state (true = now tagged).
    pub fn toggle(&mut self, r: CombatRef) -> (now: bool)
        ensures
            now == !old(self).refs@.contains(r),
            now == final(self).refs@.contains(r),
            final(self).refs@ == toggled(old(self).refs@, r),
    {
        if self.contains(&r) {
            let mut kept: Vec<CombatRef> = Vec::with_capacity(self.refs.len());
            let mut i: usize = 0;
            while i < self.refs.len()
                invariant
                    i <= self.refs@.len(),
                    kept@ == without(self.refs@.take(i as int), r),
                decreases self.refs@.len() - i,
            {
                let x = self.refs[i];
                proof {
                    self.refs@.take(i as int).lemma_filter_push(x, other_than(r));
                    assert(self.refs@.take(i + 1) =~= self.refs@.take(i as int).push(x));
                }
                if x != r {
                    kept.push(x);
                }
                i = i + 1;
            }
            assert(self.refs@.take(i as int) =~= self.refs@);
            self.refs = kept;
            proof {
                lemma_without(old(self).refs@, r);
            }
            false
        } else {
            self.refs.push(r);
            proof {
                assert(self.refs@[self.refs@.len() - 1] == r);
            }
            true
        }
    }

    pub fn clear(&mut self)
        ensures
            final(self).refs@.len() == 0,
    {
        self.refs.clear();
    }

    pub fn len(&self) -> (n: usize)
        ensures
            n == self.refs@.len(),
    {
        self.refs.len()
    }

    pub fn is_empty(&self) -> (b: bool)
        ensures
            b == (self.refs@.len() == 0),
    {
        self.refs.len() == 0
    }
}

/// What `without` keeps: every member but `r`, in order, so nothing
/// changes when `r` is absent, and no duplicate appears.
proof fn lemma_without(s: Seq<CombatRef>, r: CombatRef)
    ensures
        forall|x: CombatRef| #[trigger] without(s, r).contains(x) == (s.contains(x) && x != r),
        !s.contains(r) ==> without(s, r) == s,
        no_duplicates(s) ==> no_duplicates(without(s, r)),
    decreases s.len(),
{
    if s.len() > 0 {
        let p = s.drop_last();
        let l = s.last();
        lemma_without(p, r);
        p.lemma_filter_push(l, other_than(r));
        assert(p.push(l) =~= s);
        let w = without(p, r);
        assert(without(s, r) == if l != r { w.push(l) } else { w });
        assert forall|x: CombatRef| #[trigger] without(s, r).contains(x) == (s.contains(x) && x
            != r) by {
            if s.contains(x) && x != r {
                let k = choose|k: int| 0 <= k < s.len() && s[k] == x;
                if k < p.len() {
                    assert(p[k] == x);
                } else {
                    assert(without(s, r)[w.len() as int] == x);
                }
            }
            if without(s, r).contains(x) {
                let k = choose|k: int| 0 <= k < without(s, r).len() && without(s, r)[k] == x;
                if k < w.len() {
                    assert(w[k] == x);
                    assert(w.contains(x));
                    assert(p.contains(x));
                    let k2 = choose|k2: int| 0 <= k2 < p.len() && p[k2] == x;
                    assert(s[k2] == x);
                } else {
                    assert(s[s.len() - 1] == x);
                }
            }
        }
        if !s.contains(r) {
            assert forall|k: int| 0 <= k < p.len() implies p[k] != r by {
                assert(s[k] == p[k]);
            }
            assert(s[s.len() - 1] != r);
        }
        if no_duplicates(s) {
            assert(no_duplicates(p)) by {
                assert forall|a: int, b: int| 0 <= a < b < p.len() implies p[a] != p[b] by {
                    assert(s[a] == p[a] && s[b] == p[b]);
                }
            }
            if l != r {
                assert(!p.contains(l)) by {
                    if p.contains(l) {
                        let k = choose|k: int| 0 <= k < p.len() && p[k] == l;
                        assert(s[k] == l);
                    }
                }
                assert(!w.contains(l));
                let t = without(s, r);
                assert(t == w.push(l));
                assert forall|a: int, b: int| 0 <= a < b < t.len() implies t[a] != t[b] by {
                    if b == w.len() {
                        assert(w.contains(t[a]));
                    } else {
                        assert(t[a] == w[a] && t[b] == w[b]);
                    }
                }
            }
        }
    } else {
        assert(without(s, r) =~= s) by {
            reveal(Seq::filter);
        }
    }
}

/// Toggling a reference flips its membership and leaves every other
/// reference's membership alone; toggling it again restores every
/// membership, and restores the pool exactly when the reference was not
/// tagged at first. A pool without duplicates stays without.
pub proof fn lemma_toggle_laws(s: Seq<CombatRef>, r: CombatRef)
    ensures
        toggled(s, r).contains(r) == !s.contains(r),
        forall|x: CombatRef| x != r ==> (toggled(s, r).contains(x) == s.contains(x)),
        forall|x: CombatRef| toggled(toggled(s, r), r).contains(x) == s.contains(x),
        !s.contains(r) ==> toggled(toggled(s, r), r) == s,
        no_duplicates(s) ==> no_duplicates(toggled(s, r)),
{
    lemma_without(s, r);
    let t = toggled(s, r);
    let pushed = s.push(r);
    assert(pushed[s.len() as int] == r);
    assert forall|x: CombatRef| x != r implies (pushed.contains(x) == s.contains(x)) by {
        if s.contains(x) {
            let k = choose|k: int| 0 <= k < s.len() && s[k] == x;
            assert(pushed[k] == x);
        }
        if pushed.contains(x) {
            let k = choose|k: int| 0 <= k < pushed.len() && pushed[k] == x;
            assert(s[k] == x);
        }
    }
    if s.contains(r) {
        lemma_without(t, r);
        let u = toggled(t, r);
        assert(u == t.push(r));
        assert(u[t.len() as int] == r);
        assert forall|x: CombatRef| u.contains(x) == s.contains(x) by {
            if x != r {
                if t.contains(x) {
                    let k = choose|k: int| 0 <= k < t.len() && t[k] == x;
                    assert(u[k] == x);
                }
                if u.contains(x) {
                    let k = choose|k: int| 0 <= k < u.len() && u[k] == x;
                    assert(t[k] == x);
                }
            }
        }
    } else {
        lemma_without(pushed, r);
        pushed.drop_last().lemma_filter_push(r, other_than(r));
        assert(pushed.drop_last() =~= s);
        if no_duplicates(s) {
            assert forall|a: int, b: int| 0 <= a < b < pushed.len() implies pushed[a] != pushed[b] by {
                if b == s.len() {
                    assert(pushed[a] == s[a]);
                } else {
                    assert(pushed[a] == s[a] && pushed[b] == s[b]);
                }
            }
        }
    }
}

/// The lighting conditions cycle with period four.
pub proof fn lemma_lighting_cycle(l: Lighting)
    ensures
        lighting_after(lighting_after(lighting_after(lighting_after(l)))) == l,
        lighting_after(l) != l,
{
}

/// The movement choices cycle with period six.
pub proof fn lemma_movement_cycle(m: Movement)
    ensures
        movement_after(movement_after(movement_after(movement_after(movement_after(movement_after(m)))))) == m,
        movement_after(m) != m,
{
}

/// The roll log never holds more than 100 entries, the newest entry is
/// always last, and nothing is dropped while there is room.
pub proof fn lemma_log_cap(log: Seq<RollEntry>, e: RollEntry)
    ensures
        capped_log(log, e).len() <= 100 || capped_log(log, e).len() == log.len() + 1,
        log.len() < 100 ==> capped_log(log, e) == log.push(e),
        capped_log(log, e).last() == e,
        log.len() >= 100 ==> capped_log(log, e).len() == 100,
{
}

/// Heavier encumbrance never helps: the modifier is 0 or negative and
/// does not rise with the tier.
pub proof fn lemma_encumbrance_monotone(a: u8, b: u8)
    requires
        a <= b,
    ensures
        encumbrance_mod(b) <= encumbrance_mod(a) <= 0,
{
}

/// Endurance drain grows by exactly one every `endurance` rounds.
pub proof fn lemma_drain_steps(round: u32, endurance: i32)
    requires
        round >= 1,
        endurance > 0,
        round + endurance <= i32::MAX,
    ensures
        drain_tier((round + endurance) as u32, endurance) == drain_tier(round, endurance) + 1,
        drain_tier(round, endurance) >= 0,
{
    let a = round - 1;
    let e = endurance as int;
    assert((a + e) / e == a / e + 1) by (nonlinear_arith)
        requires
            a >= 0,
            e > 0,
    ;
    assert(a / e >= 0) by (nonlinear_arith)
        requires
            a >= 0,
            e > 0,
    ;
}


/// Card width, in cells, of a participant card on the Combat tab.
pub const COMBAT_CARD_W: usize = 26;

/// Two-band card grid: NPCs at the top, PCs at the bottom, each band
/// with its own column count.
pub struct CombatLayout {
    pub npc_indices: Vec<usize>,
    pub pc_indices: Vec<usize>,
    pub npc_cols: usize,
    pub pc_cols: usize,
}

/// `ceil(n / cols)`: rows needed for `n` cards, `cols` to a row.
pub open spec fn rows_for(n: int, cols: int) -> int {
    if n == 0 {
        0
    } else {
        (n + cols - 1) / cols
    }
}

fn band_rows(n: usize, cols: usize) -> (r: usize)
    requires
        cols >= 1,
    ensures
        r == rows_for(n as int, cols as int),
{
    if n == 0 {
        0
    } else {
        let r = (n - 1) / cols + 1;
        assert((n - 1) / (cols as int) + 1 == (n + cols - 1) / (cols as int)) by (nonlinear_arith)
            requires
                n >= 1,
                cols >= 1,
        ;
        r
    }
}

impl CombatLayout {
    /// Number of card rows the NPC band uses.
    pub fn npc_rows(&self) -> (r: usize)
        requires
            self.npc_cols >= 1,
        ensures
            r == rows_for(self.npc_indices@.len() as int, self.npc_cols as int),
    {
        band_rows(self.npc_indices.len(), self.npc_cols)
    }

    /// Number of card rows the PC band uses.
    pub fn pc_rows(&self) -> (r: usize)
        requires
            self.pc_cols >= 1,
        ensures
            r == rows_for(self.pc_indices@.len() as int, self.pc_cols as int),
    {
        band_rows(self.pc_indices.len(), self.pc_cols)
    }
}

/// A reference to a player character.
pub open spec fn is_pc_ref(r: CombatRef) -> bool {
    r is Pc
}

/// Indices `i < m` of participants whose reference is (`pc`) or is not
/// (`!pc`) a PC, in order.
pub open spec fn band_indices(parts: Seq<Participant>, m: int, pc: bool) -> Seq<usize>
    decreases m,
{
    if m <= 0 {
        seq![]
    } else {
        band_indices(parts, m - 1, pc) + if is_pc_ref(parts[m - 1].r) == pc {
            seq![(m - 1) as usize]
        } else {
            seq![]
        }
    }
}

/// Cards per row for a band of `n` cards on a body `body_w` wide.
pub open spec fn band_cols(n: int, body_w: int) -> int {
    let max_cols = if body_w / 27 >= 1 { body_w / 27 } else { 1 };
    let c = if n <= max_cols { n } else { max_cols };
    if c >= 1 { c } else { 1 }
}

/// Split participants into NPC + PC bands and pick a card-column count
/// for each: as many as fit, capped at the band's size, at least one.
pub fn compute_combat_layout(cb: &CombatState, body_w: usize) -> (l: CombatLayout)
    ensures
        l.npc_indices@ == band_indices(cb.participants@, cb.participants@.len() as int, false),
        l.pc_indices@ == band_indices(cb.participants@, cb.participants@.len() as int, true),
        l.npc_cols == band_cols(l.npc_indices@.len() as int, body_w as int),
        l.pc_cols == band_cols(l.pc_indices@.len() as int, body_w as int),
{
    let q = body_w / (COMBAT_CARD_W + 1);
    let max_cols = if q >= 1 { q } else { 1 };
    let mut npc_indices: Vec<usize> = Vec::new();
    let mut pc_indices: Vec<usize> = Vec::new();
    let mut i: usize = 0;
    while i < cb.participants.len()
        invariant
            i <= cb.participants@.len(),
            npc_indices@ == band_indices(cb.participants@, i as int, false),
            pc_indices@ == band_indices(cb.participants@, i as int, true),
        decreases cb.participants@.len() - i,
    {
        match cb.participants[i].r {
            CombatRef::Pc(_) => pc_indices.push(i),
            _ => npc_indices.push(i),
        }
        i = i + 1;
    }
    let nn = npc_indices.len();
    let np = pc_indices.len();
    let npc_c = if nn <= max_cols { nn } else { max_cols };
    let pc_c = if np <= max_cols { np } else { max_cols };
    let npc_cols = if npc_c >= 1 { npc_c } else { 1 };
    let pc_cols = if pc_c >= 1 { pc_c } else { 1 };
    CombatLayout { npc_indices, pc_indices, npc_cols, pc_cols }
}

fn find_pos(s: &Vec<usize>, x: usize) -> (r: Option<usize>)
    ensures
        match r {
            Some(p) => p < s@.len() && s@[p as int] == x && forall|j: int| 0 <= j < p ==> s@[j] != x,
            None => !s@.contains(x),
        },
{
    let mut i: usize = 0;
    while i < s.len()
        invariant
            i <= s@.len(),
            forall|j: int| 0 <= j < i ==> s@[j] != x,
        decreases s@.len() - i,
    {
        if s[i] == x {
            return Some(i);
        }
        i = i + 1;
    }
    None
}

/// The first position of `x` in `s` (meaningful when `s` contains `x`).
pub open spec fn first_pos(s: Seq<usize>, x: usize) -> int {
    choose|p: int| 0 <= p < s.len() && s[p] == x && forall|j: int| 0 <= j < p ==> s[j] != x
}

proof fn lemma_has_first(s: Seq<usize>, x: usize, k: int)
    requires
        0 <= k < s.len(),
        s[k] == x,
    ensures
        exists|p: int| 0 <= p < s.len() && s[p] == x && forall|j: int| 0 <= j < p ==> s[j] != x,
    decreases k,
{
    if exists|j: int| 0 <= j < k && s[j] == x {
        let j = choose|j: int| 0 <= j < k && s[j] == x;
        lemma_has_first(s, x, j);
    } else {
        assert(0 <= k < s.len() && s[k] == x && forall|j: int| 0 <= j < k ==> s[j] != x);
    }
}

proof fn lemma_first_pos(s: Seq<usize>, x: usize)
    requires
        s.contains(x),
    ensures
        0 <= first_pos(s, x) < s.len(),
        s[first_pos(s, x)] == x,
        forall|j: int| 0 <= j < first_pos(s, x) ==> s[j] != x,
{
    let k = choose|k: int| 0 <= k < s.len() && s[k] == x;
    lemma_has_first(s, x, k);
}

/// Where participant `sel` sits in the grid: band 0 (NPCs) or 1 (PCs),
/// row and column of its first occurrence; `None` when in neither band.
pub open spec fn grid_position(l: CombatLayout, sel: usize) -> Option<(u8, usize, usize)> {
    if l.npc_indices@.contains(sel) {
        let p = first_pos(l.npc_indices@, sel);
        Some((0u8, (p / l.npc_cols as int) as usize, (p % l.npc_cols as int) as usize))
    } else if l.pc_indices@.contains(sel) {
        let p = first_pos(l.pc_indices@, sel);
        Some((1u8, (p / l.pc_cols as int) as usize, (p % l.pc_cols as int) as usize))
    } else {
        None
    }
}

proof fn lemma_first_pos_unique(s: Seq<usize>, x: usize, p: int, q: int)
    requires
        0 <= p < s.len() && s[p] == x && forall|j: int| 0 <= j < p ==> s[j] != x,
        0 <= q < s.len() && s[q] == x && forall|j: int| 0 <= j < q ==> s[j] != x,
    ensures
        p == q,
{
}

/// Locate a flat participant index in the two-band grid as
/// `(band, row, col)`.
pub fn locate_in_layout(layout: &CombatLayout, sel: usize) -> (r: Option<(u8, usize, usize)>)
    requires
        layout.npc_cols >= 1,
        layout.pc_cols >= 1,
    ensures
        r == grid_position(*layout, sel),
{
    if let Some(pos) = find_pos(&layout.npc_indices, sel) {
        proof {
            lemma_first_pos(layout.npc_indices@, sel);
            lemma_first_pos_unique(layout.npc_indices@, sel, first_pos(layout.npc_indices@, sel), pos as int);
        }
        return Some((0, pos / layout.npc_cols, pos % layout.npc_cols));
    }
    if let Some(pos) = find_pos(&layout.pc_indices, sel) {
        proof {
            assert(layout.npc_indices@.contains(sel) ==> false) by {
                if layout.npc_indices@.contains(sel) {
                    let k = choose|k: int| 0 <= k < layout.npc_indices@.len() && layout.npc_indices@[k] == sel;
                }
            }
            lemma_first_pos(layout.pc_indices@, sel);
            lemma_first_pos_unique(layout.pc_indices@, sel, first_pos(layout.pc_indices@, sel), pos as int);
        }
        return Some((1, pos / layout.pc_cols, pos % layout.pc_cols));
    }
    None
}

/// The participant at grid position (`band`, `row`, `col`), the column
/// clamped to the width of that (possibly partial) row.
pub open spec fn grid_cell(indices: Seq<usize>, cols: int, row: int, col: int) -> Option<usize> {
    let start = row * cols;
    if start >= indices.len() {
        None
    } else {
        let end = if start + cols <= indices.len() { start + cols } else { indices.len() as int };
        let last = if end - start >= 1 { end - start - 1 } else { 0 };
        let c = if col <= last { col } else { last };
        Some(indices[start + c])
    }
}

/// Convert a grid position back to a flat participant index.
pub open spec fn flat_index(l: CombatLayout, band: u8, row: usize, col: usize) -> Option<usize> {
    if band == 0 {
        if row * l.npc_cols > usize::MAX {
            None
        } else {
            grid_cell(l.npc_indices@, l.npc_cols as int, row as int, col as int)
        }
    } else if band == 1 {
        if row * l.pc_cols > usize::MAX {
            None
        } else {
            grid_cell(l.pc_indices@, l.pc_cols as int, row as int, col as int)
        }
    } else {
        None
    }
}

/// Convert a grid position back to a flat participant index, clamping the
/// column to the actual width of the requested row.
pub fn flat_in_layout(layout: &CombatLayout, band: u8, row: usize, col: usize) -> (r: Option<usize>)
    ensures
        r == flat_index(*layout, band, row, col),
{
    let (indices, cols) = if band == 0 {
        (&layout.npc_indices, layout.npc_cols)
    } else if band == 1 {
        (&layout.pc_indices, layout.pc_cols)
    } else {
        return None;
    };
    let row_start = match row.checked_mul(cols) {
        Some(v) => v,
        None => {
            return None;
        },
    };
    if row_start >= indices.len() {
        return None;
    }
    let row_end = if cols <= indices.len() - row_start { row_start + cols } else { indices.len() };
    let row_len = row_end - row_start;
    let last = if row_len >= 1 { row_len - 1 } else { 0 };
    let clamped_col = if col <= last { col } else { last };
    Some(indices[row_start + clamped_col])
}

proof fn lemma_cell_of_position(ind: Seq<usize>, cols: int, p: int)
    requires
        cols >= 1,
        0 <= p < ind.len(),
    ensures
        (p / cols) * cols <= p,
        grid_cell(ind, cols, p / cols, p % cols) == Some(ind[p]),
{
    let row = p / cols;
    let col = p % cols;
    assert(row * cols + col == p && 0 <= col < cols && row * cols <= p) by (nonlinear_arith)
        requires
            p >= 0,
            cols >= 1,
            row == p / cols,
            col == p % cols,
    ;
    let start = row * cols;
    let end = if start + cols <= ind.len() { start + cols } else { ind.len() as int };
    assert(col <= end - start - 1);
}

proof fn lemma_band_round_trip(ind: Seq<usize>, cols: usize, sel: usize)
    requires
        cols >= 1,
        ind.contains(sel),
        ind.len() <= usize::MAX,
    ensures
        ({
            let p = first_pos(ind, sel);
            let row = (p / cols as int) as usize;
            let col = (p % cols as int) as usize;
            &&& row * cols <= usize::MAX
            &&& grid_cell(ind, cols as int, row as int, col as int) == Some(sel)
        }),
{
    lemma_first_pos(ind, sel);
    let p = first_pos(ind, sel);
    lemma_cell_of_position(ind, cols as int, p);
}

/// Locating a participant in the grid and reading the grid back at that
/// position gives the participant again.
pub proof fn lemma_locate_then_flat(l: CombatLayout, sel: usize)
    requires
        l.npc_cols >= 1,
        l.pc_cols >= 1,
        l.npc_indices@.len() <= usize::MAX,
        l.pc_indices@.len() <= usize::MAX,
        grid_position(l, sel) is Some,
    ensures
        ({
            let (band, row, col) = grid_position(l, sel)->0;
            flat_index(l, band, row, col) == Some(sel)
        }),
{
    if l.npc_indices@.contains(sel) {
        lemma_band_round_trip(l.npc_indices@, l.npc_cols, sel);
    } else {
        lemma_band_round_trip(l.pc_indices@, l.pc_cols, sel);
    }
}

} // verus!

verus! {

// --------------------------------------------------------- net status

/// What the net Status needs of a participant's character.
#[derive(Debug, Clone, Copy)]
pub struct StatusVitals {
    pub bp_current: i32,
    pub bp_max: i32,
    /// The Endurance skill total.
    pub endurance: i32,
}

/// The Status the character's condition gives (to off and def alike):
/// −4 at a quarter of max BP or less, else −2 at half or less; then −1
/// per endurance-drain tier. Nothing without a character.
pub open spec fn condition_mod(v: Option<StatusVitals>, round: u32) -> int {
    match v {
        None => 0,
        Some(v) => {
            let bp = if v.bp_current > 0 { v.bp_current as int } else { 0 };
            let bp_max = if v.bp_max > 1 { v.bp_max as int } else { 1 };
            let hurt = if bp * 4 <= bp_max { -4 } else if bp * 2 <= bp_max { -2 } else { 0 };
            hurt - drain_tier(round, if v.endurance > 0 { v.endurance } else { 0 })
        },
    }
}

/// The character's BP fit the arithmetic: four times them is an `i32`.
pub open spec fn vitals_fit(v: Option<StatusVitals>) -> bool {
    match v {
        None => true,
        Some(v) => v.bp_current <= i32::MAX / 4,
    }
}

/// An `i32` value.
pub open spec fn in_i32(x: int) -> bool {
    i32::MIN <= x <= i32::MAX
}

/// `o + x` for an Off `o`, except that the "cannot attack" mark
/// `i32::MIN` stays once set.
pub open spec fn off_add(o: int, x: int) -> int {
    if o == i32::MIN {
        i32::MIN as int
    } else {
        o + x
    }
}

/// Off after the manual statuses, from `start`: each adds its Off, and
/// one that forbids attacking sets it to `i32::MIN`, which then stays.
pub open spec fn manual_off(start: int, ms: Seq<ManualStatus>) -> int
    decreases ms.len(),
{
    if ms.len() == 0 {
        start
    } else {
        let o = manual_off(start, ms.drop_last());
        let so = manual_off_def(ms.last()).0;
        if so == i32::MIN { i32::MIN as int } else { off_add(o, so as int) }
    }
}

/// Every step of `manual_off` stays an `i32`.
pub open spec fn manual_off_fits(start: int, ms: Seq<ManualStatus>) -> bool
    decreases ms.len(),
{
    if ms.len() == 0 {
        in_i32(start)
    } else {
        manual_off_fits(start, ms.drop_last()) && in_i32(manual_off(start, ms))
    }
}

/// Def after the manual statuses, from `start`.
pub open spec fn manual_def(start: int, ms: Seq<ManualStatus>) -> int
    decreases ms.len(),
{
    if ms.len() == 0 {
        start
    } else {
        manual_def(start, ms.drop_last()) + manual_off_def(ms.last()).1
    }
}

/// Every step of `manual_def` stays an `i32`.
pub open spec fn manual_def_fits(start: int, ms: Seq<ManualStatus>) -> bool
    decreases ms.len(),
{
    if ms.len() == 0 {
        in_i32(start)
    } else {
        manual_def_fits(start, ms.drop_last()) && in_i32(manual_def(start, ms))
    }
}

/// `start` plus the timed statuses' Off (`def` false; the "cannot
/// attack" mark stays) or Def (`def` true).
pub open spec fn timed_sum(start: int, ts: Seq<TimedStatus>, def: bool) -> int
    decreases ts.len(),
{
    if ts.len() == 0 {
        start
    } else {
        let t = timed_sum(start, ts.drop_last(), def);
        if def {
            t + ts.last().def as int
        } else {
            off_add(t, ts.last().off as int)
        }
    }
}

/// Every step of `timed_sum` stays an `i32`.
pub open spec fn timed_fits(start: int, ts: Seq<TimedStatus>, def: bool) -> bool
    decreases ts.len(),
{
    if ts.len() == 0 {
        in_i32(start)
    } else {
        timed_fits(start, ts.drop_last(), def) && in_i32(timed_sum(start, ts, def))
    }
}

/// The Off the statuses leave before movement.
pub open spec fn off_before_moving(v: Option<StatusVitals>, cb: CombatState, p: Participant) -> int {
    let o = manual_off(condition_mod(v, cb.round) + encumbrance_mod(p.encumbrance_tier), p.manual_statuses@);
    off_add(timed_sum(o, p.timed_statuses@, false), lighting_off_def(cb.lighting).0 as int)
}

/// The net Status (off, def) of participant `p` this instant: condition,
/// encumbrance, manual and timed statuses, lighting and movement. An Off
/// of `i32::MIN` means the participant cannot attack: once a status sets
/// it, later sources leave it.
pub open spec fn net_status(v: Option<StatusVitals>, cb: CombatState, p: Participant) -> (int, int) {
    let mo = movement_off_def(p.movement).0;
    let off = if mo == i32::MIN {
        i32::MIN as int
    } else {
        off_add(off_before_moving(v, cb, p), mo as int)
    };
    let d = manual_def(condition_mod(v, cb.round) + encumbrance_mod(p.encumbrance_tier), p.manual_statuses@);
    let def = timed_sum(d, p.timed_statuses@, true) + lighting_off_def(cb.lighting).1 + movement_off_def(
        p.movement,
    ).1;
    (off, def)
}

/// Every step of the net-Status sums stays an `i32`.
pub open spec fn net_status_fits(v: Option<StatusVitals>, cb: CombatState, p: Participant) -> bool {
    let start = condition_mod(v, cb.round) + encumbrance_mod(p.encumbrance_tier);
    let o = manual_off(start, p.manual_statuses@);
    let d = manual_def(start, p.manual_statuses@);
    let ot = timed_sum(o, p.timed_statuses@, false);
    let dt = timed_sum(d, p.timed_statuses@, true);
    &&& vitals_fit(v)
    &&& (match v {
        Some(v) => drain_defined(cb.round, if v.endurance > 0 { v.endurance } else { 0 }),
        None => true,
    })
    &&& in_i32(condition_mod(v, cb.round))
    &&& manual_off_fits(start, p.manual_statuses@)
    &&& manual_def_fits(start, p.manual_statuses@)
    &&& timed_fits(o, p.timed_statuses@, false)
    &&& timed_fits(d, p.timed_statuses@, true)
    &&& in_i32(off_add(ot, lighting_off_def(cb.lighting).0 as int))
    &&& in_i32(dt + lighting_off_def(cb.lighting).1)
    &&& (movement_off_def(p.movement).0 != i32::MIN ==> in_i32(
        off_add(off_add(ot, lighting_off_def(cb.lighting).0 as int), movement_off_def(p.movement).0 as int),
    ))
    &&& in_i32(dt + lighting_off_def(cb.lighting).1 + movement_off_def(p.movement).1)
}

/// The condition part of the net Status.
fn condition_status(v: Option<StatusVitals>, round: u32) -> (r: i32)
    requires
        vitals_fit(v),
        match v {
            Some(v) => drain_defined(round, if v.endurance > 0 { v.endurance } else { 0 }),
            None => true,
        },
        in_i32(condition_mod(v, round)),
    ensures
        r == condition_mod(v, round),
{
    match v {
        None => 0,
        Some(v) => {
            let bp = if v.bp_current > 0 { v.bp_current } else { 0 };
            let bp_max = if v.bp_max > 1 { v.bp_max } else { 1 };
            let hurt: i32 = if bp * 4 <= bp_max {
                -4
            } else if bp * 2 <= bp_max {
                -2
            } else {
                0
            };
            let endurance = if v.endurance > 0 { v.endurance } else { 0 };
            let drain = endurance_drain_tier(round, endurance);
            hurt - drain
        },
    }
}

/// Net Status modifier in effect for participant `p` this instant, summed
/// over every contributing source per the wiki rules: BP-threshold
/// auto-statuses (Quarter Action before Half Action), Endurance drain by
/// round count, encumbrance tier, manual statuses, timed statuses, the
/// global lighting and this turn's movement. `v` holds what it needs of
/// the participant's character (`None` when it has none). An Off of
/// `i32::MIN` is the "cannot attack" mark, for the caller to handle: once
/// a status sets it, later sources leave it as it is.
pub fn participant_status_off_def(v: Option<StatusVitals>, cb: &CombatState, p: &Participant) -> (r: (
    i32,
    i32,
))
    requires
        net_status_fits(v, *cb, *p),
    ensures
        (r.0 as int, r.1 as int) == net_status(v, *cb, *p),
{
    let c = condition_status(v, cb.round);
    let enc = encumbrance_modifier(p.encumbrance_tier);
    let ghost start = condition_mod(v, cb.round) + encumbrance_mod(p.encumbrance_tier);
    proof {
        lemma_manual_prefix_fits(start, p.manual_statuses@, 0);
        assert(p.manual_statuses@.take(0) =~= Seq::<ManualStatus>::empty());
    }
    let mut off: i32 = c + enc;
    let mut def: i32 = c + enc;
    let ms = &p.manual_statuses;
    let mut i: usize = 0;
    assert(ms@.take(0) =~= Seq::<ManualStatus>::empty());
    while i < ms.len()
        invariant
            i <= ms@.len(),
            manual_off_fits(start, ms@),
            manual_def_fits(start, ms@),
            off == manual_off(start, ms@.take(i as int)),
            def == manual_def(start, ms@.take(i as int)),
        decreases ms@.len() - i,
    {
        proof {
            lemma_manual_prefix_fits(start, ms@, i as int + 1);
        }
        assert(ms@.take(i + 1).drop_last() =~= ms@.take(i as int));
        let (so, sd) = ms[i].off_def();
        if so == i32::MIN || off == i32::MIN {
            off = i32::MIN;
        } else {
            off = off + so;
        }
        def = def + sd;
        i = i + 1;
    }
    assert(ms@.take(ms@.len() as int) =~= ms@);
    let ghost o = off as int;
    let ghost d = def as int;
    let ts = &p.timed_statuses;
    let mut j: usize = 0;
    assert(ts@.take(0) =~= Seq::<TimedStatus>::empty());
    while j < ts.len()
        invariant
            j <= ts@.len(),
            timed_fits(o, ts@, false),
            timed_fits(d, ts@, true),
            off == timed_sum(o, ts@.take(j as int), false),
            def == timed_sum(d, ts@.take(j as int), true),
        decreases ts@.len() - j,
    {
        proof {
            lemma_timed_prefix_fits(o, ts@, j as int + 1, false);
            lemma_timed_prefix_fits(d, ts@, j as int + 1, true);
        }
        assert(ts@.take(j + 1).drop_last() =~= ts@.take(j as int));
        if off != i32::MIN {
            off = off + ts[j].off;
        }
        def = def + ts[j].def;
        j = j + 1;
    }
    assert(ts@.take(ts@.len() as int) =~= ts@);
    let (lo, ld) = cb.lighting.off_def();
    if off != i32::MIN {
        off = off + lo;
    }
    def = def + ld;
    let (mo, md) = p.movement.off_def();
    if mo == i32::MIN || off == i32::MIN {
        off = i32::MIN;
    } else {
        off = off + mo;
    }
    def = def + md;
    (off, def)
}

/// The wound penalty by BP: at most a quarter of max BP (at least 1)
/// costs 4, above a quarter but at most half costs 2, and more than half
/// costs nothing; BP below zero count as zero. The endurance drain
/// comes on top, and a participant without a character takes neither.
pub proof fn lemma_wound_penalty(v: StatusVitals, round: u32)
    ensures
        ({
            let bp: int = if v.bp_current > 0 { v.bp_current as int } else { 0 };
            let bm: int = if v.bp_max > 1 { v.bp_max as int } else { 1 };
            let drain = drain_tier(round, if v.endurance > 0 { v.endurance } else { 0 });
            let c = condition_mod(Some(v), round);
            &&& 4 * bp <= bm ==> c == -4 - drain
            &&& bm < 4 * bp && 2 * bp <= bm ==> c == -2 - drain
            &&& bm < 2 * bp ==> c == -drain
        }),
        condition_mod(None, round) == 0,
{
}

/// More BP never make the wound penalty worse: of two characters alike
/// but for their current BP, the one with more has a condition modifier
/// at least as high.
pub proof fn lemma_wound_penalty_monotone(a: StatusVitals, b: StatusVitals, round: u32)
    requires
        a.bp_max == b.bp_max,
        a.endurance == b.endurance,
        a.bp_current <= b.bp_current,
    ensures
        condition_mod(Some(a), round) <= condition_mod(Some(b), round),
{
}

/// The status tables as the wiki gives them: lighting (Off, Def), the
/// movement choices, the manual statuses (Unaware and Immobilized forbid
/// attacking) and the encumbrance tiers.
pub proof fn lemma_status_tables(tier: u8)
    ensures
        lighting_off_def(Lighting::Bright) == (0i32, 0i32),
        lighting_off_def(Lighting::Twilight) == (-1i32, -2i32),
        lighting_off_def(Lighting::Moonlight) == (-2i32, -4i32),
        lighting_off_def(Lighting::Starlight) == (-3i32, -6i32),
        movement_off_def(Movement::Standing) == (0i32, 0i32),
        movement_off_def(Movement::Run) == (-10i32, -5i32),
        movement_off_def(Movement::Move) == (-5i32, -2i32),
        movement_off_def(Movement::MoveAndFight) == (-3i32, -1i32),
        movement_off_def(Movement::MoveInMelee) == (-1i32, -1i32),
        movement_off_def(Movement::Disengage) == (i32::MIN, -5i32),
        manual_off_def(ManualStatus::PartiallyUnaware) == (0i32, -5i32),
        manual_off_def(ManualStatus::Stunned) == (-3i32, -3i32),
        manual_off_def(ManualStatus::Unaware) == (i32::MIN, -10i32),
        manual_off_def(ManualStatus::Immobilized) == (i32::MIN, -5i32),
        encumbrance_mod(0) == 0i32,
        encumbrance_mod(1) == -1i32,
        encumbrance_mod(2) == -3i32,
        tier >= 3 ==> encumbrance_mod(tier) == -5i32,
{
}

/// A band's cards fit its body: as many columns as fit side by side (a
/// card and its gutter take 27 cells), never more than the band has
/// cards, and at least one.
pub proof fn lemma_band_cols_fit(n: int, body_w: int)
    requires
        n >= 0,
        body_w >= 0,
    ensures
        band_cols(n, body_w) >= 1,
        band_cols(n, body_w) * 27 <= body_w || band_cols(n, body_w) == 1,
        n >= 1 ==> band_cols(n, body_w) <= n,
        band_cols(n, body_w) == n || (band_cols(n, body_w) + 1) * 27 > body_w || band_cols(n, body_w) == 1
            && n == 0,
{
    let q = body_w / 27;
    assert(q * 27 <= body_w && (q + 1) * 27 > body_w) by (nonlinear_arith)
        requires
            q == body_w / 27,
            body_w >= 0,
    ;
}

/// The rows of a band hold its cards exactly: enough rows for every
/// card, and no row left empty.
pub proof fn lemma_rows_hold_cards(n: int, cols: int)
    requires
        n >= 0,
        cols >= 1,
    ensures
        rows_for(n, cols) * cols >= n,
        n > 0 ==> (rows_for(n, cols) - 1) * cols < n,
        rows_for(n, cols) >= 0,
{
    if n > 0 {
        let r = rows_for(n, cols);
        assert(r == (n + cols - 1) / cols);
        assert(r * cols >= n && (r - 1) * cols < n) by (nonlinear_arith)
            requires
                r == (n + cols - 1) / cols,
                n > 0,
                cols >= 1,
        ;
    }
}

/// The order the lighting and movement choices step through: bright,
/// twilight, moonlight, starlight; and standing, run, move, move and
/// fight, move in melee, disengage — each list wrapping round.
pub proof fn lemma_cycle_orders()
    ensures
        lighting_after(Lighting::Bright) == Lighting::Twilight,
        lighting_after(Lighting::Twilight) == Lighting::Moonlight,
        lighting_after(Lighting::Moonlight) == Lighting::Starlight,
        lighting_after(Lighting::Starlight) == Lighting::Bright,
        movement_after(Movement::Standing) == Movement::Run,
        movement_after(Movement::Run) == Movement::Move,
        movement_after(Movement::Move) == Movement::MoveAndFight,
        movement_after(Movement::MoveAndFight) == Movement::MoveInMelee,
        movement_after(Movement::MoveInMelee) == Movement::Disengage,
        movement_after(Movement::Disengage) == Movement::Standing,
{
}

proof fn lemma_manual_off_marked(start: int, ms: Seq<ManualStatus>)
    requires
        ms.contains(ManualStatus::Unaware) || ms.contains(ManualStatus::Immobilized),
    ensures
        manual_off(start, ms) == i32::MIN,
    decreases ms.len(),
{
    let l = ms.last();
    if l != ManualStatus::Unaware && l != ManualStatus::Immobilized {
        let p = ms.drop_last();
        let k = choose|k: int| 0 <= k < ms.len() && (ms[k] == ManualStatus::Unaware || ms[k]
            == ManualStatus::Immobilized);
        assert(k < ms.len() - 1);
        assert(p[k] == ms[k]);
        lemma_manual_off_marked(start, p);
    }
}

proof fn lemma_timed_off_marked(ts: Seq<TimedStatus>)
    ensures
        timed_sum(i32::MIN as int, ts, false) == i32::MIN,
    decreases ts.len(),
{
    if ts.len() > 0 {
        lemma_timed_off_marked(ts.drop_last());
    }
}

/// A participant who is Unaware or Immobilized, or who disengages, cannot
/// attack: whatever else applies, the net Off is the `i32::MIN` mark.
pub proof fn lemma_cannot_attack_sticks(v: Option<StatusVitals>, cb: CombatState, p: Participant)
    requires
        p.manual_statuses@.contains(ManualStatus::Unaware) || p.manual_statuses@.contains(
            ManualStatus::Immobilized,
        ) || p.movement == Movement::Disengage,
    ensures
        net_status(v, cb, p).0 == i32::MIN,
{
    if p.movement != Movement::Disengage {
        let start = condition_mod(v, cb.round) + encumbrance_mod(p.encumbrance_tier);
        lemma_manual_off_marked(start, p.manual_statuses@);
        lemma_timed_off_marked(p.timed_statuses@);
    }
}

proof fn lemma_manual_prefix_fits(start: int, ms: Seq<ManualStatus>, k: int)
    requires
        0 <= k <= ms.len(),
        manual_off_fits(start, ms),
        manual_def_fits(start, ms),
    ensures
        manual_off_fits(start, ms.take(k)),
        manual_def_fits(start, ms.take(k)),
        in_i32(manual_off(start, ms.take(k))),
        in_i32(manual_def(start, ms.take(k))),
    decreases ms.len() - k,
{
    if k < ms.len() {
        lemma_manual_prefix_fits(start, ms.drop_last(), k);
        assert(ms.drop_last().take(k) =~= ms.take(k));
    } else {
        assert(ms.take(k) =~= ms);
    }
    lemma_manual_fits_last(start, ms.take(k));
}

proof fn lemma_manual_fits_last(start: int, ms: Seq<ManualStatus>)
    requires
        manual_off_fits(start, ms),
        manual_def_fits(start, ms),
    ensures
        in_i32(manual_off(start, ms)),
        in_i32(manual_def(start, ms)),
{
}

proof fn lemma_timed_prefix_fits(start: int, ts: Seq<TimedStatus>, k: int, def: bool)
    requires
        0 <= k <= ts.len(),
        timed_fits(start, ts, def),
    ensures
        timed_fits(start, ts.take(k), def),
        in_i32(timed_sum(start, ts.take(k), def)),
    decreases ts.len() - k,
{
    if k < ts.len() {
        lemma_timed_prefix_fits(start, ts.drop_last(), k, def);
        assert(ts.drop_last().take(k) =~= ts.take(k));
    } else {
        assert(ts.take(k) =~= ts);
    }
}

} // verus!
