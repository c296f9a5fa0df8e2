//! Replaying the damage instances of a weapon, firing after firing, against
//! a defender's life, shields, armor and regeneration.
use vstd::prelude::*;

use crate::effects::{instances_in_range, pairs, DamageInstance};
use crate::game_data::{duration_in_range, max, Unit};
use crate::rest::KillCalculation;
use crate::{AMOUNT_LIMIT, DURATION_LIMIT, SCALE};

verus! {

/// Every hit deals at least this much (`0.5`), whatever the armor.
pub const MIN_DMG: i64 = 5_000;

/// Armor of shields; upgrades are not modeled, so it is always zero.
pub const SHIELD_ARMOR: i64 = 0;

/// The simulation gives up after this many attacks.
pub const ATTACK_LIMIT: usize = 999;

/// The defender after some attacks. Life is counted in units of
/// `1 / (SCALE * SCALE)`, so that regeneration over any fixed-point time
/// span is exact; `time` is the time of the last attack (zero before any).
pub struct SimState {
    pub attacks: int,
    pub life: int,
    pub shields: int,
    pub time: int,
}

pub open spec fn min(a: int, b: int) -> int {
    if a < b { a } else { b }
}

/// Absolute time of attack `i`: firings are `period` apart, and within a
/// firing the instances keep their offsets.
pub open spec fn hit_time(inst: Seq<(int, int)>, period: int, i: int) -> int {
    (i / (inst.len() as int)) * period + inst[i % (inst.len() as int)].0
}

pub open spec fn initial_state(defender: Unit) -> SimState {
    SimState {
        attacks: 0,
        life: defender.life_max * SCALE,
        shields: defender.shields_max as int,
        time: 0,
    }
}

/// Life after regenerating from the last attack until `t`, capped at the
/// maximum.
pub open spec fn regenerated(defender: Unit, s: SimState, t: int) -> int {
    min(defender.life_max * SCALE, s.life + (t - s.time) * defender.life_regen_rate)
}

/// One attack: regeneration, then the hit. Shields take the hit first;
/// what they cannot hold spills over to life after armor. Without shields,
/// life takes the hit after armor, but never less than the minimum damage.
pub open spec fn step(inst: Seq<(int, int)>, period: int, defender: Unit, s: SimState) -> SimState {
    let t = hit_time(inst, period, s.attacks);
    let dmg = inst[s.attacks % (inst.len() as int)].1;
    let life = regenerated(defender, s, t);
    if s.shields == 0 {
        SimState {
            attacks: s.attacks + 1,
            life: life - max(dmg - defender.life_armor, MIN_DMG as int) * SCALE,
            shields: 0,
            time: t,
        }
    } else {
        let spill = max(dmg - SHIELD_ARMOR, MIN_DMG as int) - s.shields;
        if spill < 0 {
            SimState { attacks: s.attacks + 1, life, shields: -spill, time: t }
        } else {
            SimState {
                attacks: s.attacks + 1,
                life: life - max(spill - defender.life_armor, 0) * SCALE,
                shields: 0,
                time: t,
            }
        }
    }
}

/// The defender after `n` attacks, dead or not.
pub open spec fn state_after(inst: Seq<(int, int)>, period: int, defender: Unit, n: nat) -> SimState
    decreases n,
{
    if n == 0 {
        initial_state(defender)
    } else {
        step(inst, period, defender, state_after(inst, period, defender, (n - 1) as nat))
    }
}

/// Life below one point.
pub open spec fn is_dead(s: SimState) -> bool {
    s.life < SCALE * SCALE
}

/// The first attack count from `n` on at which the defender is dead or the
/// attack limit is reached.
pub open spec fn stop_index(inst: Seq<(int, int)>, period: int, defender: Unit, n: nat) -> nat
    decreases ATTACK_LIMIT - n,
{
    if n >= ATTACK_LIMIT || is_dead(state_after(inst, period, defender, n)) {
        n
    } else {
        stop_index(inst, period, defender, n + 1)
    }
}

/// `a / b` rounded up.
pub open spec fn ceil_div(a: int, b: int) -> int {
    a / b + if a % b == 0 { 0int } else { 1int }
}

/// Fixed-point seconds rounded to hundredths, halves away from zero.
pub open spec fn round_to_hundredths(t: int) -> int {
    if t >= 0 {
        (t + 50) / 100 * 100
    } else {
        -((-t + 50) / 100 * 100)
    }
}

pub open spec fn cannot_hit() -> KillCalculation {
    KillCalculation { can_hit: false, hits: 0, time: 0, completed: false }
}

/// The outcome of attacking `defender` with the instances `inst` of one
/// firing, repeated every `period`. At least one attack is made; the
/// simulation stops at the first death or at the attack limit.
pub open spec fn kill_outcome(inst: Seq<(int, int)>, period: int, defender: Unit) -> KillCalculation {
    if inst.len() == 0 {
        cannot_hit()
    } else {
        let n = stop_index(inst, period, defender, 1);
        let s = state_after(inst, period, defender, n);
        KillCalculation {
            can_hit: true,
            hits: ceil_div(n as int, inst.len() as int) as i32,
            time: round_to_hundredths(s.time) as i64,
            completed: is_dead(s),
        }
    }
}

/// Bounds that hold of the state before every attack.
pub open spec fn state_in_range(defender: Unit, s: SimState) -> bool {
    &&& s.life <= defender.life_max * SCALE
    &&& s.life >= -AMOUNT_LIMIT * SCALE
    &&& -AMOUNT_LIMIT <= s.shields <= AMOUNT_LIMIT
    &&& -999 * DURATION_LIMIT <= s.time <= 999 * DURATION_LIMIT
}

/// `x` in units of `1 / (SCALE * SCALE)`.
fn to_fine(x: i64) -> (r: i128)
    requires
        -8 * AMOUNT_LIMIT <= x <= 8 * AMOUNT_LIMIT,
    ensures
        r == x * SCALE,
{
    assert(-8 * AMOUNT_LIMIT * SCALE <= x * SCALE <= 8 * AMOUNT_LIMIT * SCALE) by (nonlinear_arith)
        requires
            -8 * AMOUNT_LIMIT <= x <= 8 * AMOUNT_LIMIT,
            SCALE > 0,
    ;
    x as i128 * SCALE as i128
}

fn round_time(t: i64) -> (r: i64)
    requires
        -999 * DURATION_LIMIT <= t <= 999 * DURATION_LIMIT,
    ensures
        r == round_to_hundredths(t as int),
{
    if t >= 0 {
        (t + 50) / 100 * 100
    } else {
        -((-t + 50) / 100 * 100)
    }
}

/// Simulates attacks with the instances of one firing, repeated every
/// `period`, against `defender`, until it dies or the attack limit is
/// reached.
pub fn simulate_kill(instances: &Vec<DamageInstance>, period: i64, defender: &Unit) -> (r:
    KillCalculation)
    requires
        instances_in_range(pairs(instances@)),
        duration_in_range(period as int),
        defender.stats_in_range(),
    ensures
        r == kill_outcome(pairs(instances@), period as int, *defender),
{
    let n = instances.len();
    if n == 0 {
        return KillCalculation { can_hit: false, hits: 0, time: 0, completed: false };
    }
    let ghost inst = pairs(instances@);
    let ghost p = period as int;
    let ghost d = *defender;
    let cap: i128 = defender.life_max as i128 * SCALE as i128;
    let armor = defender.life_armor;
    let rate = defender.life_regen_rate as i128;
    let mut i: usize = 0;
    let mut life: i128 = cap;
    let mut shields: i64 = defender.shields_max;
    let mut time: i64 = 0;
    loop
        invariant_except_break
            i < ATTACK_LIMIT,
            i == 0 || !is_dead(state_after(inst, p, d, i as nat)),
            state_in_range(d, state_after(inst, p, d, i as nat)),
        invariant
            n == instances.len(),
            n > 0,
            inst == pairs(instances@),
            instances_in_range(inst),
            duration_in_range(p),
            p == period,
            d == *defender,
            defender.stats_in_range(),
            cap == defender.life_max * SCALE,
            armor == defender.life_armor,
            rate == defender.life_regen_rate,
            state_after(inst, p, d, i as nat) == (SimState {
                attacks: i as int,
                life: life as int,
                shields: shields as int,
                time: time as int,
            }),
            i >= 1 ==> stop_index(inst, p, d, 1) == stop_index(inst, p, d, i as nat),
            -999 * DURATION_LIMIT <= time <= 999 * DURATION_LIMIT,
        ensures
            1 <= i <= ATTACK_LIMIT,
            i == stop_index(inst, p, d, 1),
        decreases ATTACK_LIMIT - i,
    {
        let ghost s = state_after(inst, p, d, i as nat);
        let instance = instances[i % n];
        assert(inst[(i % n) as int] == instance.pair());
        proof {
            lemma_instance_in_range_at(inst, (i % n) as int);
        }
        let cycle = (i / n) as i64;
        assert(0 <= cycle <= 998) by {
            assert(i / n <= i) by (nonlinear_arith)
                requires
                    n > 0,
            ;
        }
        assert(-998 * DURATION_LIMIT <= cycle * period <= 998 * DURATION_LIMIT) by (nonlinear_arith)
            requires
                0 <= cycle <= 998,
                -DURATION_LIMIT <= period <= DURATION_LIMIT,
        ;
        let t: i64 = cycle * period + instance.time;
        assert(t == hit_time(inst, p, i as int));
        let elapsed: i128 = t as i128 - time as i128;
        assert(-2000 * DURATION_LIMIT <= elapsed <= 2000 * DURATION_LIMIT);
        assert(-2000 * DURATION_LIMIT * AMOUNT_LIMIT <= elapsed * rate <= 2000 * DURATION_LIMIT
            * AMOUNT_LIMIT) by (nonlinear_arith)
            requires
                -2000 * DURATION_LIMIT <= elapsed <= 2000 * DURATION_LIMIT,
                -AMOUNT_LIMIT <= rate <= AMOUNT_LIMIT,
                DURATION_LIMIT > 0,
                AMOUNT_LIMIT > 0,
        ;
        let grown: i128 = life + elapsed * rate;
        let regen: i128 = if grown < cap { grown } else { cap };
        assert(regen == regenerated(d, s, t as int));
        let dmg = instance.dmg_amount;
        if shields == 0 {
            let dealt: i64 = if dmg - armor > MIN_DMG { dmg - armor } else { MIN_DMG };
            life = regen - to_fine(dealt);
        } else {
            let on_shields: i64 = if dmg - SHIELD_ARMOR > MIN_DMG { dmg - SHIELD_ARMOR } else { MIN_DMG };
            let spill: i64 = on_shields - shields;
            if spill < 0 {
                life = regen;
                shields = -spill;
            } else {
                let dealt: i64 = if spill - armor > 0 { spill - armor } else { 0 };
                life = regen - to_fine(dealt);
                shields = 0;
            }
        }
        time = t;
        i += 1;
        assert(state_after(inst, p, d, i as nat) == step(inst, p, d, s));
        proof {
            if i > 1 {
                assert(stop_index(inst, p, d, (i - 1) as nat) == stop_index(inst, p, d, i as nat));
            }
        }
        if i >= ATTACK_LIMIT || life < SCALE as i128 * SCALE as i128 {
            break;
        }
    }
    let hits: usize = i / n + if i % n == 0 { 0 } else { 1 };
    assert(hits <= i) by (nonlinear_arith)
        requires
            hits == i / n + if i % n == 0 { 0usize } else { 1usize },
            n > 0,
            i >= 1,
    ;
    KillCalculation {
        can_hit: true,
        hits: hits as i32,
        time: round_time(time),
        completed: life < SCALE as i128 * SCALE as i128,
    }
}

proof fn lemma_instance_in_range_at(inst: Seq<(int, int)>, k: int)
    requires
        instances_in_range(inst),
        0 <= k < inst.len(),
    ensures
        -DURATION_LIMIT <= inst[k].0 <= DURATION_LIMIT,
        -6 * AMOUNT_LIMIT <= inst[k].1 <= 6 * AMOUNT_LIMIT,
{
    assert(crate::effects::instance_in_range(inst[k]));
}

/// A defender without shields never gets any: every attack takes the
/// life-only branch, regeneration then the hit after armor, floored at the
/// minimum damage.
pub proof fn lemma_no_shields_life_only(inst: Seq<(int, int)>, period: int, defender: Unit, n: nat)
    requires
        defender.shields_max == 0,
        inst.len() > 0,
    ensures
        state_after(inst, period, defender, n).shields == 0,
        ({
            let s = state_after(inst, period, defender, n);
            let t = hit_time(inst, period, n as int);
            let dmg = inst[(n as int) % (inst.len() as int)].1;
            state_after(inst, period, defender, n + 1) == SimState {
                attacks: s.attacks + 1,
                life: regenerated(defender, s, t) - max(dmg - defender.life_armor, MIN_DMG as int)
                    * SCALE,
                shields: 0,
                time: t,
            }
        }),
    decreases n,
{
    if n > 0 {
        lemma_no_shields_life_only(inst, period, defender, (n - 1) as nat);
    }
    lemma_attacks_counted(inst, period, defender, n);
}

proof fn lemma_attacks_counted(inst: Seq<(int, int)>, period: int, defender: Unit, n: nat)
    ensures
        state_after(inst, period, defender, n).attacks == n,
    decreases n,
{
    if n > 0 {
        lemma_attacks_counted(inst, period, defender, (n - 1) as nat);
    }
}

proof fn lemma_full_regen_state(
    off: int,
    dmg: int,
    period: int,
    defender: Unit,
    n: nat,
)
    requires
        n >= 1,
        defender.shields_max == 0,
        defender.life_regen_rate >= 0,
        off >= 0,
        period * defender.life_regen_rate >= max(dmg - defender.life_armor, MIN_DMG as int) * SCALE,
    ensures
        state_after(seq![(off, dmg)], period, defender, n) == (SimState {
            attacks: n as int,
            life: (defender.life_max - max(dmg - defender.life_armor, MIN_DMG as int)) * SCALE,
            shields: 0,
            time: (n - 1) * period + off,
        }),
    decreases n,
{
    let inst = seq![(off, dmg)];
    let m = max(dmg - defender.life_armor, MIN_DMG as int);
    let rate = defender.life_regen_rate as int;
    if n == 1 {
        assert(state_after(inst, period, defender, 0) == initial_state(defender));
        assert(hit_time(inst, period, 0) == off);
        assert(off * rate >= 0) by (nonlinear_arith)
            requires
                off >= 0,
                rate >= 0,
        ;
    } else {
        lemma_full_regen_state(off, dmg, period, defender, (n - 1) as nat);
        let k = (n - 1) as int;
        assert(k / 1 == k && k % 1 == 0);
        assert(hit_time(inst, period, k) == k * period + off);
        assert(k * period + off - ((k - 1) * period + off) == period) by (nonlinear_arith);
    }
}

proof fn lemma_full_regen_never_stops(
    off: int,
    dmg: int,
    period: int,
    defender: Unit,
    n: nat,
)
    requires
        1 <= n <= ATTACK_LIMIT,
        defender.shields_max == 0,
        defender.life_regen_rate >= 0,
        off >= 0,
        period * defender.life_regen_rate >= max(dmg - defender.life_armor, MIN_DMG as int) * SCALE,
        defender.life_max - max(dmg - defender.life_armor, MIN_DMG as int) >= SCALE,
    ensures
        stop_index(seq![(off, dmg)], period, defender, n) == ATTACK_LIMIT,
    decreases ATTACK_LIMIT - n,
{
    lemma_full_regen_state(off, dmg, period, defender, n);
    let m = max(dmg - defender.life_armor, MIN_DMG as int);
    assert((defender.life_max - m) * SCALE >= SCALE * SCALE) by (nonlinear_arith)
        requires
            defender.life_max - m >= SCALE,
            SCALE > 0,
    ;
    if n < ATTACK_LIMIT {
        lemma_full_regen_never_stops(off, dmg, period, defender, n + 1);
    }
}

/// A defender without shields whose regeneration over one weapon period
/// makes up for a whole hit, and who survives a hit taken at full life, is
/// never killed by a weapon with one instance per firing: the simulation
/// stops at the attack limit and reports an incomplete kill.
pub proof fn lemma_regeneration_outlasts_attacks(
    off: int,
    dmg: int,
    period: int,
    defender: Unit,
)
    requires
        defender.shields_max == 0,
        defender.life_regen_rate >= 0,
        off >= 0,
        period * defender.life_regen_rate >= max(dmg - defender.life_armor, MIN_DMG as int) * SCALE,
        defender.life_max - max(dmg - defender.life_armor, MIN_DMG as int) >= SCALE,
    ensures
        kill_outcome(seq![(off, dmg)], period, defender) == (KillCalculation {
            can_hit: true,
            hits: ATTACK_LIMIT as i32,
            time: round_to_hundredths((ATTACK_LIMIT - 1) * period + off) as i64,
            completed: false,
        }),
{
    lemma_full_regen_never_stops(off, dmg, period, defender, 1);
    lemma_full_regen_state(off, dmg, period, defender, ATTACK_LIMIT as nat);
    assert(ceil_div(ATTACK_LIMIT as int, 1) == ATTACK_LIMIT) by {
        assert((ATTACK_LIMIT as int) / 1 == ATTACK_LIMIT && (ATTACK_LIMIT as int) % 1 == 0);
    }
    let m = max(dmg - defender.life_armor, MIN_DMG as int);
    assert((defender.life_max - m) * SCALE >= SCALE * SCALE) by (nonlinear_arith)
        requires
            defender.life_max - m >= SCALE,
            SCALE > 0,
    ;
}

/// The two defenders have the same life, armor, regeneration and shields,
/// which is all that the simulation reads of a defender.
pub open spec fn same_defenses(a: Unit, b: Unit) -> bool {
    &&& a.life_max == b.life_max
    &&& a.life_armor == b.life_armor
    &&& a.life_regen_rate == b.life_regen_rate
    &&& a.shields_max == b.shields_max
}

proof fn lemma_state_after_defenses(inst: Seq<(int, int)>, period: int, a: Unit, b: Unit, n: nat)
    requires
        same_defenses(a, b),
    ensures
        state_after(inst, period, a, n) == state_after(inst, period, b, n),
    decreases n,
{
    if n > 0 {
        lemma_state_after_defenses(inst, period, a, b, (n - 1) as nat);
    }
}

proof fn lemma_stop_index_defenses(inst: Seq<(int, int)>, period: int, a: Unit, b: Unit, n: nat)
    requires
        same_defenses(a, b),
    ensures
        stop_index(inst, period, a, n) == stop_index(inst, period, b, n),
    decreases ATTACK_LIMIT - n,
{
    lemma_state_after_defenses(inst, period, a, b, n);
    if n < ATTACK_LIMIT {
        lemma_stop_index_defenses(inst, period, a, b, n + 1);
    }
}

/// Defenders with the same defenses fare the same against the same
/// instances.
pub proof fn lemma_outcome_depends_on_defenses(inst: Seq<(int, int)>, period: int, a: Unit, b: Unit)
    requires
        same_defenses(a, b),
    ensures
        kill_outcome(inst, period, a) == kill_outcome(inst, period, b),
{
    lemma_stop_index_defenses(inst, period, a, b, 1);
    lemma_state_after_defenses(inst, period, a, b, stop_index(inst, period, a, 1));
}

} // verus!
