//! Expanding a weapon's effect tree into the timed damage instances of one
//! firing.
use vstd::prelude::*;

use crate::game_data::{
    abs, lemma_children_span_nonneg, lemma_delay_total_grows, AttributeBonuses, Unit, WeaponEffect,
};
use crate::{AMOUNT_LIMIT, DURATION_LIMIT};

verus! {

/// Damage at or below this is negligible and produces no instance (`0.01`).
pub const NEGLIGIBLE_DAMAGE: i64 = 100;

/// One hit of one firing: its time from the start of the firing, and its
/// damage before the target's defenses.
#[derive(Debug, Clone, Copy, PartialEq, Eq, Structural)]
pub struct DamageInstance {
    pub time: i64,
    pub dmg_amount: i64,
}

impl DamageInstance {
    pub open spec fn pair(self) -> (int, int) {
        (self.time as int, self.dmg_amount as int)
    }
}

/// The `(time, damage)` pairs of a sequence of instances.
pub open spec fn pairs(s: Seq<DamageInstance>) -> Seq<(int, int)> {
    s.map_values(|d: DamageInstance| d.pair())
}

/// What a single repeat of `e` at time `t` emits for itself: one instance,
/// unless its damage against the target is negligible.
pub open spec fn own_hit(e: WeaponEffect, target: Unit, t: int) -> Seq<(int, int)> {
    if e.damage_against(target) > NEGLIGIBLE_DAMAGE {
        seq![(t, e.damage_against(target))]
    } else {
        Seq::empty()
    }
}

/// The instances that repeats `k, k + 1, ...` of `e` emit, repeat `k`
/// starting at time `t`, in the order of the walk: each repeat emits its own
/// hit, then the hits of its children at the same time, then the clock
/// advances by the delay that follows the repeat.
pub open spec fn emit_from(e: WeaponEffect, target: Unit, t: int, k: int) -> Seq<(int, int)>
    decreases e, 1int, e.count() - k,
{
    if k < 0 || k >= e.count() {
        Seq::empty()
    } else {
        own_hit(e, target, t) + emit_children(e, target, t, 0) + emit_from(
            e,
            target,
            t + e.period_at(k),
            k + 1,
        )
    }
}

/// The instances that the children of `e` from index `j` on emit, all
/// starting at time `t`, one child after another.
pub open spec fn emit_children(e: WeaponEffect, target: Unit, t: int, j: int) -> Seq<
    (int, int),
>
    decreases e, 0int, e.children().len() - j,
{
    match e.set_effects {
        Some(c) => if 0 <= j < c@.len() {
            emit_from(c@[j], target, t, 0) + emit_children(e, target, t, j + 1)
        } else {
            Seq::empty()
        },
        None => Seq::empty(),
    }
}

/// Inserts `x` after the last element of `r` whose time is not later
/// than that of `x`.
pub open spec fn insert_by_time(r: Seq<(int, int)>, x: (int, int)) -> Seq<(int, int)>
    decreases r.len(),
{
    if r.len() == 0 {
        seq![x]
    } else if r.last().0 <= x.0 {
        r.push(x)
    } else {
        insert_by_time(r.drop_last(), x).push(r.last())
    }
}

/// Stable sort by time: instances with equal times keep their order.
pub open spec fn sort_by_time(s: Seq<(int, int)>) -> Seq<(int, int)>
    decreases s.len(),
{
    if s.len() == 0 {
        s
    } else {
        insert_by_time(sort_by_time(s.drop_last()), s.last())
    }
}

/// The instances of one firing of `e` against `target`, sorted by time.
pub open spec fn expansion(e: WeaponEffect, target: Unit) -> Seq<(int, int)> {
    sort_by_time(emit_from(e, target, 0, 0))
}

pub open spec fn sorted_by_time(s: Seq<(int, int)>) -> bool {
    forall|i: int, j: int| 0 <= i <= j < s.len() ==> s[i].0 <= s[j].0
}

/// The magnitudes of time and damage that the simulation accepts; every
/// instance of a well-formed tree is within them.
pub open spec fn instance_in_range(x: (int, int)) -> bool {
    &&& -DURATION_LIMIT <= x.0 <= DURATION_LIMIT
    &&& -6 * AMOUNT_LIMIT <= x.1 <= 6 * AMOUNT_LIMIT
}

pub open spec fn instances_in_range(s: Seq<(int, int)>) -> bool {
    forall|i: int| 0 <= i < s.len() ==> instance_in_range(#[trigger] s[i])
}

fn get_or_0(o: &Option<i64>) -> (r: i64)
    ensures
        r == crate::game_data::or_zero(*o),
{
    match o {
        Some(x) => *x,
        None => 0,
    }
}

fn get_bonus_damage(effect: &WeaponEffect, target: &Unit) -> (r: i64)
    requires
        effect.node_well_formed(),
    ensures
        r == effect.damage_against(*target) - crate::game_data::or_zero(effect.dmg_amount),
        -5 * AMOUNT_LIMIT <= r <= 5 * AMOUNT_LIMIT,
{
    match &effect.dmg_attribute_bonuses {
        Some(b) => bonus_against(b, target),
        None => 0,
    }
}

fn bonus_against(b: &AttributeBonuses, target: &Unit) -> (r: i64)
    requires
        b.in_range(),
    ensures
        r == b.against(*target),
        -5 * AMOUNT_LIMIT <= r <= 5 * AMOUNT_LIMIT,
{
    let armored = if target.armored { get_or_0(&b.armored) } else { 0 };
    let biological = if target.biological { get_or_0(&b.biological) } else { 0 };
    let light = if target.light { get_or_0(&b.light) } else { 0 };
    let massive = if target.massive { get_or_0(&b.massive) } else { 0 };
    let mechanical = if target.mechanical { get_or_0(&b.mechanical) } else { 0 };
    armored + biological + light + massive + mechanical
}

/// Damage of one repeat of `effect` against `target`.
pub fn damage_against(effect: &WeaponEffect, target: &Unit) -> (r: i64)
    requires
        effect.node_well_formed(),
    ensures
        r == effect.damage_against(*target),
        r <= 6 * AMOUNT_LIMIT,
{
    get_or_0(&effect.dmg_amount) + get_bonus_damage(effect, target)
}


proof fn lemma_children_span_antitone(e: WeaponEffect, j: int, m: int)
    requires
        0 <= j <= m,
    ensures
        e.children_span(m) <= e.children_span(j),
    decreases m - j,
{
    if j < m {
        lemma_children_span_antitone(e, j + 1, m);
    }
}

/// Appends to `out` the instances of one firing of `effect` that starts at
/// `time`, in the order of the walk.
fn expand_into(effect: &WeaponEffect, target: &Unit, time: i64, out: &mut Vec<DamageInstance>)
    requires
        effect.well_formed(),
        -DURATION_LIMIT <= time - effect.span(),
        time + effect.span() <= DURATION_LIMIT,
        instances_in_range(pairs(old(out)@)),
    ensures
        pairs(final(out)@) == pairs(old(out)@) + emit_from(*effect, *target, time as int, 0),
        instances_in_range(pairs(final(out)@)),
    decreases effect,
{
    let count: i32 = match effect.persistent_count {
        Some(c) => c,
        None => 1,
    };
    let zero_delay: Vec<i64> = vec![0];
    let periods: &Vec<i64> = match &effect.persistent_periods {
        Some(p) => p,
        None => &zero_delay,
    };
    assert(periods@ == effect.periods());
    let dmg = damage_against(effect, target);
    let ghost start = pairs(out@);
    let mut t: i64 = time;
    let mut k: i32 = 0;
    proof {
        lemma_delay_total_grows(*effect, 0, count as int);
        lemma_children_span_nonneg(*effect, 0);
    }
    while k < count
        invariant
            effect.well_formed(),
            0 <= k <= count,
            count == effect.count(),
            periods@ == effect.periods(),
            dmg == effect.damage_against(*target),
            -DURATION_LIMIT <= time - effect.span(),
            time + effect.span() <= DURATION_LIMIT,
            effect.children_span(0) >= 0,
            abs(t - time) <= effect.delay_total(k as int),
            pairs(out@) + emit_from(*effect, *target, t as int, k as int) == start + emit_from(
                *effect,
                *target,
                time as int,
                0,
            ),
            instances_in_range(pairs(out@)),
        decreases count - k,
    {
        proof {
            lemma_delay_total_grows(*effect, k as int, count as int);
        }
        let ghost before = pairs(out@);
        if dmg > NEGLIGIBLE_DAMAGE {
            out.push(DamageInstance { time: t, dmg_amount: dmg });
        }
        assert(pairs(out@) =~= before + own_hit(*effect, *target, t as int));
        let ghost mid = pairs(out@);
        if let Some(children) = &effect.set_effects {
            let mut j: usize = 0;
            while j < children.len()
                invariant
                    effect.well_formed(),
                    effect.set_effects == Some(*children),
                    0 <= j <= children.len(),
                    -DURATION_LIMIT <= t - effect.children_span(0),
                    t + effect.children_span(0) <= DURATION_LIMIT,
                    pairs(out@) + emit_children(*effect, *target, t as int, j as int) == mid
                        + emit_children(*effect, *target, t as int, 0),
                    instances_in_range(pairs(out@)),
                decreases children.len() - j,
            {
                let ghost before_child = pairs(out@);
                proof {
                    lemma_children_span_antitone(*effect, 0, j as int);
                    assert(children@[j as int].well_formed());
                }
                expand_into(&children[j], target, t, out);
                assert(emit_children(*effect, *target, t as int, j as int) == emit_from(
                    children@[j as int],
                    *target,
                    t as int,
                    0,
                ) + emit_children(*effect, *target, t as int, j + 1));
                assert(before_child + emit_children(*effect, *target, t as int, j as int) =~= pairs(
                    out@,
                ) + emit_children(*effect, *target, t as int, j + 1));
                j += 1;
            }
        }
        assert(pairs(out@) =~= mid + emit_children(*effect, *target, t as int, 0));
        let delay = periods[(k as usize) % periods.len()];
        assert(delay == effect.period_at(k as int));
        let ghost t_before = t;
        t = t + delay;
        k += 1;
        assert(emit_from(*effect, *target, t_before as int, k - 1) == own_hit(
            *effect,
            *target,
            t_before as int,
        ) + emit_children(*effect, *target, t_before as int, 0) + emit_from(
            *effect,
            *target,
            t as int,
            k as int,
        ));
        assert(before + emit_from(*effect, *target, t_before as int, k - 1) =~= pairs(out@)
            + emit_from(*effect, *target, t as int, k as int));
    }
    assert(emit_from(*effect, *target, t as int, k as int) =~= Seq::empty());
    assert(pairs(out@) =~= start + emit_from(*effect, *target, time as int, 0));
}

proof fn lemma_insert_bounded(r: Seq<(int, int)>, x: (int, int), m: int)
    requires
        forall|i: int| 0 <= i < r.len() ==> r[i].0 <= m,
        x.0 <= m,
    ensures
        forall|i: int|
            0 <= i < insert_by_time(r, x).len() ==> #[trigger] insert_by_time(r, x)[i].0 <= m,
    decreases r.len(),
{
    if r.len() > 0 && r.last().0 > x.0 {
        lemma_insert_bounded(r.drop_last(), x, m);
        let inner = insert_by_time(r.drop_last(), x);
        assert forall|i: int| 0 <= i < inner.push(r.last()).len() implies inner.push(r.last())[i].0
            <= m by {
            if i < inner.len() {
                assert(inner[i].0 <= m);
            }
        }
    } else if r.len() > 0 {
        assert forall|i: int| 0 <= i < r.push(x).len() implies r.push(x)[i].0 <= m by {
            if i < r.len() {
                assert(r[i].0 <= m);
            }
        }
    }
}

proof fn lemma_insert_sorted(r: Seq<(int, int)>, x: (int, int))
    requires
        sorted_by_time(r),
    ensures
        sorted_by_time(insert_by_time(r, x)),
        insert_by_time(r, x).len() == r.len() + 1,
    decreases r.len(),
{
    if r.len() > 0 && r.last().0 > x.0 {
        let inner = insert_by_time(r.drop_last(), x);
        lemma_insert_sorted(r.drop_last(), x);
        assert forall|i: int| 0 <= i < r.drop_last().len() implies r.drop_last()[i].0 <= r.last().0 by {
            assert(r.drop_last()[i] == r[i]);
        }
        lemma_insert_bounded(r.drop_last(), x, r.last().0);
        let out = inner.push(r.last());
        assert forall|i: int, j: int| 0 <= i <= j < out.len() implies out[i].0 <= out[j].0 by {
            if j < inner.len() {
                assert(out[i] == inner[i] && out[j] == inner[j]);
            } else if i < inner.len() {
                assert(out[i] == inner[i]);
                assert(inner[i].0 <= r.last().0);
            }
        }
    } else if r.len() > 0 {
        assert forall|i: int, j: int| 0 <= i <= j < r.push(x).len() implies r.push(x)[i].0 <= r.push(
            x,
        )[j].0 by {
            if j < r.len() {
                assert(r.push(x)[i] == r[i] && r.push(x)[j] == r[j]);
            } else if i < r.len() {
                assert(r[i].0 <= r[r.len() - 1].0);
            }
        }
    }
}

/// A stable sort by time yields instances in non-decreasing time order.
pub proof fn lemma_sort_by_time_sorted(s: Seq<(int, int)>)
    ensures
        sorted_by_time(sort_by_time(s)),
        sort_by_time(s).len() == s.len(),
    decreases s.len(),
{
    if s.len() > 0 {
        lemma_sort_by_time_sorted(s.drop_last());
        lemma_insert_sorted(sort_by_time(s.drop_last()), s.last());
    }
}

/// Inserts `x` into `r` after the last instance whose time is not later.
fn insert_in_time_order(r: &mut Vec<DamageInstance>, x: DamageInstance)
    requires
        instances_in_range(pairs(old(r)@)),
        instance_in_range(x.pair()),
    ensures
        pairs(final(r)@) == insert_by_time(pairs(old(r)@), x.pair()),
        instances_in_range(pairs(final(r)@)),
{
    let ghost p = pairs(r@);
    let mut j: usize = r.len();
    assert(p.take(j as int) =~= p);
    assert(p.skip(j as int) =~= Seq::<(int, int)>::empty());
    while j > 0 && r[j - 1].time > x.time
        invariant
            j <= r.len(),
            pairs(r@) == p,
            insert_by_time(p, x.pair()) == insert_by_time(p.take(j as int), x.pair()) + p.skip(
                j as int,
            ),
        decreases j,
    {
        let ghost q = p.take(j as int);
        assert(q.last() == p[j - 1]);
        assert(q.drop_last() =~= p.take(j - 1));
        assert(insert_by_time(q, x.pair()) == insert_by_time(q.drop_last(), x.pair()).push(
            q.last(),
        ));
        assert(insert_by_time(q, x.pair()) + p.skip(j as int) =~= insert_by_time(
            p.take(j - 1),
            x.pair(),
        ) + p.skip(j - 1));
        j -= 1;
    }
    proof {
        if j == 0 {
            assert(p.take(0) =~= Seq::<(int, int)>::empty());
        } else {
            assert(p.take(j as int).last() == p[j - 1]);
        }
    }
    r.insert(j, x);
    assert(pairs(r@) =~= insert_by_time(p, x.pair()));
    assert forall|i: int| 0 <= i < pairs(r@).len() implies instance_in_range(
        #[trigger] pairs(r@)[i],
    ) by {
        if i < j {
            assert(pairs(r@)[i] == p[i]);
        } else if i > j {
            assert(pairs(r@)[i] == p[i - 1]);
        }
    }
}

/// A stable sort of `v` by time.
fn sort_instances(v: &Vec<DamageInstance>) -> (r: Vec<DamageInstance>)
    requires
        instances_in_range(pairs(v@)),
    ensures
        pairs(r@) == sort_by_time(pairs(v@)),
        instances_in_range(pairs(r@)),
{
    let mut r: Vec<DamageInstance> = Vec::new();
    let mut k: usize = 0;
    assert(pairs(v@).take(0) =~= Seq::<(int, int)>::empty());
    while k < v.len()
        invariant
            k <= v.len(),
            instances_in_range(pairs(v@)),
            pairs(r@) == sort_by_time(pairs(v@).take(k as int)),
            instances_in_range(pairs(r@)),
        decreases v.len() - k,
    {
        assert(instance_in_range(pairs(v@)[k as int]));
        insert_in_time_order(&mut r, v[k]);
        assert(pairs(v@).take(k + 1).drop_last() =~= pairs(v@).take(k as int));
        k += 1;
    }
    assert(pairs(v@).take(k as int) =~= pairs(v@));
    r
}

/// The damage instances of one firing of `effect` against `target`, sorted
/// by time.
pub fn get_damage_instances(effect: &WeaponEffect, target: &Unit) -> (r: Vec<DamageInstance>)
    requires
        effect.well_formed(),
        effect.span() <= DURATION_LIMIT,
    ensures
        pairs(r@) == expansion(*effect, *target),
        sorted_by_time(pairs(r@)),
        instances_in_range(pairs(r@)),
{
    let mut emitted: Vec<DamageInstance> = Vec::new();
    assert(pairs(emitted@) =~= Seq::<(int, int)>::empty());
    expand_into(effect, target, 0, &mut emitted);
    assert(pairs(emitted@) =~= emit_from(*effect, *target, 0, 0));
    let r = sort_instances(&emitted);
    proof {
        lemma_sort_by_time_sorted(pairs(emitted@));
    }
    r
}

/// Every node of the tree deals negligible damage to `target`.
pub open spec fn all_negligible(e: WeaponEffect, target: Unit) -> bool
    decreases e,
{
    &&& e.damage_against(target) <= NEGLIGIBLE_DAMAGE
    &&& match e.set_effects {
        Some(c) => forall|i: int| 0 <= i < c@.len() ==> all_negligible(#[trigger] c@[i], target),
        None => true,
    }
}

proof fn lemma_negligible_emit_from(e: WeaponEffect, target: Unit, t: int, k: int)
    requires
        all_negligible(e, target),
    ensures
        emit_from(e, target, t, k) == Seq::<(int, int)>::empty(),
    decreases e, 1int, e.count() - k,
{
    if 0 <= k < e.count() {
        lemma_negligible_emit_children(e, target, t, 0);
        lemma_negligible_emit_from(e, target, t + e.period_at(k), k + 1);
        assert(emit_from(e, target, t, k) =~= Seq::<(int, int)>::empty());
    }
}

proof fn lemma_negligible_emit_children(e: WeaponEffect, target: Unit, t: int, j: int)
    requires
        all_negligible(e, target),
    ensures
        emit_children(e, target, t, j) == Seq::<(int, int)>::empty(),
    decreases e, 0int, e.children().len() - j,
{
    match e.set_effects {
        Some(c) => if 0 <= j < c@.len() {
            assert(all_negligible(c@[j], target));
            lemma_negligible_emit_from(c@[j], target, t, 0);
            lemma_negligible_emit_children(e, target, t, j + 1);
            assert(emit_children(e, target, t, j) =~= Seq::<(int, int)>::empty());
        },
        None => {},
    }
}

/// A tree whose every node deals negligible damage to the target expands to
/// no instance at all.
pub proof fn lemma_negligible_tree_expands_to_nothing(e: WeaponEffect, target: Unit)
    requires
        all_negligible(e, target),
    ensures
        expansion(e, target).len() == 0,
{
    lemma_negligible_emit_from(e, target, 0, 0);
}

/// Signed sum of the first `k` delays of `e`: the time from the start of
/// repeat zero to the start of repeat `k`.
pub open spec fn elapsed_before(e: WeaponEffect, k: int) -> int
    decreases k,
{
    if k <= 0 {
        0
    } else {
        elapsed_before(e, k - 1) + e.period_at(k - 1)
    }
}

proof fn lemma_leaf_emit_from(e: WeaponEffect, target: Unit, t: int, k: int)
    requires
        e.children().len() == 0,
        e.damage_against(target) > NEGLIGIBLE_DAMAGE,
        0 <= k <= e.count(),
    ensures
        emit_from(e, target, t + elapsed_before(e, k), k).len() == e.count() - k,
        forall|i: int|
            0 <= i < e.count() - k ==> #[trigger] emit_from(e, target, t + elapsed_before(e, k), k)[i]
                == (t + elapsed_before(e, k + i), e.damage_against(target)),
    decreases e.count() - k,
{
    if k < e.count() {
        lemma_leaf_emit_from(e, target, t, k + 1);
        let here = t + elapsed_before(e, k);
        assert(here + e.period_at(k) == t + elapsed_before(e, k + 1));
        assert(emit_children(e, target, here, 0) =~= Seq::<(int, int)>::empty());
        let rest = emit_from(e, target, t + elapsed_before(e, k + 1), k + 1);
        assert(emit_from(e, target, here, k) =~= seq![(here, e.damage_against(target))] + rest);
        assert forall|i: int|
            0 <= i < e.count() - k implies #[trigger] emit_from(e, target, here, k)[i] == (t
            + elapsed_before(e, k + i), e.damage_against(target)) by {
            if i > 0 {
                assert(emit_from(e, target, here, k)[i] == rest[i - 1]);
                assert(k + 1 + (i - 1) == k + i);
            }
        }
    }
}

/// A node without children fires once per repeat, and repeat `k` comes
/// after the first `k` delays, the delays reused in turn (index modulo
/// their number) when there are more repeats than delays.
pub proof fn lemma_repeats_cycle_through_delays(e: WeaponEffect, target: Unit, t: int)
    requires
        e.node_well_formed(),
        e.children().len() == 0,
        e.damage_against(target) > NEGLIGIBLE_DAMAGE,
    ensures
        emit_from(e, target, t, 0).len() == e.count(),
        forall|k: int|
            0 <= k < e.count() ==> #[trigger] emit_from(e, target, t, 0)[k] == (t + elapsed_before(
                e,
                k,
            ), e.damage_against(target)),
        forall|k: int|
            0 < k ==> #[trigger] elapsed_before(e, k) == elapsed_before(e, k - 1)
                + e.periods()[(k - 1) % (e.periods().len() as int)],
{
    lemma_leaf_emit_from(e, target, t, 0);
    assert(t + elapsed_before(e, 0) == t);
}

/// The two targets have the same attributes, which is all that bonus
/// damage looks at.
pub open spec fn same_attributes(a: Unit, b: Unit) -> bool {
    &&& a.armored == b.armored
    &&& a.biological == b.biological
    &&& a.light == b.light
    &&& a.massive == b.massive
    &&& a.mechanical == b.mechanical
}

proof fn lemma_emit_from_attributes(e: WeaponEffect, a: Unit, b: Unit, t: int, k: int)
    requires
        same_attributes(a, b),
    ensures
        emit_from(e, a, t, k) == emit_from(e, b, t, k),
    decreases e, 1int, e.count() - k,
{
    if 0 <= k < e.count() {
        assert(e.damage_against(a) == e.damage_against(b));
        lemma_emit_children_attributes(e, a, b, t, 0);
        lemma_emit_from_attributes(e, a, b, t + e.period_at(k), k + 1);
    }
}

proof fn lemma_emit_children_attributes(e: WeaponEffect, a: Unit, b: Unit, t: int, j: int)
    requires
        same_attributes(a, b),
    ensures
        emit_children(e, a, t, j) == emit_children(e, b, t, j),
    decreases e, 0int, e.children().len() - j,
{
    match e.set_effects {
        Some(c) => if 0 <= j < c@.len() {
            lemma_emit_from_attributes(c@[j], a, b, t, 0);
            lemma_emit_children_attributes(e, a, b, t, j + 1);
        },
        None => {},
    }
}

/// Targets with the same attributes receive the same instances.
pub proof fn lemma_expansion_depends_on_attributes(e: WeaponEffect, a: Unit, b: Unit)
    requires
        same_attributes(a, b),
    ensures
        expansion(e, a) == expansion(e, b),
{
    lemma_emit_from_attributes(e, a, b, 0, 0);
}

} // verus!
