//! The records of one version of the game data: units, weapons and their
//! effect trees, upgrades.
use vstd::prelude::*;

use crate::error::Error;
use crate::names::{names, sorted_names, strictly_ascending};
use crate::{AMOUNT_LIMIT, DURATION_LIMIT};

verus! {

/// Extra damage that an effect deals to a target with the given attribute.
pub struct AttributeBonuses {
    pub armored: Option<i64>,
    pub biological: Option<i64>,
    pub light: Option<i64>,
    pub massive: Option<i64>,
    pub mechanical: Option<i64>,
}

/// The impact part of an effect, as the game data records it.
pub struct WeaponEffectImpact {
    pub dmg_amount: Option<i64>,
}

/// One node of a weapon's effect tree.
pub struct WeaponEffect {
    pub dmg_amount: Option<i64>,
    pub impact: Option<WeaponEffectImpact>,
    pub dmg_attribute_bonuses: Option<AttributeBonuses>,
    /// How many times the node fires within one firing of the weapon
    /// (one when absent).
    pub persistent_count: Option<i32>,
    /// Delays between repeats, reused in turn when there are more repeats
    /// than delays (a single zero delay when absent).
    pub persistent_periods: Option<Vec<i64>>,
    /// Effects fired at the same moment as each repeat of this node.
    pub set_effects: Option<Vec<WeaponEffect>>,
}

pub struct Weapon {
    pub disabled: bool,
    pub effect: WeaponEffect,
    pub filter_requires: Vec<String>,
    pub name: String,
    /// Time between two firings.
    pub period: i64,
}

pub struct Unit {
    pub ability_commands: Vec<String>,
    pub invulnerable: bool,
    pub life_max: i64,
    pub life_armor: i64,
    /// Life regenerated per second.
    pub life_regen_rate: i64,
    pub shields_max: i64,
    pub name: String,
    pub race: String,
    pub weapons: Vec<String>,
    pub armored: bool,
    pub biological: bool,
    pub light: bool,
    pub massive: bool,
    pub mechanical: bool,
}

pub struct EffectArrayEntry {
    pub operation: String,
    pub reference_type: String,
    pub reference_id: String,
    pub reference_attribute: String,
    pub value: String,
}

pub struct Upgrade {
    pub name: String,
    pub race: String,
    pub effect_array: Vec<EffectArrayEntry>,
}

/// The records of one version of the game data.
pub struct Game {
    /// Every race that some unit belongs to, each once.
    pub races: Vec<String>,
    pub unit_data: UnitData,
    pub weapon_data: WeaponData,
    pub upgrade_data: UpgradeData,
}

/// Game data by version.
pub type GameData = Vec<(String, Game)>;

/// Weapons by identifier.
pub type WeaponData = Vec<(String, Weapon)>;

/// Units by identifier.
pub type UnitData = Vec<(String, Unit)>;

/// Upgrades by identifier.
pub type UpgradeData = Vec<(String, Upgrade)>;

pub open spec fn amount_in_range(x: int) -> bool {
    -AMOUNT_LIMIT <= x <= AMOUNT_LIMIT
}

pub open spec fn duration_in_range(x: int) -> bool {
    -DURATION_LIMIT <= x <= DURATION_LIMIT
}

pub open spec fn optional_amount_in_range(o: Option<i64>) -> bool {
    match o {
        Some(x) => amount_in_range(x as int),
        None => true,
    }
}

/// The value of an optional amount, zero when absent.
pub open spec fn or_zero(o: Option<i64>) -> int {
    match o {
        Some(x) => x as int,
        None => 0,
    }
}

impl AttributeBonuses {
    pub open spec fn in_range(&self) -> bool {
        &&& optional_amount_in_range(self.armored)
        &&& optional_amount_in_range(self.biological)
        &&& optional_amount_in_range(self.light)
        &&& optional_amount_in_range(self.massive)
        &&& optional_amount_in_range(self.mechanical)
    }

    /// The sum of the bonuses for every attribute that the target has.
    pub open spec fn against(&self, target: Unit) -> int {
        (if target.armored { or_zero(self.armored) } else { 0 })
            + (if target.biological { or_zero(self.biological) } else { 0 })
            + (if target.light { or_zero(self.light) } else { 0 })
            + (if target.massive { or_zero(self.massive) } else { 0 })
            + (if target.mechanical { or_zero(self.mechanical) } else { 0 })
    }
}

impl Unit {
    /// The combat statistics are within the ranges that the simulation
    /// accepts.
    pub open spec fn stats_in_range(&self) -> bool {
        &&& amount_in_range(self.life_max as int)
        &&& amount_in_range(self.life_armor as int)
        &&& amount_in_range(self.life_regen_rate as int)
        &&& amount_in_range(self.shields_max as int)
    }
}

impl WeaponEffect {
    /// Number of repeats within one firing.
    pub open spec fn count(&self) -> int {
        match self.persistent_count {
            Some(c) => c as int,
            None => 1,
        }
    }

    /// The delays between repeats, after defaulting.
    pub open spec fn periods(&self) -> Seq<i64> {
        match self.persistent_periods {
            Some(p) => p@,
            None => seq![0i64],
        }
    }

    /// The delay that follows repeat `k`.
    pub open spec fn period_at(&self, k: int) -> int {
        self.periods()[k % (self.periods().len() as int)] as int
    }

    pub open spec fn children(&self) -> Seq<WeaponEffect> {
        match self.set_effects {
            Some(c) => c@,
            None => Seq::empty(),
        }
    }

    /// Damage of one repeat of this node against `target`: the flat amount
    /// and the bonuses for the target's attributes.
    pub open spec fn damage_against(&self, target: Unit) -> int {
        or_zero(self.dmg_amount) + match self.dmg_attribute_bonuses {
            Some(b) => b.against(target),
            None => 0,
        }
    }

    /// The node's own fields obey the data model: at least one repeat, at
    /// least one delay, every amount and delay in range.
    pub open spec fn node_well_formed(&self) -> bool {
        &&& self.count() >= 1
        &&& self.periods().len() >= 1
        &&& forall|k: int| 0 <= k < self.periods().len() ==> duration_in_range(#[trigger] self.periods()[k] as int)
        &&& optional_amount_in_range(self.dmg_amount)
        &&& match self.dmg_attribute_bonuses {
            Some(b) => b.in_range(),
            None => true,
        }
    }

    /// Every node of the tree is well formed.
    pub open spec fn well_formed(&self) -> bool
        decreases self,
    {
        &&& self.node_well_formed()
        &&& match self.set_effects {
            Some(c) => forall|i: int| 0 <= i < c@.len() ==> (#[trigger] c@[i]).well_formed(),
            None => true,
        }
    }

    /// Sum of the magnitudes of the first `k` delays.
    pub open spec fn delay_total(&self, k: int) -> int
        decreases k,
    {
        if k <= 0 {
            0
        } else {
            self.delay_total(k - 1) + abs(self.period_at(k - 1))
        }
    }

    /// A bound on how far in time one firing of the tree reaches from its
    /// start: the node's own delays, then the furthest child.
    pub open spec fn span(&self) -> int
        decreases *self, 1int, 0int,
    {
        self.delay_total(self.count()) + self.children_span(0)
    }

    /// The largest span among the children from index `j` on (zero if none).
    pub open spec fn children_span(&self, j: int) -> int
        decreases *self, 0int, self.children().len() - j,
    {
        match self.set_effects {
            Some(c) => if 0 <= j < c@.len() {
                max(c@[j].span(), self.children_span(j + 1))
            } else {
                0
            },
            None => 0,
        }
    }
}

impl Weapon {
    pub open spec fn well_formed(&self) -> bool {
        &&& self.effect.well_formed()
        &&& self.effect.span() <= DURATION_LIMIT
        &&& duration_in_range(self.period as int)
    }
}

impl Game {
    /// Every weapon and every unit can go through the simulation.
    pub open spec fn well_formed(&self) -> bool {
        &&& forall|i: int|
            0 <= i < self.weapon_data@.len() ==> (#[trigger] self.weapon_data@[i]).1.well_formed()
        &&& forall|i: int|
            0 <= i < self.unit_data@.len() ==> (#[trigger] self.unit_data@[i]).1.stats_in_range()
    }
}

/// Every game of the data is well formed.
pub open spec fn game_data_well_formed(g: Seq<(String, Game)>) -> bool {
    forall|i: int| 0 <= i < g.len() ==> (#[trigger] g[i]).1.well_formed()
}

/// Index of the first entry keyed `id`, looking from `from` on.
pub open spec fn key_index<T>(entries: Seq<(String, T)>, id: Seq<char>, from: int) -> Option<int>
    decreases entries.len() - from,
{
    if from < 0 || from >= entries.len() {
        None
    } else if entries[from].0@ == id {
        Some(from)
    } else {
        key_index(entries, id, from + 1)
    }
}

/// The value of the first entry keyed `id`.
pub open spec fn lookup<T>(entries: Seq<(String, T)>, id: Seq<char>) -> Option<T> {
    match key_index(entries, id, 0) {
        Some(i) => Some(entries[i].1),
        None => None,
    }
}

proof fn lemma_key_index_found<T>(entries: Seq<(String, T)>, id: Seq<char>, from: int)
    requires
        0 <= from,
    ensures
        key_index(entries, id, from) matches Some(i) ==> from <= i < entries.len()
            && entries[i].0@ == id,
    decreases entries.len() - from,
{
    if from < entries.len() && entries[from].0@ != id {
        lemma_key_index_found(entries, id, from + 1);
    }
}

/// Finds the first entry keyed `id`.
pub fn find_key<T>(entries: &Vec<(String, T)>, id: &String) -> (r: Option<usize>)
    ensures
        r matches Some(i) ==> key_index(entries@, id@, 0) == Some(i as int),
        r is None ==> key_index(entries@, id@, 0) is None,
        r matches Some(i) ==> i < entries@.len(),
{
    let mut k: usize = 0;
    while k < entries.len()
        invariant
            k <= entries@.len(),
            key_index(entries@, id@, 0) == key_index(entries@, id@, k as int),
        decreases entries@.len() - k,
    {
        if entries[k].0 == *id {
            return Some(k);
        }
        k += 1;
    }
    None
}

/// The value of the last entry keyed `id`.
pub open spec fn last_value<T>(entries: Seq<(String, T)>, id: Seq<char>) -> Option<T>
    decreases entries.len(),
{
    if entries.len() == 0 {
        None
    } else if entries.last().0@ == id {
        Some(entries.last().1)
    } else {
        last_value(entries.drop_last(), id)
    }
}

/// The keys of `entries`, in order.
pub open spec fn keys<T>(entries: Seq<(String, T)>) -> Seq<Seq<char>> {
    entries.map_values(|e: (String, T)| e.0@)
}

proof fn lemma_key_index_push<T>(entries: Seq<(String, T)>, x: (String, T), id: Seq<char>, from: int)
    requires
        0 <= from <= entries.len(),
    ensures
        key_index(entries.push(x), id, from) == match key_index(entries, id, from) {
            Some(i) => Some(i),
            None => if x.0@ == id {
                Some(entries.len() as int)
            } else {
                None
            },
        },
    decreases entries.len() - from,
{
    if from < entries.len() {
        assert(entries.push(x)[from] == entries[from]);
        if entries[from].0@ != id {
            lemma_key_index_push(entries, x, id, from + 1);
        }
    } else {
        assert(entries.push(x)[from] == x);
        assert(key_index(entries.push(x), id, from + 1) is None);
    }
}

/// Extends `entries` with `x`; the new entry is found only by a key that
/// no earlier entry has.
pub proof fn lemma_lookup_push<T>(entries: Seq<(String, T)>, x: (String, T), id: Seq<char>)
    ensures
        lookup(entries.push(x), id) == match lookup(entries, id) {
            Some(v) => Some(v),
            None => if x.0@ == id {
                Some(x.1)
            } else {
                None
            },
        },
{
    lemma_key_index_push(entries, x, id, 0);
    lemma_key_index_found(entries, id, 0);
    if let Some(i) = key_index(entries, id, 0) {
        assert(entries.push(x)[i] == entries[i]);
    }
}

fn amount_ok(x: i64) -> (r: bool)
    ensures
        r == amount_in_range(x as int),
{
    -AMOUNT_LIMIT <= x && x <= AMOUNT_LIMIT
}

fn optional_amount_ok(o: &Option<i64>) -> (r: bool)
    ensures
        r == optional_amount_in_range(*o),
{
    match o {
        Some(x) => amount_ok(*x),
        None => true,
    }
}

fn node_ok(e: &WeaponEffect) -> (r: bool)
    ensures
        r == e.node_well_formed(),
{
    match e.persistent_count {
        Some(c) => if c < 1 {
            return false;
        },
        None => {},
    }
    if let Some(p) = &e.persistent_periods {
        if p.len() == 0 {
            return false;
        }
        let mut k: usize = 0;
        while k < p.len()
            invariant
                k <= p@.len(),
                e.persistent_periods == Some(*p),
                forall|i: int| 0 <= i < k ==> duration_in_range(#[trigger] p@[i] as int),
            decreases p@.len() - k,
        {
            if p[k] < -DURATION_LIMIT || p[k] > DURATION_LIMIT {
                return false;
            }
            k += 1;
        }
    }
    if !optional_amount_ok(&e.dmg_amount) {
        return false;
    }
    match &e.dmg_attribute_bonuses {
        Some(b) => optional_amount_ok(&b.armored) && optional_amount_ok(&b.biological)
            && optional_amount_ok(&b.light) && optional_amount_ok(&b.massive)
            && optional_amount_ok(&b.mechanical),
        None => true,
    }
}

pub(crate) proof fn lemma_delay_total_grows(e: WeaponEffect, a: int, b: int)
    requires
        0 <= a <= b,
    ensures
        0 <= e.delay_total(a) <= e.delay_total(b),
    decreases b - a,
{
    if a < b {
        lemma_delay_total_grows(e, a, b - 1);
    } else {
        lemma_delay_total_nonneg(e, a);
    }
}

pub(crate) proof fn lemma_delay_total_nonneg(e: WeaponEffect, k: int)
    ensures
        e.delay_total(k) >= 0,
    decreases k,
{
    if k > 0 {
        lemma_delay_total_nonneg(e, k - 1);
    }
}

pub(crate) proof fn lemma_children_span_nonneg(e: WeaponEffect, j: int)
    ensures
        e.children_span(j) >= 0,
    decreases e.children().len() - j,
{
    if 0 <= j < e.children().len() {
        lemma_children_span_nonneg(e, j + 1);
    }
}

proof fn lemma_children_span_covers(e: WeaponEffect, j: int, m: int)
    requires
        0 <= j <= m < e.children().len(),
    ensures
        e.children()[m].span() <= e.children_span(j),
    decreases m - j,
{
    if j < m {
        lemma_children_span_covers(e, j + 1, m);
    }
}

/// The span of `e` when the whole tree is well formed and its span is
/// within the duration limit; `None` otherwise.
fn checked_span(e: &WeaponEffect) -> (r: Option<i64>)
    ensures
        r matches Some(s) ==> e.well_formed() && s == e.span() && s <= DURATION_LIMIT,
        r is None ==> !(e.well_formed() && e.span() <= DURATION_LIMIT),
    decreases e,
{
    if !node_ok(e) {
        return None;
    }
    let count: i32 = match e.persistent_count {
        Some(c) => c,
        None => 1,
    };
    let zero_delay: Vec<i64> = vec![0];
    let periods: &Vec<i64> = match &e.persistent_periods {
        Some(p) => p,
        None => &zero_delay,
    };
    assert(periods@ == e.periods());
    proof {
        lemma_children_span_nonneg(*e, 0);
    }
    let mut delays: i64 = 0;
    let mut k: i32 = 0;
    while k < count
        invariant
            e.node_well_formed(),
            0 <= k <= count,
            count == e.count(),
            periods@ == e.periods(),
            delays == e.delay_total(k as int),
            delays <= DURATION_LIMIT,
            e.children_span(0) >= 0,
        decreases count - k,
    {
        let p = periods[(k as usize) % periods.len()];
        assert(p == e.period_at(k as int));
        assert(duration_in_range(e.periods()[(k as int) % (e.periods().len() as int)] as int));
        delays = delays + if p < 0 { -p } else { p };
        k += 1;
        if delays > DURATION_LIMIT {
            proof {
                lemma_delay_total_grows(*e, k as int, count as int);
            }
            return None;
        }
    }
    let mut widest: i64 = 0;
    if let Some(c) = &e.set_effects {
        let mut j: usize = c.len();
        while j > 0
            invariant
                j <= c@.len(),
                e.set_effects == Some(*c),
                e.node_well_formed(),
                count == e.count(),
                widest == e.children_span(j as int),
                0 <= widest <= DURATION_LIMIT,
                forall|i: int| j <= i < c@.len() ==> (#[trigger] c@[i]).well_formed(),
            decreases j,
        {
            match checked_span(&c[j - 1]) {
                Some(s) => {
                    if s > widest {
                        widest = s;
                    }
                },
                None => {
                    proof {
                        assert(e.children()[j - 1] == c@[j - 1]);
                        if c@[j - 1].well_formed() {
                            lemma_children_span_covers(*e, 0, j - 1);
                            lemma_delay_total_nonneg(*e, count as int);
                            assert(e.span() == e.delay_total(e.count()) + e.children_span(0));
                        } else {
                            assert(!e.well_formed());
                        }
                    }
                    return None;
                },
            }
            j -= 1;
            proof {
                lemma_children_span_nonneg(*e, j as int);
            }
        }
    }
    if delays > DURATION_LIMIT - widest {
        return None;
    }
    Some(delays + widest)
}

fn weapon_ok(w: &Weapon) -> (r: bool)
    ensures
        r == w.well_formed(),
{
    match checked_span(&w.effect) {
        Some(_) => -DURATION_LIMIT <= w.period && w.period <= DURATION_LIMIT,
        None => false,
    }
}

fn unit_ok(u: &Unit) -> (r: bool)
    ensures
        r == u.stats_in_range(),
{
    amount_ok(u.life_max) && amount_ok(u.life_armor) && amount_ok(u.life_regen_rate) && amount_ok(
        u.shields_max,
    )
}

/// The races that units of `units` belong to.
pub open spec fn unit_races(units: Seq<(String, Unit)>) -> Seq<Seq<char>> {
    units.map_values(|e: (String, Unit)| e.1.race@)
}

/// Assembles one version of the game data from its records: the races are
/// those of the units, each once, in ascending order. Fails when a record
/// breaks the data model.
pub fn load_game(unit_data: UnitData, weapon_data: WeaponData, upgrade_data: UpgradeData) -> (r:
    Result<Game, Error>)
    ensures
        r is Ok <==> (forall|i: int|
            0 <= i < weapon_data@.len() ==> (#[trigger] weapon_data@[i]).1.well_formed()) && (forall|
            i: int,
        | 0 <= i < unit_data@.len() ==> (#[trigger] unit_data@[i]).1.stats_in_range()),
        r is Err ==> r == Err::<Game, Error>(Error::MalformedCatalog),
        r matches Ok(g) ==> {
            &&& g.well_formed()
            &&& g.unit_data == unit_data
            &&& g.weapon_data == weapon_data
            &&& g.upgrade_data == upgrade_data
            &&& strictly_ascending(names(g.races@))
            &&& forall|x: Seq<char>|
                names(g.races@).contains(x) <==> unit_races(unit_data@).contains(x)
        },
{
    let mut k: usize = 0;
    while k < weapon_data.len()
        invariant
            k <= weapon_data@.len(),
            forall|i: int| 0 <= i < k ==> (#[trigger] weapon_data@[i]).1.well_formed(),
        decreases weapon_data@.len() - k,
    {
        if !weapon_ok(&weapon_data[k].1) {
            return Err(Error::MalformedCatalog);
        }
        k += 1;
    }
    let mut all_races: Vec<String> = Vec::new();
    let mut k: usize = 0;
    while k < unit_data.len()
        invariant
            k <= unit_data@.len(),
            forall|i: int| 0 <= i < weapon_data@.len() ==> (#[trigger] weapon_data@[i]).1.well_formed(),
            forall|i: int| 0 <= i < k ==> (#[trigger] unit_data@[i]).1.stats_in_range(),
            names(all_races@) == unit_races(unit_data@.take(k as int)),
        decreases unit_data@.len() - k,
    {
        if !unit_ok(&unit_data[k].1) {
            return Err(Error::MalformedCatalog);
        }
        all_races.push(unit_data[k].1.race.clone());
        assert(unit_races(unit_data@.take(k + 1)) =~= unit_races(unit_data@.take(k as int)).push(
            unit_data@[k as int].1.race@,
        ));
        assert(names(all_races@) =~= unit_races(unit_data@.take(k as int)).push(
            unit_data@[k as int].1.race@,
        ));
        k += 1;
    }
    assert(unit_data@.take(k as int) =~= unit_data@);
    let races = sorted_names(&all_races);
    Ok(Game { races, unit_data, weapon_data, upgrade_data })
}

pub open spec fn abs(x: int) -> int {
    if x < 0 { -x } else { x }
}

pub open spec fn max(a: int, b: int) -> int {
    if a < b { b } else { a }
}

} // verus!
