//! Evaluating every eligible attacker of one race against every eligible
//! defender of another.
use vstd::prelude::*;

use crate::effects::{
    all_negligible, expansion, get_damage_instances, lemma_expansion_depends_on_attributes,
    lemma_negligible_tree_expands_to_nothing, same_attributes,
};
use crate::error::Error;
use crate::game_data::{find_key, lookup, Game, GameData, Unit, UnitData, Weapon, WeaponData};
use crate::rest;
use crate::rest::{KillCalculation, MatchupRequest, MatchupResponse};
use crate::simulate::{
    cannot_hit, kill_outcome, lemma_outcome_depends_on_defenses, same_defenses, simulate_kill,
};

verus! {

/// A unit that can take part in a fight of `race`: it can be hurt, it can
/// act, and it belongs to the race.
pub open spec fn eligible(u: Unit, race: Seq<char>) -> bool {
    &&& !u.invulnerable
    &&& u.ability_commands@.len() > 0
    &&& u.race@ == race
}

/// Indices, in catalog order, of the eligible units among the first `k`.
pub open spec fn eligible_indices(units: Seq<(String, Unit)>, race: Seq<char>, k: int) -> Seq<usize>
    decreases k,
{
    if k <= 0 {
        Seq::empty()
    } else if eligible(units[k - 1].1, race) {
        eligible_indices(units, race, k - 1).push((k - 1) as usize)
    } else {
        eligible_indices(units, race, k - 1)
    }
}

/// Every eligible unit of `race`, in catalog order.
pub open spec fn eligible_units(units: Seq<(String, Unit)>, race: Seq<char>) -> Seq<usize> {
    eligible_indices(units, race, units.len() as int)
}

/// The weapon that `attacker` fights with: the first one it lists.
pub open spec fn weapon_of(attacker: Unit, weapons: Seq<(String, Weapon)>) -> Option<Weapon> {
    if attacker.weapons@.len() == 0 {
        None
    } else {
        lookup(weapons, attacker.weapons@[0]@)
    }
}

/// How `attacker` fares against `defender`.
pub open spec fn kill_calculation(attacker: Unit, defender: Unit, weapons: Seq<(String, Weapon)>) -> KillCalculation {
    match weapon_of(attacker, weapons) {
        Some(w) => kill_outcome(expansion(w.effect, defender), w.period as int, defender),
        None => cannot_hit(),
    }
}

proof fn lemma_eligible_indices_bounded(units: Seq<(String, Unit)>, race: Seq<char>, k: int)
    requires
        0 <= k <= units.len() <= usize::MAX,
    ensures
        forall|i: int|
            0 <= i < eligible_indices(units, race, k).len() ==> #[trigger] eligible_indices(
                units,
                race,
                k,
            )[i] < k,
    decreases k,
{
    if k > 0 {
        lemma_eligible_indices_bounded(units, race, k - 1);
        let prev = eligible_indices(units, race, k - 1);
        assert forall|i: int|
            0 <= i < eligible_indices(units, race, k).len() implies #[trigger] eligible_indices(
            units,
            race,
            k,
        )[i] < k by {
            if i < prev.len() {
                assert(prev[i] < k - 1);
            }
        }
    }
}

/// Indices of the units of `race` that can fight, in catalog order.
pub fn get_units(game: &Game, race: &String) -> (r: Result<Vec<usize>, Error>)
    ensures
        eligible_units(game.unit_data@, race@).len() == 0 ==> r == Err::<Vec<usize>, Error>(
            Error::NoSuchRace,
        ),
        eligible_units(game.unit_data@, race@).len() > 0 ==> (r matches Ok(v) && v@
            == eligible_units(game.unit_data@, race@)),
        r matches Ok(v) ==> forall|i: int|
            0 <= i < v@.len() ==> #[trigger] v@[i] < game.unit_data@.len(),
{
    let units = &game.unit_data;
    let mut found: Vec<usize> = Vec::new();
    let mut k: usize = 0;
    while k < units.len()
        invariant
            k <= units@.len(),
            *units == game.unit_data,
            found@ == eligible_indices(units@, race@, k as int),
        decreases units@.len() - k,
    {
        let u = &units[k].1;
        if !u.invulnerable && u.ability_commands.len() > 0 && u.race == *race {
            found.push(k);
        }
        k += 1;
    }
    proof {
        lemma_eligible_indices_bounded(units@, race@, units@.len() as int);
    }
    if found.len() == 0 {
        Err(Error::NoSuchRace)
    } else {
        Ok(found)
    }
}

fn rest_unit(unit: &Unit) -> (r: rest::Unit)
    ensures
        r.name@ == unit.name@,
{
    rest::Unit { name: unit.name.clone() }
}

/// The weapon that `attacker` fights with, if the catalog has it.
fn get_weapon<'a>(attacker: &Unit, weapons: &'a WeaponData) -> (r: Option<&'a Weapon>)
    ensures
        r matches Some(w) ==> weapon_of(*attacker, weapons@) == Some(*w),
        r is None ==> weapon_of(*attacker, weapons@) is None,
        r matches Some(w) ==> exists|i: int| 0 <= i < weapons@.len() && weapons@[i].1 == *w,
{
    if attacker.weapons.len() == 0 {
        return None;
    }
    match find_key(weapons, &attacker.weapons[0]) {
        Some(i) => Some(&weapons[i].1),
        None => None,
    }
}

/// How `attacker`, with its first weapon, fares against `defender`.
pub fn calculate_kill(attacker: &Unit, defender: &Unit, weapons: &WeaponData) -> (r: KillCalculation)
    requires
        forall|i: int| 0 <= i < weapons@.len() ==> (#[trigger] weapons@[i]).1.well_formed(),
        defender.stats_in_range(),
    ensures
        r == kill_calculation(*attacker, *defender, weapons@),
{
    match get_weapon(attacker, weapons) {
        Some(weapon) => {
            let instances = get_damage_instances(&weapon.effect, defender);
            simulate_kill(&instances, weapon.period, defender)
        },
        None => KillCalculation { can_hit: false, hits: 0, time: 0, completed: false },
    }
}

/// The game data of `version`.
pub fn get_game<'a>(game_data: &'a GameData, version: &String) -> (r: Result<&'a Game, Error>)
    ensures
        r matches Ok(g) ==> lookup(game_data@, version@) == Some(*g),
        r matches Ok(g) ==> exists|i: int| 0 <= i < game_data@.len() && game_data@[i].1 == *g,
        r is Err ==> lookup(game_data@, version@) is None && r == Err::<&Game, Error>(
            Error::UnsupportedVersion,
        ),
{
    match find_key(game_data, version) {
        Some(i) => Ok(&game_data[i].1),
        None => Err(Error::UnsupportedVersion),
    }
}

/// `resp` lists the units `a` as attackers and `d` as defenders, by name,
/// and holds in row `i`, column `j` how attacker `a[i]` fares against
/// defender `d[j]`.
pub open spec fn is_grid(resp: MatchupResponse, g: Game, a: Seq<usize>, d: Seq<usize>) -> bool {
    let units = g.unit_data@;
    &&& resp.attackers@.len() == a.len()
    &&& forall|i: int|
        0 <= i < a.len() ==> (#[trigger] resp.attackers@[i]).name@ == units[a[i] as int].1.name@
    &&& resp.defenders@.len() == d.len()
    &&& forall|j: int|
        0 <= j < d.len() ==> (#[trigger] resp.defenders@[j]).name@ == units[d[j] as int].1.name@
    &&& resp.attacker_upgrades@.len() == 0
    &&& resp.defender_upgrades@.len() == 0
    &&& resp.kill_calculations@.len() == a.len()
    &&& forall|i: int|
        0 <= i < a.len() ==> (#[trigger] resp.kill_calculations@[i])@.len() == d.len()
    &&& forall|i: int, j: int|
        0 <= i < a.len() && 0 <= j < d.len() ==> (#[trigger] resp.kill_calculations@[i]@[j])
            == kill_calculation(units[a[i] as int].1, units[d[j] as int].1, g.weapon_data@)
}

fn rest_units(units: &UnitData, picked: &Vec<usize>) -> (r: Vec<rest::Unit>)
    requires
        forall|i: int| 0 <= i < picked@.len() ==> #[trigger] picked@[i] < units@.len(),
    ensures
        r@.len() == picked@.len(),
        forall|i: int|
            0 <= i < picked@.len() ==> (#[trigger] r@[i]).name@ == units@[picked@[i] as int].1.name@,
{
    let mut r: Vec<rest::Unit> = Vec::new();
    let mut k: usize = 0;
    while k < picked.len()
        invariant
            k <= picked@.len(),
            forall|i: int| 0 <= i < picked@.len() ==> #[trigger] picked@[i] < units@.len(),
            r@.len() == k,
            forall|i: int|
                0 <= i < k ==> (#[trigger] r@[i]).name@ == units@[picked@[i] as int].1.name@,
        decreases picked@.len() - k,
    {
        r.push(rest_unit(&units[picked[k]].1));
        k += 1;
    }
    r
}

/// Evaluates every eligible attacker of the requested attacker race against
/// every eligible defender of the requested defender race, in the game data
/// of `version`.
pub fn matchup(game_data: &GameData, version: &String, request: &MatchupRequest) -> (r: Result<
    MatchupResponse,
    Error,
>)
    requires
        crate::game_data::game_data_well_formed(game_data@),
    ensures
        lookup(game_data@, version@) is None ==> r == Err::<MatchupResponse, Error>(
            Error::UnsupportedVersion,
        ),
        lookup(game_data@, version@) matches Some(g) ==> {
            let a = eligible_units(g.unit_data@, request.attacker_race@);
            let d = eligible_units(g.unit_data@, request.defender_race@);
            &&& a.len() == 0 || d.len() == 0 ==> r == Err::<MatchupResponse, Error>(Error::NoSuchRace)
            &&& a.len() > 0 && d.len() > 0 ==> (r matches Ok(resp) && is_grid(resp, g, a, d))
        },
{
    let game = get_game(game_data, version)?;
    let attacker_units = get_units(game, &request.attacker_race)?;
    let defender_units = get_units(game, &request.defender_race)?;
    let ghost a = attacker_units@;
    let ghost d = defender_units@;
    let units = &game.unit_data;
    let weapons = &game.weapon_data;
    assert(game.well_formed());
    let mut rows: Vec<Vec<KillCalculation>> = Vec::new();
    let mut i: usize = 0;
    while i < attacker_units.len()
        invariant
            i <= a.len(),
            a == attacker_units@,
            d == defender_units@,
            *units == game.unit_data,
            *weapons == game.weapon_data,
            game.well_formed(),
            forall|x: int| 0 <= x < a.len() ==> #[trigger] a[x] < units@.len(),
            forall|x: int| 0 <= x < d.len() ==> #[trigger] d[x] < units@.len(),
            rows@.len() == i,
            forall|x: int| 0 <= x < i ==> (#[trigger] rows@[x])@.len() == d.len(),
            forall|x: int, y: int|
                0 <= x < i && 0 <= y < d.len() ==> (#[trigger] rows@[x]@[y]) == kill_calculation(
                    units@[a[x] as int].1,
                    units@[d[y] as int].1,
                    weapons@,
                ),
        decreases a.len() - i,
    {
        let attacker = &units[attacker_units[i]].1;
        let mut row: Vec<KillCalculation> = Vec::new();
        let mut j: usize = 0;
        while j < defender_units.len()
            invariant
                j <= d.len(),
                i < a.len(),
                a == attacker_units@,
                d == defender_units@,
                *units == game.unit_data,
                *weapons == game.weapon_data,
                game.well_formed(),
                *attacker == units@[a[i as int] as int].1,
                forall|x: int| 0 <= x < d.len() ==> #[trigger] d[x] < units@.len(),
                row@.len() == j,
                forall|y: int|
                    0 <= y < j ==> (#[trigger] row@[y]) == kill_calculation(
                        units@[a[i as int] as int].1,
                        units@[d[y] as int].1,
                        weapons@,
                    ),
            decreases d.len() - j,
        {
            let defender = &units[defender_units[j]].1;
            assert(units@[d[j as int] as int].1.stats_in_range());
            row.push(calculate_kill(attacker, defender, weapons));
            j += 1;
        }
        rows.push(row);
        i += 1;
    }
    Ok(MatchupResponse {
        attackers: rest_units(units, &attacker_units),
        defenders: rest_units(units, &defender_units),
        attacker_upgrades: Vec::new(),
        defender_upgrades: Vec::new(),
        kill_calculations: rows,
    })
}

/// An attacker whose weapon deals negligible damage to the defender in
/// every node of its effect tree cannot hit it: no hits, no time.
pub proof fn lemma_negligible_weapon_cannot_hit(
    attacker: Unit,
    defender: Unit,
    weapons: Seq<(String, Weapon)>,
)
    requires
        weapon_of(attacker, weapons) matches Some(w) ==> all_negligible(w.effect, defender),
    ensures
        kill_calculation(attacker, defender, weapons) == (KillCalculation {
            can_hit: false,
            hits: 0,
            time: 0,
            completed: false,
        }),
{
    if let Some(w) = weapon_of(attacker, weapons) {
        lemma_negligible_tree_expands_to_nothing(w.effect, defender);
    }
}

/// An attacker without weapons cannot hit.
pub proof fn lemma_unarmed_attacker_cannot_hit(
    attacker: Unit,
    defender: Unit,
    weapons: Seq<(String, Weapon)>,
)
    requires
        attacker.weapons@.len() == 0,
    ensures
        kill_calculation(attacker, defender, weapons) == (KillCalculation {
            can_hit: false,
            hits: 0,
            time: 0,
            completed: false,
        }),
{
}

/// The calculation depends on its inputs alone: equal inputs give equal
/// results.
pub proof fn lemma_kill_calculation_deterministic(
    attacker: Unit,
    defender: Unit,
    weapons: Seq<(String, Weapon)>,
    other_attacker: Unit,
    other_defender: Unit,
    other_weapons: Seq<(String, Weapon)>,
)
    requires
        attacker == other_attacker,
        defender == other_defender,
        weapons == other_weapons,
    ensures
        kill_calculation(attacker, defender, weapons) == kill_calculation(
            other_attacker,
            other_defender,
            other_weapons,
        ),
{
}

/// The two units fight alike: the same first weapon (or none), the same
/// defenses, the same attributes.
pub open spec fn same_profile(a: Unit, b: Unit) -> bool {
    &&& a.weapons@.len() == 0 <==> b.weapons@.len() == 0
    &&& a.weapons@.len() > 0 ==> a.weapons@[0]@ == b.weapons@[0]@
    &&& same_defenses(a, b)
    &&& same_attributes(a, b)
}

/// Two units that fight alike fare the same against each other, whichever
/// attacks, and the same as against themselves.
pub proof fn lemma_matched_units_fare_alike(a: Unit, b: Unit, weapons: Seq<(String, Weapon)>)
    requires
        same_profile(a, b),
    ensures
        kill_calculation(a, b, weapons) == kill_calculation(b, a, weapons),
        kill_calculation(a, b, weapons) == kill_calculation(a, a, weapons),
        kill_calculation(a, b, weapons) == kill_calculation(b, b, weapons),
{
    assert(weapon_of(a, weapons) == weapon_of(b, weapons));
    if let Some(w) = weapon_of(a, weapons) {
        lemma_expansion_depends_on_attributes(w.effect, a, b);
        lemma_outcome_depends_on_defenses(expansion(w.effect, a), w.period as int, a, b);
    }
}

} // verus!
