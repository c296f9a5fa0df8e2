use sc2_kill_calculator::effects::{damage_against, get_damage_instances, DamageInstance};
use sc2_kill_calculator::error::Error;
use sc2_kill_calculator::game_data::{
    load_game, AttributeBonuses, Unit, Weapon, WeaponData, WeaponEffect,
};
use sc2_kill_calculator::matchup::{calculate_kill, get_units, matchup};
use sc2_kill_calculator::names::{compare_names, sorted_names};
use sc2_kill_calculator::rest::{KillCalculation, MatchupRequest};
use sc2_kill_calculator::simulate::simulate_kill;
use sc2_kill_calculator::rocket;

fn fixed(x: f64) -> i64 {
    (x * 10000.0).round() as i64
}

fn defender(life: f64, shields: f64, armor: f64, regen: f64) -> Unit {
    Unit {
        ability_commands: vec!["attack".to_string()],
        invulnerable: false,
        life_max: fixed(life),
        life_armor: fixed(armor),
        life_regen_rate: fixed(regen),
        shields_max: fixed(shields),
        name: "Target".to_string(),
        race: "zerg".to_string(),
        weapons: Vec::new(),
        armored: false,
        biological: false,
        light: false,
        massive: false,
        mechanical: false,
    }
}

fn attacker(weapons: &[&str]) -> Unit {
    let mut u = defender(100.0, 0.0, 0.0, 0.0);
    u.name = "Attacker".to_string();
    u.weapons = weapons.iter().map(|w| w.to_string()).collect();
    u
}

fn leaf(dmg: f64, count: Option<i32>, periods: Option<Vec<f64>>) -> WeaponEffect {
    WeaponEffect {
        dmg_amount: Some(fixed(dmg)),
        impact: None,
        dmg_attribute_bonuses: None,
        persistent_count: count,
        persistent_periods: periods.map(|p| p.into_iter().map(fixed).collect()),
        set_effects: None,
    }
}

fn arsenal(period: f64, effect: WeaponEffect) -> WeaponData {
    vec![(
        "Gun".to_string(),
        Weapon {
            disabled: false,
            effect,
            filter_requires: Vec::new(),
            name: "Gun".to_string(),
            period: fixed(period),
        },
    )]
}

fn times(instances: &[DamageInstance]) -> Vec<i64> {
    instances.iter().map(|d| d.time).collect()
}

#[test]
fn ten_damage_kills_hundred_life_in_ten_hits() {
    let weapons = arsenal(1.0, leaf(10.0, Some(1), None));
    let r = calculate_kill(&attacker(&["Gun"]), &defender(100.0, 0.0, 0.0, 0.0), &weapons);
    assert_eq!(KillCalculation { can_hit: true, hits: 10, time: fixed(9.0), completed: true }, r);
}

#[test]
fn attacker_without_weapons_cannot_hit() {
    let weapons = arsenal(1.0, leaf(10.0, None, None));
    let r = calculate_kill(&attacker(&[]), &defender(100.0, 0.0, 0.0, 0.0), &weapons);
    assert_eq!(KillCalculation { can_hit: false, hits: 0, time: 0, completed: false }, r);
}

#[test]
fn attacker_with_unknown_weapon_cannot_hit() {
    let weapons = arsenal(1.0, leaf(10.0, None, None));
    let r = calculate_kill(&attacker(&["Laser"]), &defender(100.0, 0.0, 0.0, 0.0), &weapons);
    assert_eq!(KillCalculation { can_hit: false, hits: 0, time: 0, completed: false }, r);
}

#[test]
fn matched_units_fare_alike_both_ways() {
    let mut first = defender(100.0, 50.0, 1.0, 0.0);
    first.name = "First".to_string();
    first.race = "protoss".to_string();
    first.weapons = vec!["Gun".to_string()];
    let mut second = defender(100.0, 50.0, 1.0, 0.0);
    second.name = "Second".to_string();
    second.race = "protoss".to_string();
    second.weapons = vec!["Gun".to_string()];
    let game = load_game(
        vec![("First".to_string(), first), ("Second".to_string(), second)],
        arsenal(1.2, leaf(8.0, Some(2), None)),
        Vec::new(),
    )
    .unwrap();
    let game_data = rocket(vec![("v1".to_string(), game)]);
    let request = MatchupRequest { attacker_race: "protoss".to_string(), defender_race: "protoss".to_string() };
    let grid = matchup(&game_data, &"v1".to_string(), &request).unwrap().kill_calculations;
    assert_eq!(grid[0][1], grid[1][0]);
    assert_eq!(grid[0][0], grid[1][1]);
    assert_eq!(grid[0][0], grid[0][1]);
    assert_eq!(KillCalculation { can_hit: true, hits: 11, time: fixed(12.0), completed: true }, grid[0][1]);
}

#[test]
fn regeneration_faster_than_damage_reaches_attack_limit() {
    let weapons = arsenal(1.0, leaf(10.0, None, None));
    let r = calculate_kill(&attacker(&["Gun"]), &defender(100.0, 0.0, 0.0, 20.0), &weapons);
    assert_eq!(KillCalculation { can_hit: true, hits: 999, time: fixed(998.0), completed: false }, r);
}

#[test]
fn attack_limit_counts_instances_not_firings() {
    let weapons = arsenal(1.0, leaf(1.0, Some(2), None));
    let r = calculate_kill(&attacker(&["Gun"]), &defender(100.0, 0.0, 0.0, 100.0), &weapons);
    // 999 instances at two per firing: 500 firings, the last one at 499 s.
    assert_eq!(KillCalculation { can_hit: true, hits: 500, time: fixed(499.0), completed: false }, r);
}

#[test]
fn without_shields_armor_is_floored_at_minimum_damage() {
    let weapons = arsenal(1.0, leaf(10.0, None, None));
    let r = calculate_kill(&attacker(&["Gun"]), &defender(10.0, 0.0, 20.0, 0.0), &weapons);
    // 0.5 per hit: 19 hits leave 0.5 life.
    assert_eq!(KillCalculation { can_hit: true, hits: 19, time: fixed(18.0), completed: true }, r);
}

#[test]
fn shields_absorb_then_spill_after_armor() {
    let weapons = arsenal(2.0, leaf(8.0, None, None));
    // 5 shields take 5 of the first hit; 3 spill over, 1 after armor.
    // Then 6 per hit: 10 -> 9 -> 3 -> dead.
    let r = calculate_kill(&attacker(&["Gun"]), &defender(10.0, 5.0, 2.0, 0.0), &weapons);
    assert_eq!(KillCalculation { can_hit: true, hits: 3, time: fixed(4.0), completed: true }, r);
}

#[test]
fn shields_hold_a_smaller_hit_entirely() {
    let weapons = arsenal(1.0, leaf(4.0, None, None));
    // 10 shields: 6, 2, then 4 spills 2 into life, leaving 1; one more hit kills.
    let r = calculate_kill(&attacker(&["Gun"]), &defender(3.0, 10.0, 0.0, 0.0), &weapons);
    assert_eq!(KillCalculation { can_hit: true, hits: 4, time: fixed(3.0), completed: true }, r);
}

#[test]
fn regeneration_between_hits_is_counted() {
    let weapons = arsenal(0.8608, leaf(6.0, None, None));
    // Six hits leave 35 - 36 + 5 * 0.8608 * 0.2734 = 0.18 life.
    let r = calculate_kill(&attacker(&["Gun"]), &defender(35.0, 0.0, 0.0, 0.2734), &weapons);
    assert_eq!(KillCalculation { can_hit: true, hits: 6, time: fixed(4.30), completed: true }, r);
}

#[test]
fn time_is_rounded_half_away_from_zero() {
    let weapons = arsenal(0.125, leaf(10.0, None, None));
    let r = calculate_kill(&attacker(&["Gun"]), &defender(20.0, 0.0, 0.0, 0.0), &weapons);
    assert_eq!(KillCalculation { can_hit: true, hits: 2, time: fixed(0.13), completed: true }, r);
}

#[test]
fn negligible_tree_cannot_hit() {
    let mut tree = leaf(0.01, Some(3), Some(vec![0.5]));
    tree.set_effects = Some(vec![leaf(0.005, Some(2), None), leaf(-4.0, None, None)]);
    let target = defender(100.0, 0.0, 0.0, 0.0);
    assert!(get_damage_instances(&tree, &target).is_empty());
    let weapons = arsenal(1.0, tree);
    let r = calculate_kill(&attacker(&["Gun"]), &target, &weapons);
    assert_eq!(KillCalculation { can_hit: false, hits: 0, time: 0, completed: false }, r);
}

#[test]
fn empty_instances_cannot_hit() {
    let r = simulate_kill(&Vec::new(), fixed(1.0), &defender(100.0, 0.0, 0.0, 0.0));
    assert_eq!(KillCalculation { can_hit: false, hits: 0, time: 0, completed: false }, r);
}

#[test]
fn repeats_reuse_delays_in_turn() {
    let tree = leaf(2.0, Some(5), Some(vec![0.1, 0.3]));
    let instances = get_damage_instances(&tree, &defender(100.0, 0.0, 0.0, 0.0));
    assert_eq!(vec![0, fixed(0.1), fixed(0.4), fixed(0.5), fixed(0.8)], times(&instances));
    assert!(instances.iter().all(|d| d.dmg_amount == fixed(2.0)));
}

#[test]
fn absent_delays_fire_repeats_together() {
    let tree = leaf(3.0, Some(3), None);
    let instances = get_damage_instances(&tree, &defender(100.0, 0.0, 0.0, 0.0));
    assert_eq!(vec![0, 0, 0], times(&instances));
}

#[test]
fn nested_effects_come_out_sorted_and_stable() {
    let mut tree = leaf(1.0, Some(2), Some(vec![1.0]));
    tree.set_effects = Some(vec![leaf(2.0, Some(3), Some(vec![0.7]))]);
    let instances = get_damage_instances(&tree, &defender(100.0, 0.0, 0.0, 0.0));
    let expected = vec![
        (0.0, 1.0),
        (0.0, 2.0),
        (0.7, 2.0),
        (1.0, 1.0),
        (1.0, 2.0),
        (1.4, 2.0),
        (1.7, 2.0),
        (2.4, 2.0),
    ];
    let expected: Vec<DamageInstance> = expected
        .into_iter()
        .map(|(t, d)| DamageInstance { time: fixed(t), dmg_amount: fixed(d) })
        .collect();
    assert_eq!(expected, instances);
}

#[test]
fn bonus_damage_applies_to_matching_attributes() {
    let mut tree = leaf(6.0, None, None);
    tree.dmg_attribute_bonuses = Some(AttributeBonuses {
        armored: Some(fixed(4.0)),
        biological: None,
        light: Some(fixed(1.5)),
        massive: None,
        mechanical: Some(fixed(2.0)),
    });
    let mut target = defender(100.0, 0.0, 0.0, 0.0);
    assert_eq!(fixed(6.0), damage_against(&tree, &target));
    target.armored = true;
    target.mechanical = true;
    assert_eq!(fixed(12.0), damage_against(&tree, &target));
    let instances = get_damage_instances(&tree, &target);
    assert_eq!(vec![DamageInstance { time: 0, dmg_amount: fixed(12.0) }], instances);
}

#[test]
fn repeated_calculation_gives_the_same_result() {
    let weapons = arsenal(0.8608, leaf(6.0, Some(2), Some(vec![0.25])));
    let a = attacker(&["Gun"]);
    let d = defender(35.0, 20.0, 1.0, 0.2734);
    assert_eq!(calculate_kill(&a, &d, &weapons), calculate_kill(&a, &d, &weapons));
}

#[test]
fn malformed_records_are_rejected() {
    let zero_repeats = arsenal(1.0, leaf(1.0, Some(0), None));
    assert!(matches!(load_game(Vec::new(), zero_repeats, Vec::new()), Err(Error::MalformedCatalog)));
    let no_delays = arsenal(1.0, leaf(1.0, Some(2), Some(Vec::new())));
    assert!(matches!(load_game(Vec::new(), no_delays, Vec::new()), Err(Error::MalformedCatalog)));
    let long_firing = arsenal(1.0, leaf(1.0, Some(3), Some(vec![60_000_000.0])));
    assert!(matches!(load_game(Vec::new(), long_firing, Vec::new()), Err(Error::MalformedCatalog)));
    let mut nested = leaf(1.0, None, None);
    nested.set_effects = Some(vec![leaf(1.0, Some(-1), None)]);
    assert!(matches!(load_game(Vec::new(), arsenal(1.0, nested), Vec::new()), Err(Error::MalformedCatalog)));
    let huge = vec![("Huge".to_string(), defender(1e9, 0.0, 0.0, 0.0))];
    assert!(matches!(load_game(huge, Vec::new(), Vec::new()), Err(Error::MalformedCatalog)));
    let fine = arsenal(1.0, leaf(1.0, Some(3), Some(vec![20_000_000.0])));
    assert!(load_game(Vec::new(), fine, Vec::new()).is_ok());
}

#[test]
fn catalog_races_are_listed_once_in_order() {
    let mut units = Vec::new();
    for (id, race) in [("a", "zerg"), ("b", "protoss"), ("c", "zerg"), ("d", "neutral"), ("e", "terran")] {
        let mut u = defender(10.0, 0.0, 0.0, 0.0);
        u.race = race.to_string();
        units.push((id.to_string(), u));
    }
    let game = load_game(units, Vec::new(), Vec::new()).unwrap();
    assert_eq!(vec!["neutral", "protoss", "terran", "zerg"], game.races);
}

#[test]
fn eligible_units_keep_catalog_order() {
    let mut units = Vec::new();
    for (id, race, commands, invulnerable) in [
        ("a", "zerg", true, false),
        ("b", "zerg", false, false),
        ("c", "zerg", true, true),
        ("d", "terran", true, false),
        ("e", "zerg", true, false),
    ] {
        let mut u = defender(10.0, 0.0, 0.0, 0.0);
        u.race = race.to_string();
        u.invulnerable = invulnerable;
        if !commands {
            u.ability_commands = Vec::new();
        }
        units.push((id.to_string(), u));
    }
    let game = load_game(units, Vec::new(), Vec::new()).unwrap();
    assert_eq!(Ok(vec![0, 4]), get_units(&game, &"zerg".to_string()));
    assert_eq!(Err(Error::NoSuchRace), get_units(&game, &"protoss".to_string()));
}

#[test]
fn names_compare_character_by_character() {
    assert!(compare_names(&"neutral".to_string(), &"protoss".to_string()) < 0);
    assert!(compare_names(&"zerg".to_string(), &"terran".to_string()) > 0);
    assert!(compare_names(&"terr".to_string(), &"terran".to_string()) < 0);
    assert_eq!(0, compare_names(&"zerg".to_string(), &"zerg".to_string()));
    let sorted = sorted_names(&vec!["b".to_string(), "a".to_string(), "b".to_string(), "".to_string()]);
    assert_eq!(vec!["", "a", "b"], sorted);
}

#[test]
fn any_instance_deals_at_least_the_minimum() {
    let instances = vec![DamageInstance { time: fixed(0.5), dmg_amount: 0 }];
    // 0.5 per hit against 2 life: the third hit leaves 0.5, below one point.
    let r = simulate_kill(&instances, fixed(1.0), &defender(2.0, 0.0, 3.0, 0.0));
    assert_eq!(KillCalculation { can_hit: true, hits: 3, time: fixed(2.5), completed: true }, r);
}
