use sc2_kill_calculator::error::Error;
use sc2_kill_calculator::game_data::{
    load_game, Game, GameData, Unit, UnitData, Weapon, WeaponData, WeaponEffect,
};
use sc2_kill_calculator::matchup::matchup;
use sc2_kill_calculator::rest;
use sc2_kill_calculator::rocket;

static VERSION: &str = "v4.3.2.65384";
static PROTOSS: &str = "protoss";
static TERRAN: &str = "terran";
static ZERG: &str = "zerg";
static ZEALOT: &str = "Zealot";
static MARINE: &str = "Marine";
static ZERGLING: &str = "Zergling";

fn fixed(x: f64) -> i64 {
    (x * 10000.0).round() as i64
}

fn strings(v: &[&str]) -> Vec<String> {
    v.iter().map(|s| s.to_string()).collect()
}

fn unit(name: &str, race: &str, life: f64, shields: f64, armor: f64, regen: f64, weapon: Option<&str>) -> Unit {
    Unit {
        ability_commands: strings(&["attack", "move", "stop"]),
        invulnerable: false,
        life_max: fixed(life),
        life_armor: fixed(armor),
        life_regen_rate: fixed(regen),
        shields_max: fixed(shields),
        name: name.to_string(),
        race: race.to_string(),
        weapons: weapon.map(|w| vec![w.to_string()]).unwrap_or_default(),
        armored: false,
        biological: true,
        light: true,
        massive: false,
        mechanical: false,
    }
}

fn effect(dmg: f64, count: Option<i32>) -> WeaponEffect {
    WeaponEffect {
        dmg_amount: Some(fixed(dmg)),
        impact: None,
        dmg_attribute_bonuses: None,
        persistent_count: count,
        persistent_periods: None,
        set_effects: None,
    }
}

fn weapon(name: &str, period: f64, effect: WeaponEffect) -> Weapon {
    Weapon {
        disabled: false,
        effect,
        filter_requires: strings(&["Ground", "Visible"]),
        name: name.to_string(),
        period: fixed(period),
    }
}

fn fixture_game() -> Game {
    let mut tower = unit("XelNagaTower", "neutral", 200.0, 0.0, 0.0, 0.0, None);
    tower.invulnerable = true;
    tower.ability_commands = Vec::new();
    let mut pylon = unit("Pylon", PROTOSS, 200.0, 200.0, 1.0, 0.0, None);
    pylon.ability_commands = Vec::new();
    let mut depot = unit("SupplyDepot", TERRAN, 400.0, 0.0, 1.0, 0.0, None);
    depot.ability_commands = Vec::new();
    let units: UnitData = vec![
        ("XelNagaTower".to_string(), tower),
        (ZEALOT.to_string(), unit(ZEALOT, PROTOSS, 100.0, 50.0, 1.0, 0.0, Some("PsiBlades"))),
        ("Pylon".to_string(), pylon),
        (MARINE.to_string(), unit(MARINE, TERRAN, 45.0, 0.0, 0.0, 0.0, Some("GuassRifle"))),
        ("SupplyDepot".to_string(), depot),
        (ZERGLING.to_string(), unit(ZERGLING, ZERG, 35.0, 0.0, 0.0, 0.2734, Some("ZerglingMelee"))),
    ];
    let weapons: WeaponData = vec![
        ("PsiBlades".to_string(), weapon("PsiBlades", 1.2, effect(8.0, Some(2)))),
        ("GuassRifle".to_string(), weapon("GuassRifle", 0.8608, effect(6.0, None))),
        ("ZerglingMelee".to_string(), weapon("ZerglingMelee", 0.696, effect(5.0, None))),
    ];
    load_game(units, weapons, Vec::new()).expect("load_game() failed")
}

fn fixture() -> GameData {
    rocket(vec![(VERSION.to_string(), fixture_game())])
}

fn get_matchup(game_data: &GameData, attacker_race: &str, defender_race: &str) -> Result<rest::MatchupResponse, Error> {
    matchup(game_data, &VERSION.to_string(), &rest::MatchupRequest {
        attacker_race: String::from(attacker_race),
        defender_race: String::from(defender_race),
    })
}

fn kill_calculation<'a>(matchup: &'a rest::MatchupResponse, attacker: &str, defender: &str) -> &'a rest::KillCalculation {
    let attacker_idx = matchup.attackers.iter().position(|x| x.name == attacker)
        .unwrap_or_else(|| panic!("attacker {} not found", attacker));
    let defender_idx = matchup.defenders.iter().position(|x| x.name == defender)
        .unwrap_or_else(|| panic!("defender {} not found", defender));
    &matchup.kill_calculations[attacker_idx][defender_idx]
}

#[test]
fn versions() {
    let game_data = fixture();
    assert!(sc2_kill_calculator::versions(&game_data).versions.iter().find(|x| *x == VERSION).is_some());
}

#[test]
fn version() {
    let game_data = fixture();
    assert_eq!(vec!["neutral", PROTOSS, TERRAN, ZERG], sc2_kill_calculator::version(&game_data, &VERSION.to_string()).unwrap().races);
}

#[test]
fn p_v_p() {
    let game_data = fixture();
    let matchup = get_matchup(&game_data, PROTOSS, PROTOSS).unwrap();
    let calc = kill_calculation(&matchup, ZEALOT, ZEALOT);
    assert!(calc.can_hit);
    assert_eq!(11, calc.hits);
}

#[test]
fn p_v_t() {
    let game_data = fixture();
    let matchup = get_matchup(&game_data, PROTOSS, TERRAN);
    assert!(matchup.is_ok());
}

#[test]
fn p_v_z() {
    let game_data = fixture();
    let matchup = get_matchup(&game_data, PROTOSS, ZERG);
    assert!(matchup.is_ok());
}

#[test]
fn t_v_p() {
    let game_data = fixture();
    let matchup = get_matchup(&game_data, TERRAN, PROTOSS);
    assert!(matchup.is_ok());
}

#[test]
fn t_v_t() {
    let game_data = fixture();
    let matchup = get_matchup(&game_data, TERRAN, TERRAN);
    assert!(matchup.is_ok());
}

#[test]
fn t_v_z() {
    let game_data = fixture();
    let matchup = get_matchup(&game_data, TERRAN, ZERG);
    assert!(matchup.is_ok());
}

#[test]
fn z_v_t() {
    let game_data = fixture();
    let matchup = get_matchup(&game_data, ZERG, TERRAN);
    assert!(matchup.is_ok());
}

#[test]
fn z_v_p() {
    let game_data = fixture();
    let matchup = get_matchup(&game_data, ZERG, PROTOSS);
    assert!(matchup.is_ok());
}

#[test]
fn z_v_z() {
    let game_data = fixture();
    let matchup = get_matchup(&game_data, ZERG, ZERG);
    assert!(matchup.is_ok());
}

#[test]
fn matchup_lists_only_units_that_can_fight() {
    let game_data = fixture();
    let matchup = get_matchup(&game_data, PROTOSS, TERRAN).unwrap();
    let attackers: Vec<&str> = matchup.attackers.iter().map(|u| u.name.as_str()).collect();
    let defenders: Vec<&str> = matchup.defenders.iter().map(|u| u.name.as_str()).collect();
    assert_eq!(vec![ZEALOT], attackers);
    assert_eq!(vec![MARINE], defenders);
    assert_eq!(1, matchup.kill_calculations.len());
    assert_eq!(1, matchup.kill_calculations[0].len());
    assert!(matchup.attacker_upgrades.is_empty());
    assert!(matchup.defender_upgrades.is_empty());
}

#[test]
fn zealot_against_marine() {
    let game_data = fixture();
    let matchup = get_matchup(&game_data, PROTOSS, TERRAN).unwrap();
    // 8 per blade, two blades per firing, 45 life: six blades, three firings.
    assert_eq!(
        rest::KillCalculation { can_hit: true, hits: 3, time: fixed(2.4), completed: true },
        *kill_calculation(&matchup, ZEALOT, MARINE)
    );
}

#[test]
fn unknown_version_is_rejected() {
    let game_data = fixture();
    let request = rest::MatchupRequest { attacker_race: PROTOSS.to_string(), defender_race: ZERG.to_string() };
    assert_eq!(Err(Error::UnsupportedVersion), matchup(&game_data, &"v0".to_string(), &request));
    assert_eq!(Err(Error::UnsupportedVersion), sc2_kill_calculator::version(&game_data, &"v0".to_string()));
}

#[test]
fn race_without_fighters_is_rejected() {
    let game_data = fixture();
    assert_eq!(Err(Error::NoSuchRace), get_matchup(&game_data, "neutral", PROTOSS));
    assert_eq!(Err(Error::NoSuchRace), get_matchup(&game_data, PROTOSS, "neutral"));
    assert_eq!(Err(Error::NoSuchRace), get_matchup(&game_data, "xel'naga", ZERG));
}

#[test]
fn versions_are_listed_in_order_once() {
    let game_data = rocket(vec![
        ("v4.3.2.65384".to_string(), fixture_game()),
        ("v4.10.0.75689".to_string(), fixture_game()),
        ("v4.3.2.65384".to_string(), fixture_game()),
    ]);
    assert_eq!(2, game_data.len());
    assert_eq!(vec!["v4.10.0.75689", "v4.3.2.65384"], sc2_kill_calculator::versions(&game_data).versions);
}

#[test]
fn later_game_of_a_version_is_kept() {
    let mut second = fixture_game();
    second.unit_data.retain(|(id, _)| id != MARINE);
    let game_data = rocket(vec![
        (VERSION.to_string(), fixture_game()),
        (VERSION.to_string(), second),
    ]);
    assert_eq!(1, game_data.len());
    assert_eq!(Err(Error::NoSuchRace), get_matchup(&game_data, TERRAN, ZERG));
}
