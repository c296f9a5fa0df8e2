//! The values that the kill calculator hands back to its callers.
use vstd::prelude::*;

verus! {

#[derive(Debug, PartialEq, Eq)]
pub struct VersionsResponse {
    pub versions: Vec<String>,
}

#[derive(Debug, PartialEq, Eq)]
pub struct VersionResponse {
    pub races: Vec<String>,
}

#[derive(Debug, PartialEq, Eq)]
pub struct MatchupRequest {
    pub attacker_race: String,
    pub defender_race: String,
}

#[derive(Debug, PartialEq, Eq)]
pub struct Unit {
    pub name: String,
}

#[derive(Debug, Clone, Copy, PartialEq, Eq, Structural)]
pub struct Upgrade {}

/// How one weapon fares against one defender.
#[derive(Debug, Clone, Copy, PartialEq, Eq, Structural)]
pub struct KillCalculation {
    /// The weapon deals damage to the defender at all.
    pub can_hit: bool,
    /// Firings of the weapon that were needed.
    pub hits: i32,
    /// Time of the last hit, in fixed-point seconds rounded to hundredths.
    pub time: i64,
    /// The defender died; false when the simulation reached its attack
    /// limit first, or when the weapon cannot hit.
    pub completed: bool,
}

#[derive(Debug, PartialEq, Eq)]
pub struct MatchupResponse {
    pub attackers: Vec<Unit>,
    pub defenders: Vec<Unit>,
    pub attacker_upgrades: Vec<Upgrade>,
    pub defender_upgrades: Vec<Upgrade>,
    /// One row per attacker, one entry per defender.
    pub kill_calculations: Vec<Vec<KillCalculation>>,
}

} // verus!
