//! Combat kill calculation for a strategy game: how many attacks, and how
//! much time, one unit's weapon needs to kill another unit.
//!
//! Every decimal quantity in this crate (damage, life, armor, shields, life
//! regenerated per second, seconds) is a fixed-point number: an integer
//! count of ten-thousandths, so `12_500` stands for `1.25`.
use vstd::prelude::*;

pub mod effects;
pub mod error;
pub mod game_data;
pub mod matchup;
pub mod names;
pub mod rest;
pub mod simulate;

use crate::error::Error;
use crate::game_data::{game_data_well_formed, keys, last_value, lookup, Game, GameData};
use crate::matchup::get_game;
use crate::names::{names, sorted_names, strictly_ascending};
use crate::rest::{VersionResponse, VersionsResponse};

verus! {

/// Number of fixed-point units in one whole unit of any quantity.
pub const SCALE: i64 = 10_000;

/// Largest magnitude accepted for an amount (damage, life, armor, shields,
/// regeneration rate); `10^8` whole points.
pub const AMOUNT_LIMIT: i64 = 1_000_000_000_000;

/// Largest magnitude accepted for a duration (a weapon period, a delay
/// between repeats, or the whole extent of one firing); `10^8` seconds.
pub const DURATION_LIMIT: i64 = 1_000_000_000_000;

/// The game data to serve, from the versions as they were loaded: a version
/// loaded twice keeps its later game.
pub fn rocket(loaded: Vec<(String, Game)>) -> (r: GameData)
    ensures
        forall|id: Seq<char>| #[trigger] lookup(r@, id) == last_value(loaded@, id),
        game_data_well_formed(loaded@) ==> game_data_well_formed(r@),
{
    let ghost all = loaded@;
    let mut rest = loaded;
    let mut r: GameData = Vec::new();
    while rest.len() > 0
        invariant
            rest@.len() <= all.len(),
            game_data_well_formed(all) ==> game_data_well_formed(rest@) && game_data_well_formed(
                r@,
            ),
            forall|id: Seq<char>|
                #[trigger] last_value(all, id) == match lookup(r@, id) {
                    Some(g) => Some(g),
                    None => last_value(rest@, id),
                },
        decreases rest@.len(),
    {
        let ghost before = rest@;
        let ghost r_before = r@;
        let entry = rest.pop().unwrap();
        assert(rest@ == before.drop_last() && entry == before.last());
        match game_data::find_key(&r, &entry.0) {
            Some(_) => {},
            None => {
                r.push(entry);
                proof {
                    assert forall|id: Seq<char>| #[trigger]
                        lookup(r@, id) == match lookup(r_before, id) {
                            Some(g) => Some(g),
                            None => if entry.0@ == id {
                                Some(entry.1)
                            } else {
                                None
                            },
                        } by {
                        game_data::lemma_lookup_push(r_before, entry, id);
                    }
                }
            },
        }
        assert forall|id: Seq<char>| #[trigger]
            last_value(all, id) == match lookup(r@, id) {
                Some(g) => Some(g),
                None => last_value(rest@, id),
            } by {
            assert(last_value(before, id) == if entry.0@ == id {
                Some(entry.1)
            } else {
                last_value(rest@, id)
            });
        }
    }
    r
}

/// Every version of the game data, in ascending order.
pub fn versions(game_data: &GameData) -> (r: VersionsResponse)
    ensures
        strictly_ascending(names(r.versions@)),
        forall|v: Seq<char>| names(r.versions@).contains(v) <==> keys(game_data@).contains(v),
{
    let mut all: Vec<String> = Vec::new();
    let mut k: usize = 0;
    while k < game_data.len()
        invariant
            k <= game_data@.len(),
            names(all@) == keys(game_data@.take(k as int)),
        decreases game_data@.len() - k,
    {
        all.push(game_data[k].0.clone());
        assert(keys(game_data@.take(k + 1)) =~= keys(game_data@.take(k as int)).push(
            game_data@[k as int].0@,
        ));
        assert(names(all@) =~= keys(game_data@.take(k as int)).push(game_data@[k as int].0@));
        k += 1;
    }
    assert(game_data@.take(k as int) =~= game_data@);
    VersionsResponse { versions: sorted_names(&all) }
}

/// The races of the game data of `version_id`, in ascending order.
pub fn version(game_data: &GameData, version_id: &String) -> (r: Result<VersionResponse, Error>)
    ensures
        lookup(game_data@, version_id@) is None ==> r == Err::<VersionResponse, Error>(
            Error::UnsupportedVersion,
        ),
        lookup(game_data@, version_id@) matches Some(g) ==> (r matches Ok(resp) && strictly_ascending(
            names(resp.races@),
        ) && forall|x: Seq<char>| names(resp.races@).contains(x) <==> names(g.races@).contains(x)),
{
    let game = get_game(game_data, version_id)?;
    Ok(VersionResponse { races: sorted_names(&game.races) })
}

} // verus!
