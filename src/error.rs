use vstd::prelude::*;

verus! {

/// Why a request to the kill calculator was rejected.
#[derive(Debug, Clone, Copy, PartialEq, Eq, Structural)]
pub enum Error {
    /// No game data is loaded for the requested version.
    UnsupportedVersion,
    /// The requested race has no unit that can fight.
    NoSuchRace,
    /// A catalog record breaks an invariant of the data model.
    MalformedCatalog,
}

} // verus!
