//! The three ways to ask for cards: a card list, a set name, or a deck URL
//! of NetrunnerDB.
use vstd::prelude::*;

verus! {

/// A card list, one card per line.
pub struct Cardlist(pub String);

/// The name of a set; every card of it is asked for.
pub struct SetName(pub String);

/// The URL of a NetrunnerDB deck list.
pub struct NrdbUrl(pub String);

} // verus!
