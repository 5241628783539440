//! The parts of a collection package: its manifest, the card rows of its
//! index and the printing rows that point into its `images/` folder.
use vstd::prelude::*;

use crate::models::clone_opt;

verus! {

/// What a collection package says of itself.
#[derive(Clone, Debug, PartialEq, Eq)]
pub struct Manifest {
    pub version: String,
    pub language: String,
    pub generated_date: String,
}

/// One row of the card list that a collection is built from.
#[derive(Clone, Debug, PartialEq, Eq)]
pub struct CardMetadata {
    pub code: String,
    pub title: String,
    pub set_code: String,
    pub set_name: String,
    pub release_date: Option<String>,
    pub side: String,
    pub quantity: u32,
}

/// One image of a card inside a collection package.
#[derive(Clone, Debug, PartialEq, Eq)]
pub struct Printing {
    pub card_code: String,
    pub variant: String,
    pub part: String,
    pub file_name: String,
}

impl CardMetadata {
    /// A copy of the row, field by field.
    pub fn duplicate(&self) -> (r: Self)
        ensures
            r == *self,
    {
        CardMetadata {
            code: self.code.clone(),
            title: self.title.clone(),
            set_code: self.set_code.clone(),
            set_name: self.set_name.clone(),
            release_date: clone_opt(&self.release_date),
            side: self.side.clone(),
            quantity: self.quantity,
        }
    }
}

} // verus!
