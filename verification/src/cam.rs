//! Viewing-condition parameters of the color appearance model.
use vstd::prelude::*;

verus! {

/// Surround condition of a viewing environment.
#[derive(Debug, Clone, Copy, PartialEq, Eq)]
pub enum Surround {
    Average,
    Dim,
    Dark,
    Cutsheet,
}

/// The numeric code of a surround condition (1 to 4).
pub open spec fn surround_value(s: Surround) -> u32 {
    match s {
        Surround::Average => 1,
        Surround::Dim => 2,
        Surround::Dark => 3,
        Surround::Cutsheet => 4,
    }
}

impl Surround {
    /// The numeric code of the surround condition.
    pub fn value(self) -> (r: u32)
        ensures
            r == surround_value(self),
    {
        match self {
            Surround::Average => 1,
            Surround::Dim => 2,
            Surround::Dark => 3,
            Surround::Cutsheet => 4,
        }
    }
}

} // verus!
