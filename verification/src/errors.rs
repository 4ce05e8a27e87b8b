//! Error conditions of the optimiser. All of them are recoverable and are
//! surfaced to the caller; no verified function of this crate panics.

use vstd::prelude::*;

verus! {

/// The ways an optimiser operation can fail.
#[derive(Clone, Copy, Debug, PartialEq, Eq, Structural)]
pub enum FacilityError {
    /// More machines were supplied than the grid has cells.
    CapacityError,
    /// Crossover was attempted on two facilities of different dimensions.
    DimensionMismatch,
    /// A tournament larger than the whole population was requested.
    InvalidTournamentSize,
    /// A selection was requested from a population with no specimens.
    EmptyPopulation,
    /// No cumulative likelihood bound reached the roulette draw.
    SelectionExhausted,
    /// A flow record references a machine absent from the facility.
    InconsistentFlowReference,
}

impl FacilityError {
    /// A short human-readable account of the failure.
    pub fn describe(&self) -> (r: &'static str)
        ensures
            r@.len() > 0,
    {
        let s = match self {
            FacilityError::CapacityError => "The interior must be able to fit all of the machines!",
            FacilityError::DimensionMismatch => {
                "Crossover requires both facilities to share their dimensions."
            },
            FacilityError::InvalidTournamentSize => {
                "The tournament size must be less than or equal the total specimen count."
            },
            FacilityError::EmptyPopulation => "There are no specimens to choose from.",
            FacilityError::SelectionExhausted => {
                "No specimen has likelihood_bound as high as the guess."
            },
            FacilityError::InconsistentFlowReference => {
                "A flow references a machine that is not placed in the facility."
            },
        };
        proof {
            reveal_strlit("The interior must be able to fit all of the machines!");
            reveal_strlit("Crossover requires both facilities to share their dimensions.");
            reveal_strlit("The tournament size must be less than or equal the total specimen count.");
            reveal_strlit("There are no specimens to choose from.");
            reveal_strlit("No specimen has likelihood_bound as high as the guess.");
            reveal_strlit("A flow references a machine that is not placed in the facility.");
        }
        s
    }
}

} // verus!
