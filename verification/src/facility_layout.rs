//! The flow table: the immutable list of directed material flows that a
//! layout is scored against.

use vstd::prelude::*;

verus! {

/// One directed flow: `amount` units travel from machine `source` to
/// machine `dest`, each unit costing `cost` per grid step.
#[derive(Clone, Copy, Debug, PartialEq, Eq, Structural)]
pub struct FacilityFlow {
    pub source: u64,
    pub dest: u64,
    pub amount: u64,
    pub cost: u64,
}

/// The full flow table a facility is evaluated against.
#[derive(Clone, Debug)]
pub struct FacilityLayout {
    pub facility_flows: Vec<FacilityFlow>,
}

} // verus!
