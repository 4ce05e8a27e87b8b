//! A genetic optimiser for the facility-layout problem: machines are placed
//! on a grid so that the total material-flow cost, summed over a table of
//! directed flows, becomes as small as possible.

pub mod arith;
pub mod cell;
pub mod errors;
pub mod facility;
pub mod facility_configuration;
pub mod facility_layout;
mod randomness;
pub mod simulation;
pub mod specimen;
