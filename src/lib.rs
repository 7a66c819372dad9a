//! Reading and analysing the results of a stepped circuit simulation: the
//! results file (text header, then binary samples) and its log file.
//!
//! `SteppedSimulation::from_contents` builds the simulation from the two
//! files' bytes; its views slice out one variable in one step; the functions
//! of `analysis` search such a series for peaks, extremes, frequencies and
//! crossings.
pub mod analysis;
pub mod error;
pub mod samples;
pub mod simulation;
pub mod steps;
pub mod text;
pub mod variables;

pub use analysis::{
    find_peaks, find_value_near_freq, first_above, index_of_max, index_of_min, keys_of,
    maximum_penalty_term, minimum_penalty_term, next_value_around, order_key, peaks_near, DataType,
    PeakType, PenaltyTerm,
};
pub use error::SimulationError;
pub use simulation::{SteppedSimulation, VariableResult};
pub use steps::{parse_log, Step, SteppingVariable};
pub use variables::{parse_header, Header, SimulationVariable, VariableType};
