//! The kinds of failure reported by the parsers and the lookups.
use vstd::prelude::*;
use crate::text::equal_bytes;

verus! {

/// What went wrong while reading a simulation or querying it.
#[derive(Debug, Clone)]
pub enum SimulationError {
    /// A file could not be opened or read.
    Io,
    /// The header or the log does not have the expected shape. Where a word of
    /// a `.step` line is not `name=value`, that word is given.
    MalformedHeader(Option<Vec<u8>>),
    /// The data ended too early: no binary marker, or a short payload.
    UnexpectedEof,
    /// The step is not one of the simulation's steps.
    StepNotFound,
    /// The variable is not one of the simulation's variables.
    VariableNotFound,
    /// No frequency sample reaches the requested frequency.
    FrequencyNotFound,
    /// An index lies beyond the end of the data.
    IndexOutOfRange,
    /// The requested view of the data is not supported.
    Unimplemented,
}

/// What a `SimulationError` holds, as plain values.
pub enum ErrorView {
    Io,
    MalformedHeader(Option<Seq<u8>>),
    UnexpectedEof,
    StepNotFound,
    VariableNotFound,
    FrequencyNotFound,
    IndexOutOfRange,
    Unimplemented,
}

impl View for SimulationError {
    type V = ErrorView;

    open spec fn view(&self) -> ErrorView {
        match self {
            SimulationError::Io => ErrorView::Io,
            SimulationError::MalformedHeader(w) => ErrorView::MalformedHeader(
                match w {
                    Some(v) => Some(v@),
                    None => None,
                },
            ),
            SimulationError::UnexpectedEof => ErrorView::UnexpectedEof,
            SimulationError::StepNotFound => ErrorView::StepNotFound,
            SimulationError::VariableNotFound => ErrorView::VariableNotFound,
            SimulationError::FrequencyNotFound => ErrorView::FrequencyNotFound,
            SimulationError::IndexOutOfRange => ErrorView::IndexOutOfRange,
            SimulationError::Unimplemented => ErrorView::Unimplemented,
        }
    }
}

impl PartialEq for SimulationError {
    fn eq(&self, o: &SimulationError) -> (r: bool) {
        match (self, o) {
            (SimulationError::Io, SimulationError::Io) => true,
            (SimulationError::MalformedHeader(a), SimulationError::MalformedHeader(b)) => match (
                a,
                b,
            ) {
                (None, None) => true,
                (Some(x), Some(y)) => equal_bytes(x.as_slice(), y.as_slice()),
                _ => false,
            },
            (SimulationError::UnexpectedEof, SimulationError::UnexpectedEof) => true,
            (SimulationError::StepNotFound, SimulationError::StepNotFound) => true,
            (SimulationError::VariableNotFound, SimulationError::VariableNotFound) => true,
            (SimulationError::FrequencyNotFound, SimulationError::FrequencyNotFound) => true,
            (SimulationError::IndexOutOfRange, SimulationError::IndexOutOfRange) => true,
            (SimulationError::Unimplemented, SimulationError::Unimplemented) => true,
            _ => false,
        }
    }
}

impl vstd::std_specs::cmp::PartialEqSpecImpl for SimulationError {
    open spec fn obeys_eq_spec() -> bool {
        true
    }

    open spec fn eq_spec(&self, o: &SimulationError) -> bool {
        self@ == o@
    }
}

} // verus!
