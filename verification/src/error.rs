//! Error taxonomy of the constraint-construction core.

use vstd::prelude::*;

verus! {

/// Faults raised by the big-integer gadget layer.
#[derive(Debug)]
pub enum UtilError {
    /// An invalid bit-width composition or similar gadget misuse.
    UIntError(String),
}

/// Faults raised while building circuits, registering them, or assigning
/// witnesses.
#[derive(Debug)]
pub enum ZKVMError {
    /// A constraint system rejected a malformed gadget composition.
    CircuitError,
    /// A wrapped big-integer gadget fault.
    UtilError(UtilError),
    /// A circuit name was queried before its witness was assigned.
    WitnessNotFound(String),
    /// No verifying key is registered under the queried circuit name.
    VKNotFound(String),
    /// No fixed trace is registered under the queried circuit name.
    FixedTraceNotFound(String),
    /// Verification failed, with a descriptive message.
    VerifyError(String),
    /// Two circuits were registered under the same name.
    DuplicateCircuit(String),
    /// An assignment or finalization step ran out of its required order.
    InvalidPhase(String),
}

impl From<UtilError> for ZKVMError {
    fn from(error: UtilError) -> (r: Self) {
        ZKVMError::UtilError(error)
    }
}

impl vstd::std_specs::convert::FromSpecImpl<UtilError> for ZKVMError {
    open spec fn obeys_from_spec() -> bool {
        true
    }

    open spec fn from_spec(error: UtilError) -> ZKVMError {
        ZKVMError::UtilError(error)
    }
}

} // verus!
