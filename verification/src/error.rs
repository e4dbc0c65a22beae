use vstd::prelude::*;

verus! {

/// The ways in which the service fails.
#[derive(Clone, Copy, Debug, PartialEq, Eq, Structural)]
pub enum ServiceError {
    /// The engine could not be brought up; no service exists.
    EngineLoadError,
    /// A step of the engine failed; the driver has stopped for good.
    EngineStepError,
    /// A request id that is not, or no longer, registered.
    RequestNotFound,
    /// Admission parameters from which no request can be built.
    InvalidOptions,
    /// Every request id is taken by a request in flight.
    NoFreeId,
}

} // verus!
