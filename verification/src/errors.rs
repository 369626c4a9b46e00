use vstd::prelude::*;

verus! {

/// The ways in which a simulation operation can fail.
#[derive(Debug)]
pub enum SimulationError {
    /// An entity lacks a component the operation needs.
    ComponentNotFound(String),
    /// Reading or writing a file failed; the message says why.
    Io(String),
    /// A JSON document could not be read or written; the message says why.
    SerdeJson(String),
    /// A lock could not be taken.
    MutexLockError(String),
    /// A value did not have the expected type.
    DowncastFailed(String),
    /// A road names a city that is not known.
    CityNotFound(String),
    /// An environment variable could not be read.
    EnvVarError(String),
    /// A recipe depends, directly or through other recipes, on itself.
    CircularDependency(String),
    /// A value that was expected was missing.
    UnwrapFailed(String),
}

} // verus!
