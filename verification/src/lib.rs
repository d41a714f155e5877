use vstd::prelude::*;

pub mod bridge;
pub mod cas;
pub mod log;
pub mod routes;
pub mod store;
pub mod sub;
pub mod hash;

verus! {

/// The ways an operation on the store can fail.
#[derive(Clone, Copy, Debug, PartialEq, Eq, Structural)]
pub enum Error {
    /// An unknown hash or route was asked for.
    NotFound,
    /// Storage or network input/output failed.
    IOFailure,
    /// The read options or the request were malformed.
    InvalidInput,
    /// The operation ran against a torn-down store or a dropped subscriber.
    Closed,
}

} // verus!
