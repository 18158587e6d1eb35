//! What can go wrong when a graph is queried or a target is resolved.

use vstd::prelude::*;

verus! {

/// The failures that the library reports.
#[derive(Debug, PartialEq, Eq)]
pub enum FlowError {
    /// No node goes by this key (or, for a lookup by index, by this index).
    NodeNotFound(u64),
    /// No edge has this index.
    EdgeNotFound(usize),
    /// Nothing produces the item with this key.
    NoProducer(u64),
    /// A recipe that could produce the item takes no time or yields nothing of it.
    InvalidPayload,
    /// Resolution came back to a key that it is still resolving; the keys
    /// from the target down to the repeated one.
    CycleDetected(Vec<u64>),
    /// An exact rate left the range of 64-bit numerators and denominators.
    RateOverflow,
}

/// [`FlowError`] as contracts speak of it.
pub enum Failure {
    NodeNotFound(u64),
    EdgeNotFound(usize),
    NoProducer(u64),
    InvalidPayload,
    CycleDetected(Seq<u64>),
    RateOverflow,
}

impl View for FlowError {
    type V = Failure;

    open spec fn view(&self) -> Failure {
        match *self {
            FlowError::NodeNotFound(key) => Failure::NodeNotFound(key),
            FlowError::EdgeNotFound(index) => Failure::EdgeNotFound(index),
            FlowError::NoProducer(key) => Failure::NoProducer(key),
            FlowError::InvalidPayload => Failure::InvalidPayload,
            FlowError::CycleDetected(path) => Failure::CycleDetected(path@),
            FlowError::RateOverflow => Failure::RateOverflow,
        }
    }
}

} // verus!
