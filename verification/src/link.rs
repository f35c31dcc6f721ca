//! Link / communication layer: the messages the hive and pods exchange.
use vstd::prelude::*;

verus! {

/// Parameters of a pod that the hive spawns.
#[derive(Clone, Copy, Debug, PartialEq, Eq)]
pub struct PodConfig;

/// Type of message that a pod can receive from the hive.
#[derive(Clone, Debug)]
pub enum PodMessage {
    Kill,
    Replicate,
    Query(String),
}

/// Type of message that a pod can return to the hive.
#[derive(Clone, Debug)]
pub enum PodResponse {
    /// The pod answered with a text.
    Response(String),
    /// The pod could not answer.
    Error,
}

} // verus!
