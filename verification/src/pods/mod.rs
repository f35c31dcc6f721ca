//! Built-in pod types.
//!
//! - [`speaker::SpeakerPod`]: echoes the text of each task back, routed to
//!   the task's channel.
//! - [`pod::Pod`]: an evolving pod that carries a [`genome::Genome`].
//! - [`ping::Ping`]: answers ping and pong.
use vstd::prelude::*;

pub mod genome;
pub mod ping;
pub mod pod;
pub mod speaker;


verus! {

/// Type of message that a plain pod can receive.
#[derive(Clone, Debug)]
pub enum PodMessage {
    Text(String),
}

/// Type of message that a plain pod can return.
#[derive(Clone, Copy, Debug, PartialEq, Eq)]
pub enum PodResponse {
    /// The message was taken.
    Accepted,
    /// The message was refused.
    Refused,
}

} // verus!
