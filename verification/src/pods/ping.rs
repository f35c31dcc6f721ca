//! The ping pod: answers each ping message with the matching reply.
use vstd::prelude::*;

verus! {

/// Type of message that ping can receive.
#[derive(Clone, Copy, Debug, PartialEq, Eq)]
pub enum PingMessages {
    Ping,
    Pong,
}

/// Type of messages that ping can return.
#[derive(Clone, Copy, Debug, PartialEq, Eq)]
pub enum PingResponses {
    GotPing,
    GotPong,
}

/// The ping pod.
#[derive(Clone, Copy, Debug)]
pub struct Ping;

impl Ping {
    /// Answer `Ping` with `GotPing` and `Pong` with `GotPong`.
    pub fn handle(&mut self, msg: PingMessages) -> (r: PingResponses)
        ensures
            r == (match msg {
                PingMessages::Ping => PingResponses::GotPing,
                PingMessages::Pong => PingResponses::GotPong,
            }),
    {
        match msg {
            PingMessages::Ping => PingResponses::GotPing,
            PingMessages::Pong => PingResponses::GotPong,
        }
    }
}

} // verus!
