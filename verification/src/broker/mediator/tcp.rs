//! `CONNECT`: hold the reply while deciding, then splice with half-close.

use vstd::prelude::*;

use crate::broker::mediator::socks5::{encode_reply, reply, reply_bytes};
use crate::broker::mediator::{bare_reply, unspecified};
use crate::ip::SocketAddr;
use crate::time::Duration;

verus! {

/// How long connecting upstream may take.
pub const CONNECT_TIMEOUT: Duration = 15_000_000_000;

/// What became of connecting upstream.
#[derive(Debug, Clone, Copy, PartialEq, Eq, Structural)]
pub enum Connected {
    /// It worked; the local address, where that is known.
    At(Option<SocketAddr>),
    Refused,
    NetworkUnreachable,
    HostUnreachable,
    TimedOut,
    /// Any other error.
    Failed,
}

/// The reply code for an attempt to connect.
pub open spec fn code_of(connected: Connected) -> u8 {
    match connected {
        Connected::At(_) => reply::SUCCEEDED,
        Connected::Refused => reply::CONNECTION_REFUSED,
        Connected::NetworkUnreachable => reply::NETWORK_UNREACHABLE,
        Connected::HostUnreachable => reply::HOST_UNREACHABLE,
        Connected::TimedOut => reply::HOST_UNREACHABLE,
        Connected::Failed => reply::GENERAL_FAILURE,
    }
}

/// The reply code for an attempt to connect.
pub fn reply_for(connected: Connected) -> (r: u8)
    ensures
        r == code_of(connected),
{
    match connected {
        Connected::At(_) => reply::SUCCEEDED,
        Connected::Refused => reply::CONNECTION_REFUSED,
        Connected::NetworkUnreachable => reply::NETWORK_UNREACHABLE,
        Connected::HostUnreachable => reply::HOST_UNREACHABLE,
        Connected::TimedOut => reply::HOST_UNREACHABLE,
        Connected::Failed => reply::GENERAL_FAILURE,
    }
}

/// The reply to a `CONNECT` that was admitted.
pub fn connect_reply(connected: Connected) -> (r: Vec<u8>)
    ensures
        r@ == reply_bytes(
            code_of(connected),
            match connected {
                Connected::At(Some(bound)) => bound,
                _ => unspecified(),
            },
        ),
{
    let code = reply_for(connected);
    match connected {
        Connected::At(Some(bound)) => encode_reply(code, bound),
        _ => bare_reply(code),
    }
}

/// The reply to a `CONNECT` whose name could not be resolved.
pub fn unresolved_reply() -> (r: Vec<u8>)
    ensures
        r@ == reply_bytes(reply::HOST_UNREACHABLE, unspecified()),
{
    bare_reply(reply::HOST_UNREACHABLE)
}

/// The reply to a `CONNECT` that was not admitted.
pub fn denied_reply() -> (r: Vec<u8>)
    ensures
        r@ == reply_bytes(reply::NOT_ALLOWED, unspecified()),
{
    bare_reply(reply::NOT_ALLOWED)
}

/// What a client is told of a connection.
pub proof fn law_reply_codes(connected: Connected)
    ensures
        code_of(connected) == match connected {
            Connected::At(_) => 0u8,
            Connected::Failed => 1u8,
            Connected::NetworkUnreachable => 3u8,
            Connected::HostUnreachable => 4u8,
            Connected::TimedOut => 4u8,
            Connected::Refused => 5u8,
        },
{
}

} // verus!
