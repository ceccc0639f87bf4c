//! SOCKS5 flow mediation.
//!
//! A connection to a sandbox's proxy goes through the greeting, the
//! credentials and the request; what to answer at each step, and what comes
//! next, is decided here.

pub mod grammar;
pub mod socks5;
pub mod tcp;
pub mod udp;

use vstd::prelude::*;

use crate::broker::mediator::grammar::GrammarError;
use crate::broker::mediator::socks5::reply;
use crate::broker::mediator::socks5::{
    encode_reply, reply_bytes, Address, AddressView, CodecError, Request, AUTH_VERSION,
    CMD_CONNECT, CMD_UDP_ASSOCIATE, METHOD_NONE_ACCEPTABLE, METHOD_USER_PASS, VERSION,
};
use crate::ip::{IpAddr, SocketAddr};

verus! {

/// The bound address of a reply that has none.
pub open spec fn unspecified() -> SocketAddr {
    SocketAddr { ip: IpAddr::V4(0), port: 0 }
}

/// A reply without a bound address.
pub fn bare_reply(code: u8) -> (r: Vec<u8>)
    ensures
        r@ == reply_bytes(code, unspecified()),
{
    encode_reply(code, SocketAddr { ip: IpAddr::V4(0), port: 0 })
}

/// The answer to a greeting, and whether the handshake goes on: only clients
/// that offer a user name and password are served.
pub fn greet(methods: &Vec<u8>) -> (r: ([u8; 2], bool))
    ensures
        r.1 == methods@.contains(METHOD_USER_PASS),
        r.0@ == seq![
            VERSION,
            if r.1 {
                METHOD_USER_PASS
            } else {
                METHOD_NONE_ACCEPTABLE
            },
        ],
{
    let mut i: usize = 0;
    while i < methods.len()
        invariant
            i <= methods@.len(),
            forall|k: int| 0 <= k < i ==> methods@[k] != METHOD_USER_PASS,
        decreases methods@.len() - i,
    {
        if methods[i] == METHOD_USER_PASS {
            assert(methods@[i as int] == METHOD_USER_PASS);
            let answer = [VERSION, METHOD_USER_PASS];
            assert(answer@ =~= seq![VERSION, METHOD_USER_PASS]);
            return (answer, true);
        }
        i += 1;
    }
    let answer = [VERSION, METHOD_NONE_ACCEPTABLE];
    assert(answer@ =~= seq![VERSION, METHOD_NONE_ACCEPTABLE]);
    (answer, false)
}

/// The answer to credentials.
pub fn authenticated(accepted: bool) -> (r: [u8; 2])
    ensures
        r@ == seq![
            AUTH_VERSION,
            if accepted {
                0u8
            } else {
                1u8
            },
        ],
{
    let answer = [
        AUTH_VERSION,
        if accepted {
            0
        } else {
            1
        },
    ];
    assert(answer@ =~= seq![
        AUTH_VERSION,
        if accepted {
            0u8
        } else {
            1u8
        },
    ]);
    answer
}

/// What a request leads to.
#[derive(Debug, PartialEq, Eq)]
pub enum Next {
    /// Connect to an address.
    Connect(Address),
    /// Relay datagrams.
    Associate,
    /// Refuse the name, and record that it is malformed.
    Malformed(GrammarError),
    /// Refuse the command.
    Unsupported,
    /// Drop the connection.
    Fail(CodecError),
}

/// A [`Next`] by its contents.
pub enum NextView {
    Connect(AddressView),
    Associate,
    Malformed(GrammarError),
    Unsupported,
    Fail(CodecError),
}

impl View for Next {
    type V = NextView;

    open spec fn view(&self) -> NextView {
        match self {
            Next::Connect(address) => NextView::Connect(address@),
            Next::Associate => NextView::Associate,
            Next::Malformed(error) => NextView::Malformed(*error),
            Next::Unsupported => NextView::Unsupported,
            Next::Fail(error) => NextView::Fail(*error),
        }
    }
}

/// What a request leads to.
pub open spec fn next_of(request: Result<(u8, AddressView), CodecError>) -> NextView {
    match request {
        Ok((command, address)) => if command == CMD_CONNECT {
            NextView::Connect(address)
        } else if command == CMD_UDP_ASSOCIATE {
            NextView::Associate
        } else {
            NextView::Unsupported
        },
        Err(CodecError::Domain(error)) => NextView::Malformed(error),
        Err(error) => NextView::Fail(error),
    }
}

/// What a request leads to.
pub fn next_step(request: Result<Request, CodecError>) -> (r: Next)
    ensures
        r@ == next_of(socks5::request_outcome(request)),
{
    match request {
        Ok(request) => match request.command {
            CMD_CONNECT => Next::Connect(request.address),
            CMD_UDP_ASSOCIATE => Next::Associate,
            _ => Next::Unsupported,
        },
        Err(CodecError::Domain(error)) => Next::Malformed(error),
        Err(error) => Next::Fail(error),
    }
}

/// The reply with which a request is refused, if it is refused with one.
pub fn refusal(next: &Next) -> (r: Option<Vec<u8>>)
    ensures
        match (r, next@) {
            (Some(bytes), NextView::Malformed(_)) => bytes@ == reply_bytes(
                reply::NOT_ALLOWED,
                unspecified(),
            ),
            (Some(bytes), NextView::Unsupported) => bytes@ == reply_bytes(
                reply::COMMAND_NOT_SUPPORTED,
                unspecified(),
            ),
            (None, NextView::Connect(_)) => true,
            (None, NextView::Associate) => true,
            (None, NextView::Fail(_)) => true,
            _ => false,
        },
{
    match next {
        Next::Malformed(_) => Some(bare_reply(reply::NOT_ALLOWED)),
        Next::Unsupported => Some(bare_reply(reply::COMMAND_NOT_SUPPORTED)),
        _ => None,
    }
}

/// Where a flow goes and the name that it claims: an address as it is, and a
/// name at the address that it was resolved to, the name being the only
/// candidate. `None` where it was not resolved.
pub open spec fn target_of(address: AddressView, resolved: Option<SocketAddr>) -> Option<
    (SocketAddr, Option<Seq<char>>),
> {
    match address {
        AddressView::Ip(target) => Some((target, None)),
        AddressView::Domain(name, port) => match resolved {
            Some(target) => Some((target, Some(name))),
            None => None,
        },
    }
}

/// Where a flow goes and the name that it claims; `resolved` is what a claimed
/// name was resolved to.
pub fn flow_target(address: Address, resolved: Option<SocketAddr>) -> (r: Option<
    (SocketAddr, Option<String>),
>)
    ensures
        match (r, target_of(address@, resolved)) {
            (Some((target, claimed)), Some(expected)) => (target, crate::text::opt_view(claimed))
                == expected,
            (None, None) => true,
            _ => false,
        },
{
    match address {
        Address::Ip(target) => Some((target, None)),
        Address::Domain(name, _) => match resolved {
            Some(target) => Some((target, Some(name))),
            None => None,
        },
    }
}

/// What is done with a request: it connects, associates, or is told that nothing else
/// can be done; a name that is not in order is malformed; and a name claims itself at the
/// address that it was resolved as.
pub proof fn law_requests_are_followed(
    command: u8,
    address: AddressView,
    error: CodecError,
    name: Seq<char>,
    port: u16,
    target: SocketAddr,
)
    ensures
        next_of(Ok((command, address))) == NextView::Connect(address) <==> command == 1,
        next_of(Ok((command, address))) == NextView::Associate <==> command == 3,
        command != 1 && command != 3 ==> next_of(Ok((command, address))) == NextView::Unsupported,
        error matches CodecError::Domain(why) ==> next_of(Err(error)) == NextView::Malformed(why),
        !(error is Domain) ==> next_of(Err(error)) == NextView::Fail(error),
        target_of(AddressView::Ip(target), None) == Some((target, None::<Seq<char>>)),
        target_of(AddressView::Domain(name, port), Some(target)) == Some((target, Some(name))),
        target_of(AddressView::Domain(name, port), None) is None,
{
}

} // verus!
