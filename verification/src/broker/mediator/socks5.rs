//! SOCKS5 wire format (RFC 1928, RFC 1929), as used by microsandbox's client.
//!
//! Domain names go through the strict grammar and are rejected, never
//! repaired. UDP datagrams with a non-zero fragment field are rejected.
//!
//! A reader collects bytes from the connection and asks `..._needs` how many
//! more it has to fetch; at zero the message can be read.

pub mod reply;

use vstd::prelude::*;
use vstd::slice::slice_subrange;

use crate::broker::mediator::grammar::{hostname_error, validate_hostname, GrammarError};
use crate::ip::{
    be_bytes, be_value, lemma_be_bytes, lemma_pow256, push_be, read_be, IpAddr, SocketAddr,
};
use crate::text::{ascii_text, decimal, lowercase, push_decimal, to_lowercase};

verus! {

pub const VERSION: u8 = 5;

pub const AUTH_VERSION: u8 = 1;

pub const METHOD_USER_PASS: u8 = 2;

pub const METHOD_NONE_ACCEPTABLE: u8 = 0xff;

pub const CMD_CONNECT: u8 = 1;

pub const CMD_UDP_ASSOCIATE: u8 = 3;

pub const ATYP_IPV4: u8 = 1;

pub const ATYP_DOMAIN: u8 = 3;

pub const ATYP_IPV6: u8 = 4;

#[derive(Debug, PartialEq, Eq)]
pub enum Address {
    Ip(SocketAddr),
    /// Lowercased, grammar-checked name.
    Domain(String, u16),
}

/// An [`Address`] by its contents.
pub enum AddressView {
    Ip(SocketAddr),
    Domain(Seq<char>, u16),
}

#[derive(Debug, PartialEq, Eq)]
pub struct Request {
    pub command: u8,
    pub address: Address,
}

#[derive(Debug, Clone, Copy, PartialEq, Eq, Structural)]
pub enum CodecError {
    /// The connection ended inside a message.
    Io,
    Version(u8),
    Reserved,
    AddressType(u8),
    Domain(GrammarError),
    Fragmented,
    Truncated,
}

impl View for Address {
    type V = AddressView;

    open spec fn view(&self) -> AddressView {
        match self {
            Address::Ip(address) => AddressView::Ip(*address),
            Address::Domain(name, port) => AddressView::Domain(name@, *port),
        }
    }
}

impl CodecError {
    pub open spec fn spec_text(self) -> Seq<char> {
        match self {
            CodecError::Io => "the connection was closed"@,
            CodecError::Version(version) => "unsupported protocol version "@ + decimal(
                version as nat,
            ),
            CodecError::Reserved => "reserved field is not zero"@,
            CodecError::AddressType(kind) => "unsupported address type "@ + decimal(kind as nat),
            CodecError::Domain(error) => "invalid domain name: "@ + error.spec_text(),
            CodecError::Fragmented => "fragmented datagram"@,
            CodecError::Truncated => "truncated datagram"@,
        }
    }

    /// The error in words.
    pub fn to_text(&self) -> (r: String)
        ensures
            r@ == self.spec_text(),
    {
        match *self {
            CodecError::Io => "the connection was closed".to_owned(),
            CodecError::Version(version) => {
                let mut r = "unsupported protocol version ".to_owned();
                push_decimal(&mut r, version as u64);
                r
            },
            CodecError::Reserved => "reserved field is not zero".to_owned(),
            CodecError::AddressType(kind) => {
                let mut r = "unsupported address type ".to_owned();
                push_decimal(&mut r, kind as u64);
                r
            },
            CodecError::Domain(error) => {
                let mut r = "invalid domain name: ".to_owned();
                r.push_str(error.to_text().as_str());
                r
            },
            CodecError::Fragmented => "fragmented datagram".to_owned(),
            CodecError::Truncated => "truncated datagram".to_owned(),
        }
    }
}

// ---------------------------------------------------------------------------
// The handshake
// ---------------------------------------------------------------------------

/// The client's method list, or why there is none.
pub open spec fn greeting(b: Seq<u8>) -> Result<Seq<u8>, CodecError> {
    if b.len() < 1 {
        Err(CodecError::Io)
    } else if b[0] != VERSION {
        Err(CodecError::Version(b[0]))
    } else if b.len() < 2 || b.len() < 2 + b[1] {
        Err(CodecError::Io)
    } else {
        Ok(b.subrange(2, 2 + b[1]))
    }
}

/// How many bytes to fetch next.
pub open spec fn greeting_missing(b: Seq<u8>) -> nat {
    if b.len() < 1 {
        1
    } else if b[0] != VERSION {
        0
    } else if b.len() < 2 {
        1
    } else if b.len() < 2 + b[1] {
        (2 + b[1] - b.len()) as nat
    } else {
        0
    }
}

/// RFC 1929 username and password.
pub open spec fn credentials(b: Seq<u8>) -> Result<(Seq<u8>, Seq<u8>), CodecError> {
    if b.len() < 1 {
        Err(CodecError::Io)
    } else if b[0] != AUTH_VERSION {
        Err(CodecError::Version(b[0]))
    } else if b.len() < 2 || b.len() < 3 + b[1] || b.len() < 3 + b[1] + b[2 + b[1]] {
        Err(CodecError::Io)
    } else {
        Ok((b.subrange(2, 2 + b[1]), b.subrange(3 + b[1], 3 + b[1] + b[2 + b[1]])))
    }
}

pub open spec fn credentials_missing(b: Seq<u8>) -> nat {
    if b.len() < 1 {
        1
    } else if b[0] != AUTH_VERSION {
        0
    } else if b.len() < 2 {
        1
    } else if b.len() < 3 + b[1] {
        (3 + b[1] - b.len()) as nat
    } else if b.len() < 3 + b[1] + b[2 + b[1]] {
        (3 + b[1] + b[2 + b[1]] - b.len()) as nat
    } else {
        0
    }
}

pub open spec fn port_at(b: Seq<u8>, at: int) -> u16 {
    be_value(b.subrange(at, at + 2)) as u16
}

pub open spec fn v4_at(b: Seq<u8>, at: int) -> IpAddr {
    IpAddr::V4(be_value(b.subrange(at, at + 4)) as u32)
}

pub open spec fn v6_at(b: Seq<u8>, at: int) -> IpAddr {
    IpAddr::V6(be_value(b.subrange(at, at + 16)) as u128)
}

/// A domain name field: the lowercased name, or why it is no hostname.
pub open spec fn domain_name(bytes: Seq<u8>) -> Result<Seq<char>, CodecError> {
    match hostname_error(bytes) {
        Some(error) => Err(CodecError::Domain(error)),
        None => Ok(lowercase(ascii_text(bytes))),
    }
}

/// A request's command and destination.
pub open spec fn request(b: Seq<u8>) -> Result<(u8, AddressView), CodecError> {
    if b.len() < 1 {
        Err(CodecError::Io)
    } else if b[0] != VERSION {
        Err(CodecError::Version(b[0]))
    } else if b.len() < 3 {
        Err(CodecError::Io)
    } else if b[2] != 0 {
        Err(CodecError::Reserved)
    } else if b.len() < 4 {
        Err(CodecError::Io)
    } else if b[3] == ATYP_IPV4 {
        if b.len() < 10 {
            Err(CodecError::Io)
        } else {
            Ok((b[1], AddressView::Ip(SocketAddr { ip: v4_at(b, 4), port: port_at(b, 8) })))
        }
    } else if b[3] == ATYP_IPV6 {
        if b.len() < 22 {
            Err(CodecError::Io)
        } else {
            Ok((b[1], AddressView::Ip(SocketAddr { ip: v6_at(b, 4), port: port_at(b, 20) })))
        }
    } else if b[3] == ATYP_DOMAIN {
        if b.len() < 5 || b.len() < 7 + b[4] {
            Err(CodecError::Io)
        } else {
            match domain_name(b.subrange(5, 5 + b[4])) {
                Err(error) => Err(error),
                Ok(name) => Ok((b[1], AddressView::Domain(name, port_at(b, 5 + b[4])))),
            }
        }
    } else {
        Err(CodecError::AddressType(b[3]))
    }
}

pub open spec fn request_missing(b: Seq<u8>) -> nat {
    if b.len() < 1 {
        1
    } else if b[0] != VERSION {
        0
    } else if b.len() < 3 {
        (3 - b.len()) as nat
    } else if b[2] != 0 {
        0
    } else if b.len() < 4 {
        1
    } else if b[3] == ATYP_IPV4 {
        if b.len() < 10 {
            (10 - b.len()) as nat
        } else {
            0
        }
    } else if b[3] == ATYP_IPV6 {
        if b.len() < 22 {
            (22 - b.len()) as nat
        } else {
            0
        }
    } else if b[3] == ATYP_DOMAIN {
        if b.len() < 5 {
            1
        } else if b.len() < 7 + b[4] {
            (7 + b[4] - b.len()) as nat
        } else {
            0
        }
    } else {
        0
    }
}

/// How many bytes of a greeting to fetch next.
pub fn greeting_needs(bytes: &[u8]) -> (r: usize)
    ensures
        r == greeting_missing(bytes@),
        r == 0 <==> greeting(bytes@) != Err::<Seq<u8>, CodecError>(CodecError::Io),
{
    if bytes.len() < 1 {
        1
    } else if bytes[0] != VERSION {
        0
    } else if bytes.len() < 2 {
        1
    } else {
        let whole: usize = 2 + bytes[1] as usize;
        if bytes.len() < whole {
            whole - bytes.len()
        } else {
            0
        }
    }
}

/// The client's method list.
pub fn read_greeting(bytes: &[u8]) -> (r: Result<Vec<u8>, CodecError>)
    ensures
        match r {
            Ok(methods) => greeting(bytes@) == Ok::<Seq<u8>, CodecError>(methods@),
            Err(error) => greeting(bytes@) == Err::<Seq<u8>, CodecError>(error),
        },
{
    if bytes.len() < 1 {
        return Err(CodecError::Io);
    }
    if bytes[0] != VERSION {
        return Err(CodecError::Version(bytes[0]));
    }
    if bytes.len() < 2 || bytes.len() < 2 + bytes[1] as usize {
        return Err(CodecError::Io);
    }
    Ok(copy_bytes(bytes, 2, 2 + bytes[1] as usize))
}

/// How many bytes of the credentials to fetch next.
pub fn credentials_needs(bytes: &[u8]) -> (r: usize)
    ensures
        r == credentials_missing(bytes@),
        r == 0 <==> credentials(bytes@) != Err::<(Seq<u8>, Seq<u8>), CodecError>(CodecError::Io),
{
    if bytes.len() < 1 {
        return 1;
    }
    if bytes[0] != AUTH_VERSION {
        return 0;
    }
    if bytes.len() < 2 {
        return 1;
    }
    let name_end: usize = 2 + bytes[1] as usize;
    if bytes.len() < name_end + 1 {
        return name_end + 1 - bytes.len();
    }
    let whole: usize = name_end + 1 + bytes[name_end] as usize;
    if bytes.len() < whole {
        whole - bytes.len()
    } else {
        0
    }
}

/// RFC 1929 username and password.
pub fn read_credentials(bytes: &[u8]) -> (r: Result<(Vec<u8>, Vec<u8>), CodecError>)
    ensures
        match r {
            Ok((username, password)) => credentials(bytes@) == Ok::<
                (Seq<u8>, Seq<u8>),
                CodecError,
            >((username@, password@)),
            Err(error) => credentials(bytes@) == Err::<(Seq<u8>, Seq<u8>), CodecError>(error),
        },
{
    if bytes.len() < 1 {
        return Err(CodecError::Io);
    }
    if bytes[0] != AUTH_VERSION {
        return Err(CodecError::Version(bytes[0]));
    }
    if bytes.len() < 2 {
        return Err(CodecError::Io);
    }
    let name_end: usize = 2 + bytes[1] as usize;
    if bytes.len() < name_end + 1 {
        return Err(CodecError::Io);
    }
    let whole: usize = name_end + 1 + bytes[name_end] as usize;
    if bytes.len() < whole {
        return Err(CodecError::Io);
    }
    Ok((copy_bytes(bytes, 2, name_end), copy_bytes(bytes, name_end + 1, whole)))
}

/// How many bytes of a request to fetch next.
pub fn request_needs(bytes: &[u8]) -> (r: usize)
    ensures
        r == request_missing(bytes@),
        r == 0 <==> request(bytes@) != Err::<(u8, AddressView), CodecError>(CodecError::Io),
{
    let have: usize = bytes.len();
    let whole: usize = if have < 1 {
        1
    } else if bytes[0] != VERSION {
        0
    } else if have < 3 {
        3
    } else if bytes[2] != 0 {
        0
    } else if have < 4 {
        4
    } else if bytes[3] == ATYP_IPV4 {
        10
    } else if bytes[3] == ATYP_IPV6 {
        22
    } else if bytes[3] == ATYP_DOMAIN {
        if have < 5 {
            5
        } else {
            7 + bytes[4] as usize
        }
    } else {
        0
    };
    if have < whole {
        whole - have
    } else {
        0
    }
}

/// The outcome of reading a request, by its contents.
pub open spec fn request_outcome(r: Result<Request, CodecError>) -> Result<
    (u8, AddressView),
    CodecError,
> {
    match r {
        Ok(request) => Ok((request.command, request.address@)),
        Err(error) => Err(error),
    }
}

pub fn read_request(bytes: &[u8]) -> (r: Result<Request, CodecError>)
    ensures
        request_outcome(r) == request(bytes@),
{
    if bytes.len() < 1 {
        return Err(CodecError::Io);
    }
    if bytes[0] != VERSION {
        return Err(CodecError::Version(bytes[0]));
    }
    if bytes.len() < 3 {
        return Err(CodecError::Io);
    }
    let command: u8 = bytes[1];
    if bytes[2] != 0 {
        return Err(CodecError::Reserved);
    }
    if bytes.len() < 4 {
        return Err(CodecError::Io);
    }
    let address = match bytes[3] {
        ATYP_IPV4 => {
            if bytes.len() < 10 {
                return Err(CodecError::Io);
            }
            Address::Ip(SocketAddr { ip: read_v4(bytes, 4), port: read_port(bytes, 8) })
        },
        ATYP_IPV6 => {
            if bytes.len() < 22 {
                return Err(CodecError::Io);
            }
            Address::Ip(SocketAddr { ip: read_v6(bytes, 4), port: read_port(bytes, 20) })
        },
        ATYP_DOMAIN => {
            if bytes.len() < 5 || bytes.len() < 7 + bytes[4] as usize {
                return Err(CodecError::Io);
            }
            let end: usize = 5 + bytes[4] as usize;
            match validate_hostname(slice_subrange(bytes, 5, end)) {
                Ok(name) => Address::Domain(to_lowercase(name), read_port(bytes, end)),
                Err(error) => {
                    return Err(CodecError::Domain(error));
                },
            }
        },
        other => {
            return Err(CodecError::AddressType(other));
        },
    };
    Ok(Request { command, address })
}

fn copy_bytes(bytes: &[u8], from: usize, to: usize) -> (r: Vec<u8>)
    requires
        from <= to <= bytes@.len(),
    ensures
        r@ == bytes@.subrange(from as int, to as int),
{
    let mut r: Vec<u8> = Vec::new();
    let mut i: usize = from;
    while i < to
        invariant
            from <= i <= to <= bytes@.len(),
            r@ == bytes@.subrange(from as int, i as int),
        decreases to - i,
    {
        r.push(bytes[i]);
        i += 1;
    }
    r
}

fn read_port(bytes: &[u8], at: usize) -> (r: u16)
    requires
        at + 2 <= bytes.len(),
    ensures
        r == port_at(bytes@, at as int),
        r == be_value(bytes@.subrange(at as int, at + 2)),
{
    proof {
        lemma_pow256();
    }
    read_be(bytes, at, at + 2) as u16
}

fn read_v4(bytes: &[u8], at: usize) -> (r: IpAddr)
    requires
        at + 4 <= bytes.len(),
    ensures
        r == v4_at(bytes@, at as int),
{
    proof {
        lemma_pow256();
    }
    IpAddr::V4(read_be(bytes, at, at + 4) as u32)
}

fn read_v6(bytes: &[u8], at: usize) -> (r: IpAddr)
    requires
        at + 16 <= bytes.len(),
    ensures
        r == v6_at(bytes@, at as int),
{
    IpAddr::V6(read_be(bytes, at, at + 16))
}

// ---------------------------------------------------------------------------
// Replies and datagrams
// ---------------------------------------------------------------------------

/// An address type, the octets, and the port.
pub open spec fn socket_bytes(address: SocketAddr) -> Seq<u8> {
    seq![
        match address.ip {
            IpAddr::V4(_) => ATYP_IPV4,
            IpAddr::V6(_) => ATYP_IPV6,
        },
    ] + address.ip.octets() + be_bytes(address.port as nat, 2)
}

pub open spec fn reply_bytes(code: u8, bound: SocketAddr) -> Seq<u8> {
    seq![VERSION, code, 0u8] + socket_bytes(bound)
}

pub open spec fn datagram_bytes(from: SocketAddr, payload: Seq<u8>) -> Seq<u8> {
    seq![0u8, 0u8, 0u8] + socket_bytes(from) + payload
}

/// A client datagram's destination and payload.
pub open spec fn datagram(packet: Seq<u8>) -> Result<(AddressView, Seq<u8>), CodecError> {
    let n = packet.len() as int;
    if n < 4 {
        Err(CodecError::Truncated)
    } else if packet[0] != 0 || packet[1] != 0 {
        Err(CodecError::Reserved)
    } else if packet[2] != 0 {
        Err(CodecError::Fragmented)
    } else if packet[3] == ATYP_IPV4 {
        if n < 10 {
            Err(CodecError::Truncated)
        } else {
            Ok(
                (
                    AddressView::Ip(SocketAddr { ip: v4_at(packet, 4), port: port_at(packet, 8) }),
                    packet.subrange(10, n),
                ),
            )
        }
    } else if packet[3] == ATYP_IPV6 {
        if n < 22 {
            Err(CodecError::Truncated)
        } else {
            Ok(
                (
                    AddressView::Ip(SocketAddr { ip: v6_at(packet, 4), port: port_at(packet, 20) }),
                    packet.subrange(22, n),
                ),
            )
        }
    } else if packet[3] == ATYP_DOMAIN {
        if n < 5 || n < 5 + packet[4] {
            Err(CodecError::Truncated)
        } else {
            match domain_name(packet.subrange(5, 5 + packet[4])) {
                Err(error) => Err(error),
                Ok(name) => if n < 7 + packet[4] {
                    Err(CodecError::Truncated)
                } else {
                    Ok(
                        (
                            AddressView::Domain(name, port_at(packet, 5 + packet[4])),
                            packet.subrange(7 + packet[4], n),
                        ),
                    )
                },
            }
        }
    } else {
        Err(CodecError::AddressType(packet[3]))
    }
}

pub fn encode_reply(code: u8, bound: SocketAddr) -> (r: Vec<u8>)
    ensures
        r@ == reply_bytes(code, bound),
{
    let mut out: Vec<u8> = Vec::new();
    out.push(VERSION);
    out.push(code);
    out.push(0);
    encode_socket_addr(&mut out, bound);
    assert(out@ =~= reply_bytes(code, bound));
    out
}

/// The outcome of splitting a datagram, by its contents.
pub open spec fn datagram_outcome(r: Result<(Address, &[u8]), CodecError>) -> Result<
    (AddressView, Seq<u8>),
    CodecError,
> {
    match r {
        Ok((address, payload)) => Ok((address@, payload@)),
        Err(error) => Err(error),
    }
}

/// Split a client datagram into destination and payload.
pub fn parse_datagram(packet: &[u8]) -> (r: Result<(Address, &[u8]), CodecError>)
    ensures
        datagram_outcome(r) == datagram(packet@),
{
    let n: usize = packet.len();
    if n < 4 {
        return Err(CodecError::Truncated);
    }
    if packet[0] != 0 || packet[1] != 0 {
        return Err(CodecError::Reserved);
    }
    if packet[2] != 0 {
        return Err(CodecError::Fragmented);
    }
    match packet[3] {
        ATYP_IPV4 => {
            if n < 10 {
                return Err(CodecError::Truncated);
            }
            let address = SocketAddr { ip: read_v4(packet, 4), port: read_port(packet, 8) };
            Ok((Address::Ip(address), slice_subrange(packet, 10, n)))
        },
        ATYP_IPV6 => {
            if n < 22 {
                return Err(CodecError::Truncated);
            }
            let address = SocketAddr { ip: read_v6(packet, 4), port: read_port(packet, 20) };
            Ok((Address::Ip(address), slice_subrange(packet, 22, n)))
        },
        ATYP_DOMAIN => {
            if n < 5 || n < 5 + packet[4] as usize {
                return Err(CodecError::Truncated);
            }
            let end: usize = 5 + packet[4] as usize;
            let name = match validate_hostname(slice_subrange(packet, 5, end)) {
                Ok(name) => to_lowercase(name),
                Err(error) => {
                    return Err(CodecError::Domain(error));
                },
            };
            if n - end < 2 {
                return Err(CodecError::Truncated);
            }
            let port: u16 = read_port(packet, end);
            Ok((Address::Domain(name, port), slice_subrange(packet, end + 2, n)))
        },
        other => Err(CodecError::AddressType(other)),
    }
}

/// Wrap an upstream reply for the client.
pub fn encode_datagram(from: SocketAddr, payload: &[u8]) -> (r: Vec<u8>)
    ensures
        r@ == datagram_bytes(from, payload@),
{
    let mut out: Vec<u8> = Vec::new();
    out.push(0);
    out.push(0);
    out.push(0);
    encode_socket_addr(&mut out, from);
    out.extend_from_slice(payload);
    assert(out@ =~= datagram_bytes(from, payload@));
    out
}

fn encode_socket_addr(out: &mut Vec<u8>, address: SocketAddr)
    ensures
        final(out)@ == old(out)@ + socket_bytes(address),
{
    match address.ip {
        IpAddr::V4(number) => {
            out.push(ATYP_IPV4);
            push_be(out, number as u128, 4);
        },
        IpAddr::V6(number) => {
            out.push(ATYP_IPV6);
            push_be(out, number, 16);
        },
    }
    push_be(out, address.port as u128, 2);
    assert(out@ =~= old(out)@ + socket_bytes(address));
}

// ---------------------------------------------------------------------------
// Laws
// ---------------------------------------------------------------------------

/// Reading a wrapped reply gives back where it came from and what it carries.
pub proof fn law_datagrams_round_trip(from: SocketAddr, payload: Seq<u8>)
    ensures
        datagram(datagram_bytes(from, payload)) == Ok::<(AddressView, Seq<u8>), CodecError>(
            (AddressView::Ip(from), payload),
        ),
{
    let packet = datagram_bytes(from, payload);
    lemma_pow256();
    lemma_be_bytes(from.port as nat, 2);
    match from.ip {
        IpAddr::V4(number) => {
            lemma_be_bytes(number as nat, 4);
            assert(packet.subrange(4, 8) =~= be_bytes(number as nat, 4));
            assert(packet.subrange(8, 10) =~= be_bytes(from.port as nat, 2));
            assert(packet.subrange(10, packet.len() as int) =~= payload);
        },
        IpAddr::V6(number) => {
            lemma_be_bytes(number as nat, 16);
            assert(packet.subrange(4, 20) =~= be_bytes(number as nat, 16));
            assert(packet.subrange(20, 22) =~= be_bytes(from.port as nat, 2));
            assert(packet.subrange(22, packet.len() as int) =~= payload);
        },
    }
}

/// A message that can be read is read the same whatever follows it, and what
/// a reader is told to fetch next never reaches beyond the message's end.
pub proof fn law_messages_end_where_they_say(b: Seq<u8>, more: Seq<u8>)
    ensures
        greeting_missing(b) == 0 ==> greeting(b + more) == greeting(b),
        credentials_missing(b) == 0 ==> credentials(b + more) == credentials(b),
        request_missing(b) == 0 ==> request(b + more) == request(b),
        greeting_missing(b + more) == 0 ==> more.len() >= greeting_missing(b),
        credentials_missing(b + more) == 0 ==> more.len() >= credentials_missing(b),
        request_missing(b + more) == 0 ==> more.len() >= request_missing(b),
{
    let c = b + more;
    if greeting_missing(b) == 0 && b[0] == VERSION {
        assert(c.subrange(2, 2 + b[1]) =~= b.subrange(2, 2 + b[1]));
    }
    if credentials_missing(b) == 0 && b[0] == AUTH_VERSION {
        assert(c.subrange(2, 2 + b[1]) =~= b.subrange(2, 2 + b[1]));
        assert(c.subrange(3 + b[1], 3 + b[1] + b[2 + b[1]]) =~= b.subrange(
            3 + b[1],
            3 + b[1] + b[2 + b[1]],
        ));
    }
    if request_missing(b) == 0 && b[0] == VERSION && b[2] == 0 {
        if b[3] == ATYP_IPV4 {
            assert(c.subrange(4, 8) =~= b.subrange(4, 8));
            assert(c.subrange(8, 10) =~= b.subrange(8, 10));
        } else if b[3] == ATYP_IPV6 {
            assert(c.subrange(4, 20) =~= b.subrange(4, 20));
            assert(c.subrange(20, 22) =~= b.subrange(20, 22));
        } else if b[3] == ATYP_DOMAIN {
            let end = 5 + b[4] as int;
            assert(c.subrange(5, end) =~= b.subrange(5, end));
            assert(c.subrange(end, end + 2) =~= b.subrange(end, end + 2));
        }
    }
}

/// Two bytes of a port, the high one first.
pub open spec fn two_bytes(port: u16) -> Seq<u8> {
    seq![(port / 256) as u8, (port % 256) as u8]
}

proof fn lemma_two_bytes(port: u16)
    ensures
        be_bytes(port as nat, 2) == two_bytes(port),
{
    reveal_with_fuel(be_bytes, 3);
    assert(be_bytes(port as nat, 2) =~= two_bytes(port));
}

/// A greeting is the version 5, the number of methods and the methods; credentials are
/// the version 1 and a name and a password, each behind its length. Both read back, and
/// another version is refused.
pub proof fn law_greetings_and_credentials_read_back(
    methods: Seq<u8>,
    name: Seq<u8>,
    password: Seq<u8>,
    rest: Seq<u8>,
    version: u8,
)
    requires
        methods.len() < 256,
        name.len() < 256,
        password.len() < 256,
    ensures
        greeting(seq![5u8, methods.len() as u8] + methods + rest) == Ok::<Seq<u8>, CodecError>(
            methods,
        ),
        credentials(
            seq![1u8, name.len() as u8] + name + seq![password.len() as u8] + password + rest,
        ) == Ok::<(Seq<u8>, Seq<u8>), CodecError>((name, password)),
        version != 5 ==> greeting(seq![version] + rest) == Err::<Seq<u8>, CodecError>(
            CodecError::Version(version),
        ),
        version != 1 ==> credentials(seq![version] + rest) == Err::<
            (Seq<u8>, Seq<u8>),
            CodecError,
        >(CodecError::Version(version)),
{
    let b = seq![5u8, methods.len() as u8] + methods + rest;
    assert(b[1] == methods.len());
    assert(b.subrange(2, 2 + b[1]) =~= methods);
    let c = seq![1u8, name.len() as u8] + name + seq![password.len() as u8] + password + rest;
    assert(c[1] == name.len());
    assert(c[2 + c[1]] == password.len());
    assert(c.subrange(2, 2 + c[1]) =~= name);
    assert(c.subrange(3 + c[1], 3 + c[1] + c[2 + c[1]]) =~= password);
}

/// A request is the version 5, the command, a zero and the destination: an address with
/// its port, or a host name behind its length with its port. It reads back, and another
/// version, a reserved byte that is not zero and another kind of destination are refused.
pub proof fn law_requests_read_back(
    command: u8,
    address: SocketAddr,
    name: Seq<u8>,
    port: u16,
    rest: Seq<u8>,
    other: u8,
)
    requires
        0 < name.len() < 256,
    ensures
        request(
            seq![
                5u8,
                command,
                0u8,
                if address.ip is V4 {
                    1u8
                } else {
                    4u8
                },
            ] + address.ip.octets() + two_bytes(address.port) + rest,
        ) == Ok::<(u8, AddressView), CodecError>((command, AddressView::Ip(address))),
        request(
            seq![5u8, command, 0u8, 3u8, name.len() as u8] + name + two_bytes(port) + rest,
        ) == match hostname_error(name) {
            None => Ok::<(u8, AddressView), CodecError>(
                (command, AddressView::Domain(lowercase(ascii_text(name)), port)),
            ),
            Some(error) => Err(CodecError::Domain(error)),
        },
        other != 5 ==> request(seq![other] + rest) == Err::<(u8, AddressView), CodecError>(
            CodecError::Version(other),
        ),
        other != 0 ==> request(seq![5u8, command, other] + rest) == Err::<
            (u8, AddressView),
            CodecError,
        >(CodecError::Reserved),
        other != 1 && other != 3 && other != 4 ==> request(seq![5u8, command, 0u8, other] + rest)
            == Err::<(u8, AddressView), CodecError>(CodecError::AddressType(other)),
{
    lemma_pow256();
    lemma_two_bytes(address.port);
    lemma_two_bytes(port);
    lemma_be_bytes(address.port as nat, 2);
    lemma_be_bytes(port as nat, 2);
    let kind = if address.ip is V4 {
        1u8
    } else {
        4u8
    };
    let b = seq![5u8, command, 0u8, kind] + address.ip.octets() + two_bytes(address.port) + rest;
    match address.ip {
        IpAddr::V4(number) => {
            lemma_be_bytes(number as nat, 4);
            assert(b.subrange(4, 8) =~= be_bytes(number as nat, 4));
            assert(b.subrange(8, 10) =~= be_bytes(address.port as nat, 2));
        },
        IpAddr::V6(number) => {
            lemma_be_bytes(number as nat, 16);
            assert(b.subrange(4, 20) =~= be_bytes(number as nat, 16));
            assert(b.subrange(20, 22) =~= be_bytes(address.port as nat, 2));
        },
    }
    let c = seq![5u8, command, 0u8, 3u8, name.len() as u8] + name + two_bytes(port) + rest;
    let n = name.len() as int;
    assert(c[4] == n);
    assert(c.subrange(5, 5 + c[4]) =~= name);
    assert(c.subrange(5 + c[4], 5 + c[4] + 2) =~= be_bytes(port as nat, 2));
}

/// A message is missing bytes exactly where reading it finds the connection closed.
pub proof fn law_missing_bytes_are_told(b: Seq<u8>)
    ensures
        greeting_missing(b) > 0 <==> greeting(b) == Err::<Seq<u8>, CodecError>(CodecError::Io),
        credentials_missing(b) > 0 <==> credentials(b) == Err::<(Seq<u8>, Seq<u8>), CodecError>(
            CodecError::Io,
        ),
        request_missing(b) > 0 <==> request(b) == Err::<(u8, AddressView), CodecError>(
            CodecError::Io,
        ),
{
}

/// A reply is the version 5, its code, a zero and the bound address with its port.
pub proof fn law_replies_say_code_and_address(code: u8, bound: SocketAddr)
    ensures
        reply_bytes(code, bound) == seq![
            5u8,
            code,
            0u8,
            if bound.ip is V4 {
                1u8
            } else {
                4u8
            },
        ] + bound.ip.octets() + two_bytes(bound.port),
{
    lemma_two_bytes(bound.port);
    assert(reply_bytes(code, bound) =~= seq![
        5u8,
        code,
        0u8,
        if bound.ip is V4 {
            1u8
        } else {
            4u8
        },
    ] + bound.ip.octets() + two_bytes(bound.port));
}

/// A datagram to a host name reads back; one that is reserved, in fragments, to another
/// kind of destination or too short is refused.
pub proof fn law_datagrams_to_names_read_back(
    name: Seq<u8>,
    port: u16,
    payload: Seq<u8>,
    packet: Seq<u8>,
)
    requires
        0 < name.len() < 256,
    ensures
        datagram(
            seq![0u8, 0u8, 0u8, 3u8, name.len() as u8] + name + two_bytes(port) + payload,
        ) == match hostname_error(name) {
            None => Ok::<(AddressView, Seq<u8>), CodecError>(
                (AddressView::Domain(lowercase(ascii_text(name)), port), payload),
            ),
            Some(error) => Err(CodecError::Domain(error)),
        },
        packet.len() < 4 ==> datagram(packet) == Err::<(AddressView, Seq<u8>), CodecError>(
            CodecError::Truncated,
        ),
        packet.len() >= 4 && (packet[0] != 0 || packet[1] != 0) ==> datagram(packet) == Err::<
            (AddressView, Seq<u8>),
            CodecError,
        >(CodecError::Reserved),
        packet.len() >= 4 && packet[0] == 0 && packet[1] == 0 && packet[2] != 0 ==> datagram(packet)
            == Err::<(AddressView, Seq<u8>), CodecError>(CodecError::Fragmented),
        packet.len() >= 4 && packet[0] == 0 && packet[1] == 0 && packet[2] == 0 && packet[3] != 1
            && packet[3] != 3 && packet[3] != 4 ==> datagram(packet) == Err::<
            (AddressView, Seq<u8>),
            CodecError,
        >(CodecError::AddressType(packet[3])),
        datagram(packet) matches Ok((address, payload)) ==> payload.len() < packet.len()
            && packet.subrange(packet.len() - payload.len(), packet.len() as int) == payload,
{
    lemma_pow256();
    lemma_two_bytes(port);
    lemma_be_bytes(port as nat, 2);
    let c = seq![0u8, 0u8, 0u8, 3u8, name.len() as u8] + name + two_bytes(port) + payload;
    let n = name.len() as int;
    assert(c[4] == n);
    assert(c.subrange(5, 5 + c[4]) =~= name);
    assert(c.subrange(5 + c[4], 5 + c[4] + 2) =~= be_bytes(port as nat, 2));
    assert(c.subrange(7 + c[4], c.len() as int) =~= payload);
}

} // verus!
