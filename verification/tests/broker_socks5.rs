//! The SOCKS5 codec, its replies and the UDP relay.

use microkitchen::broker::mediator::grammar::GrammarError;
use microkitchen::broker::mediator::socks5::reply;
use microkitchen::broker::mediator::socks5::{
    credentials_needs, encode_datagram, encode_reply, greeting_needs, parse_datagram,
    read_credentials, read_greeting, read_request, request_needs, Address, CodecError, Request,
    CMD_CONNECT,
};
use microkitchen::broker::mediator::tcp::{
    connect_reply, denied_reply, reply_for, unresolved_reply, Connected,
};
use microkitchen::broker::mediator::udp::{
    canonical_target, Offered, Received, Relay, PENDING_QUEUE_LIMIT,
};
use microkitchen::broker::mediator::{
    authenticated, bare_reply, flow_target, greet, next_step, refusal, Next,
};
use microkitchen::ip::{IpAddr, SocketAddr};

fn socket(ip: &str, port: u16) -> SocketAddr {
    SocketAddr { ip: IpAddr::parse(ip).unwrap(), port }
}

#[test]
fn reads_the_handshake() {
    assert_eq!(read_greeting(&[5u8, 2, 0, 2]).unwrap(), vec![0, 2]);
    assert!(matches!(read_greeting(&[4u8, 1, 0]), Err(CodecError::Version(4))));

    let creds = [1u8, 3, b'a', b'b', b'c', 2, b'p', b'w'];
    let (user, pass) = read_credentials(&creds).unwrap();
    assert_eq!((user.as_slice(), pass.as_slice()), (&b"abc"[..], &b"pw"[..]));
}

#[test]
fn reads_requests() {
    let v4 = read_request(&[5, 1, 0, 1, 203, 0, 113, 7, 1, 187]).unwrap();
    assert_eq!(
        v4,
        Request { command: CMD_CONNECT, address: Address::Ip(socket("203.0.113.7", 443)) }
    );

    let mut v6 = vec![5, 3, 0, 4];
    v6.extend_from_slice(&IpAddr::parse("2001:db8::1").unwrap().to_octets());
    v6.extend_from_slice(&53u16.to_be_bytes());
    assert_eq!(
        read_request(&v6).unwrap().address,
        Address::Ip(socket("2001:db8::1", 53))
    );

    let mut domain = vec![5, 1, 0, 3, 11];
    domain.extend_from_slice(b"Example.COM");
    domain.extend_from_slice(&80u16.to_be_bytes());
    assert_eq!(
        read_request(&domain).unwrap().address,
        Address::Domain("example.com".into(), 80)
    );
}

#[test]
fn rejects_bad_domains_without_repair() {
    for name in [
        &b"example.com\0evil"[..],
        b"example.com\n",
        b"b\xc3\xbccher.de",
        b"",
    ] {
        let mut bytes = vec![5, 1, 0, 3, name.len() as u8];
        bytes.extend_from_slice(name);
        bytes.extend_from_slice(&80u16.to_be_bytes());
        assert!(
            matches!(read_request(&bytes), Err(CodecError::Domain(_))),
            "{name:?}"
        );
    }
    assert!(matches!(
        read_request(&[5, 1, 1, 1, 1, 1, 1, 1, 0, 80]),
        Err(CodecError::Reserved)
    ));
    assert!(matches!(read_request(&[5, 1, 0, 9]), Err(CodecError::AddressType(9))));
    assert!(matches!(read_request(&[5, 1, 0, 1, 1]), Err(CodecError::Io)));
}

#[test]
fn encodes_replies() {
    assert_eq!(
        encode_reply(reply::NOT_ALLOWED, socket("0.0.0.0", 0)),
        vec![5, 2, 0, 1, 0, 0, 0, 0, 0, 0]
    );
    assert_eq!(
        encode_reply(0, socket("127.0.0.1", 4242)),
        vec![5, 0, 0, 1, 127, 0, 0, 1, 0x10, 0x92]
    );
}

#[test]
fn datagrams_round_trip() {
    for from in [socket("198.51.100.7", 123), socket("2001:db8::7", 443)] {
        let packet = encode_datagram(from, b"payload");
        let (address, payload) = parse_datagram(&packet).unwrap();
        assert_eq!((address, payload), (Address::Ip(from), &b"payload"[..]));
    }
    let mut domain = vec![0, 0, 0, 3, 8];
    domain.extend_from_slice(b"ntp.test");
    domain.extend_from_slice(&123u16.to_be_bytes());
    domain.extend_from_slice(b"x");
    assert_eq!(
        parse_datagram(&domain).unwrap(),
        (Address::Domain("ntp.test".into(), 123), &b"x"[..])
    );
}

#[test]
fn rejects_bad_datagrams() {
    let mut fragmented = encode_datagram(socket("198.51.100.7", 123), b"x");
    fragmented[2] = 1;
    assert!(matches!(parse_datagram(&fragmented), Err(CodecError::Fragmented)));
    assert!(matches!(parse_datagram(&[0, 0, 0]), Err(CodecError::Truncated)));
    assert!(matches!(parse_datagram(&[0, 0, 0, 1, 1, 2]), Err(CodecError::Truncated)));
    assert!(matches!(
        parse_datagram(&[0, 1, 0, 1, 1, 2, 3, 4, 0, 1]),
        Err(CodecError::Reserved)
    ));
    assert!(matches!(
        parse_datagram(&[0, 0, 0, 3, 3, b'a', 0, b'b', 0, 1]),
        Err(CodecError::Domain(_))
    ));
}

/// Hands `needs` one byte more at a time until it asks for none.
fn fed(whole: &[u8], needs: fn(&[u8]) -> usize) -> usize {
    let mut have: usize = 0;
    while have < whole.len() {
        let missing = needs(&whole[..have]);
        if missing == 0 {
            return have;
        }
        have += 1;
    }
    have
}

#[test]
fn messages_are_read_to_their_end_and_no_further() {
    assert_eq!(fed(&[5, 2, 0, 2, 9, 9], greeting_needs), 4);
    assert_eq!(fed(&[1, 1, b'a', 2, b'p', b'w', 9], credentials_needs), 6);
    assert_eq!(fed(&[5, 1, 0, 1, 203, 0, 113, 7, 1, 187, 9], request_needs), 10);
    assert_eq!(fed(&[5, 1, 0, 3, 1, b'a', 0, 80, 9], request_needs), 8);
}

#[test]
fn codec_errors_are_told() {
    for (error, needle) in [
        (CodecError::Version(4), "4"),
        (CodecError::AddressType(9), "9"),
        (CodecError::Domain(GrammarError::Empty), "empty"),
    ] {
        let text = error.to_text();
        assert!(text.contains(needle), "{text}");
    }
}

#[test]
fn handshakes_want_user_and_password() {
    assert_eq!(greet(&vec![0, 2]), ([5, 2], true));
    assert_eq!(greet(&vec![0]), ([5, 0xff], false));
    assert_eq!(authenticated(true), [1, 0]);
    assert_ne!(authenticated(false)[1], 0);
}

#[test]
fn requests_lead_to_a_flow_or_a_refusal() {
    let connect = next_step(read_request(&[5, 1, 0, 1, 203, 0, 113, 7, 1, 187]));
    assert_eq!(connect, Next::Connect(Address::Ip(socket("203.0.113.7", 443))));
    assert_eq!(refusal(&connect), None);
    let associate = next_step(read_request(&[5, 3, 0, 1, 0, 0, 0, 0, 0, 0]));
    assert_eq!(associate, Next::Associate);
    let bind = next_step(read_request(&[5, 2, 0, 1, 0, 0, 0, 0, 0, 0]));
    assert_eq!(bind, Next::Unsupported);
    assert_eq!(refusal(&bind), Some(bare_reply(reply::COMMAND_NOT_SUPPORTED)));
    let malformed = next_step(read_request(&[5, 1, 0, 3, 0, 0, 80]));
    assert_eq!(malformed, Next::Malformed(GrammarError::Empty));
    assert_eq!(refusal(&malformed), Some(bare_reply(reply::NOT_ALLOWED)));
    assert_eq!(next_step(Err(CodecError::Io)), Next::Fail(CodecError::Io));
}

#[test]
fn names_are_resolved_before_they_are_judged() {
    let at = socket("203.0.113.7", 443);
    assert_eq!(flow_target(Address::Ip(at), None), Some((at, None)));
    assert_eq!(
        flow_target(Address::Domain("a.com".into(), 443), Some(at)),
        Some((at, Some("a.com".into())))
    );
    assert_eq!(flow_target(Address::Domain("a.com".into(), 443), None), None);
}

#[test]
fn connection_failures_have_their_codes() {
    assert_eq!(reply_for(Connected::Refused), reply::CONNECTION_REFUSED);
    assert_eq!(reply_for(Connected::NetworkUnreachable), reply::NETWORK_UNREACHABLE);
    assert_eq!(reply_for(Connected::HostUnreachable), reply::HOST_UNREACHABLE);
    assert_eq!(reply_for(Connected::Failed), reply::GENERAL_FAILURE);
    let bound = socket("127.0.0.1", 4242);
    assert_eq!(
        connect_reply(Connected::At(Some(bound))),
        encode_reply(reply::SUCCEEDED, bound)
    );
    assert_eq!(denied_reply(), bare_reply(reply::NOT_ALLOWED));
    assert_eq!(unresolved_reply(), bare_reply(reply::HOST_UNREACHABLE));
}

#[test]
fn the_first_sender_owns_a_relay() {
    let mut relay = Relay::new();
    let packet = encode_datagram(socket("198.51.100.7", 123), b"x");
    let guest = socket("127.0.0.1", 4000);
    assert_eq!(
        relay.receive(guest, &packet),
        Received::Datagram(Address::Ip(socket("198.51.100.7", 123)), b"x".to_vec())
    );
    assert_eq!(relay.receive(socket("127.0.0.1", 4001), &packet), Received::Foreign);
    assert_eq!(relay.receive(guest, &[0, 0, 0]), Received::Dropped(CodecError::Truncated));
}

#[test]
fn datagrams_wait_for_one_answer() {
    let mut relay = Relay::new();
    let guest = socket("127.0.0.1", 4000);
    let target = socket("198.51.100.7", 123);
    relay.receive(guest, &encode_datagram(target, b"0"));
    assert_eq!(relay.offer(target, b"0".to_vec()), Offered::Ask);
    for i in 1..PENDING_QUEUE_LIMIT {
        assert_eq!(relay.offer(target, vec![i as u8]), Offered::Queued);
    }
    assert_eq!(relay.offer(target, b"late".to_vec()), Offered::Dropped);
    assert_eq!(relay.reply(target, b"r"), None, "nothing comes back before the answer");
    assert_eq!(relay.decided(target, true).len(), PENDING_QUEUE_LIMIT);
    assert_eq!(relay.offer(target, b"n".to_vec()), Offered::Send(b"n".to_vec()));
    assert_eq!(
        relay.reply(target, b"r"),
        Some((guest, encode_datagram(target, b"r")))
    );

    let denied = socket("198.51.100.8", 123);
    assert_eq!(relay.offer(denied, b"0".to_vec()), Offered::Ask);
    assert!(relay.decided(denied, false).is_empty());
    assert_eq!(relay.offer(denied, b"1".to_vec()), Offered::Dropped);
    assert_eq!(relay.reply(denied, b"r"), None);
    assert_eq!(
        canonical_target(socket("::ffff:198.51.100.7", 123)),
        target
    );
}
