//! What is learned from DNS responses.

use std::str::FromStr;

use hickory_proto::op::{Message, MessageType, OpCode, Query};
use hickory_proto::rr::rdata::svcb::{IpHint, SvcParamKey, SvcParamValue, SVCB};
use hickory_proto::rr::rdata::{A, AAAA, CNAME, HTTPS};
use hickory_proto::rr::{Name, RData, Record, RecordType};
use microkitchen::broker::observer::{
    bindings_in, extract_bindings, is_answer, parse_resolv_conf, read_frame_len, upstreams,
    write_frame, Data, DnsMessage, DnsRecord, Learned, Upstream, UpstreamError,
};
use microkitchen::ip::IpAddr;

fn name(s: &str) -> Name {
    Name::from_str(s).unwrap()
}

fn ip(text: &str) -> IpAddr {
    IpAddr::parse(text).unwrap()
}

fn at(text: &str, port: u16) -> Upstream {
    Upstream { ip: ip(text), port, scope: 0 }
}

fn learned(address: &str, names: &[&str], ttl: u32) -> Learned {
    Learned { address: ip(address), names: names.iter().map(|n| n.to_string()).collect(), ttl }
}

fn response(query: &str, record_type: RecordType, answers: Vec<Record>) -> Vec<u8> {
    let mut message = Message::new(0x4242, MessageType::Response, OpCode::Query);
    message.add_query(Query::query(name(query), record_type));
    for answer in answers {
        message.add_answer(answer);
    }
    message.to_vec().unwrap()
}

#[test]
fn binds_the_whole_cname_chain() {
    let bytes = response(
        "api.example.com.",
        RecordType::A,
        vec![
            Record::from_rdata(
                name("api.example.com."),
                30,
                RData::CNAME(CNAME(name("example.map.cdn.net."))),
            ),
            Record::from_rdata(
                name("example.map.cdn.net."),
                30,
                RData::A(A::new(192, 0, 2, 1)),
            ),
            Record::from_rdata(
                name("example.map.cdn.net."),
                30,
                RData::AAAA(AAAA("2001:db8::1".parse().unwrap())),
            ),
        ],
    );
    let chain = ["api.example.com", "example.map.cdn.net"];
    assert_eq!(
        extract_bindings(&bytes),
        vec![learned("192.0.2.1", &chain, 30), learned("2001:db8::1", &chain, 30)]
    );
}

#[test]
fn binds_https_hints() {
    let svcb = SVCB::new(
        1,
        name("svc.example.net."),
        vec![
            (
                SvcParamKey::Ipv4Hint,
                SvcParamValue::Ipv4Hint(IpHint(vec![A::new(198, 51, 100, 9)])),
            ),
            (
                SvcParamKey::Ipv6Hint,
                SvcParamValue::Ipv6Hint(IpHint(vec![AAAA("2001:db8::9".parse().unwrap())])),
            ),
        ],
    );
    let bytes = response(
        "quic.example.com.",
        RecordType::HTTPS,
        vec![Record::from_rdata(name("quic.example.com."), 60, RData::HTTPS(HTTPS(svcb)))],
    );
    let names = ["quic.example.com", "svc.example.net"];
    assert_eq!(
        extract_bindings(&bytes),
        vec![learned("198.51.100.9", &names, 60), learned("2001:db8::9", &names, 60)]
    );
}

#[test]
fn ignores_garbage() {
    assert!(extract_bindings(b"").is_empty());
    assert!(extract_bindings(&[0xff; 40]).is_empty());
}

#[test]
fn addresses_outside_the_answer_chain_are_bound_to_the_question() {
    let message = DnsMessage {
        query: Some("a.com".into()),
        answers: vec![
            DnsRecord { name: "a.com".into(), ttl: 5, data: Data::V4(0xC000_0201) },
            DnsRecord { name: "a.com".into(), ttl: 7, data: Data::Other },
        ],
    };
    assert_eq!(bindings_in(&message), vec![learned("192.0.2.1", &["a.com"], 5)]);
    let aliased = DnsMessage {
        query: Some("a.com".into()),
        answers: vec![
            DnsRecord { name: "b.com".into(), ttl: 9, data: Data::V4(0xC000_0202) },
            DnsRecord { name: "a.com".into(), ttl: 5, data: Data::Alias("b.com".into()) },
        ],
    };
    assert_eq!(bindings_in(&aliased), vec![learned("192.0.2.2", &["a.com", "b.com"], 9)]);
}

#[test]
fn reads_resolv_conf() {
    let text = "# comment\nnameserver 10.0.0.2\nnameserver fe80::1%eth0\nsearch lan\nnameserver bogus\n";
    assert_eq!(parse_resolv_conf(text), vec![at("10.0.0.2", 53), at("fe80::1", 53)]);
    assert_eq!(
        upstreams(&vec!["1.1.1.1".into(), "127.0.0.1:5353".into()], "").unwrap().len(),
        2
    );
    assert!(upstreams(&vec!["nope".into()], "").is_err());
}

#[test]
fn upstreams_come_from_the_settings_or_the_host() {
    assert_eq!(
        upstreams(&vec!["127.0.0.1:5353".into()], "nameserver 10.0.0.2\n").unwrap(),
        vec![at("127.0.0.1", 5353)]
    );
    assert_eq!(
        upstreams(&Vec::new(), "nameserver 10.0.0.2\n").unwrap(),
        vec![at("10.0.0.2", 53)]
    );
    assert_eq!(upstreams(&Vec::new(), ""), Err(UpstreamError::Missing));
    let error = upstreams(&vec!["nope".into()], "").unwrap_err();
    assert_eq!(error, UpstreamError::Invalid("nope".into()));
    assert!(error.to_text().contains("nope"));
}

#[test]
fn only_the_answer_to_the_query_is_taken() {
    let upstream = at("10.0.0.2", 53);
    assert!(is_answer(&[0x42, 0x42, 1], upstream, upstream, &[0x42, 0x42, 9, 9]));
    assert!(!is_answer(&[0x42, 0x42, 1], upstream, upstream, &[0x42, 0x43]));
    assert!(!is_answer(&[0x42, 0x42, 1], upstream, at("10.0.0.3", 53), &[0x42, 0x42]));
    assert!(!is_answer(&[0x42, 0x42, 1], upstream, upstream, &[0x42]));
}

#[test]
fn frames_carry_their_length() {
    let frame = write_frame(&[7; 300]).unwrap();
    assert_eq!(read_frame_len(frame[0], frame[1]), 300);
    assert_eq!(&frame[2..], &[7; 300]);
    assert!(write_frame(&vec![0; 65_536]).is_none());
}
