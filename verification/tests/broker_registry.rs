//! The broker's registry, its admin requests and its start.

use std::str::FromStr;

use hickory_proto::op::{Message, MessageType, OpCode, Query};
use hickory_proto::rr::rdata::A;
use hickory_proto::rr::{Name, RData, Record, RecordType};
use microkitchen::broker::approval::{Asked, Outcome};
use microkitchen::broker::client::{start_step, BrokerClient, StartStep, START_TIMEOUT};
use microkitchen::broker::daemon::{
    already_running, broker_lock, dispatch, invalid_request, no_secret, socket_path, Dispatched,
    Task,
};
use microkitchen::broker::protocol::{
    Answer, Data, Mode, Registration, Request, Response, Transport,
};
use microkitchen::broker::registry::{
    candidate_ports, port_in, unavailable, Admitted, Broker, BrokerError, Flow, Registering,
    SandboxEntry, RATE_LIMITED, TEMP_ALLOW,
};
use microkitchen::config::edit::RuleList;
use microkitchen::ip::IpAddr;
use microkitchen::state::settings::{HeadlessFallback, Settings};
use microkitchen::state::Home;
use microkitchen::time::SECOND;

const NOW: u64 = 1000 * SECOND;

fn ip(text: &str) -> IpAddr {
    IpAddr::parse(text).unwrap()
}

fn flow(address: &str) -> Flow {
    Flow { transport: Transport::Tcp, address: ip(address), port: 443 }
}

fn endpoints() -> Registration {
    Registration { resolver_port: 5300, proxy_port: 5301 }
}

fn settings(max_prompts: u32) -> Settings {
    let mut settings = Settings::default();
    settings.approval.headless = HeadlessFallback::Queue;
    settings.approval.max_prompts = max_prompts;
    settings
}

/// A broker with `mk-a` in enforce mode.
fn broker_with(max_prompts: u32) -> Broker {
    let settings = settings(max_prompts);
    let mut broker =
        Broker::new(Home::at("/x"), &settings, "nameserver 10.0.0.2\n", None, false).unwrap();
    let registering = broker.register("mk-a", "/p/mise.toml", Mode::Enforce, None, None);
    assert_eq!(registering, Registering::Bind { dropped: None, limited: false });
    broker.install("mk-a", "/p/mise.toml", Mode::Enforce, endpoints(), "s3cret", false);
    broker
}

fn broker() -> Broker {
    broker_with(10)
}

fn response(query: &str, address: [u8; 4]) -> Vec<u8> {
    let name = Name::from_str(query).unwrap();
    let mut message = Message::new(1, MessageType::Response, OpCode::Query);
    message.add_query(Query::query(name.clone(), RecordType::A));
    let [a, b, c, d] = address;
    message.add_answer(Record::from_rdata(name, 30, RData::A(A::new(a, b, c, d))));
    message.to_vec().unwrap()
}

fn rules(broker: &mut Broker, text: &str) {
    broker.refresh_rules("mk-a", None, Some(text), None);
}

#[test]
fn only_the_secret_authenticates() {
    let entry = SandboxEntry::new("mk-a", "/p", Mode::Open, endpoints(), "s3cret", false);
    assert!(entry.authenticate(b"mk-a", b"s3cret"));
    assert!(!entry.authenticate(b"mk-a", b"s3cres"));
    assert!(!entry.authenticate(b"mk-a", b"s3cret2"));
    assert!(!entry.authenticate(b"mk-b", b"s3cret"));
    assert_eq!(entry.registration(), endpoints());
}

#[test]
fn known_names_are_judged_by_the_rules() {
    let mut broker = broker();
    broker.record_dns("mk-a", &response("a.com.", [203, 0, 113, 7]), NOW);
    rules(&mut broker, "[_.microkitchen.network]\nallow = [\"a.com\"]\n");
    match broker.judge("mk-a", flow("203.0.113.7"), None, NOW).unwrap() {
        Admitted::Decided(event) => {
            assert!(event.allowed);
            assert_eq!(event.names, ["a.com"]);
            assert_eq!(event.source, "allow-rule:a.com");
        }
        Admitted::Ask(question) => panic!("{question:?}"),
    }
    let bindings = broker.bindings("mk-a", NOW).unwrap();
    assert_eq!(bindings[0].address, ip("203.0.113.7"));
    assert!(broker.judge("mk-b", flow("203.0.113.7"), None, NOW).is_none());
}

#[test]
fn global_rules_are_a_layer_below() {
    let mut broker = broker();
    broker.refresh_global(None, Some("deny = [\"203.0.113.0/24\"]\n"));
    match broker.judge("mk-a", flow("203.0.113.7"), None, NOW).unwrap() {
        Admitted::Decided(event) => assert!(!event.allowed),
        Admitted::Ask(question) => panic!("{question:?}"),
    }
    rules(&mut broker, "[_.microkitchen.network]\nallow = [\"203.0.113.7\"]\n");
    match broker.judge("mk-a", flow("203.0.113.7"), None, NOW).unwrap() {
        Admitted::Decided(event) => assert!(event.allowed),
        Admitted::Ask(question) => panic!("{question:?}"),
    }
}

#[test]
fn answers_are_saved_granted_or_dropped() {
    let mut broker = broker();
    let asked = broker.judge("mk-a", flow("203.0.113.7"), None, NOW).unwrap();
    let Admitted::Ask(question) = asked else { panic!("{asked:?}") };
    assert_eq!(question.key.subject, "203.0.113.7");

    let applied = broker.apply("mk-a", &question, Outcome::Allow, None, NOW).unwrap();
    assert!(applied.allowed && applied.save == Some(RuleList::Allow) && !applied.notify);
    let applied = broker.apply("mk-a", &question, Outcome::Deny, None, NOW).unwrap();
    assert!(!applied.allowed && applied.save == Some(RuleList::Deny));
    let applied = broker.apply("mk-a", &question, Outcome::Dismissed, None, NOW).unwrap();
    assert!(!applied.allowed && applied.save.is_none());
    // Nothing of these three stays with the sandbox itself.
    let again = broker.judge("mk-a", flow("203.0.113.7"), None, NOW).unwrap();
    assert!(matches!(again, Admitted::Ask(_)));

    let applied = broker.apply("mk-a", &question, Outcome::Temp, None, NOW).unwrap();
    assert!(applied.allowed && applied.save.is_none());
    let judged = |broker: &mut Broker, now: u64| {
        broker.judge("mk-a", flow("203.0.113.7"), None, now).unwrap()
    };
    match judged(&mut broker, NOW + TEMP_ALLOW - 1) {
        Admitted::Decided(event) => assert!(event.allowed),
        Admitted::Ask(question) => panic!("{question:?}"),
    }
    assert!(matches!(judged(&mut broker, NOW + TEMP_ALLOW), Admitted::Ask(_)));
}

#[test]
fn a_tripped_limit_denies_everything_until_resumed() {
    let mut broker = broker_with(1);
    let asked = broker.judge("mk-a", flow("203.0.113.7"), None, NOW).unwrap();
    let Admitted::Ask(question) = asked else { panic!("{asked:?}") };
    let first = broker.approvals().ask(&question.key, question.info.clone(), NOW);
    assert!(matches!(first, Asked::Prompt { .. }));
    let asked = broker.judge("mk-a", flow("203.0.113.8"), None, NOW).unwrap();
    let Admitted::Ask(second) = asked else { panic!("{asked:?}") };
    let outcome = broker.approvals().ask(&second.key, second.info.clone(), NOW);
    assert_eq!(outcome, Asked::Settled(Outcome::RateLimited));
    let applied = broker.apply("mk-a", &second, Outcome::RateLimited, None, NOW).unwrap();
    assert!(!applied.allowed && applied.notify);
    assert!(broker.get("mk-a").unwrap().is_limited());
    assert!(broker.persisted()[0].limited, "the limit outlives the broker");

    // In every mode, and whatever the rules say.
    broker.set_mode("mk-a", Mode::Open).unwrap();
    rules(&mut broker, "[_.microkitchen.network]\nallow = [\"203.0.113.7\"]\n");
    match broker.judge("mk-a", flow("203.0.113.7"), None, NOW).unwrap() {
        Admitted::Decided(event) => {
            assert!(!event.allowed);
            assert_eq!(event.source, RATE_LIMITED);
        }
        Admitted::Ask(question) => panic!("{question:?}"),
    }
    assert_eq!(broker.resume("mk-a"), Ok(true));
    assert_eq!(broker.resume("mk-a"), Ok(false));
    match broker.judge("mk-a", flow("203.0.113.7"), None, NOW).unwrap() {
        Admitted::Decided(event) => assert!(event.allowed),
        Admitted::Ask(question) => panic!("{question:?}"),
    }
}

#[test]
fn malformed_names_are_denied_and_recorded() {
    let entry = SandboxEntry::new("mk-a", "/p", Mode::Open, endpoints(), "s", false);
    let event = entry.deny_malformed(Transport::Tcp, "bad");
    assert!(!event.allowed);
    assert_eq!((event.sandbox.as_str(), event.transport), ("mk-a", Transport::Tcp));
    assert!(event.source.contains("malformed"), "{}", event.source);
}

#[test]
fn registrations_are_kept_or_bound_anew() {
    let mut broker = broker();
    assert_eq!(
        broker.register("mk-a", "/p/mise.toml", Mode::Open, Some(5300), Some(5301)),
        Registering::Kept(endpoints())
    );
    assert_eq!(broker.get("mk-a").unwrap().mode(), Mode::Open);
    assert_eq!(
        broker.register("mk-a", "/p/mise.toml", Mode::Open, Some(5302), None),
        Registering::Bind { dropped: Some(Vec::new()), limited: false }
    );
    assert!(broker.get("mk-a").is_none());
    assert_eq!(broker.registry_file(), "/x/broker/registry.json");
    assert_eq!(broker.audit_file(), "/x/broker/audit.log");
}

#[test]
fn retiring_leaves_the_others_alone() {
    let mut broker = broker();
    broker.install("mk-b", "/q/mise.toml", Mode::Open, endpoints(), "t", false);
    assert_eq!(broker.list().len(), 2);
    assert_eq!(broker.retire("mk-a"), Some(Vec::new()));
    assert_eq!(broker.retire("mk-a"), None);
    let left = broker.list();
    assert_eq!((left.len(), left[0].name.as_str(), left[0].mode), (1, "mk-b", Mode::Open));
}

#[test]
fn each_broker_error_has_an_input() {
    let mut broker = broker();
    let unknown = broker.set_mode("mk-b", Mode::Open).unwrap_err();
    assert_eq!(unknown, BrokerError::NotRegistered("mk-b".into()));
    assert!(unknown.to_text().contains("mk-b"));
    assert!(matches!(
        broker.grant("mk-a", "bad host", NOW),
        Err(BrokerError::InvalidHost(_, _))
    ));
    assert_eq!(broker.grant("mk-a", "*.a.com", NOW), Err(BrokerError::NotAHost));
    assert_eq!(broker.grant("mk-a", "a.com", NOW), Ok(()));
    match broker.judge("mk-a", flow("203.0.113.7"), Some("a.com"), NOW).unwrap() {
        Admitted::Decided(event) => assert!(event.allowed),
        Admitted::Ask(question) => panic!("{question:?}"),
    }
}

#[test]
fn ports_come_from_the_range() {
    assert_eq!(port_in((100, 109), 0), 100);
    assert_eq!(port_in((100, 109), 19), 109);
    assert_eq!(candidate_ports(Some(7), (100, 109)), [7]);
    let ports = candidate_ports(None, (100, 109));
    assert!(!ports.is_empty());
    assert!(ports.iter().all(|p| (100..=109).contains(p)), "{ports:?}");
    assert!(unavailable(Some(7)).contains('7'));
}

fn reply(dispatched: Dispatched) -> (Response, Task) {
    match dispatched {
        Dispatched::Reply { response, task } => (response, task),
        other => panic!("{other:?}"),
    }
}

#[test]
fn requests_are_dispatched() {
    let mut broker = broker();
    let mut send = |request: Request| dispatch(&mut broker, request, 42, NOW);
    let name = || "mk-a".to_string();
    assert_eq!(
        reply(send(Request::Ping)),
        (Response::success(Data::Pid(42)), Task::Nothing)
    );
    assert_eq!(
        reply(send(Request::SetMode { name: name(), mode: Mode::Open })),
        (Response::success(Data::Nothing), Task::Save)
    );
    assert_eq!(
        reply(send(Request::Resume { name: name() })),
        (Response::success(Data::Flag(false)), Task::Save)
    );
    let (response, _) = reply(send(Request::Resume { name: "mk-b".into() }));
    assert!(!response.ok && response.into_result().unwrap_err().contains("mk-b"));
    let (response, task) = reply(send(Request::Decide { id: 9, answer: Answer::Allow }));
    assert_eq!(response, Response::failure("no pending approval 9".into()));
    assert_eq!(task, Task::Nothing);
    let (response, _) = reply(send(Request::List));
    assert!(matches!(response.data, Data::Sandboxes(list) if list.len() == 1));
    assert!(matches!(
        send(Request::Register {
            name: "mk-b".into(),
            kitchen_file: "/q".into(),
            mode: Mode::Open,
            resolver_port: None,
            proxy_port: None
        }),
        Dispatched::Bind { .. }
    ));
    let (response, task) = reply(send(Request::Retire { name: name() }));
    assert_eq!(response, Response::success(Data::Flag(true)));
    assert_eq!(task, Task::End { name: name(), dropped: Vec::new() });
    assert_eq!(reply(send(Request::Shutdown)).1, Task::Stop);
    assert!(!no_secret("mk-a").ok && !invalid_request("x").ok);
}

#[test]
fn pending_requests_are_answered_over_the_socket() {
    let mut broker = broker();
    let asked = broker.judge("mk-a", flow("203.0.113.7"), None, NOW).unwrap();
    let Admitted::Ask(question) = asked else { panic!("{asked:?}") };
    let prompted = broker.approvals().ask(&question.key, question.info.clone(), NOW);
    let Asked::Prompt { id, .. } = prompted else { panic!("{prompted:?}") };
    let (response, _) = reply(dispatch(&mut broker, Request::Pending, 1, NOW + 2 * SECOND));
    let Data::Approvals(pending) = response.data else { panic!("no approvals") };
    assert_eq!((pending[0].id, pending[0].age_secs, pending[0].unresolved), (id, 2, true));
    let decide = Request::Decide { id, answer: Answer::Temp };
    let (response, task) = reply(dispatch(&mut broker, decide, 1, NOW));
    assert_eq!(response, Response::success(Data::Flag(true)));
    assert_eq!(task, Task::Answer { id, outcome: Outcome::Temp });
    assert!(broker.pending(NOW).is_empty());
}

#[test]
fn the_broker_is_started_once() {
    let client = BrokerClient::new(&Home::at("/x"));
    assert_eq!(client.socket(), socket_path(&Home::at("/x")));
    assert_eq!(client.spawn_args().last().map(String::as_str), Some("run"));
    assert!(client.gave_up().contains(&client.log_file()));
    assert_eq!(start_step(true, None, 0), StartStep::Ready);
    assert_eq!(start_step(false, None, 0), StartStep::Spawn);
    assert_eq!(start_step(false, Some(START_TIMEOUT), 1), StartStep::Wait);
    assert_eq!(start_step(false, Some(START_TIMEOUT), START_TIMEOUT), StartStep::GiveUp);
    assert!(broker_lock(&Home::at("/x")).starts_with("/x/broker/"));
    assert!(already_running(&Home::at("/x")).contains("/x"));
}

#[test]
fn a_tripped_limit_outlives_new_endpoints() {
    let mut broker = broker();
    broker.install("mk-b", "/q/mise.toml", Mode::Open, endpoints(), "t", true);
    assert!(broker.get("mk-b").unwrap().is_limited());
    let registering = broker.register("mk-b", "/q/mise.toml", Mode::Open, Some(5302), None);
    let Registering::Bind { dropped, limited } = registering else { panic!("{registering:?}") };
    assert_eq!(dropped, Some(Vec::new()));
    assert!(limited);
    broker.install("mk-b", "/q/mise.toml", Mode::Open, endpoints(), "t", limited);
    assert!(broker.get("mk-b").unwrap().is_limited());
}
