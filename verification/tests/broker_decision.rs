//! The decision engine.

use microkitchen::broker::decision::{
    decide, decide_layered, is_hard_denied, Admission, Decision, PromptKind, Reason, Rules, Session,
};
use microkitchen::broker::protocol::{Mode, Transport};
use microkitchen::config::hostpat::HostPattern;
use microkitchen::ip::IpAddr;

const SECS: u64 = 1_000_000_000;
const NOW: u64 = 1_000 * SECS;

fn pattern(text: &str) -> HostPattern {
    HostPattern::from_str(text).unwrap()
}

/// Each name its own lookup.
fn admission(address: &str, names: &[&str]) -> Admission {
    let chains: Vec<&[&str]> = names.iter().map(std::slice::from_ref).collect();
    chained(address, &chains)
}

fn chained(address: &str, chains: &[&[&str]]) -> Admission {
    Admission {
        transport: Transport::Tcp,
        address: IpAddr::parse(address).unwrap(),
        port: 443,
        candidates: chains
            .iter()
            .map(|c| c.iter().map(|s| s.to_string()).collect())
            .collect(),
        malformed: false,
    }
}

fn rules(allow: &[&str], deny: &[&str]) -> Rules {
    Rules {
        allow: allow.iter().map(|s| pattern(s)).collect(),
        deny: deny.iter().map(|s| pattern(s)).collect(),
    }
}

fn run(adm: &Admission, rules: &Rules) -> Decision {
    decide(adm, Mode::Enforce, rules, &Session::default(), NOW)
}

#[test]
fn malformed_and_hard_denies_win_over_everything() {
    let everything = rules(&["0.0.0.0/0", "::/0"], &[]);
    let mut adm = admission("203.0.113.1", &[]);
    adm.malformed = true;
    let d = decide(&adm, Mode::Open, &everything, &Session::default(), NOW);
    assert!(matches!(d, Decision::Deny { reason: Reason::Malformed, .. }));
    for address in [
        "169.254.169.254",
        "169.254.1.1",
        "224.0.0.1",
        "0.0.0.0",
        "255.255.255.255",
        "fe80::1",
        "ff02::1",
        "::",
        "fd00:ec2::254",
    ] {
        let adm = admission(address, &["allowed.com"]);
        let d = decide(&adm, Mode::Open, &everything, &Session::default(), NOW);
        assert!(
            matches!(d, Decision::Deny { reason: Reason::HardDeny, .. }),
            "{address}: {d:?}"
        );
        assert!(is_hard_denied(adm.address));
    }
    assert!(!is_hard_denied(IpAddr::parse("203.0.113.1").unwrap()));
}

#[test]
fn open_mode_allows_unknown_destinations() {
    let adm = admission("203.0.113.1", &[]);
    let d = decide(&adm, Mode::Open, &Rules::default(), &Session::default(), NOW);
    assert!(matches!(d, Decision::Allow { reason: Reason::OpenMode, .. }));
}

#[test]
fn deny_beats_allow() {
    let r = rules(
        &["203.0.113.0/24", "example.com"],
        &["203.0.113.7", "example.com"],
    );
    assert!(matches!(run(&admission("203.0.113.7", &[]), &r), Decision::Deny { .. }));
    assert!(matches!(run(&admission("203.0.113.8", &[]), &r), Decision::Allow { .. }));
    assert!(matches!(
        run(&admission("198.51.100.1", &["example.com"]), &r),
        Decision::Deny { .. }
    ));
}

#[test]
fn name_rules_need_a_binding() {
    let r = rules(&["example.com"], &[]);
    // The address was never resolved by this sandbox: the rule cannot apply.
    assert_eq!(
        run(&admission("198.51.100.1", &[]), &r),
        Decision::Prompt(PromptKind::Unresolved)
    );
    // Resolved, but to another name: no laundering through example.com.
    assert_eq!(
        run(&admission("198.51.100.1", &["evil.net"]), &r),
        Decision::Prompt(PromptKind::Unknown)
    );
    let d = run(&admission("198.51.100.1", &["example.com"]), &r);
    assert!(matches!(d, Decision::Allow { ambiguous: false, .. }));
}

#[test]
fn a_cname_chain_is_one_candidate() {
    // auth.docker.io → auth.docker.io.cdn.cloudflare.net: allowed by the query name.
    let adm = chained(
        "104.18.43.178",
        &[&["auth.docker.io", "auth.docker.io.cdn.cloudflare.net"]],
    );
    let d = run(&adm, &rules(&["*.docker.io"], &[]));
    assert!(matches!(d, Decision::Allow { ambiguous: false, .. }), "{d:?}");
    // …or by the alias.
    let d = run(&adm, &rules(&["*.cloudflare.net"], &[]));
    assert!(matches!(d, Decision::Allow { .. }));
    // A denied alias denies the lookup.
    let d = run(&adm, &rules(&["*.docker.io"], &["*.cloudflare.net"]));
    assert!(matches!(d, Decision::Deny { .. }));
    // Unknown chains are prompted about by their query name.
    assert_eq!(PromptKind::Unknown.subjects(&adm), vec![pattern("auth.docker.io")]);
}

#[test]
fn a_shared_alias_does_not_launder() {
    // Two lookups CNAME to the same CDN name: still two candidates.
    let adm = chained(
        "198.51.100.1",
        &[&["allowed.com", "edge.cdn.net"], &["evil.org", "edge.cdn.net"]],
    );
    let d = run(&adm, &rules(&["allowed.com"], &[]));
    assert_eq!(
        d,
        Decision::Prompt(PromptKind::Disagreement(vec![
            ("allowed.com".into(), Some(true)),
            ("evil.org".into(), None),
        ]))
    );
    if let Decision::Prompt(kind) = d {
        assert_eq!(kind.subjects(&adm), vec![pattern("evil.org")]);
    }
}

#[test]
fn ambiguity_follows_the_design_table() {
    let r = rules(&["*.github.com"], &["blocked.net"]);
    // Several candidates, verdicts agree.
    let d = run(
        &admission("198.51.100.1", &["api.github.com", "codeload.github.com"]),
        &r,
    );
    assert!(matches!(d, Decision::Allow { ambiguous: true, .. }));
    // Allowed and denied candidates on one address: ask.
    let d = run(&admission("198.51.100.1", &["api.github.com", "blocked.net"]), &r);
    assert_eq!(
        d,
        Decision::Prompt(PromptKind::Disagreement(vec![
            ("api.github.com".into(), Some(true)),
            ("blocked.net".into(), Some(false)),
        ]))
    );
    // An allowed candidate does not vouch for an unknown one.
    let adm = admission("198.51.100.1", &["api.github.com", "unknown.org"]);
    let d = run(&adm, &r);
    assert!(matches!(d, Decision::Prompt(PromptKind::Disagreement(_))));
    if let Decision::Prompt(kind) = d {
        assert_eq!(kind.subjects(&adm), vec![pattern("unknown.org")]);
    }
}

#[test]
fn session_grants_expire() {
    let now = NOW;
    let mut session = Session::default();
    session.grant("temp.example", now + 300 * SECS);
    session.grant("203.0.113.9", now + 300 * SECS);
    let adm = admission("198.51.100.1", &["temp.example"]);
    let d = decide(&adm, Mode::Enforce, &Rules::default(), &session, now);
    assert!(matches!(d, Decision::Allow { reason: Reason::Session, .. }));
    let later = now + 301 * SECS;
    let d = decide(&adm, Mode::Enforce, &Rules::default(), &session, later);
    assert_eq!(d, Decision::Prompt(PromptKind::Unknown));
    let unresolved = admission("203.0.113.9", &[]);
    let d = decide(&unresolved, Mode::Enforce, &Rules::default(), &session, now);
    assert!(matches!(d, Decision::Allow { .. }));
}

#[test]
fn unresolved_prompts_are_about_the_address() {
    let adm = admission("::ffff:203.0.113.5", &[]);
    assert_eq!(PromptKind::Unresolved.subjects(&adm), vec![pattern("203.0.113.5")]);
}

#[test]
fn the_kitchen_file_comes_before_the_rules_for_every_sandbox() {
    let session = Session::default();
    let layered = |adm: &Admission, kitchen: &Rules, global: &Rules| {
        decide_layered(adm, Mode::Enforce, kitchen, global, &session, NOW)
    };
    let adm = admission("198.51.100.1", &["example.com"]);
    let allow = rules(&["example.com"], &[]);
    let deny = rules(&[], &["example.com"]);
    let none = Rules::default();
    assert!(matches!(layered(&adm, &allow, &deny), Decision::Allow { .. }));
    assert!(matches!(layered(&adm, &deny, &allow), Decision::Deny { .. }));
    assert!(matches!(layered(&adm, &none, &deny), Decision::Deny { .. }));
    assert!(matches!(layered(&adm, &none, &allow), Decision::Allow { .. }));
    assert_eq!(layered(&adm, &none, &none), Decision::Prompt(PromptKind::Unknown));
}

#[test]
fn reasons_are_named() {
    assert_eq!(Reason::Malformed.to_text(), "malformed");
    assert_eq!(Reason::HardDeny.to_text(), "hard-deny");
    assert_eq!(Reason::OpenMode.to_text(), "open-mode");
    assert_eq!(Reason::Session.to_text(), "session");
    assert_eq!(Reason::DenyRule(pattern("*.a.com")).to_text(), "deny-rule:*.a.com");
    assert_eq!(Reason::AllowRule(pattern("10.0.0.0/8")).to_text(), "allow-rule:10.0.0.0/8");
}

#[test]
fn a_denied_name_beats_an_allowed_network() {
    let r = rules(&["203.0.113.0/24"], &["example.com"]);
    assert_eq!(
        run(&admission("203.0.113.8", &["example.com"]), &r),
        Decision::Deny { reason: Reason::DenyRule(pattern("example.com")), ambiguous: false }
    );
    assert_eq!(
        run(&admission("203.0.113.8", &["other.org", "example.com"]), &r),
        Decision::Deny { reason: Reason::DenyRule(pattern("example.com")), ambiguous: true }
    );
    assert!(matches!(
        run(&admission("203.0.113.8", &["other.org"]), &r),
        Decision::Allow { reason: Reason::AllowRule(_), .. }
    ));
}
