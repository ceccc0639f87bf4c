//! Approval dialogs.

use microkitchen::broker::approval::{OriginSlot, Outcome, PromptInfo};
use microkitchen::broker::attribution::{lookup_args, parse, Origin};
use microkitchen::broker::dialog::{detect, render, Backend, Host};
use microkitchen::broker::protocol::Transport;
use microkitchen::ip::IpAddr;
use microkitchen::state::settings::DialogSetting;

fn info(names: &[&str]) -> PromptInfo {
    PromptInfo {
        sandbox: "mk-api-1a2b3c4d".into(),
        transport: Transport::Tcp,
        address: IpAddr::parse("140.82.121.3").unwrap(),
        port: 443,
        names: names.iter().map(|s| s.to_string()).collect(),
        origin: OriginSlot::default(),
    }
}

#[test]
fn renders_the_design_layout() {
    let origin = Origin { pid: 412, name: "node".into() };
    assert_eq!(
        render(&info(&["api.example.com", "example.map.cdn.net"]), Some(&origin)),
        "Sandbox:      mk-api-1a2b3c4d\n\
         Destination:  140.82.121.3 : 443  (TCP)\n\
         Resolved as:  api.example.com\n\
         \x20             also seen as: example.map.cdn.net\n\
         Process:      pid 412 (node)"
    );
    let unresolved = render(&info(&[]), None);
    assert!(unresolved.contains("never resolved this address"));
    assert!(!unresolved.contains("Process:"));
}

#[test]
fn zenity_answers() {
    let args = Backend::Zenity.args("text", 60);
    assert!(args.windows(2).any(|w| w == ["--timeout", "60"]));
    assert!(args.contains(&"--no-markup".to_string()));
    assert_eq!(Backend::Zenity.parse(false, "Allow\n"), Outcome::Allow);
    assert_eq!(Backend::Zenity.parse(false, "Allow 5 min"), Outcome::Temp);
    assert_eq!(Backend::Zenity.parse(false, "Deny"), Outcome::Deny);
    // Closed (exit 1) or timed out (exit 5): nothing on stdout.
    assert_eq!(Backend::Zenity.parse(false, ""), Outcome::Dismissed);
}

#[test]
fn kdialog_answers() {
    assert_eq!(Backend::Kdialog.parse(true, "temp\n"), Outcome::Temp);
    assert_eq!(Backend::Kdialog.parse(true, "deny"), Outcome::Deny);
    assert_eq!(Backend::Kdialog.parse(false, ""), Outcome::Dismissed);
    assert_eq!(Backend::Kdialog.parse(false, "allow"), Outcome::Dismissed);
}

#[test]
fn osascript_answers_and_escaping() {
    let args = Backend::Osascript.args("say \"hi\" \\ there", 30);
    assert_eq!(args[0], "-e");
    assert!(args[1].contains("say \\\"hi\\\" \\\\ there"), "{}", args[1]);
    assert!(args[1].ends_with("giving up after 30"));
    assert_eq!(
        Backend::Osascript.parse(true, "button returned:Allow, gave up:false"),
        Outcome::Allow
    );
    assert_eq!(
        Backend::Osascript.parse(true, "button returned:Allow 5 min, gave up:false"),
        Outcome::Temp
    );
    assert_eq!(
        Backend::Osascript.parse(true, "button returned:, gave up:true"),
        Outcome::Dismissed
    );
}

#[test]
fn none_means_no_dialogs() {
    let everything =
        Host { macos: true, display: true, zenity: true, kdialog: true, osascript: true };
    assert_eq!(detect(DialogSetting::Disabled, &everything), None);
}

#[test]
fn dialogs_are_detected() {
    let linux = Host { macos: false, display: true, zenity: false, kdialog: true, osascript: false };
    assert_eq!(detect(DialogSetting::Auto, &linux), Some(Backend::Kdialog));
    let both = Host { zenity: true, ..linux };
    assert_eq!(detect(DialogSetting::Auto, &both), Some(Backend::Zenity));
    let headless = Host { display: false, ..both };
    assert_eq!(detect(DialogSetting::Auto, &headless), None);
    let mac = Host { macos: true, display: false, zenity: false, kdialog: false, osascript: true };
    assert_eq!(detect(DialogSetting::Auto, &mac), Some(Backend::Osascript));
    assert_eq!(Backend::Zenity.program(), "zenity");
    assert_eq!(Backend::Kdialog.program(), "kdialog");
    assert_eq!(Backend::Osascript.program(), "osascript");
}

fn origin(pid: u32, name: &str) -> Option<Origin> {
    Some(Origin { pid, name: name.into() })
}

#[test]
fn parsing_is_strict() {
    assert_eq!(parse("{\"found\":true,\"pid\":3,\"name\":\"curl\"}\n"), origin(3, "curl"));
    for bad in [
        "",
        "{\"found\":false}",
        "{\"found\":true}",
        "{\"found\":true,\"pid\":0,\"name\":\"x\"}",
        "{\"found\":true,\"pid\":3,\"name\":\"\"}",
        "{\"found\":true,\"pid\":3,\"name\":\"a b\"}",
        "{\"found\":true,\"pid\":3,\"name\":\"x\",\"cmdline\":\"curl -u secret\"}",
        "not json",
    ] {
        assert_eq!(parse(bad), None, "{bad}");
    }
}

#[test]
fn attribution_limits_names_and_ids() {
    let long = "a".repeat(65);
    assert_eq!(parse(&format!("{{\"found\":true,\"pid\":3,\"name\":\"{long}\"}}")), None);
    let fits = "a".repeat(64);
    assert_eq!(
        parse(&format!("{{\"found\":true,\"pid\":3,\"name\":\"{fits}\"}}")),
        origin(3, &fits)
    );
    assert_eq!(
        parse("{\"name\":\"._+-?A9\",\"pid\":4294967295,\"found\":true}"),
        origin(u32::MAX, "._+-?A9")
    );
    assert_eq!(parse("{\"found\":true,\"pid\":4294967296,\"name\":\"x\"}"), None);
    assert_eq!(parse("{\"found\":true,\"pid\":-1,\"name\":\"x\"}"), None);
    assert_eq!(parse("{\"found\":true,\"pid\":1.5,\"name\":\"x\"}"), None);
    assert_eq!(parse("{\"found\":true,\"pid\":null,\"name\":\"x\"}"), None);
}

#[test]
fn attribution_asks_for_the_canonical_address() {
    let mapped = IpAddr::parse("::ffff:140.82.121.3").unwrap();
    assert_eq!(lookup_args(Transport::Tcp, mapped, 443), ["tcp", "140.82.121.3", "443"]);
    let six = IpAddr::parse("2001:db8::1").unwrap();
    assert_eq!(lookup_args(Transport::Udp, six, 53), ["udp", "2001:db8::1", "53"]);
    assert_eq!(Origin { pid: 412, name: "node".into() }.to_text(), "pid 412 (node)");
}

#[test]
fn repeated_members_are_refused() {
    assert_eq!(parse("{\"found\":true,\"pid\":3,\"pid\":4,\"name\":\"x\"}"), None);
    assert_eq!(parse("{\"found\":true,\"pid\":3,\"name\":\"x\",\"name\":\"x\"}"), None);
}
