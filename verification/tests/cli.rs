//! Commands and what they print.

use microkitchen::broker::attribution::Origin;
use microkitchen::broker::decision::Rules;
use microkitchen::broker::protocol::{
    Answer, BindingInfo, Mode, PendingApproval, SandboxInfo, Transport,
};
use microkitchen::cli::broker::status;
use microkitchen::cli::lifecycle::{
    connect_egress, created, list_line, no_sandbox, stale_paths, unmediated_note, up_course,
    up_to_date, EgressStep, Session, StatusReport, UpCourse,
};
use microkitchen::cli::logs::{audit_note, bootstrap_log, broker_log, not_bootstrapped, source, Source};
use microkitchen::cli::net::{
    decided_message, limit_message, mode_message, print_binding, print_pending, print_rules,
    read_rule, resume_message, revoke_rule, set_rule, temp_message,
};
use microkitchen::cli::remodel::{
    confirms, course, env_names, group_of, guest_changed, guest_update, later_message, not_applied,
    partition, remodeled, sdk_changes, show, Course, Disposition, Group, GuestUpdate,
    PlannedChange,
};
use microkitchen::cli::ui::{
    format_duration, plural, success, BarStyle, PullProgress, PullProgressDisplay,
};
use microkitchen::cli::validate::verdict;
use microkitchen::cli::{
    exit_code, BrokerCommand, BrokerMode, Cli, Command, NetCommand, UpArgs, Verdict,
};
use microkitchen::config::edit::{RuleChange, RuleList};
use microkitchen::config::hostpat::HostPattern;
use microkitchen::config::schema::{GuestUser, KitchenConfig, NetworkPreset, SecretConfig};
use microkitchen::config::staging::StagePlan;
use microkitchen::ip::IpAddr;
use microkitchen::maps::TextMap;
use microkitchen::sandbox::builder::{Egress, GUEST_PATH};
use microkitchen::sandbox::plan::{config_hash, SandboxPlan, SecretValue};
use microkitchen::sandbox::remodel::{diff, Change, Route};
use microkitchen::sandbox::staging::collect;
use microkitchen::state::sandbox::SandboxState;
use microkitchen::state::Home;
use microkitchen::time::{MILLISECOND, SECOND};

fn pattern(text: &str) -> HostPattern {
    HostPattern::from_str(text).unwrap()
}

// ui

#[test]
fn formats_durations() {
    assert_eq!(format_duration(850 * MILLISECOND), "850ms");
    assert_eq!(format_duration(4230 * MILLISECOND), "4.2s");
    assert_eq!(format_duration(65 * SECOND), "1m 5s");
}

#[test]
fn quick_steps_show_no_duration() {
    assert_eq!(
        success("Started", "mk-a", 20 * MILLISECOND),
        ("Started      mk-a".to_string(), None)
    );
    let (_, duration) = success("Started", "mk-a", 2 * SECOND);
    assert_eq!(duration.as_deref(), Some(" (2.0s)"));
    assert_eq!((plural(0), plural(1), plural(2)), ("s", "", "s"));
}

#[test]
fn pulls_draw_a_bar_for_each_layer() {
    let mut display = PullProgressDisplay::new("img:1", "Creating");
    display.handle_event(PullProgress::Resolving);
    assert!(display.header().contains("img:1..."));
    display.handle_event(PullProgress::Resolved { layer_count: 2 });
    assert_eq!(display.bars().len(), 2);
    assert_eq!(display.bars()[0].prefix, "layer 1/2");
    display.handle_event(PullProgress::LayerDownloadProgress {
        layer_index: 1,
        downloaded_bytes: 5,
        total: Some(10),
    });
    let bar = &display.bars()[1];
    assert_eq!((bar.position, bar.length, bar.style), (5, 10, BarStyle::Download));
    display.handle_event(PullProgress::LayerMaterializeComplete { layer_index: 1 });
    assert_eq!(display.bars()[1].style, BarStyle::Done);
    let before = display.header().to_string();
    display.handle_event(PullProgress::LayerDownloadVerifying { layer_index: 9 });
    assert_eq!(display.header(), before);
}

// Commands

fn cli(command: Option<Command>) -> Cli {
    Cli { dir: None, home: None, verbose: 0, quiet: false, json: false, command }
}

#[test]
fn commands_have_names_and_levels() {
    assert_eq!(Command::Stop.name(), "stop");
    assert_eq!(Command::Net(NetCommand::Pending).name(), "net");
    let mut args = cli(None);
    let normal = args.log_level();
    args.verbose = 1;
    assert_ne!(args.log_level(), normal);
    assert!(cli(Some(Command::Broker(BrokerCommand::Run))).is_broker_daemon());
    assert!(!cli(Some(Command::Broker(BrokerCommand::Start))).is_broker_daemon());
    let up = UpArgs { no_shell: true, recreate: false };
    assert!(cli(Some(Command::Up(up))).may_start_sandbox());
    assert!(!cli(Some(Command::Validate)).may_start_sandbox());
    assert_eq!(UpArgs::default(), UpArgs { no_shell: false, recreate: false });
}

#[test]
fn verdicts_and_modes_reach_the_broker() {
    assert_eq!(Answer::from(Verdict::Temp), Answer::Temp);
    assert_eq!(Answer::from(Verdict::Deny), Answer::Deny);
    assert_eq!(Mode::from(BrokerMode::Open), Mode::Open);
    assert_eq!(Mode::from(BrokerMode::Enforce), Mode::Enforce);
}

#[test]
fn exit_codes_fit_a_byte() {
    assert_eq!(exit_code(0), 0);
    assert_eq!(exit_code(7), 7);
    assert_ne!(exit_code(256), 0, "a failure stays one");
    assert_ne!(exit_code(-1), 0);
}

// lifecycle

#[test]
fn sessions_read_the_guests_accounts() {
    let entry = "chef:x:1001:1001:sandbox user:/home/chef:/bin/bash\n";
    let session = Session::lookup(entry, true, false).unwrap();
    assert_eq!((session.user, session.home.as_str()), ("chef", "/home/chef"));
    assert_eq!(session.shell, "/bin/bash");
    assert_eq!(session.env()[0], ("HOME", "/home/chef".to_string()));
    assert!(Session::lookup("", false, true).unwrap_err().contains("no root user"));
}

#[test]
fn up_creates_recreates_or_starts() {
    let hash = Some("h".to_string());
    assert_eq!(up_course(false, &None, "h", true), UpCourse::Create);
    assert_eq!(up_course(true, &hash, "h", true), UpCourse::Recreate);
    assert_eq!(up_course(true, &hash, "h", false), UpCourse::Start { outdated: false });
    assert_eq!(up_course(true, &hash, "i", false), UpCourse::Start { outdated: true });
    assert_eq!(up_to_date(true, &hash, &Some("h".into())), Some(true));
    assert_eq!(up_to_date(true, &None, &Some("h".into())), Some(false));
    assert_eq!(up_to_date(false, &hash, &Some("h".into())), None);
}

fn plan() -> SandboxPlan {
    let mut env: TextMap<String> = TextMap::new();
    env.insert("GREETING", "hi".into());
    let mut secrets: TextMap<SecretValue> = TextMap::new();
    secrets.insert(
        "TOKEN",
        SecretValue {
            value: "s".into(),
            secret: SecretConfig { allow: vec![pattern("github.com")] },
        },
    );
    let mut config = KitchenConfig::default();
    config.secrets.insert("TOKEN", SecretConfig { allow: vec![pattern("github.com")] });
    SandboxPlan {
        name: "mk-a".into(),
        kitchen_file: "/p/mise.toml".into(),
        config_hash: config_hash(&config),
        config,
        env,
        secrets,
        kitchen_text: "[tools]\n".into(),
        guest_config: "[tools]\n".into(),
    }
}

fn state() -> SandboxState {
    let stage = collect(&StagePlan::default(), &Vec::new());
    let egress = Some(Egress { resolver_port: 5300, proxy_port: 5301, secret_env: "S".into() });
    created(&plan(), &stage, &egress)
}

#[test]
fn new_sandboxes_are_recorded() {
    let state = state();
    assert_eq!(state.name, "mk-a");
    assert_eq!(state.config_hash, config_hash(&state.applied));
    assert_eq!(state.env_keys, ["GREETING"]);
    assert_eq!((state.resolver_port, state.proxy_port), (Some(5300), Some(5301)));
    assert!(!state.bootstrapped);
}

#[test]
fn endpoints_are_reused() {
    let mut state = state();
    assert_eq!(
        connect_egress(NetworkPreset::Public, None),
        EgressStep::Register { mode: Mode::Open, resolver_port: None, proxy_port: None }
    );
    assert_eq!(
        connect_egress(NetworkPreset::Public, Some(&state)),
        EgressStep::Register {
            mode: Mode::Open,
            resolver_port: Some(5300),
            proxy_port: Some(5301)
        }
    );
    state.bootstrapped = true;
    assert!(matches!(
        connect_egress(NetworkPreset::Public, Some(&state)),
        EgressStep::Register { mode: Mode::Enforce, .. }
    ));
    assert_eq!(connect_egress(NetworkPreset::Disabled, Some(&state)), EgressStep::NoNetwork);
    state.proxy_port = None;
    assert_eq!(connect_egress(NetworkPreset::Public, Some(&state)), EgressStep::Unmediated);
    assert!(unmediated_note("mk-a").contains("--recreate"));
    assert!(no_sandbox("/p/mise.toml").contains("/p/mise.toml"));
}

#[test]
fn stale_paths_are_those_no_longer_staged() {
    let text = |s: &str| s.to_string();
    assert_eq!(stale_paths(&vec![text("a"), text("b")], &vec![text("b"), text("c")]), ["a"]);
}

#[test]
fn status_has_a_row_for_each_fact() {
    let report = StatusReport {
        name: "mk-a".into(),
        kitchen_file: "/p/mise.toml".into(),
        exists: true,
        status: Some("running".into()),
        up_to_date: Some(false),
    };
    assert_eq!(
        report.rows(),
        [
            "sandbox    mk-a",
            "kitchen    /p/mise.toml",
            "status     running",
            "config     configuration changed; run `microkitchen remodel`",
        ]
    );
    let line = list_line("mk-a", "running", Some("/p/mise.toml"));
    assert!(line.starts_with("mk-a ") && line.ends_with("/p/mise.toml"), "{line}");
}

// remodel

#[test]
fn only_what_changed_is_applied() {
    let state = state();
    let mut plan = plan();
    plan.config.cpus = 4;
    let current = vec![
        ("PATH".to_string(), GUEST_PATH.to_string()),
        ("GREETING".to_string(), "hi".to_string()),
    ];
    let mut stored: TextMap<String> = TextMap::new();
    stored.insert("TOKEN", "s".into());
    stored.insert("OLD", "o".into());
    let changes = sdk_changes(&current, &stored, &state, &plan);
    assert_eq!((changes.cpus, changes.memory_mib), (Some(4), None));
    assert!(changes.env.is_empty());
    assert!(changes.secrets.is_empty(), "an unchanged secret is not rotated");
    assert_eq!(changes.secrets_remove, ["OLD"]);
    assert_eq!(changes.groups(), [Group::Resources, Group::Secrets]);

    plan.secrets.insert(
        "TOKEN",
        SecretValue { value: "new".into(), secret: SecretConfig { allow: vec![pattern("a.com")] } },
    );
    let changes = sdk_changes(&current, &stored, &state, &plan);
    assert_eq!(changes.secrets[0].value.as_deref(), Some("new"));
    assert_eq!(changes.secrets[0].hosts, ["a.com"]);
    assert_eq!(env_names(&plan.env), ["GREETING"]);
}

fn planned(field: &str, disposition: Disposition) -> PlannedChange {
    PlannedChange::Config {
        field: field.into(),
        before: Some("2".into()),
        after: Some("4".into()),
        disposition,
    }
}

#[test]
fn groups_apply_now_or_wait() {
    let plan = vec![
        planned("cpus", Disposition::Live),
        planned("memory", Disposition::RequiresRestart),
        planned("env", Disposition::NextStart),
    ];
    let (now, later) = partition(&vec![Group::Resources, Group::Env], &plan);
    assert_eq!(now, [Group::Env]);
    assert_eq!(later, [Group::Resources]);
    assert_eq!(group_of(&planned("root_disk_size", Disposition::Live)), Some(Group::Disk));
    assert_eq!(group_of(&planned("other", Disposition::Live)), None);
    assert!(later_message(&later, true).contains("restart"));
}

#[test]
fn guest_updates_wait_for_new_ids() {
    let old = GuestUser { uid: 1001, gid: 1001 };
    let new = GuestUser { uid: 2000, gid: 1001 };
    assert_eq!(guest_update(false, old, old, true), GuestUpdate::Nothing);
    assert_eq!(guest_update(true, old, new, true), GuestUpdate::Wait);
    assert_eq!(guest_update(true, old, old, true), GuestUpdate::Now { start: false });
    assert_eq!(guest_update(true, old, old, false), GuestUpdate::Now { start: true });
}

fn change(route: Route) -> Change {
    Change { field: "mounts".into(), before: "a".into(), after: "b".into(), route }
}

#[test]
fn remodeling_takes_one_course() {
    let none: Vec<Change> = Vec::new();
    assert_eq!(course(&none, &None, false, false, false), Course::Nothing);
    let recreate = vec![change(Route::Recreate)];
    assert_eq!(course(&recreate, &None, false, false, true), Course::Recreate);
    assert_eq!(course(&recreate, &Some(Vec::new()), true, false, false), Course::Conflicts);
    let busy = Some(vec![planned("cpus", Disposition::Unsupported)]);
    assert_eq!(course(&recreate, &busy, false, false, false), Course::Busy);
    assert_eq!(course(&none, &Some(Vec::new()), false, true, false), Course::Apply);
    assert!(not_applied(&recreate).unwrap().contains("mounts"));
    assert_eq!(not_applied(&none), None);
    let lines = show(&recreate, &vec![planned("cpus", Disposition::Live)], GuestUpdate::Nothing);
    assert!(lines[0].contains("a -> b") && lines[0].contains("needs a new sandbox"), "{lines:?}");
    assert!(lines[1].contains("2 -> 4") && lines[1].contains("applies now"), "{lines:?}");
    assert!(confirms("y\n") && confirms("yes") && confirms("Y") && !confirms("") && !confirms("no"));
}

#[test]
fn remodeled_sandboxes_keep_what_needs_a_new_one() {
    let state = state();
    let mut plan = plan();
    plan.config.cpus = 8;
    plan.config.user.uid = 2000;
    plan.kitchen_text = "[env]\n".into();
    let waiting = remodeled(&state, &plan, GuestUpdate::Wait);
    assert_eq!(waiting.applied.cpus, 8);
    assert_eq!(waiting.applied.user, state.applied.user);
    assert_eq!(waiting.config_hash, config_hash(&waiting.applied));
    assert_eq!(waiting.applied_text, state.applied_text);
    assert!(diff(&waiting.applied, &plan.config).iter().all(|c| c.route == Route::Recreate));
    let now = remodeled(&state, &plan, GuestUpdate::Now { start: false });
    assert_eq!(now.applied_text.as_deref(), Some("[env]\n"));
}

// net, logs, broker, validate

#[test]
fn rules_are_read_and_told() {
    let rule = read_rule("A.com").unwrap();
    assert!(read_rule("bad host").unwrap_err().starts_with("invalid rule \"bad host\": "));
    let added = RuleChange { added: true, removed_from_other: true };
    assert_eq!(
        set_rule(&rule, RuleList::Allow, "/f", added),
        ["removed `a.com` from `deny` in /f", "added `a.com` to `allow` in /f"]
    );
    assert_eq!(
        set_rule(&rule, RuleList::Deny, "/f", RuleChange::default()),
        ["`a.com` is already in `deny` in /f"]
    );
    assert_eq!(revoke_rule(&rule, "/f", true), "removed `a.com` from /f");
    assert_eq!(revoke_rule(&rule, "/f", false), "`a.com` is not in /f");
}

#[test]
fn rules_are_listed_with_their_files() {
    let kitchen = Rules { allow: vec![pattern("a.com"), pattern("ntp.ubuntu.com")], deny: vec![] };
    let global = Rules { allow: vec![], deny: vec![pattern("b.com")] };
    let lines = print_rules(&kitchen, "/k", &global, "/g");
    assert_eq!(lines.len(), 3);
    assert!(lines[0].starts_with("allow a.com") && lines[0].ends_with(" /k"), "{lines:?}");
    assert!(lines[1].ends_with("(built in)"), "{lines:?}");
    assert!(lines[2].starts_with("deny  b.com") && lines[2].ends_with(" /g"), "{lines:?}");
}

#[test]
fn approvals_and_bindings_are_printed() {
    let approval = PendingApproval {
        id: 3,
        sandbox: "mk-a".into(),
        transport: Transport::Tcp,
        address: IpAddr::parse("203.0.113.7").unwrap(),
        port: 443,
        names: vec!["a.com".into()],
        unresolved: false,
        age_secs: 9,
        origin: Some(Origin { pid: 412, name: "curl".into() }),
    };
    let line = print_pending(&approval);
    assert!(line.starts_with("   3  mk-a  203.0.113.7:443 (tcp)  a.com  "), "{line}");
    assert!(line.contains("curl") && line.ends_with("  [9s]"), "{line}");
    let binding = BindingInfo {
        address: IpAddr::parse("203.0.113.7").unwrap(),
        names: vec!["a.com".into(), "b.com".into()],
        expires_in_secs: 60,
    };
    let line = print_binding(&binding);
    assert!(line.ends_with(" a.com, b.com  (expires in 60s)"), "{line}");
    assert_eq!(decided_message(3), "answered approval 3");
}

#[test]
fn messages_name_the_sandbox() {
    assert_eq!(mode_message("mk-a", Mode::Enforce), "mk-a is now in enforce mode");
    assert_eq!(temp_message("mk-a", "a.com"), "allowed a.com temporarily for mk-a");
    assert_eq!(resume_message("mk-a", false), "mk-a was not rate limited");
    assert!(limit_message("mk-a").contains("net resume"));
    assert_eq!(verdict(0), "configuration is valid");
    assert!(verdict(2).contains("2 errors"), "{}", verdict(2));
}

#[test]
fn logs_have_their_places() {
    let home = Home::at("/x");
    assert_eq!(source(false, false), Source::Bootstrap);
    assert_eq!(source(true, false), Source::Broker);
    assert_eq!(source(false, true), Source::Sandbox);
    assert!(bootstrap_log(&home, "mk-a").starts_with("/x/logs/"));
    assert!(broker_log(&home).starts_with("/x/logs/"));
    assert!(not_bootstrapped("mk-a").contains("mk-a"));
    assert!(audit_note(&home).contains("/x/broker/audit.log"));
}

#[test]
fn broker_status_lists_the_sandboxes() {
    let info = SandboxInfo {
        name: "mk-a".into(),
        kitchen_file: "/p/mise.toml".into(),
        mode: Mode::Open,
        resolver_port: 5300,
        proxy_port: 5301,
        bindings: 2,
    };
    let lines = status("/x/logs/broker.log", &vec![info]);
    assert!(lines.iter().any(|l| l.contains("/x/logs/broker.log")), "{lines:?}");
    let line = lines.last().unwrap();
    assert!(line.contains("dns 127.0.0.1:5300") && line.ends_with("2 bindings"), "{line}");
}

#[test]
fn tenths_of_seconds_round_to_even() {
    assert_eq!(format_duration(1250 * MILLISECOND), "1.2s");
    assert_eq!(format_duration(1350 * MILLISECOND), "1.4s");
    assert_eq!(format_duration(1251 * MILLISECOND), "1.3s");
    // As floating point prints them.
    for secs in 1..60u64 {
        for millis in [50, 150, 250, 350, 450, 550, 650, 750, 850, 950, 49, 51] {
            let duration = std::time::Duration::from_millis(secs * 1000 + millis);
            assert_eq!(
                format_duration((secs * 1000 + millis) * MILLISECOND),
                format!("{:.1}s", duration.as_secs_f64())
            );
        }
    }
    assert_eq!(format_duration(1050 * MILLISECOND), "1.1s");
    assert_eq!(format_duration(4050 * MILLISECOND), "4.0s");
}

#[test]
fn guest_copies_change_when_they_differ() {
    assert!(!guest_changed(Some("a = 1\n"), "a = 1\n"));
    assert!(guest_changed(Some("a = 1\n"), "a = 2\n"));
    assert!(guest_changed(None, "a = 1\n"));
}
