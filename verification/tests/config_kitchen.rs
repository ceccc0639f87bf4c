//! Reading the kitchen file.

use microkitchen::config::hostpat::HostPattern;
use microkitchen::config::schema::{
    is_env_name, normalize_lexically, parse_mount, parse_port, reserved_overlap,
    resolve_host_path, GuestUser, KitchenConfig, Mount, NetworkPreset, PortMapping, Protocol,
};
use microkitchen::config::schema::ParsedKitchen;
use microkitchen::config::walker::parse;
use microkitchen::config::{Diagnostics, SectionLocation, Severity, Source};

fn parse_str(text: &str) -> (Option<ParsedKitchen>, Diagnostics) {
    let source = Source::new("/proj/mise.toml", text);
    let mut diagnostics = Diagnostics::default();
    let parsed = parse(&source, "/proj", None, &mut diagnostics);
    (parsed, diagnostics)
}

fn errors(diagnostics: &Diagnostics) -> Vec<String> {
    diagnostics
        .iter()
        .filter(|d| d.severity == Severity::Error)
        .map(|d| d.located_message())
        .collect()
}

#[test]
fn full_example_parses() {
    let (parsed, diagnostics) = parse_str(
        r#"
[env]
GITHUB_TOKEN = { required = true }

[_.microkitchen]
cpus = 4
memory = "10G"
disk = "20G"
mounts = ["./src:/app", "/data:/data:ro"]

[_.microkitchen.network]
network = "open"
allow = ["example.com", "*.microsandbox.dev", "203.0.113.7"]
deny = ["potentiallymalicious.com"]
ports = ["8000:8000", "9100:9100/udp"]

[_.microkitchen.secrets.GITHUB_TOKEN]
allow = ["github.com", "*.github.com"]
"#,
    );
    assert!(diagnostics.is_empty(), "{diagnostics:?}");
    let parsed = parsed.unwrap();
    assert_eq!(parsed.location, Some(SectionLocation::Underscore));
    let config = parsed.config;
    assert_eq!(config.cpus, 4);
    assert_eq!(config.memory_mib, 10240);
    assert_eq!(config.disk_mib, 20480);
    assert_eq!(
        config.mounts,
        vec![
            Mount { host: "/proj/src".into(), guest: "/app".into(), readonly: false },
            Mount { host: "/data".into(), guest: "/data".into(), readonly: true },
        ]
    );
    assert_eq!(config.network.preset, NetworkPreset::Open);
    assert_eq!(config.network.allow.len(), 3);
    assert_eq!(
        config.network.deny,
        vec![HostPattern::Exact("potentiallymalicious.com".into())]
    );
    assert_eq!(config.network.ports[1].to_text(), "9100:9100/udp");
    assert_eq!(config.secrets.get("GITHUB_TOKEN").unwrap().allow.len(), 2);
    assert!(parsed.spans.secrets.get("GITHUB_TOKEN").unwrap().span.is_some());
}

#[test]
fn missing_section_means_defaults() {
    let (parsed, diagnostics) = parse_str("[env]\nA = \"1\"\n");
    let parsed = parsed.unwrap();
    assert!(diagnostics.is_empty());
    assert_eq!(parsed.location, None);
    assert_eq!(parsed.config, KitchenConfig::default());
}

#[test]
fn legacy_section_warns() {
    let (parsed, diagnostics) = parse_str("[microkitchen]\ncpus = 3\n");
    assert_eq!(parsed.unwrap().config.cpus, 3);
    let warning = diagnostics.iter().next().unwrap();
    assert_eq!(warning.severity, Severity::Warning);
    assert!(warning.message.contains("[_.microkitchen]"));
}

#[test]
fn both_sections_is_an_error() {
    let (_, diagnostics) = parse_str("[microkitchen]\ncpus = 3\n[_.microkitchen]\ncpus = 4\n");
    assert_eq!(errors(&diagnostics).len(), 1);
}

#[test]
fn syntax_errors_are_located() {
    let (parsed, diagnostics) = parse_str("[_.microkitchen]\ncpus = \n");
    assert!(parsed.is_none());
    let d = diagnostics.iter().next().unwrap();
    assert_eq!(d.line, Some(2));
}

#[test]
fn collects_all_errors_with_lines() {
    let (_, diagnostics) = parse_str(
        r#"[_.microkitchen]
cpus = 65
memory = "65G"
disk = "10T"
color = "blue"
dotfiles = 5
mounts = ["relative", "./a:/opt/kitchen/x", "./b:/app", "./c:/app", 5]

[_.microkitchen.network]
network = "closed"
allow = ["ok.com", "bad host", "both.com"]
deny = ["both.com"]
ports = ["80", "8000:8000", "8000:9000", "1:2/sctp"]

[_.microkitchen.secrets.TOKEN]
allow = ["github.com", "10.0.0.1"]
deny = ["evil.com"]

[_.microkitchen.secrets.EMPTY]
allow = []

[_.microkitchen.secrets."NOT-VALID"]
allow = ["x.com"]
"#,
    );
    let errors = errors(&diagnostics);
    let expect = [
        ":2:8: _.microkitchen.cpus: must be between 1 and 64, got 65",
        ":3:10: _.microkitchen.memory: must be at most 64G",
        ":4:8: _.microkitchen.disk: unknown unit",
        ":5:1: _.microkitchen.color: unknown key `color`",
        ":6:12: _.microkitchen.dotfiles: expected a string, found integer",
        "_.microkitchen.mounts[0]: expected `host:guest[:ro]`",
        "_.microkitchen.mounts[1]: guest path `/opt/kitchen/x` overlaps `/opt/kitchen`",
        "_.microkitchen.mounts[3]: guest path `/app` is mounted more than once",
        "_.microkitchen.mounts[4]: expected a string, found integer",
        "_.microkitchen.network.network: unknown preset `closed`",
        "_.microkitchen.network.allow[1]: invalid rule \"bad host\"",
        "_.microkitchen.network.deny[0]: `both.com` is in both `allow` and `deny`",
        "_.microkitchen.network.ports[0]: expected `host:guest[/udp]`",
        "_.microkitchen.network.ports[2]: host port 8000 is published more than once",
        "_.microkitchen.network.ports[3]: unknown protocol `sctp`",
        "_.microkitchen.secrets.TOKEN.deny: secrets have no `deny` list",
        "_.microkitchen.secrets.TOKEN.allow: `10.0.0.1`: secret hosts must be names",
        "_.microkitchen.secrets.EMPTY.allow: must list at least one host",
        "_.microkitchen.secrets.NOT-VALID: `NOT-VALID` is not a valid environment variable name",
    ];
    for fragment in expect {
        assert!(
            errors.iter().any(|e| e.contains(fragment)),
            "missing {fragment:?} in:\n{}",
            errors.join("\n")
        );
    }
    assert_eq!(errors.len(), expect.len(), "{}", errors.join("\n"));
}

#[test]
fn network_none_rejects_ports() {
    let (_, diagnostics) = parse_str(
        "[_.microkitchen.network]\nnetwork = \"none\"\nports = [\"1:1\"]\nallow = [\"a.com\"]\n",
    );
    assert_eq!(errors(&diagnostics).len(), 1);
    assert!(diagnostics.iter().any(|d| d.severity == Severity::Warning));
}

#[test]
fn mounts_resolve_relative_to_the_kitchen_dir() {
    let base = "/proj/sub";
    assert_eq!(parse_mount("../data:/data", base, None).unwrap().host, "/proj/data");
    assert_eq!(parse_mount("./x/./y:/x/../y/", base, None).unwrap().guest, "/y");
    assert!(parse_mount("./x:/", base, None).is_err());
    assert!(parse_mount(":/x", base, None).is_err());
    assert!(parse_mount("./x:/x:rx", base, None).is_err());
    assert!(parse_mount("./x:rel", base, None).is_err());
}

#[test]
fn host_paths_expand_the_home_directory() {
    assert_eq!(resolve_host_path("~/x", "/p", Some("/home/u")).unwrap(), "/home/u/x");
    assert_eq!(resolve_host_path("~", "/p", Some("/home/u")).unwrap(), "/home/u");
    assert!(resolve_host_path("~/x", "/p", None).is_err());
    assert_eq!(resolve_host_path("x/../y", "/p", None).unwrap(), "/p/y");
    assert_eq!(normalize_lexically("/a/./b/../c"), "/a/c");
    assert_eq!(reserved_overlap("/opt/kitchen/x"), Some("/opt/kitchen"));
    assert_eq!(reserved_overlap("/srv"), None);
}

#[test]
fn ports_read_as_written() {
    assert_eq!(
        parse_port("8000:80").unwrap(),
        PortMapping { host: 8000, guest: 80, protocol: Protocol::Tcp }
    );
    assert_eq!(parse_port("9:10/udp").unwrap().to_text(), "9:10/udp");
    assert!(parse_port("0:80").is_err());
    assert!(parse_port("80:65536").is_err());
}

#[test]
fn env_names() {
    assert!(is_env_name("GITHUB_TOKEN"));
    assert!(is_env_name("_x1"));
    assert!(!is_env_name("1X"));
    assert!(!is_env_name("A-B"));
    assert!(!is_env_name(""));
}

fn user(text: &str) -> (GuestUser, Vec<String>) {
    let (parsed, diagnostics) = parse_str(text);
    (parsed.unwrap().config.user, errors(&diagnostics))
}

#[test]
fn chef_defaults_without_a_declaration() {
    assert_eq!(user("[tools]\njq = \"1\"\n"), (GuestUser::default(), vec![]));
    assert_eq!(
        user("[_.microkitchen]\ncpus = 1\n\n[bootstrap.users.alice]\nuid = 5\n"),
        (GuestUser { uid: 1001, gid: 1001 }, vec![])
    );
}

#[test]
fn chef_ids_come_from_the_declaration() {
    let text = "[bootstrap.users.chef]\nuid = 2000\n\n[bootstrap.groups.chef]\ngid = 3000\n";
    assert_eq!(user(text), (GuestUser { uid: 2000, gid: 3000 }, vec![]));

    let text = "[bootstrap.users.chef]\ngroup = \"staff\"\n\n[bootstrap.groups.staff]\ngid = 50\n";
    assert_eq!(user(text), (GuestUser { uid: 1001, gid: 50 }, vec![]));
    assert_eq!(GuestUser::root().to_text(), "0:0");
}

#[test]
fn chef_declarations_that_cannot_work_are_errors() {
    let (_, errors) = user("[bootstrap.users.chef]\ngroup = \"staff\"\n");
    assert_eq!(errors.len(), 1, "{errors:?}");
    assert!(
        errors[0].contains("bootstrap.users.chef.group")
            && errors[0].contains("[bootstrap.groups.staff]"),
        "{errors:?}"
    );

    let (_, errors) = user("[bootstrap.users.chef]\nuid = 0\n");
    assert!(errors[0].contains("cannot be uid 0"), "{errors:?}");

    let (_, errors) = user("[bootstrap.users.chef]\nuid = -1\n");
    assert!(errors[0].contains("non-negative integer"), "{errors:?}");

    let (_, errors) = user("[bootstrap.users.chef]\nstate = \"absent\"\n");
    assert!(errors[0].contains("cannot be absent"), "{errors:?}");
}

#[test]
fn the_files_of_the_guest_are_reserved() {
    assert_eq!(reserved_overlap("/root/kitchen/x"), Some("/root/kitchen"));
    assert_eq!(reserved_overlap("/root/kitchen"), Some("/root/kitchen"));
    assert_eq!(reserved_overlap("/root/.cache/mise"), Some("/root/.cache/mise"));
    assert_eq!(reserved_overlap("/root/kitchens"), None);
    let (parsed, diagnostics) =
        parse_str("[_.microkitchen]\nmounts = [\"./a:/root/kitchen/a\", \"./b:/srv/b\"]\n");
    let mounts = &parsed.unwrap().config.mounts;
    assert_eq!(mounts.len(), 1);
    assert_eq!(mounts[0].guest, "/srv/b");
    assert!(errors(&diagnostics)[0].contains("overlaps `/root/kitchen`"));
}

#[test]
fn port_mappings_read_back() {
    for protocol in [Protocol::Tcp, Protocol::Udp] {
        for (host, guest) in [(1, 65535), (8000, 80)] {
            let mapping = PortMapping { host, guest, protocol };
            assert_eq!(parse_port(&mapping.to_text()), Ok(mapping));
        }
    }
}

#[test]
fn lists_hold_each_entry_once() {
    let (parsed, diagnostics) = parse_str(
        r#"
[_.microkitchen.network]
allow = ["a.com", "A.com", "b.com"]

[_.microkitchen.secrets]
TOKEN = { allow = ["a.com", "a.com", "10.0.0.1"] }
"1BAD" = { allow = ["a.com"] }
"#,
    );
    let config = parsed.unwrap().config;
    assert_eq!(
        config.network.allow,
        vec![HostPattern::from_str("a.com").unwrap(), HostPattern::from_str("b.com").unwrap()]
    );
    assert_eq!(config.secrets.len(), 1);
    assert_eq!(
        config.secrets.get("TOKEN").unwrap().allow,
        vec![HostPattern::from_str("a.com").unwrap()]
    );
    assert_eq!(errors(&diagnostics).len(), 2);
}
