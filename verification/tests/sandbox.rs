//! Plans, builders, staged files and changes.

use microkitchen::config::hostpat::HostPattern;
use microkitchen::config::json::write_config;
use microkitchen::config::schema::{
    GuestUser, KitchenConfig, Mount, NetworkPreset, PortMapping, Protocol, SecretConfig, CHEF,
};
use microkitchen::config::staging::{StagePlan, StagedSource};
use microkitchen::maps::TextMap;
use microkitchen::sandbox::bootstrap::{mark, step_result, steps};
use microkitchen::sandbox::builder::{
    builder, environment, mediation, secret_host, secret_hosts, Egress, GUEST_PATH, ROOT,
};
use microkitchen::sandbox::labels;
use microkitchen::sandbox::lifecycle::{
    docker_timed_out, docker_wait_script, guest_config_script, is_active, status_name,
    SandboxStatus,
};
use microkitchen::sandbox::naming::{sandbox_name, slug, MAX_SLUG_LEN};
use microkitchen::sandbox::plan::{config_hash, SandboxPlan, SecretValue};
use microkitchen::sandbox::remodel::{
    applied_without_recreate, diff, env_patch, format_mib, Change, Route,
};
use microkitchen::sandbox::staging::{
    apply_script, collect, copied, excluded, fingerprint, git_manifest, manifest_error, removable,
    wanted, Found, Kind, Scan, StageArchive,
};
use microkitchen::time::SECOND;

fn pattern(text: &str) -> HostPattern {
    HostPattern::from_str(text).unwrap()
}

// Names

#[test]
fn names_are_stable_and_distinct() {
    let a = sandbox_name("/home/u/My Project/mise.toml", "/home/u/My Project");
    assert!(a.starts_with("mk-my-project-"), "{a}");
    assert_eq!(a.len(), "mk-my-project-".len() + 8);
    assert_eq!(a, sandbox_name("/home/u/My Project/mise.toml", "/home/u/My Project"));
    let b = sandbox_name("/home/u/My Project/mise.local.toml", "/home/u/My Project");
    assert_ne!(a, b);
}

#[test]
fn slugs() {
    assert_eq!(slug("--Hello, World!--"), "hello-world");
    assert_eq!(slug("\u{65e5}\u{672c}"), "kitchen");
    assert_eq!(slug(""), "kitchen");
    assert_eq!(slug(&"a".repeat(200)).len(), MAX_SLUG_LEN);
}

// Plans

#[test]
fn hash_tracks_the_config() {
    let a = KitchenConfig::default();
    let mut b = KitchenConfig::default();
    assert_eq!(config_hash(&a), config_hash(&b));
    assert_eq!(config_hash(&a).len(), 16);
    b.cpus = 3;
    assert_ne!(config_hash(&a), config_hash(&b));
}

#[test]
fn configurations_are_hashed_as_json() {
    let mut config = KitchenConfig::default();
    assert_eq!(
        write_config(&config),
        r#"{"cpus":2,"memory_mib":4096,"disk_mib":10240,"mounts":[],"network":{"preset":"public","allow":[],"deny":[],"ports":[]},"secrets":{},"user":{"uid":1001,"gid":1001}}"#
    );
    config.mounts = vec![
        Mount { host: "/a \"b\"\\\n\u{1}".into(), guest: "/g".into(), readonly: true },
        Mount { host: "/c".into(), guest: "/h".into(), readonly: false },
    ];
    config.network.preset = NetworkPreset::Disabled;
    config.network.allow = vec![pattern("*.a.com"), pattern("10.0.0.0/8")];
    config.network.ports = vec![PortMapping { host: 1, guest: 2, protocol: Protocol::Udp }];
    config.secrets.insert("B", SecretConfig { allow: vec![pattern("b.com")] });
    config.secrets.insert("A", SecretConfig { allow: vec![pattern("a.com")] });
    config.dotfiles = Some("/d".into());
    let json = write_config(&config);
    assert_eq!(
        json,
        r#"{"cpus":2,"memory_mib":4096,"disk_mib":10240,"mounts":[{"host":"/a \"b\"\\\n\u0001","guest":"/g","readonly":true},{"host":"/c","guest":"/h","readonly":false}],"network":{"preset":"none","allow":["*.a.com","10.0.0.0/8"],"deny":[],"ports":[{"host":1,"guest":2,"protocol":"udp"}]},"secrets":{"A":{"allow":["a.com"]},"B":{"allow":["b.com"]}},"user":{"uid":1001,"gid":1001},"dotfiles":"/d"}"#
    );
    let value: serde_json::Value = serde_json::from_str(&json).unwrap();
    assert_eq!(value["mounts"][0]["host"], "/a \"b\"\\\n\u{1}");
}

fn plan() -> SandboxPlan {
    let mut env: TextMap<String> = TextMap::new();
    env.insert("GREETING", "hi".into());
    env.insert("TMPDIR", "/t".into());
    let mut secrets: TextMap<SecretValue> = TextMap::new();
    secrets.insert(
        "TOKEN",
        SecretValue {
            value: "s".into(),
            secret: SecretConfig { allow: vec![pattern("github.com"), pattern("*.github.com")] },
        },
    );
    SandboxPlan {
        name: "mk-a".into(),
        kitchen_file: "/p/mise.toml".into(),
        config: KitchenConfig::default(),
        config_hash: config_hash(&KitchenConfig::default()),
        env,
        secrets,
        kitchen_text: "[tools]\n".into(),
        guest_config: "[tools]\n".into(),
    }
}

#[test]
fn labels_tell_sandboxes_apart() {
    let labels = plan().labels("1.2.3");
    assert_eq!(labels[0], (labels::MANAGED, "true".to_string()));
    assert_eq!(labels[1], (labels::CONFIG, "/p/mise.toml".to_string()));
    assert_eq!(labels[3], (labels::VERSION, "1.2.3".to_string()));
    assert_eq!(labels[4], (labels::BOOTSTRAPPED, mark(false).to_string()));
}

// Builders

#[test]
fn the_kitchen_overrides_the_guest_environment() {
    let plan = plan();
    let env = environment(&plan.env);
    let last = |name: &str| env.iter().rev().find(|(n, _)| n == name).map(|(_, v)| v.as_str());
    assert_eq!(last("PATH"), Some(GUEST_PATH));
    assert_eq!(last("TMPDIR"), Some("/t"));
    assert_eq!(last("GREETING"), Some("hi"));
}

#[test]
fn sandboxes_are_built_as_planned() {
    let egress = Some(Egress {
        resolver_port: 5300,
        proxy_port: 5301,
        secret_env: "MK_PROXY_SECRET_X".into(),
    });
    let build = builder(&plan(), &egress, "1.2.3");
    assert_eq!(build.name, "mk-a");
    assert_eq!((build.cpus, build.memory_mib, build.disk_mib), (2, 4096, 10240));
    assert_eq!(build.user, "1001:1001");
    assert_eq!(build.secrets.len(), 1);
    assert_eq!(build.secrets[0].hosts, ["github.com", "*.github.com"]);
    let mediation = build.mediation.unwrap();
    assert_eq!(mediation.resolver.port, 5300);
    assert!(mediation.proxy.contains("5301"), "{}", mediation.proxy);
    assert_eq!(mediation.username, "mk-a");
}

#[test]
fn sandboxes_without_a_network_are_not_mediated() {
    let egress = Some(Egress { resolver_port: 1, proxy_port: 2, secret_env: "S".into() });
    assert!(mediation("mk-a", NetworkPreset::Disabled, &egress).is_none());
    assert!(mediation("mk-a", NetworkPreset::Public, &None).is_none());
    assert!(mediation("mk-a", NetworkPreset::Public, &egress).is_some());
    assert_eq!(secret_host(&pattern("10.0.0.1")), None);
    assert_eq!(secret_hosts(&vec![pattern("a.com"), pattern("10.0.0.1")]), ["a.com"]);
}

// Bootstrapping and running

fn root_script(mise_version: Option<&str>) -> String {
    let steps = steps(mise_version);
    assert_eq!(steps[0].user, ROOT);
    steps[0].script.clone()
}

#[test]
fn pins_the_mise_version() {
    assert!(root_script(Some("2026.9.6")).contains(
        "curl -fsSL https://mise.run | MISE_VERSION=v2026.9.6 MISE_INSTALL_PATH=/usr/local/bin/mise sh"
    ));
    assert!(root_script(Some("v2026.9.6")).contains("MISE_VERSION=v2026.9.6 MISE_INSTALL_PATH"));
    assert!(root_script(None).contains("https://mise.run | MISE_INSTALL_PATH="));
}

#[test]
fn root_creates_chef_and_chef_bootstraps() {
    let steps = steps(None);
    assert!(steps[0].script.contains("mise bootstrap accounts apply --yes"));
    assert!(steps[0].script.contains("%sudo ALL=(ALL:ALL) NOPASSWD: ALL"));
    assert_eq!(steps[1].user, CHEF);
    assert!(steps[1].script.ends_with("mise bootstrap --yes\n"));
}

#[test]
fn failed_steps_point_at_the_log() {
    assert_eq!(step_result(Some(0), "/l"), Ok(()));
    let error = step_result(Some(-3), "/l").unwrap_err();
    assert!(error.contains("exit code -3") && error.contains("/l"), "{error}");
    assert!(step_result(None, "/l").is_err());
}

#[test]
fn docker_is_waited_for() {
    assert_eq!(
        docker_wait_script(90 * SECOND),
        "timeout 90 sh -c 'until docker info >/dev/null 2>&1; do sleep 1; done'"
    );
    assert!(docker_timed_out(90 * SECOND, "oops").contains("90s; dockerd log:\noops"));
    assert!(is_active(SandboxStatus::Running) && !is_active(SandboxStatus::Down));
    assert_eq!(status_name("Running"), "running");
    assert!(guest_config_script().contains("/opt/kitchen"));
}

// Changes

fn config() -> KitchenConfig {
    KitchenConfig::default()
}

fn fields(changes: &[Change]) -> Vec<(&str, Route)> {
    changes.iter().map(|c| (c.field.as_str(), c.route)).collect()
}

#[test]
fn identical_configs_have_no_changes() {
    assert!(diff(&config(), &config()).is_empty());
}

#[test]
fn changes_are_routed() {
    let applied = config();
    let mut desired = config();
    desired.cpus = applied.cpus + 1;
    desired.memory_mib = 2048;
    desired.network.allow = vec![pattern("example.com")];
    desired.network.ports = vec![PortMapping { host: 8080, guest: 80, protocol: Protocol::Tcp }];
    desired.mounts =
        vec![Mount { host: "/src".into(), guest: "/work".into(), readonly: true }];
    desired.user.uid = 2000;
    let changes = diff(&applied, &desired);
    assert_eq!(
        fields(&changes),
        vec![
            ("cpus", Route::Sdk),
            ("memory", Route::Sdk),
            ("network.allow", Route::Broker),
            ("network.ports", Route::Recreate),
            ("mounts", Route::Recreate),
            ("user", Route::Recreate),
        ]
    );
    assert_eq!(changes[1].after, "2G");
    assert_eq!(changes[3].after, "8080:80");
    assert_eq!(changes[4].after, "/src -> /work (read-only)");
    assert_eq!(changes[5].after, "2000:1001");
}

#[test]
fn secrets_are_compared_by_name_and_hosts() {
    let mut applied = config();
    applied.secrets.insert("OLD", SecretConfig { allow: vec![pattern("a.com")] });
    applied.secrets.insert("KEPT", SecretConfig { allow: vec![pattern("a.com")] });
    let mut desired = config();
    desired.secrets.insert("KEPT", SecretConfig { allow: vec![pattern("*.a.com")] });
    desired.secrets.insert("NEW", SecretConfig { allow: vec![pattern("b.com")] });
    let changes = diff(&applied, &desired);
    assert_eq!(
        fields(&changes),
        vec![
            ("secret KEPT", Route::Sdk),
            ("secret OLD", Route::Sdk),
            ("secret NEW", Route::Sdk),
        ]
    );
    assert_eq!(changes[1].after, "(none)");
    assert_eq!(changes[2].before, "(none)");
}

#[test]
fn skipping_recreation_keeps_what_the_sandbox_has() {
    let applied = config();
    let mut desired = config();
    desired.cpus = 4;
    desired.network.preset = NetworkPreset::Disabled;
    desired.mounts =
        vec![Mount { host: "/src".into(), guest: "/work".into(), readonly: false }];
    desired.user.uid = 2000;
    let result = applied_without_recreate(&applied, &desired);
    assert_eq!(result.cpus, 4);
    assert_eq!(result.user, applied.user);
    assert_eq!(result.network.preset, applied.network.preset);
    assert!(result.mounts.is_empty());
    assert!(diff(&result, &desired).iter().all(|c| c.route == Route::Recreate));
}

#[test]
fn env_patch_sets_and_removes() {
    let pair = |name: &str, value: &str| (name.to_string(), value.to_string());
    let current = vec![
        pair("PATH", "/bin"),
        pair("A", "1"),
        pair("GONE", "x"),
        // Set by the image, not by microkitchen.
        pair("DOCKER_VERSION", "29"),
    ];
    let map = |pairs: &[(String, String)]| {
        let mut map: TextMap<String> = TextMap::new();
        for (name, value) in pairs {
            map.insert(name, value.clone());
        }
        map
    };
    let desired = map(&[pair("PATH", "/bin"), pair("A", "2"), pair("B", "3")]);
    let managed = vec!["A".to_string(), "GONE".to_string()];
    let patch = env_patch(&current, &desired, &managed);
    assert_eq!(patch.set, vec![pair("A", "2"), pair("B", "3")]);
    assert_eq!(patch.remove, vec!["GONE".to_string()]);

    // Nothing is removed that microkitchen did not set.
    let unchanged = map(&[current[0].clone(), current[1].clone()]);
    assert!(env_patch(&current, &unchanged, &Vec::new()).is_empty());
    assert!(env_patch(&current[..2].to_vec(), &unchanged, &managed).is_empty());
}

#[test]
fn sizes_are_readable() {
    assert_eq!(format_mib(1024), "1G");
    assert_eq!(format_mib(1536), "1536M");
}

// Staged files

fn source(host: &str, guest: &str) -> StagedSource {
    StagedSource {
        host: host.to_owned(),
        guest: guest.to_owned(),
        key: "dotfiles.\"~/.x\"".to_owned(),
        span: None,
        exclude: Vec::new(),
        git_manifest: false,
        outside: false,
        dotfiles_root: false,
    }
}

fn found(relative: &str, kind: Kind, mode: u32, contents: &str) -> Found {
    Found {
        relative: relative.to_owned(),
        kind: Some(kind),
        mode,
        host: format!("/h/dots/{relative}"),
        size: contents.len() as u64,
        // Of a link, where it leads.
        fingerprint: match kind {
            Kind::Symlink => contents.to_owned(),
            _ => fingerprint(contents.as_bytes()),
        },
    }
}

/// A tree with a 0600 file, an executable, a nested dir and a symlink.
fn tree() -> Vec<Found> {
    vec![
        found("gitconfig", Kind::File, 0o100600, "[user]\n"),
        found("notes.md", Kind::File, 0o100644, "# notes\n"),
        found("nvim", Kind::Dir, 0o40755, ""),
        found("nvim/init.lua", Kind::File, 0o100644, "-- lua\n"),
        found("nvim/link.lua", Kind::Symlink, 0o120777, "init.lua"),
        found("setup.sh", Kind::File, 0o100755, "#!/bin/sh\n"),
    ]
}

fn plan_of(sources: Vec<StagedSource>) -> StagePlan {
    StagePlan { sources, rewrites: Vec::new() }
}

const DOTS: &str = "/opt/kitchen/files/project/dots";

fn paths(archive: &StageArchive) -> Vec<&str> {
    archive.entries.iter().map(|e| e.path.as_str()).collect()
}

#[test]
fn archive_preserves_modes_symlinks_and_ownership() {
    let plan = plan_of(vec![source("/h/dots", DOTS)]);
    let archive = collect(&plan, &vec![Scan::Dir { index: None, found: tree() }]);
    let paths = paths(&archive);

    // Paths are relative to the extraction directory and never escape it.
    assert!(paths.iter().all(|p| !p.starts_with('/') && !p.contains("..")), "{paths:?}");

    let entry = |path: &str| archive.entries.iter().find(|e| e.path == path).unwrap();
    assert_eq!(entry("project/dots/gitconfig").mode, 0o600, "mode");
    assert_eq!(entry("project/dots/setup.sh").mode, 0o755);
    assert_eq!(
        entry("project/dots/nvim/link.lua").kind,
        Kind::Symlink,
        "symlinks stay symlinks"
    );
    assert_eq!(entry("project/dots/nvim/link.lua").fingerprint, "init.lua");
    assert_eq!(archive.files, 4);
    assert_eq!(archive.roots, [DOTS]);
    assert!(paths.windows(2).all(|w| w[0] < w[1]), "{paths:?}");
    // Members belong to the guest's user.
    let script = apply_script(&archive, GuestUser { uid: 1001, gid: 1001 }, &Vec::new()).unwrap();
    assert!(script.contains("1001:1001"), "{script}");
}

#[test]
fn excluded_paths_never_leave_the_host() {
    let mut source = source("/h/dots", DOTS);
    source.exclude = vec!["*.md".to_owned(), "nvim".to_owned()];
    let archive =
        collect(&plan_of(vec![source]), &vec![Scan::Dir { index: None, found: tree() }]);
    let paths = paths(&archive);

    assert!(paths.contains(&"project/dots/gitconfig"));
    assert!(!paths.contains(&"project/dots/notes.md"), "{paths:?}");
    // Excluding a directory excludes everything beneath it.
    assert!(!paths.iter().any(|p| p.contains("nvim")), "{paths:?}");
}

#[test]
fn anchored_excludes_only_match_at_the_root() {
    let files = || {
        vec![
            found("mise.toml", Kind::File, 0o644, "a\n"),
            found("sub", Kind::Dir, 0o755, ""),
            found("sub/mise.toml", Kind::File, 0o644, "b\n"),
        ]
    };
    let mut anchored = source("/h/dots", DOTS);
    anchored.exclude = vec!["/mise.toml".to_owned()];
    let kept = collect(&plan_of(vec![anchored]), &vec![Scan::Dir { index: None, found: files() }]);
    let kept = paths(&kept);
    assert!(kept.contains(&"project/dots/sub/mise.toml"), "{kept:?}");
    assert!(!kept.contains(&"project/dots/mise.toml"), "{kept:?}");

    let mut bare = source("/h/dots", DOTS);
    bare.exclude = vec!["mise.toml".to_owned()];
    let dropped = collect(&plan_of(vec![bare]), &vec![Scan::Dir { index: None, found: files() }]);
    let dropped = paths(&dropped);
    assert!(!dropped.contains(&"project/dots/sub/mise.toml"), "{dropped:?}");
}

#[test]
fn a_single_file_source_is_archived_alone() {
    let plan = plan_of(vec![source(
        "/h/dots/gitconfig",
        "/opt/kitchen/files/ab12cd34/gitconfig",
    )]);
    let scan = Scan::File { mode: 0o600, size: 7, fingerprint: fingerprint(b"[user]\n") };
    let archive = collect(&plan, &vec![scan]);
    assert_eq!(paths(&archive), ["ab12cd34/gitconfig"]);
    assert_eq!((archive.files, archive.bytes), (1, 7));
}

#[test]
fn digest_tracks_contents_and_modes_but_not_time() {
    let plan = plan_of(vec![source("/h/dots", DOTS)]);
    let digest = |files: Vec<Found>| {
        collect(&plan, &vec![Scan::Dir { index: None, found: files }]).digest
    };
    let before = digest(tree());
    assert_eq!(before.len(), 16);
    // Re-collecting the untouched tree gives the same digest.
    assert_eq!(digest(tree()), before);

    let mut files = tree();
    files[0] = found("gitconfig", Kind::File, 0o100600, "[user]\n\tname = t\n");
    let after_content = digest(files);
    assert_ne!(after_content, before, "contents");

    let mut files = tree();
    files[0] = found("gitconfig", Kind::File, 0o100644, "[user]\n\tname = t\n");
    assert_ne!(digest(files), after_content, "mode");
}

#[test]
fn an_empty_plan_has_an_empty_digest() {
    let archive = collect(&StagePlan::default(), &Vec::new());
    assert!(archive.is_empty());
    assert_eq!(archive.digest, "");
    assert_eq!(archive.roots, Vec::<String>::new());
}

#[test]
fn git_manifest_limits_the_archive() {
    let index = git_manifest(b"gitconfig\0");
    let mut source = source("/h/dots", DOTS);
    source.git_manifest = true;
    let archive =
        collect(&plan_of(vec![source]), &vec![Scan::Dir { index: Some(index), found: tree() }]);
    let paths = paths(&archive);
    assert!(paths.contains(&"project/dots/gitconfig"), "{paths:?}");
    assert!(!paths.contains(&"project/dots/notes.md"), "{paths:?}");
}

#[test]
fn missing_sources_stage_nothing() {
    let archive = collect(&plan_of(vec![source("/h/dots", DOTS)]), &vec![Scan::Missing]);
    assert!(archive.entries.is_empty());
    assert_eq!(archive.files, 0);
}

#[test]
fn patterns_exclude_by_name_or_path() {
    assert!(excluded("a/b.md", &vec!["*.md".to_string()]));
    assert!(!excluded("a/b.md", &vec!["/*.txt".to_string()]));
    assert!(!excluded("a/b.md", &vec!["[".to_string()]), "a broken pattern matches nothing");
    let source = source("/h/dots", DOTS);
    assert!(wanted(&source, &None, "a", false));
    assert!(!wanted(&source, &Some(vec!["b".to_string()]), "a", false));
    assert!(wanted(&source, &Some(vec!["a/b".to_string()]), "a", true));
    assert_eq!(git_manifest(b"a\0b/c\0"), ["a", "b/c"]);
}

#[test]
fn removals_stay_inside_the_staged_area() {
    for allowed in [
        "/opt/kitchen/files/project/dots",
        "/opt/kitchen/files/ab12cd34/gitconfig",
    ] {
        assert!(removable(allowed), "{allowed}");
    }
    for refused in [
        "/opt/kitchen/files",
        "/opt/kitchen/files/",
        "/opt/kitchen/mise.toml",
        "/opt/kitchen",
        "/etc/passwd",
        "/opt/kitchen/files/../../etc",
        "",
    ] {
        assert!(!removable(refused), "{refused}");
    }
}

#[test]
fn scripts_remove_only_what_was_staged() {
    let empty = collect(&StagePlan::default(), &Vec::new());
    let user = GuestUser { uid: 1001, gid: 1001 };
    assert_eq!(apply_script(&empty, user, &Vec::new()), None);
    assert_eq!(apply_script(&empty, user, &vec!["/etc/passwd".to_string()]), None);
    let script = apply_script(&empty, user, &vec![DOTS.to_string()]).unwrap();
    assert!(script.contains(DOTS), "{script}");
    assert_eq!(copied(Some(0), b""), Ok(()));
    assert!(copied(Some(2), b"tar: oops").unwrap_err().contains("tar: oops"));
    assert!(copied(None, b"").is_err());
    assert!(manifest_error("/d", b"not a repository").contains("/d"));
}

#[test]
fn scripts_quote_what_they_remove() {
    let empty = collect(&StagePlan::default(), &Vec::new());
    let user = GuestUser { uid: 1001, gid: 1001 };
    let stale = "/opt/kitchen/files/a' /opt/kitchen/mise.toml '".to_string();
    let script = apply_script(&empty, user, &vec![stale]).unwrap();
    assert!(
        script.contains(
            "rm -rf -- '/opt/kitchen/files/a'\\'' /opt/kitchen/mise.toml '\\'''\n"
        ),
        "{script}"
    );
    let script = apply_script(&empty, user, &vec![DOTS.to_string()]).unwrap();
    assert!(script.contains("rm -rf -- '/opt/kitchen/files/project/dots'\n"), "{script}");
}

#[test]
fn what_is_no_pattern_excludes_nothing() {
    assert!(excluded("a/notes.md", &vec!["*.md".to_owned()]));
    assert!(!excluded("a/***", &vec!["***".to_owned()]));
    assert!(!excluded("[", &vec!["[".to_owned()]));
}

#[test]
fn versions_are_named_only_where_asked() {
    assert_eq!(root_script(Some("2026.9.6")), root_script(Some("v2026.9.6")));
    assert!(!root_script(None).contains("MISE_VERSION"));
}

#[test]
fn a_source_directory_is_a_member_itself() {
    let mut found_below = vec![found("", Kind::Dir, 0o40700, "")];
    found_below.extend(tree());
    let plan = plan_of(vec![source("/h/dots", DOTS)]);
    let archive = collect(&plan, &vec![Scan::Dir { index: None, found: found_below }]);
    let root = archive.entries.iter().find(|e| e.path == "project/dots").unwrap();
    assert_eq!((root.kind, root.mode), (Kind::Dir, 0o755));
}
