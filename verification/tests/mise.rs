//! What is read from mise and what is written for it.

use microkitchen::config::staging;
use microkitchen::config::{Diagnostics, Source};
use microkitchen::maps::TextMap;
use microkitchen::mise::clean_stderr;
use microkitchen::mise::declarations::{DeclarationKind, EnvDeclarations};
use microkitchen::mise::env::{merge, MiseEnvEntry};
use microkitchen::mise::render::{render_guest_config, render_guest_config_with};
use toml_edit::DocumentMut;

#[test]
fn classifies_declarations_and_skips_directives() {
    let mut d = EnvDeclarations::default();
    d.add_document(
        "/p/mise.toml",
        r#"
[env]
A = "1"
T = "{{ env.HOME }}/x"
R = { required = true }
D = { default = "" }
V = { value = "v", redact = true }
_.file = ".env"
mise.file = ".env2"
"#,
    )
    .unwrap();
    let kinds: Vec<(&str, DeclarationKind)> = (0..d.vars.len())
        .map(|i| {
            let (name, declaration) = d.vars.at(i);
            (name, declaration.kind)
        })
        .collect();
    assert_eq!(
        kinds,
        [
            ("A", DeclarationKind::Value),
            ("D", DeclarationKind::Default),
            ("R", DeclarationKind::Required),
            ("T", DeclarationKind::Template),
            ("V", DeclarationKind::Value)
        ]
    );
}

#[test]
fn later_files_override_and_unset() {
    let mut d = EnvDeclarations::default();
    d.add_document("/p/mise.toml", "[env]\nA = \"1\"\nB = \"2\"\n").unwrap();
    d.add_document("/p/mise.local.toml", "[env]\nA = false\nB = { required = true }\n").unwrap();
    assert!(!d.contains("A"));
    assert_eq!(d.vars.get("B").unwrap().file, "/p/mise.local.toml");
    assert_eq!(d.vars.get("B").unwrap().kind, DeclarationKind::Required);
}

#[test]
fn reads_env_arrays() {
    let mut d = EnvDeclarations::default();
    d.add_document("/p/mise.toml", "[[env]]\nA = \"1\"\n[[env]]\nB = \"{{ env.A }}\"\n").unwrap();
    assert!(d.contains("A") && d.contains("B"));
    assert!(d.add_document("/p/mise.toml", "[env\n").is_err());
}

fn entry(value: &str, source: Option<&str>) -> MiseEnvEntry {
    MiseEnvEntry { value: value.to_string(), source: source.map(|s| s.to_string()) }
}

fn values(pairs: &[(&str, &str)]) -> TextMap<String> {
    let mut map = TextMap::new();
    for (name, value) in pairs {
        map.insert(name, value.to_string());
    }
    map
}

#[test]
fn merges_output_declarations_and_host() {
    let mut output: TextMap<MiseEnvEntry> = TextMap::new();
    output.insert("FROMFILE", entry("secret", Some("/p/.env")));
    output.insert("OPT", entry("", Some("/p/mise.toml")));
    output.insert("PATH", entry("/usr/bin", None));
    output.insert("PLAIN", entry("hello", Some("/p/mise.toml")));
    let mut declarations = EnvDeclarations::default();
    declarations
        .add_document(
            "/p/mise.toml",
            "[env]\nPLAIN = \"hello\"\nOPT = { default = \"\" }\nREQ = { required = true }\nGONE = { default = \"x\" }\nEMPTYHOST = { required = true }\n",
        )
        .unwrap();
    let host = values(&[("REQ", "from-host"), ("EMPTYHOST", ""), ("UNDECLARED", "never")]);

    let env = merge(&output, &declarations, &host);
    let values: Vec<(&str, &str)> = (0..env.values.len())
        .map(|i| {
            let (name, value) = env.values.at(i);
            (name, value.as_str())
        })
        .collect();
    assert_eq!(values, [("FROMFILE", "secret"), ("PLAIN", "hello"), ("REQ", "from-host")]);
    assert_eq!(
        env.empty.iter().map(String::as_str).collect::<Vec<_>>(),
        ["EMPTYHOST", "OPT"]
    );
}

#[test]
fn mise_output_wins_over_host() {
    let mut output: TextMap<MiseEnvEntry> = TextMap::new();
    output.insert("A", entry("mise", Some("/p/mise.toml")));
    let mut declarations = EnvDeclarations::default();
    declarations.add_document("/p/mise.toml", "[env]\nA = \"mise\"\n").unwrap();
    let env = merge(&output, &declarations, &values(&[("A", "host")]));
    assert_eq!(env.value("A"), Some("mise"));
    assert_eq!(env.value("B"), None);
}

#[test]
fn strips_mise_boilerplate() {
    let stderr = b"mise ERROR Required environment variable 'REQ' is not defined.\n\
mise ERROR Version: 2026.9.6 linux-x64 (2026-09-12)\n\
mise ERROR Run with --verbose or MISE_VERBOSE=1 for more information\n";
    assert_eq!(
        clean_stderr(stderr),
        "Required environment variable 'REQ' is not defined."
    );
    assert!(clean_stderr(b"").contains("printed nothing"));
    assert_eq!(clean_stderr(b"mise ERROR a\xff\n"), "a\u{fffd}");
}

/// What a kitchen file without `[bootstrap.users.chef]` gains.
const DEFAULT_CHEF: &str = "\n[bootstrap.users.chef]\nuid = 1001\ngroup = \"chef\"\n\
    groups = [\"sudo\", \"docker\"]\nshell = \"/bin/bash\"\ncomment = \"sandbox user\"\n\
    \n[bootstrap.groups.chef]\ngid = 1001\n";

#[test]
fn strips_host_directives_only() {
    let text = r#"# kitchen
[env]
_.file = ".env"
_.path = ["./bin"]
_.source = "./setup.sh"
_.python.venv = ".venv"
A = "1"
REQ = { required = true }

[tools]
node = "22"

[_.microkitchen]
cpus = 2
"#;
    let out = render_guest_config(text).unwrap();
    for gone in [".env\"", "./bin", "setup.sh"] {
        assert!(!out.contains(gone), "{gone} survived:\n{out}");
    }
    for kept in [
        "# kitchen",
        "_.python.venv = \".venv\"",
        "A = \"1\"",
        "REQ = { required = true }",
        "node = \"22\"",
    ] {
        assert!(out.contains(kept), "{kept} missing:\n{out}");
    }
    assert!(!out.contains("microkitchen"), "{out}");
}

#[test]
fn keeps_other_user_tables() {
    let text = "[tools]\nnode = \"22\"\n\n[_.other]\na = 1\n\n[_.microkitchen]\ncpus = 2\n\n[_.microkitchen.network]\nallow = [\"a.com\"]\n";
    let out = render_guest_config(text).unwrap();
    assert!(out.contains("[_.other]") && out.contains("a = 1"), "{out}");
    assert!(!out.contains("microkitchen") && !out.contains("a.com"), "{out}");

    let out =
        render_guest_config("[tools]\nnode = \"22\"\n\n[_.microkitchen]\ncpus = 2\n").unwrap();
    assert_eq!(out, format!("[tools]\nnode = \"22\"\n{DEFAULT_CHEF}"));
}

#[test]
fn removes_emptied_directive_tables() {
    let out =
        render_guest_config("[env]\n_.file = \".env\"\nmise.file = \".e\"\nA = \"1\"\n").unwrap();
    assert_eq!(out, format!("[env]\nA = \"1\"\n{DEFAULT_CHEF}"));
}

#[test]
fn handles_env_arrays() {
    let out = render_guest_config("[[env]]\n_.file = \".env\"\n[[env]]\nA = \"1\"\n").unwrap();
    assert!(!out.contains(".env"), "{out}");
    assert!(out.contains("A = \"1\""));
}

/// `bootstrap.<section>.<name>.<key>` of rendered output.
fn account(out: &str, section: &str, name: &str, key: &str) -> Option<String> {
    let document: DocumentMut = out.parse().unwrap();
    let value = document["bootstrap"][section][name].get(key)?;
    Some(value.to_string().trim().to_owned())
}

#[test]
fn adds_chef_next_to_other_accounts() {
    let text = "[bootstrap.users.alice]\ngroup = \"staff\"\n\n[bootstrap.groups.staff]\n";
    let out = render_guest_config(text).unwrap();
    assert!(out.starts_with("[bootstrap.users.alice]\ngroup = \"staff\"\n"), "{out}");
    assert!(out.contains("[bootstrap.groups.staff]\n"), "{out}");
    assert_eq!(account(&out, "users", "chef", "uid").as_deref(), Some("1001"));
    assert_eq!(
        account(&out, "users", "chef", "groups").as_deref(),
        Some("[\"sudo\", \"docker\"]")
    );
    assert_eq!(account(&out, "groups", "chef", "gid").as_deref(), Some("1001"));
}

#[test]
fn keeps_a_declared_chef_and_fills_in_its_ids() {
    let text = "[bootstrap.users.chef]\nshell = \"/bin/zsh\"\n\n[bootstrap.groups.chef]\nsystem = false\n";
    let out = render_guest_config(text).unwrap();
    assert_eq!(
        out,
        "[bootstrap.users.chef]\nshell = \"/bin/zsh\"\nuid = 1001\ngroup = \"chef\"\n\n\
         [bootstrap.groups.chef]\nsystem = false\ngid = 1001\n"
    );

    let text = "[bootstrap.users.chef]\nuid = 2000\ngroup = \"chef\"\n\n[bootstrap.groups.chef]\ngid = 2000\n";
    assert_eq!(render_guest_config(text).unwrap(), text);
}

#[test]
fn leaves_another_primary_group_alone() {
    let text = "[bootstrap.users.chef]\nuid = 1001\ngroup = \"staff\"\n\n[bootstrap.groups.staff]\ngid = 50\n";
    assert_eq!(render_guest_config(text).unwrap(), text);
    assert!(render_guest_config("[tools\n").is_err());
}

/// Render with the staging plan the kitchen file itself produces.
fn staged(text: &str, dotfiles: Option<&str>) -> String {
    let source = Source::new("/p/app/mise.toml", text);
    let mut diagnostics = Diagnostics::default();
    let plan = staging::plan(
        &source,
        "/p/app",
        "/p/app",
        dotfiles,
        Some("/home/t"),
        &mut diagnostics,
    );
    assert!(!diagnostics.has_errors(), "{diagnostics:?}");
    render_guest_config_with(text, &plan).unwrap()
}

#[test]
fn rewrites_sources_to_absolute_guest_paths() {
    let text = r#"# kitchen
[dotfiles]
"~/.gitconfig" = "dotfiles/gitconfig"
"~/.vimrc" = { source = "dotfiles/vimrc", mode = "copy" }

[dotfiles."~/.config/nvim"]
source = "dotfiles/nvim"
mode = "symlink"

[bootstrap.files."/etc/a.conf"]
source = "etc/a.conf"
mode = "0644"
"#;
    let out = staged(text, None);
    for expected in [
        "\"~/.gitconfig\" = \"/opt/kitchen/files/project/dotfiles/gitconfig\"",
        "source = \"/opt/kitchen/files/project/dotfiles/vimrc\"",
        "source = \"/opt/kitchen/files/project/dotfiles/nvim\"",
        "source = \"/opt/kitchen/files/project/etc/a.conf\"",
    ] {
        assert!(out.contains(expected), "{expected} missing:\n{out}");
    }
    // Comments, unrelated keys and table headers survive.
    for kept in [
        "# kitchen",
        "mode = \"copy\"",
        "mode = \"symlink\"",
        "mode = \"0644\"",
        "[dotfiles.\"~/.config/nvim\"]",
    ] {
        assert!(out.contains(kept), "{kept} missing:\n{out}");
    }
    assert!(!out.contains("\"dotfiles/gitconfig\""), "{out}");
}

#[test]
fn rewrites_every_variant_and_keeps_the_pattern_of_a_glob() {
    let text = r#"
[dotfiles."~/.config/*.toml"]
source = "conf/*.toml"

[dotfiles."vscode/settings.json"]
variants = [
  { os = "macos", source = "dot/macos.json" },
  { os = "linux", source = "dot/linux.json" },
]
"#;
    let out = staged(text, None);
    assert!(
        out.contains("source = \"/opt/kitchen/files/project/conf/*.toml\""),
        "{out}"
    );
    assert!(
        out.contains("source = \"/opt/kitchen/files/project/dot/macos.json\""),
        "{out}"
    );
    assert!(
        out.contains("source = \"/opt/kitchen/files/project/dot/linux.json\""),
        "{out}"
    );
    assert!(out.contains("os = \"macos\""), "{out}");
}

#[test]
fn git_manifest_is_dropped_since_the_copy_has_no_git() {
    let text =
        "[dotfiles.\"~\"]\nsource = \"dots\"\nmode = \"symlink-each\"\nmanifest = \"git\"\n";
    let out = staged(text, None);
    assert!(!out.contains("manifest"), "{out}");
    assert!(out.contains("mode = \"symlink-each\""), "{out}");
}

#[test]
fn the_dotfiles_root_is_created_or_replaced() {
    // Created when the kitchen file has no [settings] at all.
    let out = staged("[tools]\nnode = \"22\"\n", Some("/home/t/.dots"));
    let document: DocumentMut = out.parse().unwrap();
    let root = document["settings"]["dotfiles"]["root"].as_str().unwrap();
    assert!(root.starts_with("/opt/kitchen/files/"), "{out}");
    assert!(root.ends_with("/.dots"), "{out}");

    // Replaced in place when it is already written.
    let out = staged("[settings.dotfiles]\nroot = \"~/.dotfiles\"\n", None);
    assert!(!out.contains("~/.dotfiles"), "{out}");
    assert!(out.contains("[settings.dotfiles]"), "{out}");
}

#[test]
fn rewrites_run_before_the_microkitchen_table_is_stripped() {
    let text = "[dotfiles]\n\"~/.x\" = \"d/x\"\n\n[_.microkitchen]\ncpus = 1\n";
    let out = staged(text, None);
    assert!(
        out.contains("\"~/.x\" = \"/opt/kitchen/files/project/d/x\""),
        "{out}"
    );
    assert!(!out.contains("microkitchen"), "{out}");
}

#[test]
fn fills_in_inline_and_dotted_declarations() {
    let out = render_guest_config("[bootstrap]\nusers.chef = { shell = \"/bin/zsh\" }\n").unwrap();
    assert_eq!(account(&out, "users", "chef", "shell").as_deref(), Some("\"/bin/zsh\""));
    assert_eq!(account(&out, "users", "chef", "uid").as_deref(), Some("1001"));
    assert_eq!(account(&out, "users", "chef", "groups"), None);
    assert_eq!(account(&out, "groups", "chef", "gid").as_deref(), Some("1001"));
}

#[test]
fn rendering_twice_changes_nothing() {
    for text in [
        "",
        "[env]\nA = \"1\"\n_.file = \".env\"\n\n[_.microkitchen]\ncpus = 2\n",
        "[[env]]\nA = \"1\"\n[[env]]\nmise.path = \"bin\"\n",
        "[bootstrap.users.chef]\nuid = 7\ngroup = \"cooks\"\n\n[_]\nother = 1\n",
        "bootstrap = 3\n",
    ] {
        let once = render_guest_config(text).unwrap();
        assert_eq!(render_guest_config(&once).unwrap(), once, "{text}");
    }
}

#[test]
fn guest_copies_keep_the_other_variables() {
    let text = "[env]\nA = \"1\"\n_.source = \"x\"\nB = \"2\"\n\n[tools]\nnode = \"22\"\n";
    let out = render_guest_config(text).unwrap().parse::<DocumentMut>().unwrap();
    assert_eq!(out["env"]["A"].as_str(), Some("1"));
    assert_eq!(out["env"]["B"].as_str(), Some("2"));
    assert!(out["env"].get("_").is_none());
    assert_eq!(out["tools"]["node"].as_str(), Some("22"));
    assert_eq!(out["bootstrap"]["users"]["chef"]["group"].as_str(), Some("chef"));
}

#[test]
fn tables_of_dotted_keys_are_rendered_in_place() {
    for text in [
        "[bootstrap.users.other]\nuid = 5\n\n[bootstrap]\nusers.more.uid = 6\n",
        "bootstrap.users.more.uid = 6\n",
        "bootstrap = { users.chef.shell = \"/bin/sh\", }\n",
        "env = { _.file = \"x\", }\n",
    ] {
        let once = render_guest_config(text).unwrap();
        let out = once.parse::<DocumentMut>().unwrap();
        assert!(out["bootstrap"]["users"]["chef"]["uid"].as_integer().is_some(), "{once}");
        assert_eq!(render_guest_config(&once).unwrap(), once);
    }
}
