//! Checks against the environment and the file system.

use microkitchen::config::staging::plan;
use microkitchen::config::validate::{check, check_staging, Probe};
use microkitchen::config::walker::parse;
use microkitchen::config::{Diagnostic, Diagnostics, Severity, Source};
use microkitchen::maps::TextMap;
use microkitchen::mise::declarations::EnvDeclarations;
use microkitchen::mise::env::{merge, MiseEnvEntry};

/// Checks a kitchen file in `/k`, where only `/k/src` exists.
fn run(text: &str, host: &[(&str, &str)]) -> Diagnostics {
    let file = "/k/mise.toml";
    let source = Source::new(file, text);
    let mut diagnostics = Diagnostics::default();
    let kitchen = parse(&source, "/k", None, &mut diagnostics).unwrap();

    let mut declarations = EnvDeclarations::default();
    declarations.add_document(file, text).unwrap();
    let output: TextMap<MiseEnvEntry> = TextMap::new();
    let mut values: TextMap<String> = TextMap::new();
    for (name, value) in host {
        values.insert(name, value.to_string());
    }
    let env = merge(&output, &declarations, &values);
    let exist = kitchen.config.mounts.iter().map(|m| m.host == "/k/src").collect();
    check(&kitchen, &source, &declarations, Some(&env), &exist, &mut diagnostics);
    diagnostics
}

#[test]
fn secret_must_be_declared() {
    let diagnostics = run(
        "[env]\nA = \"1\"\n\n[_.microkitchen.secrets.TOKEN]\nallow = [\"x.com\"]\n",
        &[],
    );
    let d = diagnostics.iter().next().unwrap();
    assert_eq!(d.severity, Severity::Error);
    assert_eq!(d.line, Some(4));
    assert!(d.message.contains("TOKEN = { required = true }"));
}

#[test]
fn empty_secret_is_skipped_with_a_notice() {
    let text = "[env]\nT = { default = \"\" }\n[_.microkitchen.secrets.T]\nallow = [\"x.com\"]\n";
    let diagnostics = run(text, &[]);
    assert_eq!(diagnostics.iter().next().unwrap().severity, Severity::Notice);
    assert!(run(text, &[("T", "value")]).is_empty());
}

fn present() -> Probe {
    Probe { exists: true, is_there: true, unreadable: None }
}

fn missing() -> Probe {
    Probe { exists: false, is_there: false, unreadable: None }
}

fn dangling() -> Probe {
    Probe { exists: false, is_there: true, unreadable: None }
}

/// Diagnostics of `check_staging` for a kitchen file in `/k`, given what is
/// found at each host path.
fn stage(text: &str, probe: fn(&str) -> Probe) -> Diagnostics {
    let source = Source::new("/k/mise.toml", text);
    let mut diagnostics = Diagnostics::default();
    let kitchen = parse(&source, "/k", None, &mut diagnostics).unwrap();
    let plan = plan(
        &source,
        "/k",
        "/k",
        kitchen.config.dotfiles.as_deref(),
        None,
        &mut diagnostics,
    );
    let probes = plan.sources.iter().map(|s| probe(&s.host)).collect();
    check_staging(&plan, &source, &probes, &mut diagnostics);
    diagnostics
}

#[test]
fn staged_sources_must_exist() {
    let diagnostics = stage(
        "[dotfiles]\n\"~/.a\" = \"present\"\n\"~/.b\" = \"missing\"\n",
        |host| if host == "/k/present" { present() } else { missing() },
    );
    let errors: Vec<&Diagnostic> = diagnostics.iter().collect();
    assert_eq!(errors.len(), 1, "{errors:?}");
    assert_eq!(errors[0].severity, Severity::Error);
    assert_eq!(errors[0].line, Some(3), "reported at its own line");
    assert_eq!(errors[0].key.as_deref(), Some("dotfiles.\"~/.b\""));
    assert!(errors[0].message.ends_with("does not exist"), "{errors:?}");
}

#[test]
fn a_dangling_symlink_says_so() {
    let diagnostics = stage("[dotfiles]\n\"~/.a\" = \"link\"\n", |_| dangling());
    let errors: Vec<&Diagnostic> = diagnostics.iter().collect();
    assert_eq!(errors.len(), 1, "{errors:?}");
    assert!(errors[0].message.contains("symbolic link with no target"), "{errors:?}");
}

#[test]
fn an_unreadable_source_says_why() {
    let diagnostics = stage("[dotfiles]\n\"~/.a\" = \"x\"\n", |_| Probe {
        exists: true,
        is_there: true,
        unreadable: Some("permission denied".to_string()),
    });
    let errors: Vec<&Diagnostic> = diagnostics.iter().collect();
    assert_eq!(errors.len(), 1, "{errors:?}");
    assert!(errors[0].message.contains("permission denied"), "{errors:?}");
}

#[test]
fn the_dotfiles_key_must_point_somewhere() {
    let text = "[_.microkitchen]\ndotfiles = \"./dots\"\n";
    let diagnostics = stage(text, |_| missing());
    let errors: Vec<&Diagnostic> = diagnostics.iter().collect();
    assert_eq!(errors.len(), 1, "{errors:?}");
    assert!(errors[0].message.ends_with("does not exist"), "{errors:?}");

    assert!(stage(text, |_| present()).is_empty(), "an existing directory is fine");
}

/// `mode = "track"`, `owner` and templating are mise's business: staging
/// only reports what stops it producing a copy.
#[test]
fn entries_staging_nothing_are_not_judged() {
    let diagnostics = stage(
        "[dotfiles]\n\"~/.zshrc\" = { mode = \"track\", autosave = false }\n\
         \"~/.x\" = { content = \"a\\n\" }\n\
         [bootstrap.files.\"/etc/x\"]\ncontent = \"y\\n\"\nowner = \"root\"\n",
        |_| missing(),
    );
    assert!(diagnostics.is_empty(), "{diagnostics:?}");
}

#[test]
fn mount_sources_must_exist() {
    let diagnostics = run("[_.microkitchen]\nmounts = [\"./src:/a\", \"./nope:/b\"]\n", &[]);
    let errors: Vec<&Diagnostic> = diagnostics.iter().collect();
    assert_eq!(errors.len(), 1);
    assert_eq!(errors[0].key.as_deref(), Some("_.microkitchen.mounts[1]"));
    assert!(
        errors[0].message.ends_with("nope` does not exist"),
        "{}",
        errors[0].message
    );
}
