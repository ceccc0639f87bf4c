//! What is kept on the host.

use microkitchen::state::secret::{env_var, generate, path, secret_text, stored};
use microkitchen::state::sandbox::SandboxState;
use microkitchen::state::settings::{
    from_secs, strip_v, DialogSetting, HeadlessFallback, Settings, SettingsError,
};
use microkitchen::state::{Home, NoHome};
use microkitchen::time::SECOND;

#[test]
fn explicit_home_wins() {
    let home = Home::resolve(Some("/x/state"), None, None, "/cwd").unwrap();
    assert_eq!(home.root(), "/x/state");
    assert_eq!(home.sandbox_dir("mk-a"), "/x/state/sandboxes/mk-a");
}

#[test]
fn home_falls_back_to_the_environment() {
    let home = Home::resolve(None, Some("/y"), Some("/home/u"), "/cwd").unwrap();
    assert_eq!(home.root(), "/y");
    let home = Home::resolve(None, None, Some("/home/u"), "/cwd").unwrap();
    assert_eq!(home.root(), "/home/u/.microkitchen");
    assert_eq!(Home::resolve(None, None, None, "/cwd").unwrap_err(), NoHome);
    assert!(NoHome.to_text().contains("home"));
    let home = Home::resolve(Some("rel"), None, None, "/cwd").unwrap();
    assert_eq!(home.root(), "/cwd/rel");
}

#[test]
fn files_stand_under_the_home() {
    let home = Home::at("/x");
    assert_eq!(home.config_file(), "/x/config.toml");
    assert_eq!(home.rules_file(), "/x/rules.toml");
    assert_eq!(home.broker_dir(), "/x/broker");
    assert_eq!(home.logs_dir(), "/x/logs");
    assert_eq!(path(&home, "mk-a").rsplit_once('/').unwrap().0, home.sandbox_dir("mk-a"));
    assert_eq!(SandboxState::path(&home, "mk-a"), "/x/sandboxes/mk-a/state.json");
}

#[test]
fn env_var_names_are_stable_and_distinct() {
    assert_eq!(env_var("mk-a"), env_var("mk-a"));
    assert_ne!(env_var("mk-a"), env_var("mk-b"));
    assert!(env_var("mk-a").starts_with("MK_PROXY_SECRET_"));
}

#[test]
fn secrets_are_fresh_and_hexadecimal() {
    let secret = generate().unwrap();
    assert_eq!(secret.len(), 64);
    assert!(secret.chars().all(|c| c.is_ascii_hexdigit()));
    assert_ne!(generate().unwrap(), secret);
    assert_eq!(stored(&format!("{secret}\n")), secret);
    assert_eq!(secret_text(&vec![0, 0xab]), "00ab");
}

#[test]
fn parses_and_validates() {
    assert_eq!(Settings::parse("").unwrap(), Settings::default());
    assert_eq!(
        Settings::parse("mise_version = \"2026.9.6\"\n").unwrap().mise_version.as_deref(),
        Some("2026.9.6")
    );
    assert!(Settings::parse("mise_version = \"1; rm -rf /\"\n").is_err());
    assert!(Settings::parse("unknown = 1\n").is_err());
}

/// A missing `config.toml` reads as an empty one.
#[test]
fn missing_file_means_defaults() {
    assert_eq!(Settings::parse("").unwrap(), Settings::default());
    let defaults = Settings::default();
    assert_eq!(defaults.mise_version, None);
    assert!(defaults.broker.upstream_dns.is_empty());
}

#[test]
fn every_setting_is_read() {
    let settings = Settings::parse(
        "mise_version = \"v1.2.3\"\n\
         [approval]\ndialog = \"zenity\"\nheadless = \"queue\"\ntimeout_secs = 30\nmax_prompts = 3\nwindow_secs = 60\n\
         [broker]\nport_range = [30000, 30010]\nupstream_dns = [\"1.1.1.1\"]\n",
    )
    .unwrap();
    assert_eq!(settings.approval.dialog, DialogSetting::Zenity);
    assert_eq!(settings.approval.headless, HeadlessFallback::Queue);
    assert_eq!(settings.approval.timeout(), 30 * SECOND);
    assert_eq!(settings.approval.window(), 60 * SECOND);
    assert_eq!(settings.approval.max_prompts, 3);
    assert_eq!(settings.broker.port_range, (30000, 30010));
    assert_eq!(settings.broker.upstream_dns, ["1.1.1.1"]);
    assert_eq!(from_secs(2), 2 * SECOND);
    assert_eq!(from_secs(u64::MAX), u64::MAX);
    assert_eq!((strip_v("v1.2"), strip_v("1.2")), ("1.2".into(), "1.2".into()));
}

#[test]
fn each_settings_error_has_an_input() {
    let error = |text: &str| Settings::parse(text).unwrap_err();
    assert!(matches!(error("[approval\n"), SettingsError::Syntax(_)));
    assert!(matches!(error("unknown = 1\n"), SettingsError::Unknown(_)));
    assert!(matches!(error("[approval]\ndialog = \"x\"\n"), SettingsError::Invalid(_)));
    assert!(matches!(error("[broker]\nport_range = [1]\n"), SettingsError::Invalid(_)));
    let version = error("mise_version = \"1; rm\"\n");
    assert_eq!(version, SettingsError::MiseVersion("1; rm".into()));
    assert!(version.to_text().contains("1; rm"), "{}", version.to_text());
}
