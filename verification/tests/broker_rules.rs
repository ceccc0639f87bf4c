//! Rules and their files.

use microkitchen::broker::rules::{
    parse_global_rules, parse_rules, GlobalRules, RuleSource, Stamp,
};
use microkitchen::config::hostpat::HostPattern;

const BUILTINS: usize = 1;

fn pattern(text: &str) -> HostPattern {
    HostPattern::from_str(text).unwrap()
}

fn stamp(modified: u64, text: &str) -> Option<Stamp> {
    Some(Stamp { modified, len: text.len() as u64 })
}

#[test]
fn reloads_on_change_and_keeps_rules_on_errors() {
    let first = "[_.microkitchen.network]\nallow = [\"a.com\"]\n";
    let mut source = RuleSource::new("/p/mise.toml");
    source.refresh(stamp(1, first), Some(first), None);
    assert_eq!(source.current().allow.len(), 1 + BUILTINS);

    let second = "[_.microkitchen.network]\nallow = [\"a.com\", \"b.com\"]\ndeny = [\"c.com\", \"bad host\"]\n";
    source.refresh(stamp(2, second), Some(second), None);
    let rules = source.current();
    assert_eq!((rules.allow.len(), rules.deny.len()), (2 + BUILTINS, 1));

    let broken = "[_.microkitchen.network\n";
    source.refresh(stamp(3, broken), Some(broken), None);
    assert_eq!(
        source.current().allow.len(),
        2 + BUILTINS,
        "broken files keep the last good rules"
    );
    // And so do files that cannot be read.
    source.refresh(None, None, None);
    assert_eq!(source.current().allow.len(), 2 + BUILTINS);
}

#[test]
fn unchanged_files_are_not_read_again() {
    let text = "[_.microkitchen.network]\nallow = [\"a.com\"]\n";
    let mut source = RuleSource::new("/p/mise.toml");
    assert_eq!(source.file(), "/p/mise.toml");
    assert!(!source.is_fresh(None));
    assert!(!source.is_fresh(stamp(1, text)));
    source.refresh(stamp(1, text), Some(text), None);
    assert!(source.is_fresh(stamp(1, text)));
    assert!(!source.is_fresh(stamp(2, text)));
    source.refresh(stamp(1, text), Some(""), None);
    assert_eq!(source.current().allow.len(), 1 + BUILTINS);
}

#[test]
fn legacy_tables_count() {
    let rules = parse_rules("/p/mise.toml", "[microkitchen.network]\ndeny = [\"x.com\"]\n", None)
        .unwrap();
    assert_eq!(rules.deny.len(), 1);
}

#[test]
fn builtins_apply_with_and_without_a_kitchen_file() {
    let ntp = pattern("ntp.ubuntu.com");
    let rules = parse_rules("/p/mise.toml", "", None).unwrap();
    assert!(rules.allow.contains(&ntp));

    let missing = RuleSource::new("/nonexistent/mise.toml");
    assert!(missing.current().allow.contains(&ntp));
}

#[test]
fn the_rules_for_every_sandbox_are_top_level_lists() {
    let text = "allow = [\"a.com\", \"*.b.com\", \"bad host\", 3]\ndeny = [\"10.0.0.0/8\"]\n";
    let rules = parse_global_rules(text).unwrap();
    assert_eq!(rules.allow, vec![pattern("a.com"), pattern("*.b.com")]);
    assert_eq!(rules.deny, vec![pattern("10.0.0.0/8")]);
    assert!(parse_global_rules("").unwrap().allow.is_empty());
    assert!(parse_global_rules("allow = [").is_none());
    assert!(parse_global_rules("allow = \"a.com\"\n").unwrap().allow.is_empty());

    let mut global = GlobalRules::default();
    assert!(global.current().allow.is_empty());
    global.refresh(stamp(1, text), Some(text));
    assert_eq!(global.current().allow.len(), 2);
    assert!(global.is_fresh(stamp(1, text)));
    global.refresh(stamp(2, "allow = ["), Some("allow = ["));
    assert_eq!(global.current().allow.len(), 2, "broken files keep the last good rules");
}
