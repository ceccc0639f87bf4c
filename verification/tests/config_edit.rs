//! Editing rules in place.

use microkitchen::config::edit::{
    revoke_global_rule_in, revoke_network_rule_in, set_global_rule_in, set_network_rule_in,
    EditError, RuleChange, RuleList,
};
use microkitchen::config::hostpat::HostPattern;

fn rule(s: &str) -> HostPattern {
    HostPattern::from_str(s).unwrap()
}

fn apply(text: &str, list: RuleList, r: &str) -> (String, RuleChange) {
    set_network_rule_in(text, list, &rule(r)).unwrap()
}

#[test]
fn appends_preserving_comments_and_layout() {
    let text = "\
# project settings
[_.microkitchen]
cpus = 2 # enough

[_.microkitchen.network]
allow = [
  \"a.com\", # first
  \"b.com\",
]
";
    let (out, change) = apply(text, RuleList::Allow, "c.com");
    assert!(change.added && !change.removed_from_other);
    assert_eq!(out, text.replace("  \"b.com\",\n]", "  \"b.com\",\n  \"c.com\",\n]"));
}

#[test]
fn appends_to_single_line_arrays() {
    let (out, _) = apply(
        "[_.microkitchen.network]\ndeny = [\"a.com\"]\n",
        RuleList::Deny,
        "203.0.113.7",
    );
    assert_eq!(out, "[_.microkitchen.network]\ndeny = [\"a.com\", \"203.0.113.7\"]\n");
}

#[test]
fn creates_the_section_when_missing() {
    let text = "[env]\nA = \"1\"\n";
    let (out, change) = apply(text, RuleList::Allow, "x.com");
    assert!(change.added);
    assert_eq!(out, "[env]\nA = \"1\"\n\n[_.microkitchen.network]\nallow = [\"x.com\"]\n");
}

#[test]
fn adds_network_to_an_existing_section() {
    let (out, _) = apply("[_.microkitchen]\ncpus = 2\n", RuleList::Deny, "*.evil.com");
    assert_eq!(
        out,
        "[_.microkitchen]\ncpus = 2\n\n[_.microkitchen.network]\ndeny = [\"*.evil.com\"]\n"
    );
}

#[test]
fn writes_into_a_legacy_section() {
    let (out, _) = apply("[microkitchen]\ncpus = 2\n", RuleList::Allow, "x.com");
    assert_eq!(out, "[microkitchen]\ncpus = 2\n\n[microkitchen.network]\nallow = [\"x.com\"]\n");
}

#[test]
fn deduplicates_by_pattern() {
    let text = "[_.microkitchen.network]\nallow = [\"Example.com\"]\n";
    let (out, change) = apply(text, RuleList::Allow, "example.com");
    assert!(change.is_noop());
    assert_eq!(out, text);
}

#[test]
fn moves_between_lists() {
    let text = "[_.microkitchen.network]\nallow = [\"a.com\"]\ndeny = [\"b.com\", \"c.com\"]\n";
    let (out, change) = apply(text, RuleList::Allow, "b.com");
    assert!(change.added && change.removed_from_other);
    assert_eq!(
        out,
        "[_.microkitchen.network]\nallow = [\"a.com\", \"b.com\"]\ndeny = [\"c.com\"]\n"
    );
}

#[test]
fn refuses_non_array_lists() {
    let text = "[_.microkitchen.network]\nallow = \"a.com\"\n";
    assert!(set_network_rule_in(text, RuleList::Allow, &rule("b.com")).is_err());
}

#[test]
fn each_edit_error_has_an_input() {
    let set = |text: &str| set_network_rule_in(text, RuleList::Allow, &rule("b.com"));
    let error = set("[_.microkitchen.network]\nallow = 1\n").unwrap_err();
    assert!(matches!(error, EditError::NotAnArray(_)), "{error:?}");
    assert!(error.to_text().contains("allow"), "{}", error.to_text());
    let error = set("[_.microkitchen]\nnetwork = 1\n").unwrap_err();
    assert!(matches!(error, EditError::NotATable(_)), "{error:?}");
    let error = set("[_.microkitchen\n").unwrap_err();
    assert!(matches!(error, EditError::Syntax(_)), "{error:?}");
}

#[test]
fn a_rule_stands_in_one_list_and_setting_it_again_is_a_noop() {
    let (once, _) = apply("", RuleList::Deny, "a.com");
    let (moved, change) = apply(&once, RuleList::Allow, "a.com");
    assert!(change.added && change.removed_from_other);
    let (again, change) = apply(&moved, RuleList::Allow, "a.com");
    assert!(change.is_noop());
    assert_eq!(again, moved);
    assert_eq!(RuleList::Allow.other(), RuleList::Deny);
    assert_eq!(RuleList::Deny.other().key(), "allow");
}

#[test]
fn revoked_rules_are_gone_from_both_lists() {
    let text = "[_.microkitchen.network]\nallow = [\"a.com\", \"b.com\"]\ndeny = [\"A.com\"]\n";
    let (out, removed) = revoke_network_rule_in(text, &rule("a.com")).unwrap();
    assert!(removed);
    assert_eq!(out, "[_.microkitchen.network]\nallow = [\"b.com\"]\ndeny = []\n");
    let (same, removed) = revoke_network_rule_in(&out, &rule("a.com")).unwrap();
    assert!(!removed);
    assert_eq!(same, out);
}

#[test]
fn global_rules_stand_at_the_top_level() {
    let (out, change) = set_global_rule_in("", RuleList::Allow, &rule("a.com")).unwrap();
    assert!(change.added);
    assert_eq!(out, "allow = [\"a.com\"]\n");
    let (out, change) = set_global_rule_in(&out, RuleList::Deny, &rule("a.com")).unwrap();
    assert!(change.added && change.removed_from_other);
    assert_eq!(out, "allow = []\ndeny = [\"a.com\"]\n");
    let (out, removed) = revoke_global_rule_in(&out, &rule("a.com")).unwrap();
    assert!(removed);
    assert_eq!(out, "allow = []\ndeny = []\n");
}

#[test]
fn an_edit_that_changes_nothing_returns_the_text() {
    let text = "[_.microkitchen.network]\nallow = [ \"a.com\" , ] # mine\r\n\n\n";
    let (out, change) = apply(text, RuleList::Allow, "a.com");
    assert!(change.is_noop());
    assert_eq!(out, text);
    let (out, removed) = revoke_network_rule_in(text, &rule("b.com")).unwrap();
    assert!(!removed);
    assert_eq!(out, text);
}

#[test]
fn setting_a_rule_twice_is_setting_it_once() {
    let text = "[_.microkitchen.network]\nallow = [\"a.com\"]\n";
    let (once, change) = apply(text, RuleList::Deny, "a.com");
    assert!(change.added && change.removed_from_other);
    let (twice, change) = apply(&once, RuleList::Deny, "a.com");
    assert!(change.is_noop());
    assert_eq!(twice, once);
    let (gone, removed) = revoke_network_rule_in(&once, &rule("a.com")).unwrap();
    assert!(removed);
    let (again, removed) = revoke_network_rule_in(&gone, &rule("a.com")).unwrap();
    assert!(!removed);
    assert_eq!(again, gone);
}

#[test]
fn rules_are_set_beside_what_is_at_the_limits() {
    let header = vec!["a"; 80].join(".");
    let nested = format!("{}1{}", "[".repeat(80), "]".repeat(80));
    let text = format!("[{header}]\n{header} = 1\nb = {nested}\n");
    let (out, change) = apply(&text, RuleList::Allow, "a.com");
    assert!(change.added);
    let (again, change) = apply(&out, RuleList::Allow, "a.com");
    assert!(change.is_noop());
    assert_eq!(again, out);
    let (gone, removed) = revoke_network_rule_in(&out, &rule("a.com")).unwrap();
    assert!(removed);
    assert!(gone.contains(&nested));
}
