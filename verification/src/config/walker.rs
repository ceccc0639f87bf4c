//! Reading `[_.microkitchen]` into a normalized [`KitchenConfig`].
//!
//! The walk reports every problem it finds, each at the span of the offending
//! key or value, rather than stopping at the first. Invalid fields keep their
//! defaults so the rest of the table is still checked.

use vstd::prelude::*;

use crate::broker::bindings::has_name;
use crate::config::hostpat::{pattern_text, HostPattern, PatternView};
use crate::config::schema::{
    env_name, host_path, is_env_name, mount_of, opt_str, parse_mount, parse_port, port_of,
    reserved_by, reserved_overlap, resolve_host_path, GuestUser, KitchenConfig, KitchenView, Mount,
    MountView, NetworkConfig, NetworkPreset, NetworkView, ParsedKitchen, Place, PortMapping,
    SecretConfig, Spans, SpansView, CHEF, DEFAULT_CHEF_ID, DEFAULT_CPUS, DEFAULT_DISK_MIB,
    DEFAULT_MEMORY_MIB, MAX_CPUS, MAX_MEMORY_MIB,
};
use crate::config::size::{format_mib, mib_text, parse_size_mib, size_of};
use crate::config::{DiagnosticView, Diagnostics, SectionLocation, Severity, Source};
use crate::maps::TextMap;
use crate::paths::{is_absolute, law_normalized_paths_do_not_climb};
use crate::text::{
    concat, concat3, concat4, concat5, decimal, join, join_with, opt_view, push_decimal,
    push_signed, quoted, quoted_text, same, signed_decimal, split, views,
};
use crate::tree::{
    entry_views, node_views, opt_node, read_tree, toml_document, EntryView, Node, NodeView, Span,
};

verus! {

// ---------------------------------------------------------------------------
// Issues
// ---------------------------------------------------------------------------

/// A problem at a key of the kitchen file.
pub struct Issue {
    pub severity: Severity,
    pub span: Option<Span>,
    pub key: String,
    pub message: String,
}

/// An [`Issue`] by its contents.
#[verifier::ext_equal]
pub struct IssueView {
    pub severity: Severity,
    pub span: Option<Span>,
    pub key: Seq<char>,
    pub message: Seq<char>,
}

impl View for Issue {
    type V = IssueView;

    open spec fn view(&self) -> IssueView {
        IssueView {
            severity: self.severity,
            span: self.span,
            key: self.key@,
            message: self.message@,
        }
    }
}

pub open spec fn error(span: Option<Span>, key: Seq<char>, message: Seq<char>) -> IssueView {
    IssueView { severity: Severity::Error, span, key, message }
}

pub open spec fn warning(span: Option<Span>, key: Seq<char>, message: Seq<char>) -> IssueView {
    IssueView { severity: Severity::Warning, span, key, message }
}

pub open spec fn no_issues() -> Seq<IssueView> {
    Seq::empty()
}

/// Issues as diagnostics of a file.
pub open spec fn located(source: Source, issues: Seq<IssueView>) -> Seq<DiagnosticView> {
    Seq::new(
        issues.len(),
        |i: int|
            source.located(
                issues[i].severity,
                issues[i].span,
                Some(issues[i].key),
                issues[i].message,
            ),
    )
}

fn push_error(issues: &mut Vec<Issue>, span: Option<Span>, key: &str, message: &str)
    ensures
        views(final(issues)@) == views(old(issues)@).push(error(span, key@, message@)),
{
    issues.push(
        Issue {
            severity: Severity::Error,
            span,
            key: key.to_owned(),
            message: message.to_owned(),
        },
    );
    assert(views(issues@) =~= views(old(issues)@).push(error(span, key@, message@)));
}

fn push_warning(issues: &mut Vec<Issue>, span: Option<Span>, key: &str, message: &str)
    ensures
        views(final(issues)@) == views(old(issues)@).push(warning(span, key@, message@)),
{
    issues.push(
        Issue {
            severity: Severity::Warning,
            span,
            key: key.to_owned(),
            message: message.to_owned(),
        },
    );
    assert(views(issues@) =~= views(old(issues)@).push(warning(span, key@, message@)));
}

/// Report issues as diagnostics of `source`.
pub fn report(source: &Source, issues: &Vec<Issue>, diagnostics: &mut Diagnostics)
    ensures
        final(diagnostics)@ == old(diagnostics)@ + located(*source, views(issues@)),
{
    let ghost all = located(*source, views(issues@));
    let mut i: usize = 0;
    assert(diagnostics@ =~= old(diagnostics)@ + all.subrange(0, 0));
    while i < issues.len()
        invariant
            i <= issues@.len(),
            all == located(*source, views(issues@)),
            diagnostics@ == old(diagnostics)@ + all.subrange(0, i as int),
        decreases issues@.len() - i,
    {
        let issue = &issues[i];
        diagnostics.push(
            source.diagnostic(
                issue.severity,
                issue.span,
                Some(issue.key.as_str()),
                issue.message.as_str(),
            ),
        );
        assert(views(issues@)[i as int] == issue@);
        assert(diagnostics@ =~= old(diagnostics)@ + all.subrange(0, i + 1));
        i += 1;
    }
    assert(all.subrange(0, all.len() as int) =~= all);
}

/// `path.name`.
pub open spec fn dotted(path: Seq<char>, name: Seq<char>) -> Seq<char> {
    path + "."@ + name
}

/// `key[index]`.
pub open spec fn indexed(key: Seq<char>, index: nat) -> Seq<char> {
    key + "["@ + decimal(index) + "]"@
}

fn dot(path: &str, name: &str) -> (r: String)
    ensures
        r@ == dotted(path@, name@),
{
    concat3(path, ".", name)
}

fn at_index(key: &str, index: usize) -> (r: String)
    ensures
        r@ == indexed(key@, index as nat),
{
    let mut r = concat(key, "[");
    push_decimal(&mut r, index as u64);
    r.push_str("]");
    r
}

// ---------------------------------------------------------------------------
// Tables and strings
// ---------------------------------------------------------------------------

pub open spec fn table_issues(node: NodeView, key: Seq<char>) -> Seq<IssueView> {
    if node.is_table() {
        no_issues()
    } else {
        seq![error(node.span, key, "expected a table, found "@ + node.kind())]
    }
}

fn check_table(issues: &mut Vec<Issue>, node: &Node, key: &str) -> (r: bool)
    ensures
        r == node@.is_table(),
        views(final(issues)@) == views(old(issues)@) + table_issues(node@, key@),
{
    if !node.is_table() {
        push_error(issues, node.span, key, concat("expected a table, found ", node.kind().as_str()).as_str());
        assert(views(issues@) =~= views(old(issues)@) + table_issues(node@, key@));
        false
    } else {
        assert(views(issues@) =~= views(old(issues)@) + table_issues(node@, key@));
        true
    }
}

/// Entries whose key is not one of `allowed`.
pub open spec fn unknown_issues(
    entries: Seq<EntryView>,
    table: NodeView,
    path: Seq<char>,
    allowed: Seq<Seq<char>>,
) -> Seq<IssueView>
    decreases entries.len(),
{
    if entries.len() == 0 {
        no_issues()
    } else {
        let rest = unknown_issues(entries.drop_last(), table, path, allowed);
        let name = entries.last().key;
        if allowed.contains(name) {
            rest
        } else {
            rest.push(
                error(
                    table.key_span(name),
                    dotted(path, name),
                    "unknown key `"@ + name + "`; expected one of: "@ + join(allowed, ", "@),
                ),
            )
        }
    }
}

pub open spec fn entries_of(node: NodeView) -> Seq<EntryView> {
    match node.entries {
        Some(entries) => entries,
        None => Seq::empty(),
    }
}

fn reject_unknown(issues: &mut Vec<Issue>, table: &Node, path: &str, allowed: &Vec<String>)
    ensures
        views(final(issues)@) == views(old(issues)@) + unknown_issues(
            entries_of(table@),
            table@,
            path@,
            views(allowed@),
        ),
{
    let ghost before = views(issues@);
    match &table.entries {
        None => {
            assert(views(issues@) =~= before + no_issues());
        },
        Some(entries) => {
            let ghost ev = entry_views(entries@);
            assert(entries_of(table@) == ev);
            let mut i: usize = 0;
            assert(ev.subrange(0, 0) =~= Seq::empty());
            assert(views(issues@) =~= before + no_issues());
            while i < entries.len()
                invariant
                    i <= entries@.len(),
                    ev == entry_views(entries@),
                    views(issues@) == before + unknown_issues(
                        ev.subrange(0, i as int),
                        table@,
                        path@,
                        views(allowed@),
                    ),
                decreases entries@.len() - i,
            {
                assert(ev.subrange(0, i + 1).drop_last() =~= ev.subrange(0, i as int));
                let name = entries[i].key.as_str();
                assert(ev[i as int].key == name@);
                if !has_name(allowed, name) {
                    let key = dot(path, name);
                    let list = join_with(allowed, ", ");
                    let message = concat4("unknown key `", name, "`; expected one of: ", list.as_str());
                    push_error(issues, table.key_span(name), key.as_str(), message.as_str());
                    assert(views(issues@) =~= before + unknown_issues(
                        ev.subrange(0, i + 1),
                        table@,
                        path@,
                        views(allowed@),
                    ));
                }
                i += 1;
            }
            assert(ev.subrange(0, ev.len() as int) =~= ev);
        },
    }
}

pub open spec fn string_issues(node: NodeView, key: Seq<char>) -> Seq<IssueView> {
    if node.text is Some {
        no_issues()
    } else {
        seq![error(node.span, key, "expected a string, found "@ + node.kind())]
    }
}

fn read_string<'a>(issues: &mut Vec<Issue>, node: &'a Node, key: &str) -> (r: Option<&'a str>)
    ensures
        opt_str(r) == node@.text,
        views(final(issues)@) == views(old(issues)@) + string_issues(node@, key@),
{
    match &node.text {
        Some(text) => {
            assert(views(issues@) =~= views(old(issues)@) + string_issues(node@, key@));
            Some(text.as_str())
        },
        None => {
            let message = concat("expected a string, found ", node.kind().as_str());
            push_error(issues, node.span, key, message.as_str());
            assert(views(issues@) =~= views(old(issues)@) + string_issues(node@, key@));
            None
        },
    }
}

/// A string element of an array.
pub struct Element {
    pub index: usize,
    pub text: String,
    pub span: Option<Span>,
}

/// An [`Element`] by its contents.
#[verifier::ext_equal]
pub struct ElementView {
    pub index: nat,
    pub text: Seq<char>,
    pub span: Option<Span>,
}

impl View for Element {
    type V = ElementView;

    open spec fn view(&self) -> ElementView {
        ElementView { index: self.index as nat, text: self.text@, span: self.span }
    }
}

/// The string elements of an array.
pub open spec fn string_elements(nodes: Seq<NodeView>) -> Seq<ElementView>
    decreases nodes.len(),
{
    if nodes.len() == 0 {
        Seq::empty()
    } else {
        let rest = string_elements(nodes.drop_last());
        match nodes.last().text {
            Some(text) => rest.push(
                ElementView {
                    index: (nodes.len() - 1) as nat,
                    text,
                    span: nodes.last().span,
                },
            ),
            None => rest,
        }
    }
}

/// What is wrong with the other elements.
pub open spec fn element_issues(nodes: Seq<NodeView>, key: Seq<char>) -> Seq<IssueView>
    decreases nodes.len(),
{
    if nodes.len() == 0 {
        no_issues()
    } else {
        let rest = element_issues(nodes.drop_last(), key);
        if nodes.last().text is Some {
            rest
        } else {
            rest.push(
                error(
                    nodes.last().span,
                    indexed(key, (nodes.len() - 1) as nat),
                    "expected a string, found "@ + nodes.last().kind(),
                ),
            )
        }
    }
}

/// The strings of an array, and what is wrong with it.
pub open spec fn strings(node: NodeView, key: Seq<char>) -> (Seq<ElementView>, Seq<IssueView>) {
    match node.elements {
        None => (
            Seq::empty(),
            seq![error(node.span, key, "expected an array of strings, found "@ + node.kind())],
        ),
        Some(nodes) => (string_elements(nodes), element_issues(nodes, key)),
    }
}

/// Elements of a string array.
fn read_strings(issues: &mut Vec<Issue>, node: &Node, key: &str) -> (r: Vec<Element>)
    ensures
        views(r@) == strings(node@, key@).0,
        views(final(issues)@) == views(old(issues)@) + strings(node@, key@).1,
{
    let ghost before = views(issues@);
    let mut out: Vec<Element> = Vec::new();
    assert(views(out@) =~= Seq::empty());
    match &node.elements {
        None => {
            let message = concat("expected an array of strings, found ", node.kind().as_str());
            push_error(issues, node.span, key, message.as_str());
            assert(views(issues@) =~= before + strings(node@, key@).1);
        },
        Some(nodes) => {
            let ghost nv = node_views(nodes@);
            assert(node@.elements == Some(nv));
            let mut i: usize = 0;
            assert(nv.subrange(0, 0) =~= Seq::empty());
            assert(views(issues@) =~= before + no_issues());
            while i < nodes.len()
                invariant
                    i <= nodes@.len(),
                    nv == node_views(nodes@),
                    views(out@) == string_elements(nv.subrange(0, i as int)),
                    views(issues@) == before + element_issues(nv.subrange(0, i as int), key@),
                decreases nodes@.len() - i,
            {
                assert(nv.subrange(0, i + 1).drop_last() =~= nv.subrange(0, i as int));
                assert(nv.subrange(0, i + 1).last() == nodes@[i as int]@);
                let ghost done = views(out@);
                match &nodes[i].text {
                    Some(text) => {
                        out.push(Element { index: i, text: text.clone(), span: nodes[i].span });
                        assert(views(out@) =~= string_elements(nv.subrange(0, i + 1)));
                    },
                    None => {
                        let element = at_index(key, i);
                        let message = concat("expected a string, found ", nodes[i].kind().as_str());
                        push_error(issues, nodes[i].span, element.as_str(), message.as_str());
                        assert(views(issues@) =~= before + element_issues(nv.subrange(0, i + 1), key@));
                    },
                }
                i += 1;
            }
            assert(nv.subrange(0, nv.len() as int) =~= nv);
        },
    }
    out
}

// ---------------------------------------------------------------------------
// Rules
// ---------------------------------------------------------------------------

/// Entries of a rule list with their places, and what is wrong with the rest.
#[verifier::ext_equal]
pub struct RuleEntries {
    pub rules: Seq<PatternView>,
    pub spans: Seq<Option<Span>>,
    pub issues: Seq<IssueView>,
}

/// The entries that strings write: the first of each, in order.
pub open spec fn rule_entries(elements: Seq<ElementView>, key: Seq<char>) -> RuleEntries
    decreases elements.len(),
{
    if elements.len() == 0 {
        RuleEntries { rules: Seq::empty(), spans: Seq::empty(), issues: no_issues() }
    } else {
        let rest = rule_entries(elements.drop_last(), key);
        let e = elements.last();
        match pattern_text(e.text) {
            Ok(rule) => if rest.rules.contains(rule) {
                RuleEntries {
                    issues: rest.issues.push(
                        warning(
                            e.span,
                            indexed(key, e.index),
                            "duplicate entry `"@ + rule.text() + "`"@,
                        ),
                    ),
                    ..rest
                }
            } else {
                RuleEntries {
                    rules: rest.rules.push(rule),
                    spans: rest.spans.push(e.span),
                    issues: rest.issues,
                }
            },
            Err(problem) => RuleEntries {
                issues: rest.issues.push(
                    error(
                        e.span,
                        indexed(key, e.index),
                        "invalid rule "@ + quoted_text(e.text) + ": "@ + problem.text(),
                    ),
                ),
                ..rest
            },
        }
    }
}

/// A rule list of the kitchen file; a missing one is empty.
pub open spec fn rule_list(node: Option<NodeView>, key: Seq<char>) -> RuleEntries {
    match node {
        None => RuleEntries { rules: Seq::empty(), spans: Seq::empty(), issues: no_issues() },
        Some(node) => {
            let found = rule_entries(strings(node, key).0, key);
            RuleEntries { issues: strings(node, key).1 + found.issues, ..found }
        },
    }
}

fn has_rule(rules: &Vec<HostPattern>, rule: &HostPattern) -> (r: bool)
    ensures
        r == views(rules@).contains(rule@),
{
    let mut i: usize = 0;
    while i < rules.len()
        invariant
            i <= rules@.len(),
            forall|j: int| 0 <= j < i ==> views(rules@)[j] != rule@,
        decreases rules@.len() - i,
    {
        if rules[i].equals(rule) {
            assert(views(rules@)[i as int] == rule@);
            return true;
        }
        i += 1;
    }
    false
}

fn read_rules(issues: &mut Vec<Issue>, node: Option<&Node>, key: &str) -> (r: (
    Vec<HostPattern>,
    Vec<Option<Span>>,
))
    ensures
        views(r.0@) == rule_list(opt_node(node), key@).rules,
        r.1@ == rule_list(opt_node(node), key@).spans,
        r.0@.len() == r.1@.len(),
        views(final(issues)@) == views(old(issues)@) + rule_list(opt_node(node), key@).issues,
{
    let ghost before = views(issues@);
    let mut rules: Vec<HostPattern> = Vec::new();
    let mut spans: Vec<Option<Span>> = Vec::new();
    assert(views(rules@) =~= Seq::empty());
    let node = match node {
        None => {
            assert(views(issues@) =~= before + no_issues());
            return (rules, spans);
        },
        Some(node) => node,
    };
    let elements = read_strings(issues, node, key);
    let ghost base = views(issues@);
    let ghost ev = views(elements@);
    let mut i: usize = 0;
    assert(ev.subrange(0, 0) =~= Seq::empty());
    assert(base =~= base + no_issues());
    while i < elements.len()
        invariant
            i <= elements@.len(),
            ev == views(elements@),
            views(rules@) == rule_entries(ev.subrange(0, i as int), key@).rules,
            spans@ == rule_entries(ev.subrange(0, i as int), key@).spans,
            rules@.len() == spans@.len(),
            views(issues@) == base + rule_entries(ev.subrange(0, i as int), key@).issues,
        decreases elements@.len() - i,
    {
        assert(ev.subrange(0, i + 1).drop_last() =~= ev.subrange(0, i as int));
        let ghost next = rule_entries(ev.subrange(0, i + 1), key@);
        let e = &elements[i];
        assert(ev[i as int] == e@);
        let ghost done = views(rules@);
        let element = at_index(key, e.index);
        match HostPattern::from_str(e.text.as_str()) {
            Ok(rule) => {
                if has_rule(&rules, &rule) {
                    let message = concat3("duplicate entry `", rule.to_text().as_str(), "`");
                    push_warning(issues, e.span, element.as_str(), message.as_str());
                    assert(views(issues@) =~= base + next.issues);
                } else {
                    let ghost rv = rule@;
                    rules.push(rule);
                    spans.push(e.span);
                    assert(views(rules@) =~= done.push(rv));
                }
            },
            Err(problem) => {
                let text = quoted(e.text.as_str());
                let message = concat4("invalid rule ", text.as_str(), ": ", problem.to_text().as_str());
                push_error(issues, e.span, element.as_str(), message.as_str());
                assert(views(issues@) =~= base + next.issues);
            },
        }
        i += 1;
    }
    assert(ev.subrange(0, ev.len() as int) =~= ev);
    assert(views(issues@) =~= before + rule_list(opt_node(Some(node)), key@).issues);
    (rules, spans)
}

// ---------------------------------------------------------------------------
// Sizes and ids
// ---------------------------------------------------------------------------

/// A size of the section, where it has one that is in order.
pub open spec fn size_field(
    section: NodeView,
    name: Seq<char>,
    path: Seq<char>,
    max: Option<u32>,
) -> (Option<u32>, Seq<IssueView>) {
    let key = dotted(path, name);
    match section.get(name) {
        None => (None, no_issues()),
        Some(node) => match node.text {
            None => (None, string_issues(node, key)),
            Some(text) => match size_of(text) {
                Ok(mib) => if max is Some && mib > max->0 {
                    (
                        None,
                        seq![error(node.span, key, "must be at most "@ + mib_text(max->0 as nat))],
                    )
                } else {
                    (Some(mib), no_issues())
                },
                Err(problem) => (None, seq![error(node.span, key, problem.text())]),
            },
        },
    }
}

fn read_size(issues: &mut Vec<Issue>, section: &Node, name: &str, path: &str, max: Option<u32>) -> (r:
    Option<u32>)
    ensures
        r == size_field(section@, name@, path@, max).0,
        views(final(issues)@) == views(old(issues)@) + size_field(section@, name@, path@, max).1,
{
    let ghost before = views(issues@);
    let ghost expected = size_field(section@, name@, path@, max);
    let node = match section.get(name) {
        Some(node) => node,
        None => {
            assert(views(issues@) =~= before + expected.1);
            return None;
        },
    };
    let key = dot(path, name);
    let text = match read_string(issues, node, key.as_str()) {
        Some(text) => text,
        None => {
            return None;
        },
    };
    match parse_size_mib(text) {
        Ok(mib) => {
            if let Some(max) = max {
                if mib > max {
                    let message = concat("must be at most ", format_mib(max).as_str());
                    push_error(issues, node.span, key.as_str(), message.as_str());
                    assert(views(issues@) =~= before + expected.1);
                    return None;
                }
            }
            assert(views(issues@) =~= before + expected.1);
            Some(mib)
        },
        Err(problem) => {
            push_error(issues, node.span, key.as_str(), problem.to_text().as_str());
            assert(views(issues@) =~= before + expected.1);
            None
        },
    }
}

/// A numeric id: a 32-bit number that is not negative.
pub open spec fn id_field(node: NodeView, key: Seq<char>) -> (Option<u32>, Seq<IssueView>) {
    if node.integer is Some && 0 <= node.integer->0 <= u32::MAX {
        (Some(node.integer->0 as u32), no_issues())
    } else {
        (
            None,
            seq![
                error(
                    node.span,
                    key,
                    "expected a non-negative integer, found "@ + node.kind(),
                ),
            ],
        )
    }
}

fn read_id(issues: &mut Vec<Issue>, node: &Node, key: &str) -> (r: Option<u32>)
    ensures
        r == id_field(node@, key@).0,
        views(final(issues)@) == views(old(issues)@) + id_field(node@, key@).1,
{
    if let Some(n) = node.integer {
        if 0 <= n && n <= u32::MAX as i64 {
            assert(views(issues@) =~= views(old(issues)@) + id_field(node@, key@).1);
            return Some(n as u32);
        }
    }
    let message = concat("expected a non-negative integer, found ", node.kind().as_str());
    push_error(issues, node.span, key, message.as_str());
    assert(views(issues@) =~= views(old(issues)@) + id_field(node@, key@).1);
    None
}

// ---------------------------------------------------------------------------
// The sandbox user
// ---------------------------------------------------------------------------

/// A table two levels down.
pub open spec fn table_at(node: NodeView, first: Seq<char>, second: Seq<char>) -> Option<NodeView> {
    match node.table(first) {
        Some(table) => table.table(second),
        None => None,
    }
}

/// The declaration of chef, `[bootstrap.users.chef]`.
pub open spec fn chef_table(root: NodeView) -> Option<NodeView> {
    match table_at(root, "bootstrap"@, "users"@) {
        Some(users) => users.table(CHEF@),
        None => None,
    }
}

/// The gid of a declared group.
pub open spec fn group_gid(root: NodeView, group: Seq<char>) -> Option<NodeView> {
    match table_at(root, "bootstrap"@, "groups"@) {
        Some(groups) => match groups.table(group) {
            Some(table) => table.get("gid"@),
            None => None,
        },
        None => None,
    }
}

pub open spec fn text_at(table: NodeView, key: Seq<char>) -> Option<Seq<char>> {
    match table.get(key) {
        Some(node) => node.text,
        None => None,
    }
}

/// chef's primary group.
pub open spec fn chef_group(chef: NodeView) -> Seq<char> {
    match text_at(chef, "group"@) {
        Some(group) => group,
        None => CHEF@,
    }
}

pub open spec fn state_issues(chef: NodeView) -> Seq<IssueView> {
    if text_at(chef, "state"@) == Some("absent"@) {
        seq![
            error(
                chef.key_span("state"@),
                "bootstrap.users.chef.state"@,
                "chef is the sandbox's user and cannot be absent"@,
            ),
        ]
    } else {
        no_issues()
    }
}

/// chef's uid, and what is wrong with it.
pub open spec fn chef_uid(chef: NodeView) -> (u32, Seq<IssueView>) {
    let key = "bootstrap.users.chef.uid"@;
    match chef.get("uid"@) {
        None => (DEFAULT_CHEF_ID, no_issues()),
        Some(node) => match id_field(node, key).0 {
            None => (DEFAULT_CHEF_ID, id_field(node, key).1),
            Some(uid) => (
                uid,
                if uid == 0 {
                    seq![
                        error(
                            node.span,
                            key,
                            "chef cannot be uid 0; microkitchen already offers root"@,
                        ),
                    ]
                } else {
                    no_issues()
                },
            ),
        },
    }
}

/// chef's gid, and what is wrong with it.
pub open spec fn chef_gid(root: NodeView, chef: NodeView) -> (u32, Seq<IssueView>) {
    let group = chef_group(chef);
    match group_gid(root, group) {
        Some(node) => {
            let found = id_field(node, "bootstrap.groups."@ + group + ".gid"@);
            match found.0 {
                Some(gid) => (gid, found.1),
                None => (DEFAULT_CHEF_ID, found.1),
            }
        },
        None => if group == CHEF@ {
            (DEFAULT_CHEF_ID, no_issues())
        } else {
            (
                DEFAULT_CHEF_ID,
                seq![
                    error(
                        chef.key_span("group"@),
                        "bootstrap.users.chef.group"@,
                        "the sandbox's user is fixed when it is created, so chef's group needs a known gid: declare `[bootstrap.groups."@
                            + group + "]` with `gid = \u{2026}`"@,
                    ),
                ],
            )
        },
    }
}

/// chef's ids from `[bootstrap.users.chef]` and its primary group. Missing
/// ids default, which the guest copy of the kitchen file then declares; a
/// primary group other than chef must set its gid.
pub open spec fn sandbox_user(root: NodeView) -> (GuestUser, Seq<IssueView>) {
    match chef_table(root) {
        None => (GuestUser::chef(), no_issues()),
        Some(chef) => (
            GuestUser { uid: chef_uid(chef).0, gid: chef_gid(root, chef).0 },
            state_issues(chef) + chef_uid(chef).1 + chef_gid(root, chef).1,
        ),
    }
}

fn get_table<'a>(node: Option<&'a Node>, key: &str) -> (r: Option<&'a Node>)
    ensures
        opt_node(r) == match opt_node(node) {
            Some(node) => node.table(key@),
            None => None,
        },
{
    match node {
        Some(node) => node.table(key),
        None => None,
    }
}

fn read_uid(issues: &mut Vec<Issue>, chef: &Node) -> (r: u32)
    ensures
        r == chef_uid(chef@).0,
        views(final(issues)@) == views(old(issues)@) + chef_uid(chef@).1,
{
    let ghost before = views(issues@);
    let mut uid: u32 = DEFAULT_CHEF_ID;
    if let Some(node) = chef.get("uid") {
        if let Some(found) = read_id(issues, node, "bootstrap.users.chef.uid") {
            if found == 0 {
                push_error(
                    issues,
                    node.span,
                    "bootstrap.users.chef.uid",
                    "chef cannot be uid 0; microkitchen already offers root",
                );
            }
            uid = found;
        }
    }
    assert(views(issues@) =~= before + chef_uid(chef@).1);
    uid
}

fn read_gid(issues: &mut Vec<Issue>, root: &Node, chef: &Node) -> (r: u32)
    ensures
        r == chef_gid(root@, chef@).0,
        views(final(issues)@) == views(old(issues)@) + chef_gid(root@, chef@).1,
{
    let ghost before = views(issues@);
    let mut gid: u32 = DEFAULT_CHEF_ID;
    let group = match chef.get("group") {
        Some(node) => match &node.text {
            Some(text) => text.as_str(),
            None => CHEF,
        },
        None => CHEF,
    };
    assert(group@ == chef_group(chef@));
    let groups = get_table(get_table(root.table("bootstrap"), "groups"), group);
    let found = match groups {
        Some(table) => table.get("gid"),
        None => None,
    };
    assert(opt_node(found) == group_gid(root@, group@));
    match found {
        Some(node) => {
            let key = concat3("bootstrap.groups.", group, ".gid");
            if let Some(id) = read_id(issues, node, key.as_str()) {
                gid = id;
            }
        },
        None => {
            if !same(group, CHEF) {
                let message = concat3(
                    "the sandbox's user is fixed when it is created, so chef's group needs a known gid: declare `[bootstrap.groups.",
                    group,
                    "]` with `gid = \u{2026}`",
                );
                push_error(issues, chef.key_span("group"), "bootstrap.users.chef.group", message.as_str());
            }
        },
    }
    assert(views(issues@) =~= before + chef_gid(root@, chef@).1);
    gid
}

fn guest_user(issues: &mut Vec<Issue>, root: &Node) -> (r: GuestUser)
    ensures
        r == sandbox_user(root@).0,
        views(final(issues)@) == views(old(issues)@) + sandbox_user(root@).1,
{
    let ghost before = views(issues@);
    let chef = match get_table(get_table(root.table("bootstrap"), "users"), CHEF) {
        Some(chef) => chef,
        None => {
            assert(views(issues@) =~= before + no_issues());
            return GuestUser::default();
        },
    };
    assert(chef_table(root@) == Some(chef@));
    let absent = match chef.get("state") {
        Some(node) => match &node.text {
            Some(text) => same(text.as_str(), "absent"),
            None => false,
        },
        None => false,
    };
    if absent {
        push_error(
            issues,
            chef.key_span("state"),
            "bootstrap.users.chef.state",
            "chef is the sandbox's user and cannot be absent",
        );
    }
    assert(views(issues@) =~= before + state_issues(chef@));
    let uid = read_uid(issues, chef);
    let gid = read_gid(issues, root, chef);
    assert(views(issues@) =~= before + sandbox_user(root@).1);
    GuestUser { uid, gid }
}

// ---------------------------------------------------------------------------
// Mounts
// ---------------------------------------------------------------------------

/// The mounts of the section, their places, and what is wrong with the rest.
#[verifier::ext_equal]
pub struct MountEntries {
    pub mounts: Seq<MountView>,
    pub spans: Seq<Option<Span>>,
    pub issues: Seq<IssueView>,
}

/// Whether some mount is at a guest path.
pub open spec fn mounted(mounts: Seq<MountView>, guest: Seq<char>) -> bool {
    exists|i: int| 0 <= i < mounts.len() && (#[trigger] mounts[i]).guest == guest
}

pub open spec fn mount_entries(
    elements: Seq<ElementView>,
    key: Seq<char>,
    dir: Seq<char>,
    home: Option<Seq<char>>,
) -> MountEntries
    decreases elements.len(),
{
    if elements.len() == 0 {
        MountEntries { mounts: Seq::empty(), spans: Seq::empty(), issues: no_issues() }
    } else {
        let rest = mount_entries(elements.drop_last(), key, dir, home);
        let e = elements.last();
        let element = indexed(key, e.index);
        match mount_of(e.text, dir, home) {
            Err(message) => MountEntries {
                issues: rest.issues.push(error(e.span, element, message)),
                ..rest
            },
            Ok(mount) => match reserved_by(mount.guest) {
                Some(reserved) => MountEntries {
                    issues: rest.issues.push(
                        error(
                            e.span,
                            element,
                            "guest path `"@ + mount.guest + "` overlaps `"@ + reserved
                                + "`, which microkitchen manages"@,
                        ),
                    ),
                    ..rest
                },
                None => if mounted(rest.mounts, mount.guest) {
                    MountEntries {
                        issues: rest.issues.push(
                            error(
                                e.span,
                                element,
                                "guest path `"@ + mount.guest + "` is mounted more than once"@,
                            ),
                        ),
                        ..rest
                    }
                } else {
                    MountEntries {
                        mounts: rest.mounts.push(mount),
                        spans: rest.spans.push(e.span),
                        issues: rest.issues,
                    }
                },
            },
        }
    }
}

/// The `mounts` of the section; a missing list is empty.
pub open spec fn mounts_field(
    node: Option<NodeView>,
    key: Seq<char>,
    dir: Seq<char>,
    home: Option<Seq<char>>,
) -> MountEntries {
    match node {
        None => MountEntries { mounts: Seq::empty(), spans: Seq::empty(), issues: no_issues() },
        Some(node) => {
            let found = mount_entries(strings(node, key).0, key, dir, home);
            MountEntries { issues: strings(node, key).1 + found.issues, ..found }
        },
    }
}

fn is_mounted(mounts: &Vec<Mount>, guest: &str) -> (r: bool)
    ensures
        r == mounted(views(mounts@), guest@),
{
    let mut i: usize = 0;
    while i < mounts.len()
        invariant
            i <= mounts@.len(),
            forall|j: int| 0 <= j < i ==> (#[trigger] views(mounts@)[j]).guest != guest@,
        decreases mounts@.len() - i,
    {
        if same(mounts[i].guest.as_str(), guest) {
            assert(views(mounts@)[i as int].guest == guest@);
            return true;
        }
        i += 1;
    }
    false
}

fn read_mounts(
    issues: &mut Vec<Issue>,
    node: Option<&Node>,
    key: &str,
    dir: &str,
    home: Option<&str>,
) -> (r: (Vec<Mount>, Vec<Option<Span>>))
    ensures
        views(r.0@) == mounts_field(opt_node(node), key@, dir@, opt_str(home)).mounts,
        r.1@ == mounts_field(opt_node(node), key@, dir@, opt_str(home)).spans,
        views(final(issues)@) == views(old(issues)@) + mounts_field(
            opt_node(node),
            key@,
            dir@,
            opt_str(home),
        ).issues,
{
    let ghost before = views(issues@);
    let mut mounts: Vec<Mount> = Vec::new();
    let mut spans: Vec<Option<Span>> = Vec::new();
    assert(views(mounts@) =~= Seq::empty());
    let node = match node {
        None => {
            assert(views(issues@) =~= before + no_issues());
            return (mounts, spans);
        },
        Some(node) => node,
    };
    let elements = read_strings(issues, node, key);
    let ghost base = views(issues@);
    let ghost ev = views(elements@);
    let ghost hv = opt_str(home);
    let mut i: usize = 0;
    assert(ev.subrange(0, 0) =~= Seq::empty());
    assert(base =~= base + no_issues());
    while i < elements.len()
        invariant
            i <= elements@.len(),
            ev == views(elements@),
            hv == opt_str(home),
            views(mounts@) == mount_entries(ev.subrange(0, i as int), key@, dir@, hv).mounts,
            spans@ == mount_entries(ev.subrange(0, i as int), key@, dir@, hv).spans,
            views(issues@) == base + mount_entries(ev.subrange(0, i as int), key@, dir@, hv).issues,
        decreases elements@.len() - i,
    {
        assert(ev.subrange(0, i + 1).drop_last() =~= ev.subrange(0, i as int));
        let ghost next = mount_entries(ev.subrange(0, i + 1), key@, dir@, hv);
        let e = &elements[i];
        assert(ev[i as int] == e@);
        let ghost done = views(mounts@);
        let element = at_index(key, e.index);
        match parse_mount(e.text.as_str(), dir, home) {
            Err(message) => {
                push_error(issues, e.span, element.as_str(), message.as_str());
                assert(views(issues@) =~= base + next.issues);
            },
            Ok(mount) => {
                if let Some(reserved) = reserved_overlap(mount.guest.as_str()) {
                    let message = concat5(
                        "guest path `",
                        mount.guest.as_str(),
                        "` overlaps `",
                        reserved,
                        "`, which microkitchen manages",
                    );
                    push_error(issues, e.span, element.as_str(), message.as_str());
                    assert(views(issues@) =~= base + next.issues);
                } else if is_mounted(&mounts, mount.guest.as_str()) {
                    let message = concat3(
                        "guest path `",
                        mount.guest.as_str(),
                        "` is mounted more than once",
                    );
                    push_error(issues, e.span, element.as_str(), message.as_str());
                    assert(views(issues@) =~= base + next.issues);
                } else {
                    let ghost mv = mount@;
                    mounts.push(mount);
                    spans.push(e.span);
                    assert(views(mounts@) =~= done.push(mv));
                }
            },
        }
        i += 1;
    }
    assert(ev.subrange(0, ev.len() as int) =~= ev);
    assert(views(issues@) =~= before + mounts_field(opt_node(Some(node)), key@, dir@, hv).issues);
    (mounts, spans)
}

// ---------------------------------------------------------------------------
// The network table
// ---------------------------------------------------------------------------

/// The `network` preset, where it is one.
pub open spec fn preset_field(network: NodeView, path: Seq<char>) -> (NetworkPreset, Seq<IssueView>) {
    let key = dotted(path, "network"@);
    match network.get("network"@) {
        None => (NetworkPreset::Public, no_issues()),
        Some(node) => match node.text {
            None => (NetworkPreset::Public, string_issues(node, key)),
            Some(text) => if text == "none"@ {
                (NetworkPreset::Disabled, no_issues())
            } else if text == "public"@ {
                (NetworkPreset::Public, no_issues())
            } else if text == "open"@ {
                (NetworkPreset::Open, no_issues())
            } else {
                (
                    NetworkPreset::Public,
                    seq![
                        error(
                            node.span,
                            key,
                            "unknown preset `"@ + text + "`; expected `none`, `public` or `open`"@,
                        ),
                    ],
                )
            },
        },
    }
}

/// Denied rules that are also allowed.
pub open spec fn both_issues(
    allow: Seq<PatternView>,
    deny: Seq<PatternView>,
    spans: Seq<Option<Span>>,
    path: Seq<char>,
) -> Seq<IssueView>
    decreases deny.len(),
{
    if deny.len() == 0 {
        no_issues()
    } else {
        let n = deny.len() - 1;
        let rest = both_issues(allow, deny.drop_last(), spans, path);
        if allow.contains(deny[n]) {
            rest.push(
                error(
                    spans[n],
                    indexed(dotted(path, "deny"@), n as nat),
                    "`"@ + deny[n].text() + "` is in both `allow` and `deny`"@,
                ),
            )
        } else {
            rest
        }
    }
}

/// Whether a host port is published for a protocol.
pub open spec fn published(ports: Seq<PortMapping>, port: PortMapping) -> bool {
    exists|i: int|
        0 <= i < ports.len() && (#[trigger] ports[i]).host == port.host && ports[i].protocol
            == port.protocol
}

/// The ports that strings write, each host port once per protocol.
pub open spec fn port_entries(elements: Seq<ElementView>, key: Seq<char>) -> (
    Seq<PortMapping>,
    Seq<IssueView>,
)
    decreases elements.len(),
{
    if elements.len() == 0 {
        (Seq::empty(), no_issues())
    } else {
        let rest = port_entries(elements.drop_last(), key);
        let e = elements.last();
        let element = indexed(key, e.index);
        match port_of(e.text) {
            Err(message) => (rest.0, rest.1.push(error(e.span, element, message))),
            Ok(port) => if published(rest.0, port) {
                (
                    rest.0,
                    rest.1.push(
                        error(
                            e.span,
                            element,
                            "host port "@ + decimal(port.host as nat)
                                + " is published more than once"@,
                        ),
                    ),
                )
            } else {
                (rest.0.push(port), rest.1)
            },
        }
    }
}

pub open spec fn ports_field(network: NodeView, path: Seq<char>) -> (
    Seq<PortMapping>,
    Seq<IssueView>,
) {
    let key = dotted(path, "ports"@);
    match network.get("ports"@) {
        None => (Seq::empty(), no_issues()),
        Some(node) => {
            let found = port_entries(strings(node, key).0, key);
            (found.0, strings(node, key).1 + found.1)
        },
    }
}

/// What has no effect without a network.
pub open spec fn disabled_issues(
    network: NodeView,
    path: Seq<char>,
    config: NetworkView,
) -> Seq<IssueView> {
    if config.preset != NetworkPreset::Disabled {
        no_issues()
    } else {
        (if config.ports.len() > 0 {
            seq![
                error(
                    network.key_span("ports"@),
                    dotted(path, "ports"@),
                    "ports need network access, but `network = \"none\"` disables it"@,
                ),
            ]
        } else {
            no_issues()
        }) + (if config.allow.len() > 0 || config.deny.len() > 0 {
            seq![
                warning(
                    network.key_span("network"@),
                    dotted(path, "network"@),
                    "`allow` and `deny` have no effect with `network = \"none\"`"@,
                ),
            ]
        } else {
            no_issues()
        })
    }
}

pub open spec fn network_keys() -> Seq<Seq<char>> {
    seq!["network"@, "allow"@, "deny"@, "ports"@]
}

/// The network table of the section.
pub open spec fn network_config(network: NodeView, path: Seq<char>) -> NetworkView {
    NetworkView {
        preset: preset_field(network, path).0,
        allow: rule_list(network.get("allow"@), dotted(path, "allow"@)).rules,
        deny: rule_list(network.get("deny"@), dotted(path, "deny"@)).rules,
        ports: ports_field(network, path).0,
    }
}

/// What is wrong with the network table of the section.
pub open spec fn network_issues(network: NodeView, path: Seq<char>) -> Seq<IssueView> {
    let allow = rule_list(network.get("allow"@), dotted(path, "allow"@));
    let deny = rule_list(network.get("deny"@), dotted(path, "deny"@));
    unknown_issues(entries_of(network), network, path, network_keys()) + preset_field(
        network,
        path,
    ).1 + allow.issues + deny.issues + both_issues(allow.rules, deny.rules, deny.spans, path)
        + ports_field(network, path).1 + disabled_issues(
        network,
        path,
        network_config(network, path),
    )
}

fn read_preset(issues: &mut Vec<Issue>, network: &Node, path: &str) -> (r: NetworkPreset)
    ensures
        r == preset_field(network@, path@).0,
        views(final(issues)@) == views(old(issues)@) + preset_field(network@, path@).1,
{
    let ghost before = views(issues@);
    let ghost expected = preset_field(network@, path@);
    let node = match network.get("network") {
        Some(node) => node,
        None => {
            assert(views(issues@) =~= before + expected.1);
            return NetworkPreset::Public;
        },
    };
    let key = dot(path, "network");
    let text = match read_string(issues, node, key.as_str()) {
        Some(text) => text,
        None => {
            return NetworkPreset::Public;
        },
    };
    let preset = if same(text, "none") {
        NetworkPreset::Disabled
    } else if same(text, "public") {
        NetworkPreset::Public
    } else if same(text, "open") {
        NetworkPreset::Open
    } else {
        let message = concat3("unknown preset `", text, "`; expected `none`, `public` or `open`");
        push_error(issues, node.span, key.as_str(), message.as_str());
        NetworkPreset::Public
    };
    assert(views(issues@) =~= before + expected.1);
    preset
}

fn check_both(
    issues: &mut Vec<Issue>,
    allow: &Vec<HostPattern>,
    deny: &Vec<HostPattern>,
    spans: &Vec<Option<Span>>,
    path: &str,
)
    requires
        spans@.len() == deny@.len(),
    ensures
        views(final(issues)@) == views(old(issues)@) + both_issues(
            views(allow@),
            views(deny@),
            spans@,
            path@,
        ),
{
    let ghost before = views(issues@);
    let ghost av = views(allow@);
    let ghost dv = views(deny@);
    let key = dot(path, "deny");
    let mut i: usize = 0;
    assert(dv.subrange(0, 0) =~= Seq::empty());
    assert(before =~= before + no_issues());
    while i < deny.len()
        invariant
            i <= deny@.len(),
            spans@.len() == deny@.len(),
            av == views(allow@),
            dv == views(deny@),
            key@ == dotted(path@, "deny"@),
            views(issues@) == before + both_issues(av, dv.subrange(0, i as int), spans@, path@),
        decreases deny@.len() - i,
    {
        assert(dv.subrange(0, i + 1).drop_last() =~= dv.subrange(0, i as int));
        if has_rule(allow, &deny[i]) {
            let element = at_index(key.as_str(), i);
            let message = concat3(
                "`",
                deny[i].to_text().as_str(),
                "` is in both `allow` and `deny`",
            );
            push_error(issues, spans[i], element.as_str(), message.as_str());
            assert(views(issues@) =~= before + both_issues(av, dv.subrange(0, i + 1), spans@, path@));
        }
        i += 1;
    }
    assert(dv.subrange(0, dv.len() as int) =~= dv);
}

fn is_published(ports: &Vec<PortMapping>, port: PortMapping) -> (r: bool)
    ensures
        r == published(ports@, port),
{
    let mut i: usize = 0;
    while i < ports.len()
        invariant
            i <= ports@.len(),
            forall|j: int|
                0 <= j < i ==> !((#[trigger] ports@[j]).host == port.host && ports@[j].protocol
                    == port.protocol),
        decreases ports@.len() - i,
    {
        if ports[i].host == port.host && ports[i].protocol == port.protocol {
            return true;
        }
        i += 1;
    }
    false
}

fn read_ports(issues: &mut Vec<Issue>, network: &Node, path: &str) -> (r: Vec<PortMapping>)
    ensures
        r@ == ports_field(network@, path@).0,
        views(final(issues)@) == views(old(issues)@) + ports_field(network@, path@).1,
{
    let ghost before = views(issues@);
    let mut ports: Vec<PortMapping> = Vec::new();
    let node = match network.get("ports") {
        Some(node) => node,
        None => {
            assert(views(issues@) =~= before + no_issues());
            assert(ports@ =~= Seq::empty());
            return ports;
        },
    };
    let key = dot(path, "ports");
    let elements = read_strings(issues, node, key.as_str());
    let ghost base = views(issues@);
    let ghost ev = views(elements@);
    let mut i: usize = 0;
    assert(ev.subrange(0, 0) =~= Seq::empty());
    assert(base =~= base + no_issues());
    while i < elements.len()
        invariant
            i <= elements@.len(),
            ev == views(elements@),
            ports@ == port_entries(ev.subrange(0, i as int), key@).0,
            views(issues@) == base + port_entries(ev.subrange(0, i as int), key@).1,
        decreases elements@.len() - i,
    {
        assert(ev.subrange(0, i + 1).drop_last() =~= ev.subrange(0, i as int));
        let ghost next = port_entries(ev.subrange(0, i + 1), key@);
        let e = &elements[i];
        assert(ev[i as int] == e@);
        let element = at_index(key.as_str(), e.index);
        match parse_port(e.text.as_str()) {
            Err(message) => {
                push_error(issues, e.span, element.as_str(), message.as_str());
                assert(views(issues@) =~= base + next.1);
            },
            Ok(port) => {
                if is_published(&ports, port) {
                    let mut message = "host port ".to_owned();
                    push_decimal(&mut message, port.host as u64);
                    message.push_str(" is published more than once");
                    push_error(issues, e.span, element.as_str(), message.as_str());
                    assert(views(issues@) =~= base + next.1);
                } else {
                    ports.push(port);
                }
            },
        }
        i += 1;
    }
    assert(ev.subrange(0, ev.len() as int) =~= ev);
    assert(views(issues@) =~= before + ports_field(network@, path@).1);
    ports
}

fn key_list4(a: &str, b: &str, c: &str, d: &str) -> (r: Vec<String>)
    ensures
        views(r@) == seq![a@, b@, c@, d@],
{
    let mut r: Vec<String> = Vec::new();
    r.push(a.to_owned());
    r.push(b.to_owned());
    r.push(c.to_owned());
    r.push(d.to_owned());
    assert(views(r@) =~= seq![a@, b@, c@, d@]);
    r
}

fn read_network(issues: &mut Vec<Issue>, network: &Node, path: &str) -> (r: NetworkConfig)
    ensures
        r@ == network_config(network@, path@),
        views(final(issues)@) == views(old(issues)@) + network_issues(network@, path@),
{
    let ghost before = views(issues@);
    let keys = key_list4("network", "allow", "deny", "ports");
    reject_unknown(issues, network, path, &keys);
    let ghost a1 = unknown_issues(entries_of(network@), network@, path@, network_keys());
    let preset = read_preset(issues, network, path);
    let ghost pf = preset_field(network@, path@);
    let ghost a2 = a1 + pf.1;
    proof {
        lemma_chain(before, a1, pf.1);
    }
    let allow_key = dot(path, "allow");
    let (allow, _) = read_rules(issues, network.get("allow"), allow_key.as_str());
    let ghost af = rule_list(network@.get("allow"@), dotted(path@, "allow"@));
    let ghost a3 = a2 + af.issues;
    proof {
        lemma_chain(before, a2, af.issues);
    }
    let deny_key = dot(path, "deny");
    let (deny, spans) = read_rules(issues, network.get("deny"), deny_key.as_str());
    let ghost df = rule_list(network@.get("deny"@), dotted(path@, "deny"@));
    let ghost a4 = a3 + df.issues;
    proof {
        lemma_chain(before, a3, df.issues);
    }
    check_both(issues, &allow, &deny, &spans, path);
    let ghost both = both_issues(af.rules, df.rules, df.spans, path@);
    let ghost a5 = a4 + both;
    proof {
        lemma_chain(before, a4, both);
    }
    let ports = read_ports(issues, network, path);
    let ghost of = ports_field(network@, path@);
    let ghost a6 = a5 + of.1;
    proof {
        lemma_chain(before, a5, of.1);
    }
    let config = NetworkConfig { preset, allow, deny, ports };
    assert(config@ == network_config(network@, path@));
    check_disabled(issues, network, path, &config);
    proof {
        let last = disabled_issues(network@, path@, config@);
        lemma_chain(before, a6, last);
        assert(a6 + last == network_issues(network@, path@));
    }
    config
}

fn check_disabled(issues: &mut Vec<Issue>, network: &Node, path: &str, config: &NetworkConfig)
    ensures
        views(final(issues)@) == views(old(issues)@) + disabled_issues(network@, path@, config@),
{
    let ghost before = views(issues@);
    if config.preset == NetworkPreset::Disabled {
        if config.ports.len() > 0 {
            push_error(
                issues,
                network.key_span("ports"),
                dot(path, "ports").as_str(),
                "ports need network access, but `network = \"none\"` disables it",
            );
        }
        if config.allow.len() > 0 || config.deny.len() > 0 {
            push_warning(
                issues,
                network.key_span("network"),
                dot(path, "network").as_str(),
                "`allow` and `deny` have no effect with `network = \"none\"`",
            );
        }
    }
    assert(views(issues@) =~= before + disabled_issues(network@, path@, config@));
}

// ---------------------------------------------------------------------------
// Secrets
// ---------------------------------------------------------------------------

/// Keys of a secret other than `allow`.
pub open spec fn secret_key_issues(
    entries: Seq<EntryView>,
    secret: NodeView,
    key: Seq<char>,
    section: Seq<char>,
) -> Seq<IssueView>
    decreases entries.len(),
{
    if entries.len() == 0 {
        no_issues()
    } else {
        let rest = secret_key_issues(entries.drop_last(), secret, key, section);
        let field = entries.last().key;
        if field == "allow"@ {
            rest
        } else {
            rest.push(
                error(
                    secret.key_span(field),
                    dotted(key, field),
                    if field == "deny"@ {
                        "secrets have no `deny` list: a secret is only substituted for hosts in `allow`; to block a host entirely, add it to ["@
                            + section + ".network].deny"@
                    } else {
                        "unknown key `"@ + field + "`; expected: allow"@
                    },
                ),
            )
        }
    }
}

/// The rules that match by name, and the others as problems.
pub open spec fn name_hosts(
    rules: Seq<PatternView>,
    spans: Seq<Option<Span>>,
    key: Seq<char>,
) -> (Seq<PatternView>, Seq<IssueView>)
    decreases rules.len(),
{
    if rules.len() == 0 {
        (Seq::empty(), no_issues())
    } else {
        let n = rules.len() - 1;
        let rest = name_hosts(rules.drop_last(), spans, key);
        if rules[n].by_name() {
            (rest.0.push(rules[n]), rest.1)
        } else {
            (
                rest.0,
                rest.1.push(
                    error(
                        spans[n],
                        key,
                        "`"@ + rules[n].text()
                            + "`: secret hosts must be names (`host` or `*.suffix`)"@,
                    ),
                ),
            )
        }
    }
}

/// The hosts of a secret, and what is wrong with its table.
pub open spec fn secret_hosts(
    secret: NodeView,
    key: Seq<char>,
    section: Seq<char>,
    key_span: Option<Span>,
) -> (Seq<PatternView>, Seq<IssueView>) {
    let keys = secret_key_issues(entries_of(secret), secret, key, section);
    let allow_key = dotted(key, "allow"@);
    match secret.get("allow"@) {
        None => (
            Seq::empty(),
            keys.push(error(key_span, key, "`allow` is required and must list at least one host"@)),
        ),
        Some(node) => {
            let list = rule_list(Some(node), allow_key);
            let hosts = name_hosts(list.rules, list.spans, allow_key);
            let none = if node.elements is Some && (node.elements->0).len() == 0 {
                seq![error(node.span, allow_key, "must list at least one host"@)]
            } else {
                no_issues()
            };
            (hosts.0, keys + none + list.issues + hosts.1)
        },
    }
}

/// The secrets of the section, their places, and what is wrong with the rest.
#[verifier::ext_equal]
pub struct SecretEntries {
    pub secrets: Map<Seq<char>, Seq<PatternView>>,
    pub spans: Map<Seq<char>, Option<Span>>,
    pub issues: Seq<IssueView>,
}

pub open spec fn secret_entries(
    entries: Seq<EntryView>,
    table: NodeView,
    path: Seq<char>,
    section: Seq<char>,
) -> SecretEntries
    decreases entries.len(),
{
    if entries.len() == 0 {
        SecretEntries { secrets: Map::empty(), spans: Map::empty(), issues: no_issues() }
    } else {
        let rest = secret_entries(entries.drop_last(), table, path, section);
        let name = entries.last().key;
        let node = entries.last().node;
        let key = dotted(path, name);
        if !env_name(name) {
            SecretEntries {
                issues: rest.issues.push(
                    error(
                        table.key_span(name),
                        key,
                        "`"@ + name + "` is not a valid environment variable name"@,
                    ),
                ),
                ..rest
            }
        } else if !node.is_table() {
            SecretEntries { issues: rest.issues + table_issues(node, key), ..rest }
        } else {
            let found = secret_hosts(node, key, section, table.key_span(name));
            SecretEntries {
                secrets: rest.secrets.insert(name, found.0),
                spans: rest.spans.insert(name, table.key_span(name)),
                issues: rest.issues + found.1,
            }
        }
    }
}

fn check_secret_keys(issues: &mut Vec<Issue>, secret: &Node, key: &str, section: &str)
    ensures
        views(final(issues)@) == views(old(issues)@) + secret_key_issues(
            entries_of(secret@),
            secret@,
            key@,
            section@,
        ),
{
    let ghost before = views(issues@);
    match &secret.entries {
        None => {
            assert(views(issues@) =~= before + no_issues());
        },
        Some(entries) => {
            let ghost ev = entry_views(entries@);
            assert(entries_of(secret@) == ev);
            let mut i: usize = 0;
            assert(ev.subrange(0, 0) =~= Seq::empty());
            assert(before =~= before + no_issues());
            while i < entries.len()
                invariant
                    i <= entries@.len(),
                    ev == entry_views(entries@),
                    views(issues@) == before + secret_key_issues(
                        ev.subrange(0, i as int),
                        secret@,
                        key@,
                        section@,
                    ),
                decreases entries@.len() - i,
            {
                assert(ev.subrange(0, i + 1).drop_last() =~= ev.subrange(0, i as int));
                let field = entries[i].key.as_str();
                assert(ev[i as int].key == field@);
                if !same(field, "allow") {
                    let message = if same(field, "deny") {
                        concat3(
                            "secrets have no `deny` list: a secret is only substituted for hosts in `allow`; to block a host entirely, add it to [",
                            section,
                            ".network].deny",
                        )
                    } else {
                        concat3("unknown key `", field, "`; expected: allow")
                    };
                    push_error(
                        issues,
                        secret.key_span(field),
                        dot(key, field).as_str(),
                        message.as_str(),
                    );
                    assert(views(issues@) =~= before + secret_key_issues(
                        ev.subrange(0, i + 1),
                        secret@,
                        key@,
                        section@,
                    ));
                }
                i += 1;
            }
            assert(ev.subrange(0, ev.len() as int) =~= ev);
        },
    }
}

fn keep_names(
    issues: &mut Vec<Issue>,
    rules: Vec<HostPattern>,
    spans: &Vec<Option<Span>>,
    key: &str,
) -> (r: Vec<HostPattern>)
    requires
        spans@.len() == rules@.len(),
    ensures
        views(r@) == name_hosts(views(rules@), spans@, key@).0,
        views(final(issues)@) == views(old(issues)@) + name_hosts(views(rules@), spans@, key@).1,
{
    let ghost before = views(issues@);
    let ghost rv = views(rules@);
    let mut hosts: Vec<HostPattern> = Vec::new();
    let mut i: usize = 0;
    assert(rv.subrange(0, 0) =~= Seq::empty());
    assert(views(hosts@) =~= Seq::empty());
    assert(before =~= before + no_issues());
    while i < rules.len()
        invariant
            i <= rules@.len(),
            spans@.len() == rules@.len(),
            rv == views(rules@),
            views(hosts@) == name_hosts(rv.subrange(0, i as int), spans@, key@).0,
            views(issues@) == before + name_hosts(rv.subrange(0, i as int), spans@, key@).1,
        decreases rules@.len() - i,
    {
        assert(rv.subrange(0, i + 1).drop_last() =~= rv.subrange(0, i as int));
        let ghost done = views(hosts@);
        if rules[i].is_name() {
            hosts.push(rules[i].clone());
            assert(views(hosts@) =~= done.push(rv[i as int]));
        } else {
            let message = concat3(
                "`",
                rules[i].to_text().as_str(),
                "`: secret hosts must be names (`host` or `*.suffix`)",
            );
            push_error(issues, spans[i], key, message.as_str());
            assert(views(issues@) =~= before + name_hosts(rv.subrange(0, i + 1), spans@, key@).1);
        }
        i += 1;
    }
    assert(rv.subrange(0, rv.len() as int) =~= rv);
    hosts
}

fn read_secret(
    issues: &mut Vec<Issue>,
    secret: &Node,
    key: &str,
    section: &str,
    key_span: Option<Span>,
) -> (r: SecretConfig)
    ensures
        r@ == secret_hosts(secret@, key@, section@, key_span).0,
        views(final(issues)@) == views(old(issues)@) + secret_hosts(
            secret@,
            key@,
            section@,
            key_span,
        ).1,
{
    let ghost before = views(issues@);
    check_secret_keys(issues, secret, key, section);
    let allow_key = dot(key, "allow");
    match secret.get("allow") {
        None => {
            push_error(issues, key_span, key, "`allow` is required and must list at least one host");
            assert(views(issues@) =~= before + secret_hosts(secret@, key@, section@, key_span).1);
            let r = SecretConfig { allow: Vec::new() };
            assert(r@ =~= Seq::empty());
            r
        },
        Some(node) => {
            let empty = match &node.elements {
                Some(nodes) => nodes.len() == 0,
                None => false,
            };
            if empty {
                push_error(issues, node.span, allow_key.as_str(), "must list at least one host");
            }
            let (rules, spans) = read_rules(issues, Some(node), allow_key.as_str());
            let hosts = keep_names(issues, rules, &spans, allow_key.as_str());
            assert(views(issues@) =~= before + secret_hosts(secret@, key@, section@, key_span).1);
            SecretConfig { allow: hosts }
        },
    }
}

fn read_secrets(issues: &mut Vec<Issue>, table: &Node, path: &str, section: &str) -> (r: (
    TextMap<SecretConfig>,
    TextMap<Place>,
))
    ensures
        r.0@ == secret_entries(entries_of(table@), table@, path@, section@).secrets,
        r.1@ == secret_entries(entries_of(table@), table@, path@, section@).spans,
        views(final(issues)@) == views(old(issues)@) + secret_entries(
            entries_of(table@),
            table@,
            path@,
            section@,
        ).issues,
{
    let ghost before = views(issues@);
    let mut secrets: TextMap<SecretConfig> = TextMap::new();
    let mut spans: TextMap<Place> = TextMap::new();
    assert(before =~= before + no_issues());
    match &table.entries {
        None => {},
        Some(entries) => {
            let ghost ev = entry_views(entries@);
            assert(entries_of(table@) == ev);
            let mut i: usize = 0;
            assert(ev.subrange(0, 0) =~= Seq::empty());
            while i < entries.len()
                invariant
                    i <= entries@.len(),
                    ev == entry_views(entries@),
                    secrets@ == secret_entries(
                        ev.subrange(0, i as int),
                        table@,
                        path@,
                        section@,
                    ).secrets,
                    spans@ == secret_entries(
                        ev.subrange(0, i as int),
                        table@,
                        path@,
                        section@,
                    ).spans,
                    views(issues@) == before + secret_entries(
                        ev.subrange(0, i as int),
                        table@,
                        path@,
                        section@,
                    ).issues,
                decreases entries@.len() - i,
            {
                assert(ev.subrange(0, i + 1).drop_last() =~= ev.subrange(0, i as int));
                let ghost next = secret_entries(ev.subrange(0, i + 1), table@, path@, section@);
                let name = entries[i].key.as_str();
                let node = &entries[i].node;
                assert(ev[i as int].key == name@ && ev[i as int].node == node@);
                let key = dot(path, name);
                let key_span = table.key_span(name);
                if !is_env_name(name) {
                    let message = concat3("`", name, "` is not a valid environment variable name");
                    push_error(issues, key_span, key.as_str(), message.as_str());
                } else if check_table(issues, node, key.as_str()) {
                    let secret = read_secret(issues, node, key.as_str(), section, key_span);
                    spans.insert(name, Place { span: key_span });
                    secrets.insert(name, secret);
                }
                assert(views(issues@) =~= before + next.issues);
                i += 1;
            }
            assert(ev.subrange(0, ev.len() as int) =~= ev);
        },
    }
    (secrets, spans)
}

// ---------------------------------------------------------------------------
// The section
// ---------------------------------------------------------------------------

pub open spec fn section_keys() -> Seq<Seq<char>> {
    seq!["cpus"@, "memory"@, "disk"@, "mounts"@, "network"@, "secrets"@, "dotfiles"@]
}

/// The number of CPUs, where it is in order.
pub open spec fn cpus_field(section: NodeView, path: Seq<char>) -> (Option<u8>, Seq<IssueView>) {
    let key = dotted(path, "cpus"@);
    match section.get("cpus"@) {
        None => (None, no_issues()),
        Some(node) => match node.integer {
            None => (
                None,
                seq![error(node.span, key, "expected an integer, found "@ + node.kind())],
            ),
            Some(n) => if 1 <= n <= MAX_CPUS {
                (Some(n as u8), no_issues())
            } else {
                (
                    None,
                    seq![
                        error(
                            node.span,
                            key,
                            "must be between 1 and "@ + decimal(MAX_CPUS as nat) + ", got "@
                                + signed_decimal(n as int),
                        ),
                    ],
                )
            },
        },
    }
}

/// The dotfiles directory, where it is in order.
pub open spec fn dotfiles_field(
    section: NodeView,
    path: Seq<char>,
    dir: Seq<char>,
    home: Option<Seq<char>>,
) -> (Option<Seq<char>>, Seq<IssueView>) {
    let key = dotted(path, "dotfiles"@);
    match section.get("dotfiles"@) {
        None => (None, no_issues()),
        Some(node) => match node.text {
            None => (None, string_issues(node, key)),
            Some(text) => match host_path(text, dir, home) {
                Ok(host) => (Some(host), no_issues()),
                Err(message) => (None, seq![error(node.span, key, message)]),
            },
        },
    }
}

/// The network table, where the section has one.
pub open spec fn network_field(section: NodeView, path: Seq<char>) -> (NetworkView, Seq<IssueView>) {
    let key = dotted(path, "network"@);
    match section.get("network"@) {
        None => (NetworkView::empty(), no_issues()),
        Some(node) => if node.is_table() {
            (network_config(node, key), network_issues(node, key))
        } else {
            (NetworkView::empty(), table_issues(node, key))
        },
    }
}

/// The secrets, where the section has some.
pub open spec fn secrets_field(section: NodeView, path: Seq<char>) -> SecretEntries {
    let key = dotted(path, "secrets"@);
    match section.get("secrets"@) {
        None => SecretEntries { secrets: Map::empty(), spans: Map::empty(), issues: no_issues() },
        Some(node) => if node.is_table() {
            secret_entries(entries_of(node), node, key, path)
        } else {
            SecretEntries {
                secrets: Map::empty(),
                spans: Map::empty(),
                issues: table_issues(node, key),
            }
        },
    }
}

pub open spec fn or_default<T>(value: Option<T>, default: T) -> T {
    match value {
        Some(value) => value,
        None => default,
    }
}

/// The configuration that a section writes: fields that are missing or not in
/// order have their defaults.
pub open spec fn section_config(
    section: NodeView,
    path: Seq<char>,
    dir: Seq<char>,
    home: Option<Seq<char>>,
    user: GuestUser,
) -> KitchenView {
    let plain = KitchenView::plain(user);
    KitchenView {
        cpus: or_default(cpus_field(section, path).0, plain.cpus),
        memory_mib: or_default(
            size_field(section, "memory"@, path, Some(MAX_MEMORY_MIB)).0,
            plain.memory_mib,
        ),
        disk_mib: or_default(size_field(section, "disk"@, path, None).0, plain.disk_mib),
        mounts: mounts_field(section.get("mounts"@), dotted(path, "mounts"@), dir, home).mounts,
        network: network_field(section, path).0,
        secrets: secrets_field(section, path).secrets,
        user,
        dotfiles: dotfiles_field(section, path, dir, home).0,
    }
}

pub open spec fn section_spans(
    section: NodeView,
    path: Seq<char>,
    dir: Seq<char>,
    home: Option<Seq<char>>,
) -> SpansView {
    SpansView {
        mounts: mounts_field(section.get("mounts"@), dotted(path, "mounts"@), dir, home).spans,
        secrets: secrets_field(section, path).spans,
        dotfiles: match section.get("dotfiles"@) {
            Some(node) => node.span,
            None => None,
        },
    }
}

pub open spec fn section_issues(
    section: NodeView,
    path: Seq<char>,
    dir: Seq<char>,
    home: Option<Seq<char>>,
) -> Seq<IssueView> {
    unknown_issues(entries_of(section), section, path, section_keys()) + cpus_field(
        section,
        path,
    ).1 + size_field(section, "memory"@, path, Some(MAX_MEMORY_MIB)).1 + size_field(
        section,
        "disk"@,
        path,
        None,
    ).1 + mounts_field(section.get("mounts"@), dotted(path, "mounts"@), dir, home).issues
        + network_field(section, path).1 + secrets_field(section, path).issues + dotfiles_field(
        section,
        path,
        dir,
        home,
    ).1
}

fn read_cpus(issues: &mut Vec<Issue>, section: &Node, path: &str) -> (r: Option<u8>)
    ensures
        r == cpus_field(section@, path@).0,
        views(final(issues)@) == views(old(issues)@) + cpus_field(section@, path@).1,
{
    let ghost before = views(issues@);
    let ghost expected = cpus_field(section@, path@);
    let node = match section.get("cpus") {
        Some(node) => node,
        None => {
            assert(views(issues@) =~= before + expected.1);
            return None;
        },
    };
    let key = dot(path, "cpus");
    match node.integer {
        None => {
            let message = concat("expected an integer, found ", node.kind().as_str());
            push_error(issues, node.span, key.as_str(), message.as_str());
            assert(views(issues@) =~= before + expected.1);
            None
        },
        Some(n) => {
            if 1 <= n && n <= MAX_CPUS as i64 {
                assert(views(issues@) =~= before + expected.1);
                Some(n as u8)
            } else {
                let mut message = "must be between 1 and ".to_owned();
                push_decimal(&mut message, MAX_CPUS as u64);
                message.push_str(", got ");
                push_signed(&mut message, n);
                push_error(issues, node.span, key.as_str(), message.as_str());
                assert(views(issues@) =~= before + expected.1);
                None
            }
        },
    }
}

fn read_dotfiles(
    issues: &mut Vec<Issue>,
    section: &Node,
    path: &str,
    dir: &str,
    home: Option<&str>,
) -> (r: Option<String>)
    ensures
        opt_view(r) == dotfiles_field(section@, path@, dir@, opt_str(home)).0,
        views(final(issues)@) == views(old(issues)@) + dotfiles_field(
            section@,
            path@,
            dir@,
            opt_str(home),
        ).1,
{
    let ghost before = views(issues@);
    let ghost expected = dotfiles_field(section@, path@, dir@, opt_str(home));
    let node = match section.get("dotfiles") {
        Some(node) => node,
        None => {
            assert(views(issues@) =~= before + expected.1);
            return None;
        },
    };
    let key = dot(path, "dotfiles");
    let text = match read_string(issues, node, key.as_str()) {
        Some(text) => text,
        None => {
            return None;
        },
    };
    match resolve_host_path(text, dir, home) {
        Ok(host) => {
            assert(views(issues@) =~= before + expected.1);
            Some(host)
        },
        Err(message) => {
            push_error(issues, node.span, key.as_str(), message.as_str());
            assert(views(issues@) =~= before + expected.1);
            None
        },
    }
}

fn read_network_field(issues: &mut Vec<Issue>, section: &Node, path: &str) -> (r: NetworkConfig)
    ensures
        r@ == network_field(section@, path@).0,
        views(final(issues)@) == views(old(issues)@) + network_field(section@, path@).1,
{
    let ghost before = views(issues@);
    match section.get("network") {
        None => {
            assert(views(issues@) =~= before + no_issues());
            NetworkConfig::default()
        },
        Some(node) => {
            let key = dot(path, "network");
            if check_table(issues, node, key.as_str()) {
                assert(views(issues@) =~= before);
                read_network(issues, node, key.as_str())
            } else {
                NetworkConfig::default()
            }
        },
    }
}

fn read_secrets_field(issues: &mut Vec<Issue>, section: &Node, path: &str) -> (r: (
    TextMap<SecretConfig>,
    TextMap<Place>,
))
    ensures
        r.0@ == secrets_field(section@, path@).secrets,
        r.1@ == secrets_field(section@, path@).spans,
        views(final(issues)@) == views(old(issues)@) + secrets_field(section@, path@).issues,
{
    let ghost before = views(issues@);
    match section.get("secrets") {
        None => {
            assert(views(issues@) =~= before + no_issues());
            (TextMap::new(), TextMap::new())
        },
        Some(node) => {
            let key = dot(path, "secrets");
            if check_table(issues, node, key.as_str()) {
                assert(views(issues@) =~= before);
                read_secrets(issues, node, key.as_str(), path)
            } else {
                (TextMap::new(), TextMap::new())
            }
        },
    }
}

fn read_section(
    issues: &mut Vec<Issue>,
    section: &Node,
    path: &str,
    dir: &str,
    home: Option<&str>,
    user: GuestUser,
) -> (r: (KitchenConfig, Spans))
    ensures
        r.0@ == section_config(section@, path@, dir@, opt_str(home), user),
        r.1@ == section_spans(section@, path@, dir@, opt_str(home)),
        views(final(issues)@) == views(old(issues)@) + section_issues(
            section@,
            path@,
            dir@,
            opt_str(home),
        ),
{
    let ghost before = views(issues@);
    let ghost hv = opt_str(home);
    let keys = section_key_list();
    reject_unknown(issues, section, path, &keys);
    let ghost a1 = unknown_issues(entries_of(section@), section@, path@, section_keys());
    let cpus = read_cpus(issues, section, path);
    let ghost a2 = a1 + cpus_field(section@, path@).1;
    proof {
        lemma_chain(before, a1, cpus_field(section@, path@).1);
    }
    let memory = read_size(issues, section, "memory", path, Some(MAX_MEMORY_MIB));
    let ghost m = size_field(section@, "memory"@, path@, Some(MAX_MEMORY_MIB));
    let ghost a3 = a2 + m.1;
    proof {
        lemma_chain(before, a2, m.1);
    }
    let disk = read_size(issues, section, "disk", path, None);
    let ghost d = size_field(section@, "disk"@, path@, None);
    let ghost a4 = a3 + d.1;
    proof {
        lemma_chain(before, a3, d.1);
    }
    let mounts_key = dot(path, "mounts");
    let (mounts, mount_spans) = read_mounts(
        issues,
        section.get("mounts"),
        mounts_key.as_str(),
        dir,
        home,
    );
    let ghost mf = mounts_field(section@.get("mounts"@), dotted(path@, "mounts"@), dir@, hv);
    let ghost a5 = a4 + mf.issues;
    proof {
        lemma_chain(before, a4, mf.issues);
    }
    let network = read_network_field(issues, section, path);
    let ghost nf = network_field(section@, path@);
    let ghost a6 = a5 + nf.1;
    proof {
        lemma_chain(before, a5, nf.1);
    }
    let (secrets, secret_spans) = read_secrets_field(issues, section, path);
    let ghost sf = secrets_field(section@, path@);
    let ghost a7 = a6 + sf.issues;
    proof {
        lemma_chain(before, a6, sf.issues);
    }
    let dotfiles = read_dotfiles(issues, section, path, dir, home);
    let ghost df = dotfiles_field(section@, path@, dir@, hv);
    proof {
        lemma_chain(before, a7, df.1);
        assert(a7 + df.1 == section_issues(section@, path@, dir@, hv));
    }
    let config = KitchenConfig {
        cpus: match cpus {
            Some(cpus) => cpus,
            None => DEFAULT_CPUS,
        },
        memory_mib: match memory {
            Some(mib) => mib,
            None => DEFAULT_MEMORY_MIB,
        },
        disk_mib: match disk {
            Some(mib) => mib,
            None => DEFAULT_DISK_MIB,
        },
        mounts,
        network,
        secrets,
        user,
        dotfiles,
    };
    let spans = Spans {
        mounts: mount_spans,
        secrets: secret_spans,
        dotfiles: match section.get("dotfiles") {
            Some(node) => node.span,
            None => None,
        },
    };
    (config, spans)
}

proof fn lemma_chain(before: Seq<IssueView>, done: Seq<IssueView>, more: Seq<IssueView>)
    ensures
        (before + done) + more == before + (done + more),
{
    assert((before + done) + more =~= before + (done + more));
}

fn section_key_list() -> (r: Vec<String>)
    ensures
        views(r@) == section_keys(),
{
    let mut r = key_list4("cpus", "memory", "disk", "mounts");
    let ghost first = views(r@);
    r.push("network".to_owned());
    r.push("secrets".to_owned());
    r.push("dotfiles".to_owned());
    assert(views(r@) =~= first + seq!["network"@, "secrets"@, "dotfiles"@]);
    assert(views(r@) =~= section_keys());
    r
}

// ---------------------------------------------------------------------------
// The kitchen file
// ---------------------------------------------------------------------------

/// What a kitchen file means, and what is wrong with it.
#[verifier::ext_equal]
pub struct Reading {
    pub location: Option<SectionLocation>,
    pub config: KitchenView,
    pub spans: SpansView,
    pub issues: Seq<IssueView>,
}

/// The `[_.microkitchen]` entry.
pub open spec fn underscore_entry(root: NodeView) -> Option<EntryView> {
    match root.table("_"@) {
        Some(table) => table.entry("microkitchen"@),
        None => None,
    }
}

/// Where the microkitchen table is, what it holds, and what to say about that.
pub open spec fn find_section(root: NodeView) -> (Option<(SectionLocation, NodeView)>, Seq<IssueView>) {
    match (underscore_entry(root), root.entry("microkitchen"@)) {
        (Some(entry), Some(legacy)) => (
            Some((SectionLocation::Underscore, entry.node)),
            seq![
                error(
                    legacy.key_span,
                    "microkitchen"@,
                    "both [_.microkitchen] and [microkitchen] are present; move everything into [_.microkitchen]"@,
                ),
            ],
        ),
        (Some(entry), None) => (Some((SectionLocation::Underscore, entry.node)), no_issues()),
        (None, Some(legacy)) => (
            Some((SectionLocation::Legacy, legacy.node)),
            seq![
                warning(
                    legacy.key_span,
                    "microkitchen"@,
                    "mise warns about the unknown field [microkitchen]; rename it to [_.microkitchen]"@,
                ),
            ],
        ),
        (None, None) => (None, no_issues()),
    }
}

/// What a kitchen file's document means.
pub open spec fn kitchen_of(root: NodeView, dir: Seq<char>, home: Option<Seq<char>>) -> Reading {
    let found = find_section(root);
    let user = sandbox_user(root);
    match found.0 {
        None => Reading {
            location: None,
            config: KitchenView::plain(user.0),
            spans: SpansView::none(),
            issues: found.1 + user.1,
        },
        Some((location, node)) => if node.is_table() {
            Reading {
                location: Some(location),
                config: section_config(node, location.path(), dir, home, user.0),
                spans: section_spans(node, location.path(), dir, home),
                issues: found.1 + user.1 + section_issues(node, location.path(), dir, home),
            }
        } else {
            Reading {
                location: Some(location),
                config: KitchenView::plain(user.0),
                spans: SpansView::none(),
                issues: found.1 + user.1 + table_issues(node, location.path()),
            }
        },
    }
}

/// Whether a parsed kitchen is what the model reads.
pub open spec fn reads_as(parsed: ParsedKitchen, reading: Reading) -> bool {
    &&& parsed.location == reading.location
    &&& parsed.config@ == reading.config
    &&& parsed.spans@ == reading.spans
}

/// Read a kitchen file's document. Relative mount sources are resolved against
/// `kitchen_dir`, `~` against `home`.
pub fn read_kitchen(root: &Node, kitchen_dir: &str, home: Option<&str>) -> (r: (
    ParsedKitchen,
    Vec<Issue>,
))
    ensures
        reads_as(r.0, kitchen_of(root@, kitchen_dir@, opt_str(home))),
        views(r.1@) == kitchen_of(root@, kitchen_dir@, opt_str(home)).issues,
{
    let ghost reading = kitchen_of(root@, kitchen_dir@, opt_str(home));
    let mut issues: Vec<Issue> = Vec::new();
    assert(views(issues@) =~= no_issues());
    let underscore = match root.table("_") {
        Some(table) => table.find("microkitchen"),
        None => None,
    };
    let legacy = root.find("microkitchen");
    let (location, node) = match (underscore, legacy) {
        (Some(entry), Some(legacy)) => {
            push_error(
                &mut issues,
                legacy.key_span,
                "microkitchen",
                "both [_.microkitchen] and [microkitchen] are present; move everything into [_.microkitchen]",
            );
            (SectionLocation::Underscore, &entry.node)
        },
        (Some(entry), None) => (SectionLocation::Underscore, &entry.node),
        (None, Some(legacy)) => {
            push_warning(
                &mut issues,
                legacy.key_span,
                "microkitchen",
                "mise warns about the unknown field [microkitchen]; rename it to [_.microkitchen]",
            );
            (SectionLocation::Legacy, &legacy.node)
        },
        (None, None) => {
            let user = guest_user(&mut issues, root);
            let mut config = KitchenConfig::default();
            config.user = user;
            assert(config@ =~= KitchenView::plain(user));
            assert(views(issues@) =~= reading.issues);
            return (ParsedKitchen { location: None, config, spans: Spans::default() }, issues);
        },
    };
    let ghost found = find_section(root@);
    assert(found.0 == Some((location, node@)));
    assert(views(issues@) =~= found.1);
    let user = guest_user(&mut issues, root);
    let path = location.table_path();
    if check_table(&mut issues, node, path) {
        let (config, spans) = read_section(&mut issues, node, path, kitchen_dir, home, user);
        assert(views(issues@) =~= reading.issues);
        (ParsedKitchen { location: Some(location), config, spans }, issues)
    } else {
        let mut config = KitchenConfig::default();
        config.user = user;
        assert(config@ =~= KitchenView::plain(user));
        assert(views(issues@) =~= reading.issues);
        (ParsedKitchen { location: Some(location), config, spans: Spans::default() }, issues)
    }
}

/// Parse the microkitchen table of `source`. Relative mount sources are
/// resolved against `kitchen_dir`, `~` against `home`.
///
/// Returns `None` only when the file is not valid TOML.
pub fn parse(
    source: &Source,
    kitchen_dir: &str,
    home: Option<&str>,
    diagnostics: &mut Diagnostics,
) -> (r: Option<ParsedKitchen>)
    ensures
        match toml_document(source.text@) {
            Err(problem) => r is None && final(diagnostics)@ == old(diagnostics)@.push(
                source.located(Severity::Error, problem.span, None, problem.message),
            ),
            Ok(root) => {
                let reading = kitchen_of(root, kitchen_dir@, opt_str(home));
                &&& r matches Some(parsed) && reads_as(parsed, reading)
                &&& final(diagnostics)@ == old(diagnostics)@ + located(*source, reading.issues)
            },
        },
{
    match read_tree(source.text.as_str()) {
        Err(problem) => {
            diagnostics.push(
                source.diagnostic(Severity::Error, problem.span, None, problem.message.as_str()),
            );
            None
        },
        Ok(root) => {
            let (parsed, issues) = read_kitchen(&root, kitchen_dir, home);
            report(source, &issues, diagnostics);
            Some(parsed)
        },
    }
}

// ---------------------------------------------------------------------------
// Laws
// ---------------------------------------------------------------------------

/// Without a microkitchen table the defaults apply.
pub proof fn law_no_section_means_defaults(root: NodeView, dir: Seq<char>, home: Option<Seq<char>>)
    requires
        underscore_entry(root) is None,
        root.entry("microkitchen"@) is None,
    ensures
        kitchen_of(root, dir, home).location is None,
        kitchen_of(root, dir, home).config == KitchenView::plain(sandbox_user(root).0),
{
}

/// Whatever the kitchen file says, the configuration stays within its limits:
/// CPUs and memory have their ceilings, no two mounts share a guest path, none
/// overlaps a path that microkitchen manages, each is absolute in the guest, and
/// no host port is published twice for a protocol. Ports are not zero, no rule
/// stands twice in a list, secrets are named like environment variables and are
/// for names only. Every mount and every secret has its place.
pub proof fn law_configurations_stay_within_limits(
    root: NodeView,
    dir: Seq<char>,
    home: Option<Seq<char>>,
)
    ensures
        1 <= kitchen_of(root, dir, home).config.cpus <= MAX_CPUS,
        1 <= kitchen_of(root, dir, home).config.memory_mib <= MAX_MEMORY_MIB,
        1 <= kitchen_of(root, dir, home).config.disk_mib,
        distinct_mounts(kitchen_of(root, dir, home).config.mounts),
        distinct_ports(kitchen_of(root, dir, home).config.network.ports),
        kitchen_of(root, dir, home).config.network.allow.no_duplicates(),
        kitchen_of(root, dir, home).config.network.deny.no_duplicates(),
        proper_secrets(kitchen_of(root, dir, home).config.secrets),
        kitchen_of(root, dir, home).spans.mounts.len() == kitchen_of(
            root,
            dir,
            home,
        ).config.mounts.len(),
        kitchen_of(root, dir, home).spans.secrets.dom() == kitchen_of(
            root,
            dir,
            home,
        ).config.secrets.dom(),
{
    match find_section(root).0 {
        None => {},
        Some((location, node)) => {
            if node.is_table() {
                let path = location.path();
                lemma_size_positive(node, "memory"@, path, Some(MAX_MEMORY_MIB));
                lemma_size_positive(node, "disk"@, path, None);
                match node.get("mounts"@) {
                    None => {},
                    Some(list) => {
                        let key = dotted(path, "mounts"@);
                        lemma_distinct_mounts(strings(list, key).0, key, dir, home);
                    },
                }
                match node.get("network"@) {
                    None => {},
                    Some(network) => {
                        let key = dotted(dotted(path, "network"@), "ports"@);
                        match network.get("ports"@) {
                            None => {},
                            Some(list) => lemma_distinct_ports(strings(list, key).0, key),
                        }
                        let table = dotted(path, "network"@);
                        lemma_rules_once(network.get("allow"@), dotted(table, "allow"@));
                        lemma_rules_once(network.get("deny"@), dotted(table, "deny"@));
                    },
                }
                match node.get("secrets"@) {
                    None => {},
                    Some(table) => {
                        lemma_proper_secrets(
                            entries_of(table),
                            table,
                            dotted(path, "secrets"@),
                            path,
                        );
                    },
                }
            }
        },
    }
}

pub open spec fn distinct_mounts(mounts: Seq<MountView>) -> bool {
    &&& forall|i: int, j: int|
        0 <= i < mounts.len() && 0 <= j < mounts.len() && (#[trigger] mounts[i]).guest == (
        #[trigger] mounts[j]).guest ==> i == j
    &&& forall|i: int|
        0 <= i < mounts.len() ==> reserved_by((#[trigger] mounts[i]).guest) is None && is_absolute(
            mounts[i].guest,
        )
}

pub open spec fn distinct_ports(ports: Seq<PortMapping>) -> bool {
    &&& forall|i: int, j: int|
        0 <= i < ports.len() && 0 <= j < ports.len() && (#[trigger] ports[i]).host == (
        #[trigger] ports[j]).host && ports[i].protocol == ports[j].protocol ==> i == j
    &&& forall|i: int|
        0 <= i < ports.len() ==> (#[trigger] ports[i]).host >= 1 && ports[i].guest >= 1
}

/// Whether secrets are named like environment variables and list names, each
/// once.
pub open spec fn proper_secrets(secrets: Map<Seq<char>, Seq<PatternView>>) -> bool {
    forall|name: Seq<char>| #[trigger]
        secrets.contains_key(name) ==> env_name(name) && secrets[name].no_duplicates() && forall|
            i: int,
        |
            0 <= i < secrets[name].len() ==> (#[trigger] secrets[name][i]).by_name()
}

proof fn lemma_rules_once(node: Option<NodeView>, key: Seq<char>)
    ensures
        rule_list(node, key).rules.no_duplicates(),
{
    if let Some(node) = node {
        lemma_entries_once(strings(node, key).0, key);
    }
}

proof fn lemma_entries_once(elements: Seq<ElementView>, key: Seq<char>)
    ensures
        rule_entries(elements, key).rules.no_duplicates(),
    decreases elements.len(),
{
    if elements.len() > 0 {
        lemma_entries_once(elements.drop_last(), key);
    }
}

proof fn lemma_name_hosts(rules: Seq<PatternView>, spans: Seq<Option<Span>>, key: Seq<char>)
    requires
        rules.no_duplicates(),
    ensures
        name_hosts(rules, spans, key).0.no_duplicates(),
        forall|i: int|
            0 <= i < name_hosts(rules, spans, key).0.len() ==> {
                let host = #[trigger] name_hosts(rules, spans, key).0[i];
                host.by_name() && rules.contains(host)
            },
    decreases rules.len(),
{
    if rules.len() > 0 {
        let fewer = rules.drop_last();
        assert(fewer.no_duplicates());
        lemma_name_hosts(fewer, spans, key);
        let rest = name_hosts(fewer, spans, key).0;
        let n = rules.len() - 1;
        let hosts = name_hosts(rules, spans, key).0;
        assert forall|i: int| 0 <= i < rest.len() implies rest[i] != rules[n] && rules.contains(
            #[trigger] rest[i],
        ) by {
            assert(fewer.contains(rest[i]));
            let k = choose|k: int| 0 <= k < fewer.len() && fewer[k] == rest[i];
            assert(rules[k] == rest[i]);
        }
        assert forall|i: int| 0 <= i < hosts.len() implies {
            let host = #[trigger] hosts[i];
            host.by_name() && rules.contains(host)
        } by {
            if i < rest.len() {
                assert(hosts[i] == rest[i]);
            } else {
                assert(hosts[i] == rules[n]);
            }
        }
    }
}

proof fn lemma_proper_secrets(
    entries: Seq<EntryView>,
    table: NodeView,
    path: Seq<char>,
    section: Seq<char>,
)
    ensures
        proper_secrets(secret_entries(entries, table, path, section).secrets),
        secret_entries(entries, table, path, section).spans.dom() == secret_entries(
            entries,
            table,
            path,
            section,
        ).secrets.dom(),
    decreases entries.len(),
{
    if entries.len() > 0 {
        lemma_proper_secrets(entries.drop_last(), table, path, section);
        let name = entries.last().key;
        let secret = entries.last().node;
        let key = dotted(path, name);
        if let Some(node) = secret.get("allow"@) {
            let list = rule_list(Some(node), dotted(key, "allow"@));
            lemma_rules_once(Some(node), dotted(key, "allow"@));
            lemma_name_hosts(list.rules, list.spans, dotted(key, "allow"@));
        }
        let rest = secret_entries(entries.drop_last(), table, path, section);
        let all = secret_entries(entries, table, path, section);
        assert(all.spans.dom() =~= all.secrets.dom());
        assert forall|other: Seq<char>| #[trigger] all.secrets.contains_key(other) implies env_name(
            other,
        ) && all.secrets[other].no_duplicates() && forall|i: int|
            0 <= i < all.secrets[other].len() ==> (#[trigger] all.secrets[other][i]).by_name() by {
            if all.secrets != rest.secrets && other == name {
                let found = secret_hosts(secret, key, section, table.key_span(name));
                assert(all.secrets[other] == found.0);
            } else {
                assert(rest.secrets.contains_key(other));
                assert(all.secrets[other] == rest.secrets[other]);
            }
        }
    }
}

proof fn lemma_size_positive(section: NodeView, name: Seq<char>, path: Seq<char>, max: Option<u32>)
    ensures
        size_field(section, name, path, max).0 matches Some(mib) ==> mib >= 1 && (max matches Some(
            max,
        ) ==> mib <= max),
{
    match section.get(name) {
        None => {},
        Some(node) => match node.text {
            None => {},
            Some(text) => {
                match crate::config::size::unit_mib(
                    crate::text::after(text, crate::text::digit_run(text, 0)),
                ) {
                    None => {},
                    Some(mib) => {
                        let value = crate::text::decimal_value(
                            crate::text::before(text, crate::text::digit_run(text, 0)),
                        );
                        assert(value > 0 ==> value * mib >= 1) by (nonlinear_arith)
                            requires
                                mib == 1 || mib == 1024,
                        ;
                    },
                }
            },
        },
    }
}

proof fn lemma_distinct_mounts(
    elements: Seq<ElementView>,
    key: Seq<char>,
    dir: Seq<char>,
    home: Option<Seq<char>>,
)
    ensures
        distinct_mounts(mount_entries(elements, key, dir, home).mounts),
        mount_entries(elements, key, dir, home).mounts.len() == mount_entries(
            elements,
            key,
            dir,
            home,
        ).spans.len(),
    decreases elements.len(),
{
    if elements.len() > 0 {
        lemma_distinct_mounts(elements.drop_last(), key, dir, home);
        let rest = mount_entries(elements.drop_last(), key, dir, home).mounts;
        let all = mount_entries(elements, key, dir, home).mounts;
        assert forall|i: int, j: int|
            0 <= i < all.len() && 0 <= j < all.len() && (#[trigger] all[i]).guest == (
            #[trigger] all[j]).guest implies i == j by {
            if i < rest.len() {
                assert(all[i] == rest[i]);
            }
            if j < rest.len() {
                assert(all[j] == rest[j]);
            }
        }
        assert forall|i: int| 0 <= i < all.len() implies reserved_by((#[trigger] all[i]).guest) is None
            && is_absolute(all[i].guest) by {
            if i < rest.len() {
                assert(all[i] == rest[i]);
            } else {
                let parts = split(elements.last().text, ':');
                law_normalized_paths_do_not_climb(parts[1]);
            }
        }
    }
}

proof fn lemma_distinct_ports(elements: Seq<ElementView>, key: Seq<char>)
    ensures
        distinct_ports(port_entries(elements, key).0),
    decreases elements.len(),
{
    if elements.len() > 0 {
        lemma_distinct_ports(elements.drop_last(), key);
        let rest = port_entries(elements.drop_last(), key).0;
        let all = port_entries(elements, key).0;
        assert forall|i: int, j: int|
            0 <= i < all.len() && 0 <= j < all.len() && (#[trigger] all[i]).host == (
            #[trigger] all[j]).host && all[i].protocol == all[j].protocol implies i == j by {
            if i < rest.len() {
                assert(all[i] == rest[i]);
            }
            if j < rest.len() {
                assert(all[j] == rest[j]);
            }
        }
    }
}

} // verus!
