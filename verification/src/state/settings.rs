//! User settings for microkitchen itself: `~/.microkitchen/config.toml`.

use vstd::prelude::*;

use crate::text::{
    after, chars, concat, concat3, is_digit, is_digit_char, opt_view, quoted, quoted_text, same,
    string_of, views,
};
use crate::time::{Duration, SECOND};
use crate::tree::{entry_views, node_views, Entry, EntryView, Node, NodeView};

verus! {

// ---------------------------------------------------------------------------
// Types
// ---------------------------------------------------------------------------

/// Every key is optional; a missing file means defaults.
#[derive(Debug, PartialEq, Eq)]
pub struct Settings {
    /// mise version installed in the guest (`"2026.9.6"`); latest when unset.
    pub mise_version: Option<String>,
    pub approval: ApprovalSettings,
    pub broker: BrokerSettings,
}

/// How approvals are asked for.
#[derive(Debug, Clone, Copy, PartialEq, Eq, Structural)]
pub struct ApprovalSettings {
    pub dialog: DialogSetting,
    /// What happens without a dialog.
    pub headless: HeadlessFallback,
    /// Unanswered approvals deny the connection.
    pub timeout_secs: u64,
    /// More prompts than this within `window_secs` switch a sandbox to
    /// deny-all.
    pub max_prompts: u32,
    pub window_secs: u64,
}

#[derive(Debug, Clone, Copy, PartialEq, Eq, Structural)]
pub enum DialogSetting {
    Auto,
    Zenity,
    Kdialog,
    Osascript,
    /// No dialogs (`"none"`).
    Disabled,
}

#[derive(Debug, Clone, Copy, PartialEq, Eq, Structural)]
pub enum HeadlessFallback {
    /// Anything that would ask is denied.
    Deny,
    /// Requests wait for `net decide`.
    Queue,
}

#[derive(Debug, PartialEq, Eq)]
pub struct BrokerSettings {
    /// Per-sandbox resolver and proxy ports.
    pub port_range: (u16, u16),
    /// Upstream resolvers; the host's own when empty.
    pub upstream_dns: Vec<String>,
}

/// [`Settings`] by their contents.
#[verifier::ext_equal]
pub struct SettingsView {
    pub mise_version: Option<Seq<char>>,
    pub approval: ApprovalSettings,
    pub port_range: (u16, u16),
    pub upstream_dns: Seq<Seq<char>>,
}

impl View for Settings {
    type V = SettingsView;

    open spec fn view(&self) -> SettingsView {
        SettingsView {
            mise_version: opt_view(self.mise_version),
            approval: self.approval,
            port_range: self.broker.port_range,
            upstream_dns: views(self.broker.upstream_dns@),
        }
    }
}

/// Why settings cannot be used.
#[derive(Debug, PartialEq, Eq)]
pub enum SettingsError {
    /// The file is not valid TOML.
    Syntax(String),
    /// There is no such key.
    Unknown(String),
    /// The value of this key is not of the right kind.
    Invalid(String),
    /// `mise_version` is not a version.
    MiseVersion(String),
}

/// A [`SettingsError`] by its contents.
pub enum SettingsErrorView {
    Syntax(Seq<char>),
    Unknown(Seq<char>),
    Invalid(Seq<char>),
    MiseVersion(Seq<char>),
}

impl View for SettingsError {
    type V = SettingsErrorView;

    open spec fn view(&self) -> SettingsErrorView {
        match self {
            SettingsError::Syntax(message) => SettingsErrorView::Syntax(message@),
            SettingsError::Unknown(key) => SettingsErrorView::Unknown(key@),
            SettingsError::Invalid(key) => SettingsErrorView::Invalid(key@),
            SettingsError::MiseVersion(version) => SettingsErrorView::MiseVersion(version@),
        }
    }
}

impl SettingsErrorView {
    pub open spec fn text(self) -> Seq<char> {
        match self {
            SettingsErrorView::Syntax(message) => message,
            SettingsErrorView::Unknown(key) => "unknown setting `"@ + key + "`"@,
            SettingsErrorView::Invalid(key) => "invalid value for `"@ + key + "`"@,
            SettingsErrorView::MiseVersion(version) =>
                "mise_version must look like \"2026.9.6\", got "@ + quoted_text(version),
        }
    }
}

impl SettingsError {
    pub fn to_text(&self) -> (r: String)
        ensures
            r@ == self@.text(),
    {
        match self {
            SettingsError::Syntax(message) => message.clone(),
            SettingsError::Unknown(key) => concat3("unknown setting `", key.as_str(), "`"),
            SettingsError::Invalid(key) => concat3("invalid value for `", key.as_str(), "`"),
            SettingsError::MiseVersion(version) => {
                let shown = quoted(version.as_str());
                concat("mise_version must look like \"2026.9.6\", got ", shown.as_str())
            },
        }
    }
}

// ---------------------------------------------------------------------------
// Defaults
// ---------------------------------------------------------------------------

impl ApprovalSettings {
    pub open spec fn plain() -> ApprovalSettings {
        ApprovalSettings {
            dialog: DialogSetting::Auto,
            headless: HeadlessFallback::Deny,
            timeout_secs: 60,
            max_prompts: 20,
            window_secs: 600,
        }
    }

    /// How long an approval waits for an answer.
    pub fn timeout(&self) -> (r: Duration)
        ensures
            r == seconds(self.timeout_secs),
    {
        from_secs(self.timeout_secs)
    }

    /// The time over which prompts are counted.
    pub fn window(&self) -> (r: Duration)
        ensures
            r == seconds(self.window_secs),
    {
        from_secs(self.window_secs)
    }
}

/// Seconds as a duration, as far as one goes.
pub open spec fn seconds(secs: u64) -> Duration {
    if secs * SECOND <= u64::MAX {
        (secs * SECOND) as u64
    } else {
        u64::MAX
    }
}

pub fn from_secs(secs: u64) -> (r: Duration)
    ensures
        r == seconds(secs),
{
    match secs.checked_mul(SECOND) {
        Some(duration) => duration,
        None => u64::MAX,
    }
}

impl Default for ApprovalSettings {
    fn default() -> (r: Self)
        ensures
            r == ApprovalSettings::plain(),
    {
        ApprovalSettings {
            dialog: DialogSetting::Auto,
            headless: HeadlessFallback::Deny,
            timeout_secs: 60,
            max_prompts: 20,
            window_secs: 600,
        }
    }
}

impl SettingsView {
    pub open spec fn plain() -> SettingsView {
        SettingsView {
            mise_version: None,
            approval: ApprovalSettings::plain(),
            port_range: (40000, 49999),
            upstream_dns: Seq::empty(),
        }
    }
}

impl Default for Settings {
    fn default() -> (r: Self)
        ensures
            r@ == SettingsView::plain(),
    {
        let r = Settings {
            mise_version: None,
            approval: ApprovalSettings::default(),
            broker: BrokerSettings { port_range: (40000, 49999), upstream_dns: Vec::new() },
        };
        assert(r@ =~= SettingsView::plain());
        r
    }
}

// ---------------------------------------------------------------------------
// Reading TOML
// ---------------------------------------------------------------------------

/// A value of the `toml` crate.
#[verifier::external_type_specification]
#[verifier::external_body]
pub struct ExValue(toml::Value);

/// What a `toml` value holds.
pub uninterp spec fn value_tree(value: toml::Value) -> NodeView;

/// The table that a text writes, as `toml` reads it, or its message.
pub uninterp spec fn toml_table(text: Seq<char>) -> Result<NodeView, Seq<char>>;

/// `toml::from_str` to a table: the table that `text` writes, or the message of
/// the error. Which texts are TOML is left to the crate.
#[verifier::external_body]
fn parse_table(text: &str) -> (r: Result<toml::Value, String>)
    ensures
        match r {
            Ok(value) => toml_table(text@) == Ok::<NodeView, Seq<char>>(value_tree(value)),
            Err(message) => toml_table(text@) == Err::<NodeView, Seq<char>>(message@),
        },
{
    match toml::from_str::<toml::Table>(text) {
        Ok(table) => Ok(toml::Value::Table(table)),
        Err(error) => Err(error.to_string()),
    }
}

/// The accessors of `toml::Value` for what is not a list (`as_str`,
/// `as_integer`, `is_float`, `as_bool`, `is_datetime`): what they give. Spans and
/// layout are not in it.
#[verifier::external_body]
fn value_leaf(value: &toml::Value) -> (r: Node)
    ensures
        r@ == (NodeView { elements: None, entries: None, ..value_tree(*value) }),
{
    Node {
        span: None, text: value.as_str().map(str::to_owned), integer: value.as_integer(),
        float: value.is_float(), boolean: value.as_bool(), datetime: value.is_datetime(), inline: false,
        elements: None, entries: None, tables: None,
        prefix: None, suffix: None, implicit: false, dotted: false,
    }
}

/// `toml::Value::as_array`: the elements of an array.
#[verifier::external_body]
fn value_items(value: &toml::Value) -> (r: Option<Vec<toml::Value>>)
    ensures
        match (r, value_tree(*value).elements) {
            (Some(items), Some(trees)) => items@.len() == trees.len() && forall|i: int|
                0 <= i < items@.len() ==> value_tree(#[trigger] items@[i]) == trees[i],
            (None, None) => true,
            _ => false,
        },
{
    value.as_array().cloned()
}

/// `toml::Value::as_table`: the keys of a table and their values, in order.
#[verifier::external_body]
fn value_entries(value: &toml::Value) -> (r: Option<Vec<(String, toml::Value)>>)
    ensures
        match (r, value_tree(*value).entries) {
            (Some(items), Some(entries)) => items@.len() == entries.len() && forall|i: int|
                0 <= i < items@.len() ==> entries[i] == (EntryView {
                    key: (#[trigger] items@[i]).0@,
                    key_span: None,
                    node: value_tree(items@[i].1),
                }),
            (None, None) => true,
            _ => false,
        },
{
    value.as_table().map(|table| table.clone().into_iter().collect())
}

/// What a value and the values in it hold.
fn value_node(value: &toml::Value) -> (r: Node)
    ensures
        r@ == value_tree(*value),
    decreases value_tree(*value),
{
    let ghost tree = value_tree(*value);
    let mut node = value_leaf(value);
    let elements = match value_items(value) {
        Some(items) => {
            let ghost all = tree.elements->0;
            let mut r: Vec<Node> = Vec::new();
            let mut i: usize = 0;
            while i < items.len()
                invariant
                    i <= items@.len(),
                    tree == value_tree(*value),
                    tree.elements == Some(all),
                    items@.len() == all.len(),
                    forall|k: int|
                        0 <= k < items@.len() ==> value_tree(#[trigger] items@[k]) == all[k],
                    r@.len() == i,
                    forall|k: int| 0 <= k < i ==> (#[trigger] r@[k])@ == all[k],
                decreases items@.len() - i,
            {
                assert(value_tree(items@[i as int]) == all[i as int]);
                assert(decreases_to!(tree => tree.elements->0[i as int]));
                r.push(value_node(&items[i]));
                i += 1;
            }
            assert(crate::tree::node_views(r@) =~= all);
            Some(r)
        },
        None => None,
    };
    let entries = match value_entries(value) {
        Some(items) => {
            let ghost all = tree.entries->0;
            let mut r: Vec<Entry> = Vec::new();
            let mut i: usize = 0;
            while i < items.len()
                invariant
                    i <= items@.len(),
                    tree == value_tree(*value),
                    tree.entries == Some(all),
                    items@.len() == all.len(),
                    forall|k: int|
                        0 <= k < items@.len() ==> all[k] == (EntryView {
                            key: (#[trigger] items@[k]).0@,
                            key_span: None,
                            node: value_tree(items@[k].1),
                        }),
                    r@.len() == i,
                    forall|k: int| 0 <= k < i ==> (#[trigger] r@[k])@ == all[k],
                decreases items@.len() - i,
            {
                assert(all[i as int].node == value_tree(items@[i as int].1));
                assert(decreases_to!(tree => tree.entries->0[i as int].node));
                let child = value_node(&items[i].1);
                r.push(Entry { key: items[i].0.clone(), key_span: None, node: child });
                i += 1;
            }
            assert(crate::tree::entry_views(r@) =~= all);
            Some(r)
        },
        None => None,
    };
    node.elements = elements;
    node.entries = entries;
    assert(node@ =~= tree);
    node
}

fn read_table(text: &str) -> (r: Result<Node, String>)
    ensures
        match r {
            Ok(node) => toml_table(text@) == Ok::<NodeView, Seq<char>>(node@),
            Err(message) => toml_table(text@) == Err::<NodeView, Seq<char>>(message@),
        },
{
    match parse_table(text) {
        Ok(value) => Ok(value_node(&value)),
        Err(message) => Err(message),
    }
}

// ---------------------------------------------------------------------------
// Reading settings
// ---------------------------------------------------------------------------

/// The first key of a table that is not among those it may have.
pub open spec fn unknown_key(entries: Seq<EntryView>, known: Seq<Seq<char>>) -> Option<Seq<char>>
    decreases entries.len(),
{
    if entries.len() == 0 {
        None
    } else {
        match unknown_key(entries.drop_last(), known) {
            Some(key) => Some(key),
            None => if known.contains(entries.last().key) {
                None
            } else {
                Some(entries.last().key)
            },
        }
    }
}

/// The entries of a table with only known keys.
pub open spec fn known_table(
    node: NodeView,
    name: Seq<char>,
    prefix: Seq<char>,
    known: Seq<Seq<char>>,
) -> Result<(), SettingsErrorView> {
    match node.entries {
        None => Err(SettingsErrorView::Invalid(name)),
        Some(entries) => match unknown_key(entries, known) {
            Some(key) => Err(SettingsErrorView::Unknown(prefix + key)),
            None => Ok(()),
        },
    }
}

pub open spec fn root_keys() -> Seq<Seq<char>> {
    seq!["mise_version"@, "approval"@, "broker"@]
}

pub open spec fn approval_keys() -> Seq<Seq<char>> {
    seq!["dialog"@, "headless"@, "timeout_secs"@, "max_prompts"@, "window_secs"@]
}

pub open spec fn broker_keys() -> Seq<Seq<char>> {
    seq!["port_range"@, "upstream_dns"@]
}

/// What is left of a text behind its leading `v`s.
pub open spec fn without_v(s: Seq<char>) -> Seq<char>
    decreases s.len(),
{
    if s.len() > 0 && s[0] == 'v' {
        without_v(after(s, 1))
    } else {
        s
    }
}

/// Whether a text looks like a version: digits and dots, behind any `v`s.
pub open spec fn is_version(s: Seq<char>) -> bool {
    let digits = without_v(s);
    digits.len() > 0 && forall|i: int|
        0 <= i < digits.len() ==> is_digit(#[trigger] digits[i]) || digits[i] == '.'
}

pub open spec fn mise_version_of(root: NodeView) -> Result<Option<Seq<char>>, SettingsErrorView> {
    match root.get("mise_version"@) {
        None => Ok(None),
        Some(node) => match node.text {
            None => Err(SettingsErrorView::Invalid("mise_version"@)),
            Some(text) => if is_version(text) {
                Ok(Some(text))
            } else {
                Err(SettingsErrorView::MiseVersion(text))
            },
        },
    }
}

pub open spec fn dialog_named(text: Seq<char>) -> Option<DialogSetting> {
    if text == "auto"@ {
        Some(DialogSetting::Auto)
    } else if text == "zenity"@ {
        Some(DialogSetting::Zenity)
    } else if text == "kdialog"@ {
        Some(DialogSetting::Kdialog)
    } else if text == "osascript"@ {
        Some(DialogSetting::Osascript)
    } else if text == "none"@ {
        Some(DialogSetting::Disabled)
    } else {
        None
    }
}

pub open spec fn dialog_of(table: NodeView) -> Result<DialogSetting, SettingsErrorView> {
    match table.get("dialog"@) {
        None => Ok(DialogSetting::Auto),
        Some(node) => match node.text {
            None => Err(SettingsErrorView::Invalid("approval.dialog"@)),
            Some(text) => match dialog_named(text) {
                Some(dialog) => Ok(dialog),
                None => Err(SettingsErrorView::Invalid("approval.dialog"@)),
            },
        },
    }
}

pub open spec fn headless_of(table: NodeView) -> Result<HeadlessFallback, SettingsErrorView> {
    match table.get("headless"@) {
        None => Ok(HeadlessFallback::Deny),
        Some(node) => if node.text == Some("deny"@) {
            Ok(HeadlessFallback::Deny)
        } else if node.text == Some("queue"@) {
            Ok(HeadlessFallback::Queue)
        } else {
            Err(SettingsErrorView::Invalid("approval.headless"@))
        },
    }
}

/// A whole number under a key, at most `max`.
pub open spec fn number_of(
    table: NodeView,
    key: Seq<char>,
    plain: u64,
    max: u64,
) -> Result<u64, SettingsErrorView> {
    match table.get(key) {
        None => Ok(plain),
        Some(node) => match node.integer {
            Some(n) => if 0 <= n && n <= max {
                Ok(n as u64)
            } else {
                Err(SettingsErrorView::Invalid("approval."@ + key))
            },
            None => Err(SettingsErrorView::Invalid("approval."@ + key)),
        },
    }
}

pub open spec fn approval_of(root: NodeView) -> Result<ApprovalSettings, SettingsErrorView> {
    match root.get("approval"@) {
        None => Ok(ApprovalSettings::plain()),
        Some(table) => match known_table(table, "approval"@, "approval."@, approval_keys()) {
            Err(error) => Err(error),
            Ok(_) => match dialog_of(table) {
                Err(error) => Err(error),
                Ok(dialog) => match headless_of(table) {
                    Err(error) => Err(error),
                    Ok(headless) => match number_of(table, "timeout_secs"@, 60, u64::MAX) {
                        Err(error) => Err(error),
                        Ok(timeout_secs) => match number_of(
                            table,
                            "max_prompts"@,
                            20,
                            u32::MAX as u64,
                        ) {
                            Err(error) => Err(error),
                            Ok(max_prompts) => match number_of(
                                table,
                                "window_secs"@,
                                600,
                                u64::MAX,
                            ) {
                                Err(error) => Err(error),
                                Ok(window_secs) => Ok(
                                    ApprovalSettings {
                                        dialog,
                                        headless,
                                        timeout_secs,
                                        max_prompts: max_prompts as u32,
                                        window_secs,
                                    },
                                ),
                            },
                        },
                    },
                },
            },
        },
    }
}

pub open spec fn port_number(node: NodeView) -> Option<u16> {
    match node.integer {
        Some(n) => if 0 <= n && n <= u16::MAX {
            Some(n as u16)
        } else {
            None
        },
        None => None,
    }
}

pub open spec fn port_range_of(table: NodeView) -> Result<(u16, u16), SettingsErrorView> {
    match table.get("port_range"@) {
        None => Ok((40000, 49999)),
        Some(node) => match node.elements {
            None => Err(SettingsErrorView::Invalid("broker.port_range"@)),
            Some(ports) => if ports.len() != 2 {
                Err(SettingsErrorView::Invalid("broker.port_range"@))
            } else {
                match (port_number(ports[0]), port_number(ports[1])) {
                    (Some(first), Some(last)) => Ok((first, last)),
                    _ => Err(SettingsErrorView::Invalid("broker.port_range"@)),
                }
            },
        },
    }
}

/// The texts of a list, if it holds nothing else.
pub open spec fn all_texts(nodes: Seq<NodeView>) -> Option<Seq<Seq<char>>>
    decreases nodes.len(),
{
    if nodes.len() == 0 {
        Some(Seq::empty())
    } else {
        match (all_texts(nodes.drop_last()), nodes.last().text) {
            (Some(rest), Some(text)) => Some(rest.push(text)),
            _ => None,
        }
    }
}

pub open spec fn upstream_dns_of(table: NodeView) -> Result<Seq<Seq<char>>, SettingsErrorView> {
    match table.get("upstream_dns"@) {
        None => Ok(Seq::empty()),
        Some(node) => match node.elements {
            None => Err(SettingsErrorView::Invalid("broker.upstream_dns"@)),
            Some(nodes) => match all_texts(nodes) {
                Some(texts) => Ok(texts),
                None => Err(SettingsErrorView::Invalid("broker.upstream_dns"@)),
            },
        },
    }
}

pub open spec fn broker_of(root: NodeView) -> Result<
    ((u16, u16), Seq<Seq<char>>),
    SettingsErrorView,
> {
    match root.get("broker"@) {
        None => Ok(((40000, 49999), Seq::empty())),
        Some(table) => match known_table(table, "broker"@, "broker."@, broker_keys()) {
            Err(error) => Err(error),
            Ok(_) => match port_range_of(table) {
                Err(error) => Err(error),
                Ok(range) => match upstream_dns_of(table) {
                    Err(error) => Err(error),
                    Ok(upstreams) => Ok((range, upstreams)),
                },
            },
        },
    }
}

/// The settings that a table holds.
pub open spec fn settings_of(root: NodeView) -> Result<SettingsView, SettingsErrorView> {
    match known_table(root, ""@, ""@, root_keys()) {
        Err(error) => Err(error),
        Ok(_) => match mise_version_of(root) {
            Err(error) => Err(error),
            Ok(mise_version) => match approval_of(root) {
                Err(error) => Err(error),
                Ok(approval) => match broker_of(root) {
                    Err(error) => Err(error),
                    Ok((port_range, upstream_dns)) => Ok(
                        SettingsView { mise_version, approval, port_range, upstream_dns },
                    ),
                },
            },
        },
    }
}

fn names(list: &[&str]) -> (r: Vec<String>)
    ensures
        r@.len() == list@.len(),
        forall|i: int| 0 <= i < r@.len() ==> (#[trigger] r@[i])@ == list@[i]@,
{
    let mut r: Vec<String> = Vec::new();
    let mut i: usize = 0;
    while i < list.len()
        invariant
            i <= list@.len(),
            r@.len() == i,
            forall|k: int| 0 <= k < i ==> (#[trigger] r@[k])@ == list@[k]@,
        decreases list@.len() - i,
    {
        r.push(list[i].to_owned());
        i += 1;
    }
    r
}

proof fn lemma_unknown_extends(entries: Seq<EntryView>, n: int, known: Seq<Seq<char>>)
    requires
        0 <= n <= entries.len(),
        unknown_key(entries.subrange(0, n), known) is Some,
    ensures
        unknown_key(entries, known) == unknown_key(entries.subrange(0, n), known),
    decreases entries.len() - n,
{
    if n < entries.len() {
        assert(entries.subrange(0, n + 1).drop_last() =~= entries.subrange(0, n));
        lemma_unknown_extends(entries, n + 1, known);
    } else {
        assert(entries.subrange(0, n) =~= entries);
    }
}

/// Check that a value is a table with only known keys.
fn check_table(node: &Node, name: &str, prefix: &str, known: &Vec<String>) -> (r: Result<
    (),
    SettingsError,
>)
    ensures
        match (r, known_table(node@, name@, prefix@, views(known@))) {
            (Ok(_), Ok(_)) => true,
            (Err(error), Err(expected)) => error@ == expected,
            _ => false,
        },
{
    let entries = match &node.entries {
        Some(entries) => entries,
        None => {
            return Err(SettingsError::Invalid(name.to_owned()));
        },
    };
    let ghost ev = entry_views(entries@);
    let mut i: usize = 0;
    assert(ev.subrange(0, 0) =~= Seq::empty());
    while i < entries.len()
        invariant
            i <= entries@.len(),
            ev == entry_views(entries@),
            node@.entries == Some(ev),
            unknown_key(ev.subrange(0, i as int), views(known@)) is None,
        decreases entries@.len() - i,
    {
        assert(ev.subrange(0, i + 1).drop_last() =~= ev.subrange(0, i as int));
        assert(ev.subrange(0, i + 1).last() == entries@[i as int]@);
        let key = entries[i].key.as_str();
        if !crate::broker::bindings::has_name(known, key) {
            proof {
                lemma_unknown_extends(ev, i + 1, views(known@));
            }
            return Err(SettingsError::Unknown(concat(prefix, key)));
        }
        i += 1;
    }
    assert(ev.subrange(0, ev.len() as int) =~= ev);
    Ok(())
}

/// A text behind its leading `v`s.
pub fn strip_v(text: &str) -> (r: String)
    ensures
        r@ == without_v(text@),
{
    let v = chars(text);
    let mut from: usize = 0;
    assert(after(text@, 0) =~= text@);
    while from < v.len() && v[from] == 'v'
        invariant
            from <= v@.len(),
            v@ == text@,
            without_v(text@) == without_v(after(text@, from as int)),
        decreases v@.len() - from,
    {
        assert(after(after(text@, from as int), 1) =~= after(text@, from + 1));
        from += 1;
    }
    string_of(&v, from, v.len())
}

fn looks_like_version(text: &str) -> (r: bool)
    ensures
        r == is_version(text@),
{
    let digits = strip_v(text);
    let v = chars(digits.as_str());
    if v.len() == 0 {
        return false;
    }
    let mut i: usize = 0;
    while i < v.len()
        invariant
            i <= v@.len(),
            v@ == without_v(text@),
            forall|k: int| 0 <= k < i ==> is_digit(#[trigger] v@[k]) || v@[k] == '.',
        decreases v@.len() - i,
    {
        if !is_digit_char(v[i]) && v[i] != '.' {
            return false;
        }
        i += 1;
    }
    true
}

fn read_mise_version(root: &Node) -> (r: Result<Option<String>, SettingsError>)
    ensures
        match (r, mise_version_of(root@)) {
            (Ok(value), Ok(expected)) => opt_view(value) == expected,
            (Err(error), Err(expected)) => error@ == expected,
            _ => false,
        },
{
    match root.get("mise_version") {
        None => Ok(None),
        Some(node) => match &node.text {
            None => Err(SettingsError::Invalid("mise_version".to_owned())),
            Some(text) => if looks_like_version(text.as_str()) {
                Ok(Some(text.clone()))
            } else {
                Err(SettingsError::MiseVersion(text.clone()))
            },
        },
    }
}

fn read_dialog(table: &Node) -> (r: Result<DialogSetting, SettingsError>)
    ensures
        match (r, dialog_of(table@)) {
            (Ok(value), Ok(expected)) => value == expected,
            (Err(error), Err(expected)) => error@ == expected,
            _ => false,
        },
{
    let text = match table.get("dialog") {
        None => {
            return Ok(DialogSetting::Auto);
        },
        Some(node) => match &node.text {
            None => {
                return Err(SettingsError::Invalid("approval.dialog".to_owned()));
            },
            Some(text) => text.as_str(),
        },
    };
    if same(text, "auto") {
        Ok(DialogSetting::Auto)
    } else if same(text, "zenity") {
        Ok(DialogSetting::Zenity)
    } else if same(text, "kdialog") {
        Ok(DialogSetting::Kdialog)
    } else if same(text, "osascript") {
        Ok(DialogSetting::Osascript)
    } else if same(text, "none") {
        Ok(DialogSetting::Disabled)
    } else {
        Err(SettingsError::Invalid("approval.dialog".to_owned()))
    }
}

fn read_headless(table: &Node) -> (r: Result<HeadlessFallback, SettingsError>)
    ensures
        match (r, headless_of(table@)) {
            (Ok(value), Ok(expected)) => value == expected,
            (Err(error), Err(expected)) => error@ == expected,
            _ => false,
        },
{
    proof {
        reveal_strlit("deny");
        reveal_strlit("queue");
        assert("deny"@.len() != "queue"@.len());
    }
    match table.get("headless") {
        None => Ok(HeadlessFallback::Deny),
        Some(node) => match &node.text {
            None => Err(SettingsError::Invalid("approval.headless".to_owned())),
            Some(text) => if same(text.as_str(), "deny") {
                Ok(HeadlessFallback::Deny)
            } else if same(text.as_str(), "queue") {
                Ok(HeadlessFallback::Queue)
            } else {
                Err(SettingsError::Invalid("approval.headless".to_owned()))
            },
        },
    }
}

fn read_number(table: &Node, key: &str, plain: u64, max: u64) -> (r: Result<u64, SettingsError>)
    ensures
        match (r, number_of(table@, key@, plain, max)) {
            (Ok(value), Ok(expected)) => value == expected,
            (Err(error), Err(expected)) => error@ == expected,
            _ => false,
        },
{
    match table.get(key) {
        None => Ok(plain),
        Some(node) => match node.integer {
            Some(n) => if n >= 0 && n as u64 <= max {
                Ok(n as u64)
            } else {
                Err(SettingsError::Invalid(concat("approval.", key)))
            },
            None => Err(SettingsError::Invalid(concat("approval.", key))),
        },
    }
}

fn read_approval(root: &Node) -> (r: Result<ApprovalSettings, SettingsError>)
    ensures
        match (r, approval_of(root@)) {
            (Ok(value), Ok(expected)) => value == expected,
            (Err(error), Err(expected)) => error@ == expected,
            _ => false,
        },
{
    let table = match root.get("approval") {
        None => {
            return Ok(ApprovalSettings::default());
        },
        Some(table) => table,
    };
    let known = names(&["dialog", "headless", "timeout_secs", "max_prompts", "window_secs"]);
    assert(views(known@) =~= approval_keys());
    if let Err(error) = check_table(table, "approval", "approval.", &known) {
        return Err(error);
    }
    let dialog = match read_dialog(table) {
        Ok(dialog) => dialog,
        Err(error) => {
            return Err(error);
        },
    };
    let headless = match read_headless(table) {
        Ok(headless) => headless,
        Err(error) => {
            return Err(error);
        },
    };
    let timeout_secs: u64 = match read_number(table, "timeout_secs", 60, u64::MAX) {
        Ok(n) => n,
        Err(error) => {
            return Err(error);
        },
    };
    let max_prompts: u64 = match read_number(table, "max_prompts", 20, u32::MAX as u64) {
        Ok(n) => n,
        Err(error) => {
            return Err(error);
        },
    };
    let window_secs: u64 = match read_number(table, "window_secs", 600, u64::MAX) {
        Ok(n) => n,
        Err(error) => {
            return Err(error);
        },
    };
    Ok(
        ApprovalSettings {
            dialog,
            headless,
            timeout_secs,
            max_prompts: max_prompts as u32,
            window_secs,
        },
    )
}

fn read_port(node: &Node) -> (r: Option<u16>)
    ensures
        r == port_number(node@),
{
    match node.integer {
        Some(n) => if n >= 0 && n <= u16::MAX as i64 {
            Some(n as u16)
        } else {
            None
        },
        None => None,
    }
}

fn read_port_range(table: &Node) -> (r: Result<(u16, u16), SettingsError>)
    ensures
        match (r, port_range_of(table@)) {
            (Ok(value), Ok(expected)) => value == expected,
            (Err(error), Err(expected)) => error@ == expected,
            _ => false,
        },
{
    match table.get("port_range") {
        None => Ok((40000, 49999)),
        Some(node) => {
            if let Some(ports) = &node.elements {
                assert(node_views(ports@) == node@.elements->0);
                if ports.len() == 2 {
                    assert(node@.elements->0[0] == ports@[0]@);
                    assert(node@.elements->0[1] == ports@[1]@);
                    if let (Some(first), Some(last)) = (read_port(&ports[0]), read_port(&ports[1])) {
                        return Ok((first, last));
                    }
                }
            }
            Err(SettingsError::Invalid("broker.port_range".to_owned()))
        },
    }
}

proof fn lemma_all_texts_fails(nodes: Seq<NodeView>, n: int)
    requires
        0 <= n <= nodes.len(),
        all_texts(nodes.subrange(0, n)) is None,
    ensures
        all_texts(nodes) is None,
    decreases nodes.len() - n,
{
    if n < nodes.len() {
        assert(nodes.subrange(0, n + 1).drop_last() =~= nodes.subrange(0, n));
        lemma_all_texts_fails(nodes, n + 1);
    } else {
        assert(nodes.subrange(0, n) =~= nodes);
    }
}

fn read_texts(nodes: &Vec<Node>) -> (r: Option<Vec<String>>)
    ensures
        match (r, all_texts(node_views(nodes@))) {
            (Some(texts), Some(expected)) => views(texts@) == expected,
            (None, None) => true,
            _ => false,
        },
{
    let ghost nv = node_views(nodes@);
    let mut texts: Vec<String> = Vec::new();
    assert(views(texts@) =~= Seq::empty());
    let mut i: usize = 0;
    assert(nv.subrange(0, 0) =~= Seq::empty());
    while i < nodes.len()
        invariant
            i <= nodes@.len(),
            nv == node_views(nodes@),
            all_texts(nv.subrange(0, i as int)) == Some(views(texts@)),
        decreases nodes@.len() - i,
    {
        assert(nv.subrange(0, i + 1).drop_last() =~= nv.subrange(0, i as int));
        assert(nv.subrange(0, i + 1).last() == nodes@[i as int]@);
        match &nodes[i].text {
            Some(text) => {
                let ghost done = views(texts@);
                texts.push(text.clone());
                assert(views(texts@) =~= done.push(text@));
            },
            None => {
                proof {
                    lemma_all_texts_fails(nv, i + 1);
                }
                return None;
            },
        }
        i += 1;
    }
    assert(nv.subrange(0, nv.len() as int) =~= nv);
    Some(texts)
}

fn read_upstream_dns(table: &Node) -> (r: Result<Vec<String>, SettingsError>)
    ensures
        match (r, upstream_dns_of(table@)) {
            (Ok(value), Ok(expected)) => views(value@) == expected,
            (Err(error), Err(expected)) => error@ == expected,
            _ => false,
        },
{
    match table.get("upstream_dns") {
        None => {
            let none: Vec<String> = Vec::new();
            assert(views(none@) =~= Seq::empty());
            Ok(none)
        },
        Some(node) => {
            if let Some(nodes) = &node.elements {
                if let Some(texts) = read_texts(nodes) {
                    return Ok(texts);
                }
            }
            Err(SettingsError::Invalid("broker.upstream_dns".to_owned()))
        },
    }
}

fn read_broker(root: &Node) -> (r: Result<BrokerSettings, SettingsError>)
    ensures
        match (r, broker_of(root@)) {
            (Ok(value), Ok(expected)) => (value.port_range, views(value.upstream_dns@)) == expected,
            (Err(error), Err(expected)) => error@ == expected,
            _ => false,
        },
{
    let table = match root.get("broker") {
        None => {
            let none: Vec<String> = Vec::new();
            assert(views(none@) =~= Seq::empty());
            return Ok(BrokerSettings { port_range: (40000, 49999), upstream_dns: none });
        },
        Some(table) => table,
    };
    let known = names(&["port_range", "upstream_dns"]);
    assert(views(known@) =~= broker_keys());
    if let Err(error) = check_table(table, "broker", "broker.", &known) {
        return Err(error);
    }
    let port_range = match read_port_range(table) {
        Ok(port_range) => port_range,
        Err(error) => {
            return Err(error);
        },
    };
    match read_upstream_dns(table) {
        Ok(upstream_dns) => Ok(BrokerSettings { port_range, upstream_dns }),
        Err(error) => Err(error),
    }
}

/// What reading settings gives, by its contents.
pub open spec fn reads_settings(
    r: Result<Settings, SettingsError>,
    expected: Result<SettingsView, SettingsErrorView>,
) -> bool {
    match (r, expected) {
        (Ok(settings), Ok(expected)) => settings@ == expected,
        (Err(error), Err(expected)) => error@ == expected,
        _ => false,
    }
}

impl Settings {
    /// Read settings from a table.
    pub fn from_tree(root: &Node) -> (r: Result<Self, SettingsError>)
        ensures
            reads_settings(r, settings_of(root@)),
    {
        let known = names(&["mise_version", "approval", "broker"]);
        assert(views(known@) =~= root_keys());
        if let Err(error) = check_table(root, "", "", &known) {
            return Err(error);
        }
        let mise_version = match read_mise_version(root) {
            Ok(mise_version) => mise_version,
            Err(error) => {
                return Err(error);
            },
        };
        let approval = match read_approval(root) {
            Ok(approval) => approval,
            Err(error) => {
                return Err(error);
            },
        };
        match read_broker(root) {
            Ok(broker) => Ok(Settings { mise_version, approval, broker }),
            Err(error) => Err(error),
        }
    }

    /// Read the text of the settings file.
    pub fn parse(text: &str) -> (r: Result<Self, SettingsError>)
        ensures
            match toml_table(text@) {
                Err(message) => r matches Err(error) && error@ == SettingsErrorView::Syntax(
                    message,
                ),
                Ok(root) => reads_settings(r, settings_of(root)),
            },
    {
        match read_table(text) {
            Ok(root) => Settings::from_tree(&root),
            Err(message) => Err(SettingsError::Syntax(message)),
        }
    }
}

// ---------------------------------------------------------------------------
// Laws
// ---------------------------------------------------------------------------

/// The first key that is not known is reported, and none where all are known.
pub proof fn law_the_first_unknown_key_is_reported(
    entries: Seq<EntryView>,
    known: Seq<Seq<char>>,
)
    ensures
        match unknown_key(entries, known) {
            None => forall|i: int|
                0 <= i < entries.len() ==> known.contains((#[trigger] entries[i]).key),
            Some(key) => exists|i: int|
                0 <= i < entries.len() && (#[trigger] entries[i]).key == key && !known.contains(key)
                    && forall|j: int|
                    0 <= j < i ==> known.contains((#[trigger] entries[j]).key),
        },
    decreases entries.len(),
{
    if entries.len() > 0 {
        let rest = entries.drop_last();
        let n = rest.len() as int;
        law_the_first_unknown_key_is_reported(rest, known);
        assert(entries[n] == entries.last());
        match unknown_key(rest, known) {
            None => {
                assert forall|i: int| 0 <= i < n implies known.contains(
                    (#[trigger] entries[i]).key,
                ) by {
                    assert(rest[i] == entries[i]);
                }
            },
            Some(key) => {
                let i = choose|i: int|
                    0 <= i < rest.len() && (#[trigger] rest[i]).key == key && !known.contains(key)
                        && forall|j: int|
                        0 <= j < i ==> known.contains((#[trigger] rest[j]).key);
                assert(entries[i] == rest[i]);
                assert forall|j: int| 0 <= j < i implies known.contains(
                    (#[trigger] entries[j]).key,
                ) by {
                    assert(rest[j] == entries[j]);
                }
            },
        }
    }
}

/// Each setting is what is written, where it is in order, and its default where nothing
/// is; anything else is refused with its name.
pub proof fn law_settings_are_read(root: NodeView, table: NodeView, n: i64, key: Seq<char>)
    ensures
        settings_of(root) matches Ok(settings) ==> {
            &&& settings.mise_version == match root.get("mise_version"@) {
                Some(node) => node.text,
                None => None,
            }
            &&& root.get("approval"@) is None ==> settings.approval == (ApprovalSettings {
                dialog: DialogSetting::Auto,
                headless: HeadlessFallback::Deny,
                timeout_secs: 60,
                max_prompts: 20,
                window_secs: 600,
            })
            &&& root.get("broker"@) is None ==> settings.port_range == (40000u16, 49999u16)
                && settings.upstream_dns.len() == 0
            &&& root.get("approval"@) matches Some(table) ==> {
                &&& numbers_read(table, "timeout_secs"@, 60, settings.approval.timeout_secs as int)
                &&& numbers_read(table, "max_prompts"@, 20, settings.approval.max_prompts as int)
                &&& numbers_read(table, "window_secs"@, 600, settings.approval.window_secs as int)
                &&& dialog_of(table) == Ok::<DialogSetting, SettingsErrorView>(
                    settings.approval.dialog,
                )
                &&& headless_of(table) == Ok::<HeadlessFallback, SettingsErrorView>(
                    settings.approval.headless,
                )
            }
            &&& root.get("broker"@) matches Some(table) ==> {
                &&& port_range_of(table) == Ok::<(u16, u16), SettingsErrorView>(settings.port_range)
                &&& upstream_dns_of(table) == Ok::<Seq<Seq<char>>, SettingsErrorView>(
                    settings.upstream_dns,
                )
            }
        },
        headless_of(table) == Ok::<HeadlessFallback, SettingsErrorView>(HeadlessFallback::Queue)
            <==> (table.get("headless"@) matches Some(node) && node.text == Some("queue"@)),
        headless_of(table) == Ok::<HeadlessFallback, SettingsErrorView>(HeadlessFallback::Deny)
            <==> (table.get("headless"@) matches Some(node) ==> node.text == Some("deny"@)),
{
    reveal_strlit("queue");
    reveal_strlit("deny");
    assert("queue"@.len() != "deny"@.len());
}

/// Whether a number is what a table says, or its default.
pub open spec fn numbers_read(table: NodeView, key: Seq<char>, plain: int, value: int) -> bool {
    match table.get(key) {
        None => value == plain,
        Some(node) => node.integer matches Some(n) && value == n,
    }
}

/// The ways to ask are named by their words.
pub proof fn law_dialogs_are_named(text: Seq<char>)
    ensures
        dialog_named("auto"@) == Some(DialogSetting::Auto),
        dialog_named("zenity"@) == Some(DialogSetting::Zenity),
        dialog_named("kdialog"@) == Some(DialogSetting::Kdialog),
        dialog_named("osascript"@) == Some(DialogSetting::Osascript),
        dialog_named("none"@) == Some(DialogSetting::Disabled),
        dialog_named(text) is Some ==> text == "auto"@ || text == "zenity"@ || text == "kdialog"@
            || text == "osascript"@ || text == "none"@,
{
    reveal_strlit("auto");
    reveal_strlit("zenity");
    reveal_strlit("kdialog");
    reveal_strlit("osascript");
    reveal_strlit("none");
    assert("auto"@[0] == 'a' && "zenity"@[0] == 'z' && "kdialog"@[0] == 'k' && "osascript"@[0]
        == 'o' && "none"@[0] == 'n');
}

/// A range of ports is two numbers that fit a port; the resolvers are texts, all of them.
pub proof fn law_ranges_and_resolvers_are_read(table: NodeView, first: u16, last: u16)
    ensures
        port_range_of(table) == Ok::<(u16, u16), SettingsErrorView>((first, last)) <==> match table.get(
            "port_range"@,
        ) {
            None => first == 40000 && last == 49999,
            Some(node) => node.elements matches Some(ports) && ports.len() == 2
                && ports[0].integer == Some(first as i64) && ports[1].integer == Some(last as i64),
        },
        upstream_dns_of(table) matches Ok(texts) ==> match table.get("upstream_dns"@) {
            None => texts.len() == 0,
            Some(node) => node.elements matches Some(nodes) && texts.len() == nodes.len()
                && forall|i: int|
                0 <= i < nodes.len() ==> (#[trigger] nodes[i]).text == Some(texts[i]),
        },
        upstream_dns_of(table) is Err ==> (table.get("upstream_dns"@) matches Some(node) && (
        node.elements matches Some(nodes) ==> exists|i: int|
            0 <= i < nodes.len() && (#[trigger] nodes[i]).text is None)),
{
    if let Some(node) = table.get("upstream_dns"@) {
        if let Some(nodes) = node.elements {
            lemma_all_texts_read(nodes);
        }
    }
}

proof fn lemma_all_texts_read(nodes: Seq<NodeView>)
    ensures
        all_texts(nodes) matches Some(texts) ==> texts.len() == nodes.len() && forall|i: int|
            0 <= i < nodes.len() ==> (#[trigger] nodes[i]).text == Some(texts[i]),
        all_texts(nodes) is None ==> exists|i: int|
            0 <= i < nodes.len() && (#[trigger] nodes[i]).text is None,
    decreases nodes.len(),
{
    if nodes.len() > 0 {
        let rest = nodes.drop_last();
        let n = rest.len() as int;
        lemma_all_texts_read(rest);
        assert(nodes[n] == nodes.last());
        if all_texts(rest) is None {
            let i = choose|i: int| 0 <= i < rest.len() && (#[trigger] rest[i]).text is None;
            assert(nodes[i] == rest[i]);
        }
        if let Some(texts) = all_texts(nodes) {
            assert forall|i: int| 0 <= i < nodes.len() implies (#[trigger] nodes[i]).text == Some(
                texts[i],
            ) by {
                if i < n {
                    assert(rest[i] == nodes[i]);
                }
            }
        }
    }
}

/// A version is digits and dots, behind any `v`s.
pub proof fn law_versions(text: Seq<char>)
    requires
        text.len() == 0 || text[0] != 'v',
    ensures
        without_v(text) == text,
        without_v(seq!['v'] + text) == text,
        is_version(text) <==> text.len() > 0 && forall|i: int|
            0 <= i < text.len() ==> ('0' <= #[trigger] text[i] <= '9' || text[i] == '.'),
        is_version(seq!['v'] + text) <==> is_version(text),
{
    assert(after(seq!['v'] + text, 1) =~= text);
    reveal_with_fuel(without_v, 3);
}

/// Seconds are counted in nanoseconds, as far as they fit.
pub proof fn law_seconds(secs: u64)
    ensures
        secs <= 18_446_744_073 ==> seconds(secs) == secs * 1_000_000_000,
        secs > 18_446_744_073 ==> seconds(secs) == 0xffff_ffff_ffff_ffff,
{
}

} // verus!
