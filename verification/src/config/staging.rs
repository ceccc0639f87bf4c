//! Host files that mise's `[dotfiles]`, `[bootstrap.files]` and
//! `[bootstrap.directories]` entries reference, and where they land in the guest.
//!
//! Only the kitchen file reaches the guest (as `/opt/kitchen/mise.toml`), so
//! every `source` in it would otherwise dangle. This module decides which host
//! paths to copy and rewrites each `source` to the absolute guest path of its
//! copy; [`crate::sandbox::staging`] says what is copied.
//!
//! **How mise resolves a `source`**:
//!
//! - mise honours `[dotfiles]` and `[bootstrap.files]` in a *system* config.
//! - A relative `source` resolves against the directory holding the **declaring
//!   file**, not against mise's `config_root`. So `base` here is the kitchen
//!   *file's* directory, and [`super::discover::project_dir`]'s result is used
//!   only to tell project-local sources from outside ones.
//! - An absolute `source` is used verbatim. That is what makes rewriting to
//!   absolute guest paths sufficient.
//!
//! Rewriting every source, rather than only the ones that escape the project,
//! means the guest never depends on how mise derives `config_root` for a system
//! config, and a source we resolved wrongly fails at `validate` time with "host
//! path does not exist" instead of dangling silently in the guest.

use vstd::prelude::*;
use vstd::utf8::encode_utf8;

use crate::broker::bindings::{clone_names, same_names};
use crate::config::schema::{host_path, opt_str, resolve_host_path};
use crate::config::walker::{error, indexed, located, no_issues, report, text_at, Issue, IssueView};
use crate::config::{Diagnostics, Severity, Source};
use crate::digest::{short_digest, short_hash};
use crate::paths::{lemma_path_order, path_before, path_lt, path_parts, take_apart, Parts, PathView};
use crate::text::{concat, concat3, concat4, concat5, join, join_with, push_decimal, same, views};
use crate::tree::{
    entry_views, node_views, opt_node, read_tree, toml_document, EntryView, Node, NodeView, Span,
};

verus! {

// ---------------------------------------------------------------------------
// Constants
// ---------------------------------------------------------------------------

/// Guest directory holding every staged source. Replaceable without touching
/// `/opt/kitchen/mise.toml`, which is mise's system config.
pub const GUEST_FILES_DIR: &'static str = "/opt/kitchen/files";

// ---------------------------------------------------------------------------
// Types
// ---------------------------------------------------------------------------

/// Everything the guest needs from the host filesystem, and the rewrites that
/// point the guest config at it.
#[derive(Debug, PartialEq, Eq)]
pub struct StagePlan {
    pub sources: Vec<StagedSource>,
    pub rewrites: Vec<Rewrite>,
}

/// One host path copied into the guest.
#[derive(Debug, PartialEq, Eq)]
pub struct StagedSource {
    /// Absolute, lexically normalized host path. Never holds glob characters:
    /// a pattern is staged by its literal prefix.
    pub host: String,
    /// Absolute guest path of the copy.
    pub guest: String,
    /// The entry that referenced it, for diagnostics: `dotfiles."~/.gitconfig"`.
    pub key: String,
    /// Span of the value in the kitchen file.
    pub span: Option<Span>,
    /// `exclude` patterns, applied on the host as well so excluded files never
    /// leave it. The key stays in the guest config; applying it twice is
    /// idempotent.
    pub exclude: Vec<String>,
    /// `manifest = "git"`: only files in git's index are copied. Resolved on
    /// the host, because the staged copy has no `.git` (see [`Rewrite`]).
    pub git_manifest: bool,
    /// The host path is not under the kitchen directory.
    pub outside: bool,
    /// Set from `[_.microkitchen] dotfiles`, not from a mise entry.
    pub dotfiles_root: bool,
}

/// A [`StagedSource`] by its contents.
#[verifier::ext_equal]
pub struct SourceView {
    pub host: Seq<char>,
    pub guest: Seq<char>,
    pub key: Seq<char>,
    pub span: Option<Span>,
    pub exclude: Seq<Seq<char>>,
    pub git_manifest: bool,
    pub outside: bool,
    pub dotfiles_root: bool,
}

/// One value of the guest config to replace, addressed by TOML path.
#[derive(Debug, PartialEq, Eq)]
pub struct Rewrite {
    pub path: Vec<Step>,
    pub action: RewriteAction,
}

/// A [`Rewrite`] by its contents.
#[verifier::ext_equal]
pub struct RewriteView {
    pub path: Seq<StepView>,
    pub action: ActionView,
}

/// One hop of a [`Rewrite`]'s path.
#[derive(Debug, PartialEq, Eq)]
pub enum Step {
    Key(String),
    Index(usize),
}

/// A [`Step`] by its contents.
pub enum StepView {
    Key(Seq<char>),
    Index(usize),
}

#[derive(Debug, PartialEq, Eq)]
pub enum RewriteAction {
    /// Replace the value in place.
    Replace(String),
    /// Create the key and any missing parents, then set it.
    Ensure(String),
    /// Drop the key: `manifest = "git"`, which is applied on the host instead.
    Remove,
}

/// A [`RewriteAction`] by its contents.
pub enum ActionView {
    Replace(Seq<char>),
    Ensure(Seq<char>),
    Remove,
}

impl View for StagedSource {
    type V = SourceView;

    open spec fn view(&self) -> SourceView {
        SourceView {
            host: self.host@,
            guest: self.guest@,
            key: self.key@,
            span: self.span,
            exclude: views(self.exclude@),
            git_manifest: self.git_manifest,
            outside: self.outside,
            dotfiles_root: self.dotfiles_root,
        }
    }
}

impl View for Step {
    type V = StepView;

    open spec fn view(&self) -> StepView {
        match self {
            Step::Key(key) => StepView::Key(key@),
            Step::Index(index) => StepView::Index(*index),
        }
    }
}

impl View for RewriteAction {
    type V = ActionView;

    open spec fn view(&self) -> ActionView {
        match self {
            RewriteAction::Replace(text) => ActionView::Replace(text@),
            RewriteAction::Ensure(text) => ActionView::Ensure(text@),
            RewriteAction::Remove => ActionView::Remove,
        }
    }
}

impl View for Rewrite {
    type V = RewriteView;

    open spec fn view(&self) -> RewriteView {
        RewriteView { path: views(self.path@), action: self.action@ }
    }
}

impl Default for StagePlan {
    fn default() -> (r: Self)
        ensures
            views(r.sources@) == Seq::<SourceView>::empty(),
            views(r.rewrites@) == Seq::<RewriteView>::empty(),
    {
        let r = StagePlan { sources: Vec::new(), rewrites: Vec::new() };
        assert(views(r.sources@) =~= Seq::<SourceView>::empty());
        assert(views(r.rewrites@) =~= Seq::<RewriteView>::empty());
        r
    }
}

impl StagePlan {
    pub fn is_empty(&self) -> (r: bool)
        ensures
            r == (self.sources@.len() == 0),
    {
        self.sources.len() == 0
    }
}

impl Clone for Step {
    fn clone(&self) -> (r: Self)
        ensures
            r@ == self@,
    {
        match self {
            Step::Key(key) => Step::Key(key.clone()),
            Step::Index(index) => Step::Index(*index),
        }
    }
}

// ---------------------------------------------------------------------------
// Guest paths
// ---------------------------------------------------------------------------

/// What is left of a path below a directory that holds it.
pub open spec fn below(path: PathView, dir: PathView) -> Seq<Seq<char>> {
    path.names.subrange(dir.names.len() as int, path.names.len() as int)
}

/// Where a host path lands in the guest, and whether it came from outside the
/// project.
pub open spec fn guest_of(host: PathView, kitchen: PathView) -> (Seq<char>, bool) {
    if host.within(kitchen) && host.names.len() > kitchen.names.len() {
        (GUEST_FILES_DIR@ + "/project/"@ + join(below(host, kitchen), "/"@), false)
    } else {
        let name = match host.file_name() {
            Some(name) => name,
            None => "root"@,
        };
        let anchor = match host.parent() {
            Some(parent) => parent.text(),
            None => "/"@,
        };
        (GUEST_FILES_DIR@ + "/"@ + short_hash(encode_utf8(anchor), 4) + "/"@ + name, true)
    }
}

/// Where a host path lands in the guest, and whether it came from outside the
/// project: `<files>/project/<relative>` for a path under `kitchen_dir`,
/// `<files>/<hash>/<name>` otherwise.
///
/// Outside paths are grouped by the directory holding them, so several sources
/// from one host directory share a staged directory and the hash does not
/// change when a sibling is added. The hash keeps host usernames and directory
/// layout out of the guest, as the guest copy of the kitchen file already keeps
/// `_.path` and `_.file` out. Both paths are read name by name: `a//b` and
/// `a/./b` land where `a/b` does.
pub fn guest_path(host: &str, kitchen_dir: &str) -> (r: (String, bool))
    ensures
        r.0@ == guest_of(path_parts(host@), path_parts(kitchen_dir@)).0,
        r.1 == guest_of(path_parts(host@), path_parts(kitchen_dir@)).1,
{
    let path = take_apart(host);
    let kitchen = take_apart(kitchen_dir);
    if path.is_within(&kitchen) && path.names.len() > kitchen.names.len() {
        let mut names = clone_names(&path.names);
        let ghost all = views(names@);
        let rest = names.split_off(kitchen.names.len());
        assert(views(rest@) =~= all.subrange(kitchen.names@.len() as int, all.len() as int));
        let relative = join_with(&rest, "/");
        return (concat3(GUEST_FILES_DIR, "/project/", relative.as_str()), false);
    }
    let name = match path.file_name() {
        Some(name) => name,
        None => "root",
    };
    let anchor = match path.parent() {
        Some(parent) => parent.text(),
        None => "/".to_owned(),
    };
    let hash = short_digest(anchor.as_str().as_bytes(), 4);
    (concat5(GUEST_FILES_DIR, "/", hash.as_str(), "/", name), true)
}

// ---------------------------------------------------------------------------
// Patterns
// ---------------------------------------------------------------------------

/// Characters that make a `source` a glob pattern rather than a literal path.
pub open spec fn is_glob(name: Seq<char>) -> bool {
    name.contains('*') || name.contains('?') || name.contains('[')
}

/// How many names come before the first pattern.
pub open spec fn literal_names(names: Seq<Seq<char>>, from: int) -> int
    decreases names.len() - from,
{
    if 0 <= from < names.len() && !is_glob(names[from]) {
        literal_names(names, from + 1)
    } else {
        from
    }
}

pub proof fn lemma_literal_names(names: Seq<Seq<char>>, from: int)
    requires
        0 <= from <= names.len(),
    ensures
        from <= literal_names(names, from) <= names.len(),
        forall|i: int| from <= i < literal_names(names, from) ==> !is_glob(#[trigger] names[i]),
    decreases names.len() - from,
{
    if from < names.len() && !is_glob(names[from]) {
        lemma_literal_names(names, from + 1);
    }
}

/// A path's longest prefix without glob characters, and the rest.
pub open spec fn glob_split(path: PathView) -> (Seq<char>, Option<Seq<char>>) {
    let n = literal_names(path.names, 0);
    let prefix = PathView { absolute: path.absolute, names: path.names.subrange(0, n) };
    if n == path.names.len() {
        (prefix.text(), None)
    } else {
        (
            if !path.absolute && n == 0 {
                "/"@
            } else {
                prefix.text()
            },
            Some(join(path.names.subrange(n, path.names.len() as int), "/"@)),
        )
    }
}

fn has_glob(name: &str) -> (r: bool)
    ensures
        r == is_glob(name@),
{
    crate::text::contains_char(name, '*') || crate::text::contains_char(name, '?')
        || crate::text::contains_char(name, '[')
}

/// Split a path into the longest prefix without glob characters and the rest.
///
/// A pattern in the first component would leave no directory to stage; the
/// prefix is then the root.
pub fn split_glob(path: &str) -> (r: (String, Option<String>))
    ensures
        r.0@ == glob_split(path_parts(path@)).0,
        crate::text::opt_view(r.1) == glob_split(path_parts(path@)).1,
{
    let parts = take_apart(path);
    let absolute = parts.absolute;
    let mut names = parts.names;
    let ghost nv = views(names@);
    let mut n: usize = 0;
    while n < names.len() && !has_glob(names[n].as_str())
        invariant
            n <= names@.len(),
            nv == views(names@),
            literal_names(nv, 0) == literal_names(nv, n as int),
        decreases names@.len() - n,
    {
        n += 1;
    }
    let rest = names.split_off(n);
    assert(views(names@) =~= nv.subrange(0, n as int));
    assert(views(rest@) =~= nv.subrange(n as int, nv.len() as int));
    let prefix = Parts { absolute, names };
    if rest.len() == 0 {
        (prefix.text(), None)
    } else if !absolute && n == 0 {
        ("/".to_owned(), Some(join_with(&rest, "/")))
    } else {
        (prefix.text(), Some(join_with(&rest, "/")))
    }
}

// ---------------------------------------------------------------------------
// Collecting
// ---------------------------------------------------------------------------

/// What is collected so far.
#[verifier::ext_equal]
pub struct Collected {
    pub sources: Seq<SourceView>,
    pub rewrites: Seq<RewriteView>,
    pub issues: Seq<IssueView>,
}

/// Where paths of the kitchen file are resolved.
#[verifier::ext_equal]
pub struct Bases {
    /// Directory relative sources resolve against: the kitchen file's own.
    pub base: Seq<char>,
    /// Project directory, for the inside/outside split only.
    pub kitchen: Seq<char>,
    pub home: Option<Seq<char>>,
}

/// A reference to a source, as an entry writes it.
#[verifier::ext_equal]
pub struct Mention {
    pub text: Seq<char>,
    pub key: Seq<char>,
    pub span: Option<Span>,
    pub exclude: Seq<Seq<char>>,
    pub git_manifest: bool,
    pub dotfiles_root: bool,
}

/// The first source with a host path.
pub open spec fn source_index(sources: Seq<SourceView>, host: Seq<char>, from: int) -> Option<int>
    decreases sources.len() - from,
{
    if from < 0 || from >= sources.len() {
        None
    } else if sources[from].host == host {
        Some(from)
    } else {
        source_index(sources, host, from + 1)
    }
}

/// The first source with a guest path.
pub open spec fn guest_index(sources: Seq<SourceView>, guest: Seq<char>, from: int) -> Option<int>
    decreases sources.len() - from,
{
    if from < 0 || from >= sources.len() {
        None
    } else if sources[from].guest == guest {
        Some(from)
    } else {
        guest_index(sources, guest, from + 1)
    }
}

/// A source that one more entry mentions: one copy, which takes in what either
/// entry needs.
pub open spec fn mentioned_again(source: SourceView, m: Mention) -> SourceView {
    SourceView {
        dotfiles_root: source.dotfiles_root || m.dotfiles_root,
        exclude: if source.exclude == m.exclude {
            source.exclude
        } else {
            Seq::empty()
        },
        git_manifest: source.git_manifest && m.git_manifest,
        ..source
    }
}

/// The guest path that a value is rewritten to: the copy, and the pattern in it.
pub open spec fn rewritten(guest: Seq<char>, pattern: Option<Seq<char>>) -> Seq<char> {
    match pattern {
        Some(pattern) => guest + "/"@ + pattern,
        None => guest,
    }
}

/// Register a mention, giving the guest path its value should be rewritten to.
pub open spec fn mention(c: Collected, at: Bases, m: Mention) -> (Collected, Option<Seq<char>>) {
    match host_path(m.text, at.base, at.home) {
        Err(message) => (
            Collected { issues: c.issues.push(error(m.span, m.key, message)), ..c },
            None,
        ),
        Ok(resolved) => {
            let (host, pattern) = glob_split(path_parts(resolved));
            let (guest, outside) = guest_of(path_parts(host), path_parts(at.kitchen));
            match source_index(c.sources, host, 0) {
                Some(i) => (
                    Collected {
                        sources: c.sources.update(i, mentioned_again(c.sources[i], m)),
                        ..c
                    },
                    Some(rewritten(guest, pattern)),
                ),
                None => match guest_index(c.sources, guest, 0) {
                    Some(i) => (
                        Collected {
                            issues: c.issues.push(
                                error(
                                    m.span,
                                    m.key,
                                    "`"@ + c.sources[i].host + "` and `"@ + host
                                        + "` would both be staged at `"@ + guest + "`"@,
                                ),
                            ),
                            ..c
                        },
                        None,
                    ),
                    None => (
                        Collected {
                            sources: c.sources.push(
                                SourceView {
                                    host,
                                    guest,
                                    key: m.key,
                                    span: m.span,
                                    exclude: m.exclude,
                                    git_manifest: m.git_manifest,
                                    outside,
                                    dotfiles_root: m.dotfiles_root,
                                },
                            ),
                            ..c
                        },
                        Some(rewritten(guest, pattern)),
                    ),
                },
            }
        },
    }
}

/// Register a mention and the rewrite of its value.
pub open spec fn mention_at(c: Collected, at: Bases, m: Mention, path: Seq<StepView>) -> Collected {
    let (next, guest) = mention(c, at, m);
    match guest {
        None => next,
        Some(guest) => Collected {
            rewrites: next.rewrites.push(RewriteView { path, action: ActionView::Replace(guest) }),
            ..next
        },
    }
}

/// The strings among the elements of an array.
pub open spec fn texts_of(nodes: Seq<NodeView>) -> Seq<Seq<char>>
    decreases nodes.len(),
{
    if nodes.len() == 0 {
        Seq::empty()
    } else {
        let rest = texts_of(nodes.drop_last());
        match nodes.last().text {
            Some(text) => rest.push(text),
            None => rest,
        }
    }
}

pub open spec fn exclude_of(entry: NodeView) -> Seq<Seq<char>> {
    match entry.get("exclude"@) {
        Some(node) => match node.elements {
            Some(nodes) => texts_of(nodes),
            None => Seq::empty(),
        },
        None => Seq::empty(),
    }
}

pub open spec fn is_git(entry: NodeView) -> bool {
    text_at(entry, "manifest"@) == Some("git"@)
}

/// The `source` of an entry.
pub open spec fn with_source(
    c: Collected,
    at: Bases,
    entry: NodeView,
    key: Seq<char>,
    prefix: Seq<StepView>,
) -> Collected {
    match entry.get("source"@) {
        None => c,
        Some(node) => match node.text {
            None => c,
            Some(text) => {
                let m = Mention {
                    text,
                    key,
                    span: node.span,
                    exclude: exclude_of(entry),
                    git_manifest: is_git(entry),
                    dotfiles_root: false,
                };
                let next = mention_at(c, at, m, prefix.push(StepView::Key("source"@)));
                if mention(c, at, m).1 is Some && is_git(entry) {
                    Collected {
                        rewrites: next.rewrites.push(
                            RewriteView {
                                path: prefix.push(StepView::Key("manifest"@)),
                                action: ActionView::Remove,
                            },
                        ),
                        ..next
                    }
                } else {
                    next
                }
            },
        },
    }
}

/// The sources of an entry's variants.
pub open spec fn with_variants(
    c: Collected,
    at: Bases,
    variants: Seq<NodeView>,
    entry: NodeView,
    key: Seq<char>,
    prefix: Seq<StepView>,
) -> Collected
    decreases variants.len(),
{
    if variants.len() == 0 {
        c
    } else {
        let rest = with_variants(c, at, variants.drop_last(), entry, key, prefix);
        let index = variants.len() - 1;
        match variants.last().get("source"@) {
            None => rest,
            Some(node) => match node.text {
                None => rest,
                Some(text) => mention_at(
                    rest,
                    at,
                    Mention {
                        text,
                        key: indexed(key + ".variants"@, index as nat),
                        span: node.span,
                        exclude: exclude_of(entry),
                        git_manifest: is_git(entry),
                        dotfiles_root: false,
                    },
                    prefix.push(StepView::Key("variants"@)).push(StepView::Index(index as usize)).push(
                        StepView::Key("source"@),
                    ),
                ),
            },
        }
    }
}

/// One `target = <entry>` pair of a file table.
pub open spec fn with_entry(
    c: Collected,
    at: Bases,
    label: Seq<char>,
    target: Seq<char>,
    entry: NodeView,
    prefix: Seq<StepView>,
) -> Collected {
    let key = label + ".\""@ + target + "\""@;
    match entry.text {
        Some(text) => mention_at(
            c,
            at,
            Mention {
                text,
                key,
                span: entry.span,
                exclude: Seq::empty(),
                git_manifest: false,
                dotfiles_root: false,
            },
            prefix,
        ),
        None => if !entry.is_table() {
            c
        } else {
            let next = with_source(c, at, entry, key, prefix);
            match entry.get("variants"@) {
                Some(node) => match node.elements {
                    Some(variants) => with_variants(next, at, variants, entry, key, prefix),
                    None => next,
                },
                None => next,
            }
        },
    }
}

/// The entries of a file table.
pub open spec fn with_file_entries(
    c: Collected,
    at: Bases,
    label: Seq<char>,
    path: Seq<StepView>,
    entries: Seq<EntryView>,
) -> Collected
    decreases entries.len(),
{
    if entries.len() == 0 {
        c
    } else {
        let rest = with_file_entries(c, at, label, path, entries.drop_last());
        let target = entries.last().key;
        with_entry(rest, at, label, target, entries.last().node, path.push(StepView::Key(target)))
    }
}

pub open spec fn with_file_table(
    c: Collected,
    at: Bases,
    label: Seq<char>,
    path: Seq<StepView>,
    table: Option<NodeView>,
) -> Collected {
    match table {
        Some(table) => match table.entries {
            Some(entries) => with_file_entries(c, at, label, path, entries),
            None => c,
        },
        None => c,
    }
}

/// The value two tables down.
pub open spec fn value_at(root: NodeView, first: Seq<char>, second: Seq<char>) -> Option<NodeView> {
    match root.table(first) {
        Some(table) => table.get(second),
        None => None,
    }
}

/// `settings.dotfiles.root` of a document.
pub open spec fn dotfiles_root(root: NodeView) -> Option<NodeView> {
    match root.table("settings"@) {
        Some(settings) => match settings.table("dotfiles"@) {
            Some(dotfiles) => dotfiles.get("root"@),
            None => None,
        },
        None => None,
    }
}

pub open spec fn root_path() -> Seq<StepView> {
    seq![StepView::Key("settings"@), StepView::Key("dotfiles"@), StepView::Key("root"@)]
}

/// The dotfiles root: `[_.microkitchen] dotfiles` wins over
/// `settings.dotfiles.root`, and is created if absent.
pub open spec fn with_root(
    c: Collected,
    at: Bases,
    root: NodeView,
    dotfiles: Option<Seq<char>>,
) -> Collected {
    match dotfiles {
        Some(text) => {
            let m = Mention {
                text,
                key: "_.microkitchen.dotfiles"@,
                span: None,
                exclude: Seq::empty(),
                git_manifest: false,
                dotfiles_root: true,
            };
            let (next, guest) = mention(c, at, m);
            match guest {
                Some(guest) => Collected {
                    rewrites: next.rewrites.push(
                        RewriteView { path: root_path(), action: ActionView::Ensure(guest) },
                    ),
                    ..next
                },
                None => next,
            }
        },
        None => match dotfiles_root(root) {
            None => c,
            Some(node) => match node.text {
                None => c,
                Some(text) => mention_at(
                    c,
                    at,
                    Mention {
                        text,
                        key: "settings.dotfiles.root"@,
                        span: node.span,
                        exclude: Seq::empty(),
                        git_manifest: false,
                        dotfiles_root: true,
                    },
                    root_path(),
                ),
            },
        },
    }
}

/// Everything that a kitchen file references.
pub open spec fn collected(root: NodeView, at: Bases, dotfiles: Option<Seq<char>>) -> Collected {
    let none = Collected {
        sources: Seq::empty(),
        rewrites: Seq::empty(),
        issues: no_issues(),
    };
    let c1 = with_file_table(
        none,
        at,
        "dotfiles"@,
        seq![StepView::Key("dotfiles"@)],
        root.table("dotfiles"@),
    );
    let c2 = with_file_table(
        c1,
        at,
        "bootstrap.files"@,
        seq![StepView::Key("bootstrap"@), StepView::Key("files"@)],
        value_at(root, "bootstrap"@, "files"@),
    );
    let c3 = with_file_table(
        c2,
        at,
        "bootstrap.directories"@,
        seq![StepView::Key("bootstrap"@), StepView::Key("directories"@)],
        value_at(root, "bootstrap"@, "directories"@),
    );
    with_root(c3, at, root, dotfiles)
}

// ---------------------------------------------------------------------------
// The collector
// ---------------------------------------------------------------------------

/// Collects sources while walking the document.
struct Collector<'a> {
    base: &'a str,
    kitchen: &'a str,
    home: Option<&'a str>,
    sources: Vec<StagedSource>,
    rewrites: Vec<Rewrite>,
    issues: Vec<Issue>,
}

/// A [`Mention`] in the making.
struct NewMention<'a> {
    text: &'a str,
    key: &'a str,
    span: Option<Span>,
    exclude: Vec<String>,
    git_manifest: bool,
    dotfiles_root: bool,
}

impl NewMention<'_> {
    spec fn view(&self) -> Mention {
        Mention {
            text: self.text@,
            key: self.key@,
            span: self.span,
            exclude: views(self.exclude@),
            git_manifest: self.git_manifest,
            dotfiles_root: self.dotfiles_root,
        }
    }
}

impl<'a> Collector<'a> {
    spec fn view(&self) -> Collected {
        Collected {
            sources: views(self.sources@),
            rewrites: views(self.rewrites@),
            issues: views(self.issues@),
        }
    }

    spec fn at(&self) -> Bases {
        Bases { base: self.base@, kitchen: self.kitchen@, home: opt_str(self.home) }
    }

    fn find_source(&self, host: &str) -> (r: Option<usize>)
        ensures
            match r {
                Some(i) => source_index(self.view().sources, host@, 0) == Some(i as int) && i
                    < self.sources@.len(),
                None => source_index(self.view().sources, host@, 0) is None,
            },
    {
        let ghost sv = views(self.sources@);
        let mut i: usize = 0;
        while i < self.sources.len()
            invariant
                i <= self.sources@.len(),
                sv == views(self.sources@),
                source_index(sv, host@, 0) == source_index(sv, host@, i as int),
            decreases self.sources@.len() - i,
        {
            assert(sv[i as int] == self.sources@[i as int]@);
            if same(self.sources[i].host.as_str(), host) {
                return Some(i);
            }
            i += 1;
        }
        None
    }

    fn find_guest(&self, guest: &str) -> (r: Option<usize>)
        ensures
            match r {
                Some(i) => guest_index(self.view().sources, guest@, 0) == Some(i as int) && i
                    < self.sources@.len(),
                None => guest_index(self.view().sources, guest@, 0) is None,
            },
    {
        let ghost sv = views(self.sources@);
        let mut i: usize = 0;
        while i < self.sources.len()
            invariant
                i <= self.sources@.len(),
                sv == views(self.sources@),
                guest_index(sv, guest@, 0) == guest_index(sv, guest@, i as int),
            decreases self.sources@.len() - i,
        {
            assert(sv[i as int] == self.sources@[i as int]@);
            if same(self.sources[i].guest.as_str(), guest) {
                return Some(i);
            }
            i += 1;
        }
        None
    }

    fn push_error(&mut self, span: Option<Span>, key: &str, message: String)
        ensures
            final(self).at() == old(self).at(),
            final(self).view() == (Collected {
                issues: old(self).view().issues.push(error(span, key@, message@)),
                ..old(self).view()
            }),
    {
        let ghost before = views(self.issues@);
        let ghost mv = message@;
        self.issues.push(Issue { severity: Severity::Error, span, key: key.to_owned(), message });
        assert(views(self.issues@) =~= before.push(error(span, key@, mv)));
    }

    /// Register a mention, returning the guest path its value should be
    /// rewritten to.
    fn add(&mut self, m: NewMention) -> (r: Option<String>)
        ensures
            final(self).at() == old(self).at(),
            final(self).view() == mention(old(self).view(), old(self).at(), m.view()).0,
            crate::text::opt_view(r) == mention(old(self).view(), old(self).at(), m.view()).1,
    {
        let ghost before = self.view();
        let resolved = match resolve_host_path(m.text, self.base, self.home) {
            Ok(path) => path,
            Err(message) => {
                self.push_error(m.span, m.key, message);
                return None;
            },
        };
        // A pattern is staged by the directory it searches; mise re-expands it
        // in the guest, so it is never interpreted here.
        let (host, pattern) = split_glob(resolved.as_str());
        let (guest, outside) = guest_path(host.as_str(), self.kitchen);
        let value = match &pattern {
            Some(pattern) => concat3(guest.as_str(), "/", pattern.as_str()),
            None => guest.clone(),
        };
        match self.find_source(host.as_str()) {
            Some(i) => {
                // Same host path twice: one copy, and the first span wins for
                // diagnostics. Merge what only narrows the copy.
                let agrees = same_names(&self.sources[i].exclude, &m.exclude);
                let ghost old_source = self.sources@[i as int]@;
                let mut source = self.sources.remove(i);
                source.dotfiles_root = source.dotfiles_root || m.dotfiles_root;
                if !agrees {
                    source.exclude = Vec::new();
                }
                source.git_manifest = source.git_manifest && m.git_manifest;
                assert(views(source.exclude@) =~= mentioned_again(old_source, m.view()).exclude);
                assert(source@ =~= mentioned_again(old_source, m.view()));
                self.sources.insert(i, source);
                assert(views(self.sources@) =~= before.sources.update(
                    i as int,
                    mentioned_again(old_source, m.view()),
                ));
            },
            None => {
                if let Some(i) = self.find_guest(guest.as_str()) {
                    let mut message = concat5(
                        "`",
                        self.sources[i].host.as_str(),
                        "` and `",
                        host.as_str(),
                        "` would both be staged at `",
                    );
                    message.push_str(guest.as_str());
                    message.push_str("`");
                    self.push_error(m.span, m.key, message);
                    return None;
                }
                let source = StagedSource {
                    host,
                    guest,
                    key: m.key.to_owned(),
                    span: m.span,
                    exclude: m.exclude,
                    git_manifest: m.git_manifest,
                    outside,
                    dotfiles_root: m.dotfiles_root,
                };
                let ghost sv = source@;
                self.sources.push(source);
                assert(views(self.sources@) =~= before.sources.push(sv));
            },
        }
        Some(value)
    }

    fn push_rewrite(&mut self, path: Vec<Step>, action: RewriteAction)
        ensures
            final(self).at() == old(self).at(),
            final(self).view() == (Collected {
                rewrites: old(self).view().rewrites.push(
                    RewriteView { path: views(path@), action: action@ },
                ),
                ..old(self).view()
            }),
    {
        let ghost before = views(self.rewrites@);
        let ghost rv = RewriteView { path: views(path@), action: action@ };
        self.rewrites.push(Rewrite { path, action });
        assert(views(self.rewrites@) =~= before.push(rv));
    }

    /// Register a mention and the rewrite of its value.
    fn add_at(&mut self, m: NewMention, path: Vec<Step>) -> (r: bool)
        ensures
            final(self).at() == old(self).at(),
            final(self).view() == mention_at(
                old(self).view(),
                old(self).at(),
                m.view(),
                views(path@),
            ),
            r == (mention(old(self).view(), old(self).at(), m.view()).1 is Some),
    {
        match self.add(m) {
            Some(guest) => {
                self.push_rewrite(path, RewriteAction::Replace(guest));
                true
            },
            None => false,
        }
    }

    /// The `source` of an entry.
    fn add_source(
        &mut self,
        entry: &Node,
        key: &str,
        exclude: &Vec<String>,
        git_manifest: bool,
        prefix: &Vec<Step>,
    )
        requires
            views(exclude@) == exclude_of(entry@),
            git_manifest == is_git(entry@),
        ensures
            final(self).at() == old(self).at(),
            final(self).view() == with_source(
                old(self).view(),
                old(self).at(),
                entry@,
                key@,
                views(prefix@),
            ),
    {
        if let Some(node) = entry.get("source") {
            if let Some(text) = &node.text {
                let m = NewMention {
                    text: text.as_str(),
                    key,
                    span: node.span,
                    exclude: clone_names(exclude),
                    git_manifest,
                    dotfiles_root: false,
                };
                let path = extended(prefix, "source");
                if self.add_at(m, path) && git_manifest {
                    // The staged copy has no `.git`, so mise in the guest would
                    // match nothing. Filtering on the host preserves the result.
                    let path = extended(prefix, "manifest");
                    self.push_rewrite(path, RewriteAction::Remove);
                }
            }
        }
    }

    /// Every variant's source: the guest is always Linux, but evaluating
    /// mise's variant conditions on the host is not worth the risk.
    fn add_variants(
        &mut self,
        variants: &Vec<Node>,
        entry: &Node,
        key: &str,
        exclude: &Vec<String>,
        git_manifest: bool,
        prefix: &Vec<Step>,
    )
        requires
            views(exclude@) == exclude_of(entry@),
            git_manifest == is_git(entry@),
        ensures
            final(self).at() == old(self).at(),
            final(self).view() == with_variants(
                old(self).view(),
                old(self).at(),
                node_views(variants@),
                entry@,
                key@,
                views(prefix@),
            ),
    {
        let ghost vv = node_views(variants@);
        let ghost at = self.at();
        let ghost before = self.view();
        let list = concat(key, ".variants");
        let mut i: usize = 0;
        assert(vv.subrange(0, 0) =~= Seq::empty());
        while i < variants.len()
            invariant
                i <= variants@.len(),
                vv == node_views(variants@),
                views(exclude@) == exclude_of(entry@),
                git_manifest == is_git(entry@),
                list@ == key@ + ".variants"@,
                self.at() == at,
                self.view() == with_variants(
                    before,
                    at,
                    vv.subrange(0, i as int),
                    entry@,
                    key@,
                    views(prefix@),
                ),
            decreases variants@.len() - i,
        {
            assert(vv.subrange(0, i + 1).drop_last() =~= vv.subrange(0, i as int));
            assert(vv.subrange(0, i + 1).last() == variants@[i as int]@);
            if let Some(node) = variants[i].get("source") {
                if let Some(text) = &node.text {
                    let mut element = concat(list.as_str(), "[");
                    push_decimal(&mut element, i as u64);
                    element.push_str("]");
                    assert(element@ == indexed(list@, i as nat));
                    let m = NewMention {
                        text: text.as_str(),
                        key: element.as_str(),
                        span: node.span,
                        exclude: clone_names(exclude),
                        git_manifest,
                        dotfiles_root: false,
                    };
                    let mut path = extended(prefix, "variants");
                    let ghost p1 = views(path@);
                    path.push(Step::Index(i));
                    assert(views(path@) =~= p1.push(StepView::Index(i)));
                    let path = extended(&path, "source");
                    let _ = self.add_at(m, path);
                }
            }
            i += 1;
        }
        assert(vv.subrange(0, vv.len() as int) =~= vv);
    }

    /// Walk one `target = <entry>` pair of a file table.
    fn entry(&mut self, label: &str, target: &str, entry: &Node, prefix: &Vec<Step>)
        ensures
            final(self).at() == old(self).at(),
            final(self).view() == with_entry(
                old(self).view(),
                old(self).at(),
                label@,
                target@,
                entry@,
                views(prefix@),
            ),
    {
        let key = concat4(label, ".\"", target, "\"");
        // Shorthand: the value is the source itself.
        if let Some(text) = &entry.text {
            let exclude: Vec<String> = Vec::new();
            assert(views(exclude@) =~= Seq::empty());
            let m = NewMention {
                text: text.as_str(),
                key: key.as_str(),
                span: entry.span,
                exclude,
                git_manifest: false,
                dotfiles_root: false,
            };
            let path = clone_steps(prefix);
            let _ = self.add_at(m, path);
            return;
        }
        if !entry.is_table() {
            return;
        }
        let exclude = read_exclude(entry);
        let git_manifest = match entry.get("manifest") {
            Some(node) => match &node.text {
                Some(text) => same(text.as_str(), "git"),
                None => false,
            },
            None => false,
        };
        self.add_source(entry, key.as_str(), &exclude, git_manifest, prefix);
        if let Some(node) = entry.get("variants") {
            if let Some(variants) = &node.elements {
                self.add_variants(variants, entry, key.as_str(), &exclude, git_manifest, prefix);
            }
        }
    }

    /// Walk a file table.
    fn file_table(&mut self, label: &str, path: &Vec<Step>, table: Option<&Node>)
        ensures
            final(self).at() == old(self).at(),
            final(self).view() == with_file_table(
                old(self).view(),
                old(self).at(),
                label@,
                views(path@),
                opt_node(table),
            ),
    {
        let table = match table {
            Some(table) => table,
            None => {
                return;
            },
        };
        if let Some(entries) = &table.entries {
            let ghost ev = entry_views(entries@);
            let ghost at = self.at();
            let ghost before = self.view();
            let mut i: usize = 0;
            assert(ev.subrange(0, 0) =~= Seq::empty());
            while i < entries.len()
                invariant
                    i <= entries@.len(),
                    ev == entry_views(entries@),
                    self.at() == at,
                    self.view() == with_file_entries(
                        before,
                        at,
                        label@,
                        views(path@),
                        ev.subrange(0, i as int),
                    ),
                decreases entries@.len() - i,
            {
                assert(ev.subrange(0, i + 1).drop_last() =~= ev.subrange(0, i as int));
                assert(ev.subrange(0, i + 1).last() == entries@[i as int]@);
                let target = entries[i].key.as_str();
                let prefix = extended(path, target);
                self.entry(label, target, &entries[i].node, &prefix);
                i += 1;
            }
            assert(ev.subrange(0, ev.len() as int) =~= ev);
        }
    }

    fn root(&mut self, root: &Node, dotfiles: Option<&str>)
        ensures
            final(self).at() == old(self).at(),
            final(self).view() == with_root(
                old(self).view(),
                old(self).at(),
                root@,
                opt_str(dotfiles),
            ),
    {
        let exclude: Vec<String> = Vec::new();
        assert(views(exclude@) =~= Seq::empty());
        match dotfiles {
            Some(text) => {
                let m = NewMention {
                    text,
                    key: "_.microkitchen.dotfiles",
                    span: None,
                    exclude,
                    git_manifest: false,
                    dotfiles_root: true,
                };
                if let Some(guest) = self.add(m) {
                    let path = dotfiles_root_path();
                    self.push_rewrite(path, RewriteAction::Ensure(guest));
                }
            },
            None => {
                let node = match root.table("settings") {
                    Some(settings) => match settings.table("dotfiles") {
                        Some(dotfiles) => dotfiles.get("root"),
                        None => None,
                    },
                    None => None,
                };
                if let Some(node) = node {
                    if let Some(text) = &node.text {
                        let m = NewMention {
                            text: text.as_str(),
                            key: "settings.dotfiles.root",
                            span: node.span,
                            exclude,
                            git_manifest: false,
                            dotfiles_root: true,
                        };
                        let path = dotfiles_root_path();
                        let _ = self.add_at(m, path);
                    }
                }
            },
        }
    }
}

fn clone_steps(path: &Vec<Step>) -> (r: Vec<Step>)
    ensures
        views(r@) == views(path@),
{
    let mut r: Vec<Step> = Vec::new();
    let mut i: usize = 0;
    while i < path.len()
        invariant
            i <= path@.len(),
            views(r@) == views(path@).subrange(0, i as int),
        decreases path@.len() - i,
    {
        let ghost done = views(r@);
        r.push(path[i].clone());
        assert(views(r@) =~= done.push(views(path@)[i as int]));
        assert(views(r@) =~= views(path@).subrange(0, i + 1));
        i += 1;
    }
    assert(views(r@) =~= views(path@));
    r
}

fn extended(path: &Vec<Step>, key: &str) -> (r: Vec<Step>)
    ensures
        views(r@) == views(path@).push(StepView::Key(key@)),
{
    let mut r = clone_steps(path);
    let ghost before = views(r@);
    r.push(Step::Key(key.to_owned()));
    assert(views(r@) =~= before.push(StepView::Key(key@)));
    r
}

fn dotfiles_root_path() -> (r: Vec<Step>)
    ensures
        views(r@) == root_path(),
{
    let mut r: Vec<Step> = Vec::new();
    r.push(Step::Key("settings".to_owned()));
    r.push(Step::Key("dotfiles".to_owned()));
    r.push(Step::Key("root".to_owned()));
    assert(views(r@) =~= root_path());
    r
}

fn read_exclude(entry: &Node) -> (r: Vec<String>)
    ensures
        views(r@) == exclude_of(entry@),
{
    let mut r: Vec<String> = Vec::new();
    assert(views(r@) =~= Seq::empty());
    if let Some(node) = entry.get("exclude") {
        if let Some(nodes) = &node.elements {
            let ghost nv = node_views(nodes@);
            let mut i: usize = 0;
            assert(nv.subrange(0, 0) =~= Seq::empty());
            while i < nodes.len()
                invariant
                    i <= nodes@.len(),
                    nv == node_views(nodes@),
                    views(r@) == texts_of(nv.subrange(0, i as int)),
                decreases nodes@.len() - i,
            {
                assert(nv.subrange(0, i + 1).drop_last() =~= nv.subrange(0, i as int));
                assert(nv.subrange(0, i + 1).last() == nodes@[i as int]@);
                let ghost done = views(r@);
                if let Some(text) = &nodes[i].text {
                    r.push(text.clone());
                    assert(views(r@) =~= done.push(text@));
                }
                i += 1;
            }
            assert(nv.subrange(0, nv.len() as int) =~= nv);
        }
    }
    r
}

// ---------------------------------------------------------------------------
// Collapsing
// ---------------------------------------------------------------------------

/// Whether copying `y` already brings the bytes of `x` to where they belong:
/// `y` is a directory above `x` that is copied whole, and the guest path of
/// `x` is that of `y` plus the same relative suffix.
pub open spec fn covers(y: SourceView, x: SourceView) -> bool {
    let inner = path_parts(x.host);
    let outer = path_parts(y.host);
    &&& inner.within(outer)
    &&& inner.names.len() > outer.names.len()
    &&& y.exclude.len() == 0
    &&& !y.git_manifest
    &&& x.guest == y.guest + "/"@ + join(below(inner, outer), "/"@)
}

pub open spec fn is_covered(sources: Seq<SourceView>, x: SourceView) -> bool {
    exists|i: int| 0 <= i < sources.len() && covers(#[trigger] sources[i], x)
}

/// A sorted list with one more source, in the order of host paths.
pub open spec fn placed(sorted: Seq<SourceView>, x: SourceView) -> Seq<SourceView>
    decreases sorted.len(),
{
    if sorted.len() == 0 || !path_lt(path_parts(x.host), path_parts(sorted.last().host)) {
        sorted.push(x)
    } else {
        placed(sorted.drop_last(), x).push(sorted.last())
    }
}

/// The sources among `some` that none of `all` covers, in the order of their
/// host paths.
pub open spec fn uncovered(some: Seq<SourceView>, all: Seq<SourceView>) -> Seq<SourceView>
    decreases some.len(),
{
    if some.len() == 0 {
        Seq::empty()
    } else {
        let rest = uncovered(some.drop_last(), all);
        if is_covered(all, some.last()) {
            rest
        } else {
            placed(rest, some.last())
        }
    }
}

/// The sources that are copied: none that another one already covers.
pub open spec fn collapsed(sources: Seq<SourceView>) -> Seq<SourceView> {
    uncovered(sources, sources)
}

proof fn lemma_placed(sorted: Seq<SourceView>, x: SourceView, at: int)
    requires
        0 <= at <= sorted.len(),
        at > 0 ==> !path_lt(path_parts(x.host), path_parts(sorted[at - 1].host)),
        forall|k: int|
            at <= k < sorted.len() ==> path_lt(
                path_parts(x.host),
                path_parts((#[trigger] sorted[k]).host),
            ),
    ensures
        placed(sorted, x) == sorted.insert(at, x),
    decreases sorted.len(),
{
    if at == sorted.len() {
        assert(sorted.insert(at, x) =~= sorted.push(x));
    } else {
        let rest = sorted.drop_last();
        assert forall|k: int| at <= k < rest.len() implies path_lt(
            path_parts(x.host),
            path_parts((#[trigger] rest[k]).host),
        ) by {
            assert(rest[k] == sorted[k]);
        }
        lemma_placed(rest, x, at);
        assert(sorted.insert(at, x) =~= rest.insert(at, x).push(sorted.last()));
    }
}

fn covers_source(y: &StagedSource, x: &StagedSource) -> (r: bool)
    ensures
        r == covers(y@, x@),
{
    if y.exclude.len() != 0 || y.git_manifest {
        return false;
    }
    let inner = take_apart(x.host.as_str());
    let outer = take_apart(y.host.as_str());
    if !inner.is_within(&outer) || inner.names.len() <= outer.names.len() {
        return false;
    }
    let mut names = inner.names;
    let ghost all = views(names@);
    let rest = names.split_off(outer.names.len());
    assert(views(rest@) =~= all.subrange(outer.names@.len() as int, all.len() as int));
    let relative = join_with(&rest, "/");
    let guest = concat3(y.guest.as_str(), "/", relative.as_str());
    same(x.guest.as_str(), guest.as_str())
}

fn covered_at(sources: &Vec<StagedSource>, at: usize) -> (r: bool)
    requires
        at < sources.len(),
    ensures
        r == is_covered(views(sources@), views(sources@)[at as int]),
{
    let ghost sv = views(sources@);
    let mut i: usize = 0;
    while i < sources.len()
        invariant
            i <= sources@.len(),
            at < sources@.len(),
            sv == views(sources@),
            forall|k: int| 0 <= k < i ==> !covers(#[trigger] sv[k], sv[at as int]),
        decreases sources@.len() - i,
    {
        if covers_source(&sources[i], &sources[at]) {
            assert(covers(sv[i as int], sv[at as int]));
            return true;
        }
        i += 1;
    }
    false
}

impl Clone for StagedSource {
    fn clone(&self) -> (r: Self)
        ensures
            r@ == self@,
    {
        StagedSource {
            host: self.host.clone(),
            guest: self.guest.clone(),
            key: self.key.clone(),
            span: self.span,
            exclude: clone_names(&self.exclude),
            git_manifest: self.git_manifest,
            outside: self.outside,
            dotfiles_root: self.dotfiles_root,
        }
    }
}

fn precedes(host: &Parts, other: &StagedSource) -> (r: bool)
    ensures
        r == path_lt(host@, path_parts(other@.host)),
{
    let other = take_apart(other.host.as_str());
    path_before(host, &other)
}

/// Drop sources already covered by a staged ancestor: the bytes are copied
/// once and the descendant's guest path is the ancestor's plus the same
/// relative suffix, so rewrites stay correct.
fn collapse_nested(sources: &Vec<StagedSource>) -> (r: Vec<StagedSource>)
    ensures
        views(r@) == collapsed(views(sources@)),
{
    let ghost sv = views(sources@);
    let mut kept: Vec<StagedSource> = Vec::new();
    assert(views(kept@) =~= Seq::<SourceView>::empty());
    let mut i: usize = 0;
    assert(sv.subrange(0, 0) =~= Seq::empty());
    while i < sources.len()
        invariant
            i <= sources@.len(),
            sv == views(sources@),
            views(kept@) == uncovered(sv.subrange(0, i as int), sv),
        decreases sources@.len() - i,
    {
        assert(sv.subrange(0, i + 1).drop_last() =~= sv.subrange(0, i as int));
        assert(sv.subrange(0, i + 1).last() == sv[i as int]);
        if !covered_at(sources, i) {
            let host = take_apart(sources[i].host.as_str());
            let ghost before = views(kept@);
            let ghost x = sources@[i as int]@;
            let mut at: usize = kept.len();
            while at > 0 && precedes(&host, &kept[at - 1])
                invariant
                    at <= kept@.len(),
                    before == views(kept@),
                    host@ == path_parts(x.host),
                    forall|k: int|
                        at <= k < before.len() ==> path_lt(
                            path_parts(x.host),
                            path_parts((#[trigger] before[k]).host),
                        ),
                decreases at,
            {
                assert(before[at - 1] == kept@[at - 1]@);
                at -= 1;
            }
            assert(at > 0 ==> before[at - 1] == kept@[at - 1]@);
            proof {
                lemma_placed(before, x, at as int);
            }
            kept.insert(at, sources[i].clone());
            assert(views(kept@) =~= before.insert(at as int, x));
        }
        i += 1;
    }
    assert(sv.subrange(0, sv.len() as int) =~= sv);
    kept
}

// ---------------------------------------------------------------------------
// The plan
// ---------------------------------------------------------------------------

/// The plan of a document, and the problems in it.
pub fn plan_tree(
    root: &Node,
    base: &str,
    kitchen_dir: &str,
    dotfiles: Option<&str>,
    home: Option<&str>,
) -> (r: (StagePlan, Vec<Issue>))
    ensures
        ({
            let at = Bases { base: base@, kitchen: kitchen_dir@, home: opt_str(home) };
            let all = collected(root@, at, opt_str(dotfiles));
            &&& views(r.0.sources@) == collapsed(all.sources)
            &&& views(r.0.rewrites@) == all.rewrites
            &&& views(r.1@) == all.issues
        }),
{
    let mut c = Collector {
        base,
        kitchen: kitchen_dir,
        home,
        sources: Vec::new(),
        rewrites: Vec::new(),
        issues: Vec::new(),
    };
    assert(c.view() =~= Collected {
        sources: Seq::empty(),
        rewrites: Seq::empty(),
        issues: no_issues(),
    });

    let mut path: Vec<Step> = Vec::new();
    path.push(Step::Key("dotfiles".to_owned()));
    assert(views(path@) =~= seq![StepView::Key("dotfiles"@)]);
    c.file_table("dotfiles", &path, root.table("dotfiles"));

    let bootstrap = root.table("bootstrap");
    let mut path: Vec<Step> = Vec::new();
    path.push(Step::Key("bootstrap".to_owned()));
    path.push(Step::Key("files".to_owned()));
    assert(views(path@) =~= seq![StepView::Key("bootstrap"@), StepView::Key("files"@)]);
    let table = match bootstrap {
        Some(bootstrap) => bootstrap.get("files"),
        None => None,
    };
    c.file_table("bootstrap.files", &path, table);

    let mut path: Vec<Step> = Vec::new();
    path.push(Step::Key("bootstrap".to_owned()));
    path.push(Step::Key("directories".to_owned()));
    assert(views(path@) =~= seq![StepView::Key("bootstrap"@), StepView::Key("directories"@)]);
    let table = match bootstrap {
        Some(bootstrap) => bootstrap.get("directories"),
        None => None,
    };
    c.file_table("bootstrap.directories", &path, table);

    c.root(root, dotfiles);
    let sources = collapse_nested(&c.sources);
    (StagePlan { sources, rewrites: c.rewrites }, c.issues)
}

/// Collect the host paths the kitchen file references.
///
/// `base` is the kitchen file's own directory, which relative sources resolve
/// against; `kitchen_dir` is the project directory, used only to tell
/// project-local sources from outside ones. `dotfiles` is
/// `[_.microkitchen] dotfiles`, already resolved. A file that is no TOML
/// document references nothing: [`super::schema::parse`] reports it.
pub fn plan(
    source: &Source,
    base: &str,
    kitchen_dir: &str,
    dotfiles: Option<&str>,
    home: Option<&str>,
    diagnostics: &mut Diagnostics,
) -> (r: StagePlan)
    ensures
        match toml_document(source.text@) {
            Err(_) => views(r.sources@) == Seq::<SourceView>::empty() && views(r.rewrites@)
                == Seq::<RewriteView>::empty() && final(diagnostics)@ == old(diagnostics)@,
            Ok(root) => {
                let at = Bases { base: base@, kitchen: kitchen_dir@, home: opt_str(home) };
                let all = collected(root, at, opt_str(dotfiles));
                &&& views(r.sources@) == collapsed(all.sources)
                &&& views(r.rewrites@) == all.rewrites
                &&& final(diagnostics)@ == old(diagnostics)@ + located(*source, all.issues)
            },
        },
{
    match read_tree(source.text.as_str()) {
        Err(_) => StagePlan::default(),
        Ok(root) => {
            let (plan, issues) = plan_tree(&root, base, kitchen_dir, dotfiles, home);
            report(source, &issues, diagnostics);
            plan
        },
    }
}

// ---------------------------------------------------------------------------
// Laws
// ---------------------------------------------------------------------------

/// Whether a guest path is that of a source, or lies below it.
pub open spec fn lies_in(guest: Seq<char>, source: SourceView) -> bool {
    guest == source.guest || exists|rest: Seq<char>| guest == source.guest + "/"@ + rest
}

pub open spec fn lies_in_some(guest: Seq<char>, sources: Seq<SourceView>) -> bool {
    exists|i: int| 0 <= i < sources.len() && lies_in(guest, #[trigger] sources[i])
}

/// The guest path that a rewrite points the config at.
pub open spec fn target_of(action: ActionView) -> Option<Seq<char>> {
    match action {
        ActionView::Replace(text) => Some(text),
        ActionView::Ensure(text) => Some(text),
        ActionView::Remove => None,
    }
}

/// What holds of every collection: guest paths are as computed and pairwise
/// distinct, and every rewrite points into a source.
spec fn sound(c: Collected, at: Bases) -> bool {
    &&& forall|i: int|
        0 <= i < c.sources.len() ==> (#[trigger] c.sources[i]).guest == guest_of(
            path_parts(c.sources[i].host),
            path_parts(at.kitchen),
        ).0
    &&& forall|i: int, j: int|
        0 <= i < c.sources.len() && 0 <= j < c.sources.len() && (#[trigger] c.sources[i]).guest == (
        #[trigger] c.sources[j]).guest ==> i == j
    &&& forall|i: int|
        0 <= i < c.rewrites.len() ==> (target_of((#[trigger] c.rewrites[i]).action) matches Some(
            guest,
        ) ==> lies_in_some(guest, c.sources))
}

proof fn lemma_source_index(sources: Seq<SourceView>, host: Seq<char>, from: int)
    requires
        0 <= from,
    ensures
        source_index(sources, host, from) matches Some(i) ==> from <= i < sources.len()
            && sources[i].host == host,
    decreases sources.len() - from,
{
    if from < sources.len() && sources[from].host != host {
        lemma_source_index(sources, host, from + 1);
    }
}

proof fn lemma_guest_index(sources: Seq<SourceView>, guest: Seq<char>, from: int)
    requires
        0 <= from,
    ensures
        guest_index(sources, guest, from) is None ==> forall|i: int|
            from <= i < sources.len() ==> (#[trigger] sources[i]).guest != guest,
    decreases sources.len() - from,
{
    if from < sources.len() && sources[from].guest != guest {
        lemma_guest_index(sources, guest, from + 1);
    }
}

/// Sources that keep their places and guest paths still hold what they held.
proof fn lemma_still_in(guest: Seq<char>, before: Seq<SourceView>, after: Seq<SourceView>)
    requires
        lies_in_some(guest, before),
        before.len() <= after.len(),
        forall|i: int|
            0 <= i < before.len() ==> (#[trigger] after[i]).guest == before[i].guest,
    ensures
        lies_in_some(guest, after),
{
    let i = choose|i: int| 0 <= i < before.len() && lies_in(guest, #[trigger] before[i]);
    assert(after[i].guest == before[i].guest);
    assert(lies_in(guest, after[i]));
}

proof fn lemma_mention(c: Collected, at: Bases, m: Mention)
    requires
        sound(c, at),
    ensures
        sound(mention(c, at, m).0, at),
        mention(c, at, m).0.rewrites == c.rewrites,
        mention(c, at, m).1 matches Some(guest) ==> lies_in_some(
            guest,
            mention(c, at, m).0.sources,
        ),
{
    let (next, value) = mention(c, at, m);
    match host_path(m.text, at.base, at.home) {
        Err(_) => {},
        Ok(resolved) => {
            let (host, pattern) = glob_split(path_parts(resolved));
            let (guest, outside) = guest_of(path_parts(host), path_parts(at.kitchen));
            lemma_source_index(c.sources, host, 0);
            lemma_guest_index(c.sources, guest, 0);
            let found = source_index(c.sources, host, 0);
            if found is Some || guest_index(c.sources, guest, 0) is None {
                let i = match found {
                    Some(i) => i,
                    None => c.sources.len() as int,
                };
                assert(next.sources[i].guest == guest);
                assert forall|k: int| 0 <= k < c.sources.len() implies (
                #[trigger] next.sources[k]).guest == c.sources[k].guest && next.sources[k].host
                    == c.sources[k].host by {}
                assert forall|j: int, k: int|
                    0 <= j < next.sources.len() && 0 <= k < next.sources.len() && (
                    #[trigger] next.sources[j]).guest == (
                    #[trigger] next.sources[k]).guest implies j == k by {
                    if j < c.sources.len() {
                        assert(next.sources[j].guest == c.sources[j].guest);
                    }
                    if k < c.sources.len() {
                        assert(next.sources[k].guest == c.sources[k].guest);
                    }
                }
                assert forall|k: int| 0 <= k < next.rewrites.len() implies (target_of(
                    (#[trigger] next.rewrites[k]).action,
                ) matches Some(guest) ==> lies_in_some(guest, next.sources)) by {
                    if let Some(g) = target_of(c.rewrites[k].action) {
                        lemma_still_in(g, c.sources, next.sources);
                    }
                }
                match pattern {
                    Some(rest) => {
                        assert(rewritten(guest, pattern) == next.sources[i].guest + "/"@ + rest);
                    },
                    None => {},
                }
                assert(lies_in(rewritten(guest, pattern), next.sources[i]));
            }
        },
    }
}

/// One more rewrite that points into a source, or nowhere.
proof fn lemma_rewrite(c: Collected, at: Bases, r: RewriteView)
    requires
        sound(c, at),
        target_of(r.action) matches Some(guest) ==> lies_in_some(guest, c.sources),
    ensures
        sound((Collected { rewrites: c.rewrites.push(r), ..c }), at),
{
    let next = Collected { rewrites: c.rewrites.push(r), ..c };
    assert forall|k: int| 0 <= k < next.rewrites.len() implies (target_of(
        (#[trigger] next.rewrites[k]).action,
    ) matches Some(guest) ==> lies_in_some(guest, next.sources)) by {
        if k < c.rewrites.len() {
            assert(next.rewrites[k] == c.rewrites[k]);
        }
    }
}

proof fn lemma_mention_at(c: Collected, at: Bases, m: Mention, path: Seq<StepView>)
    requires
        sound(c, at),
    ensures
        sound(mention_at(c, at, m, path), at),
{
    lemma_mention(c, at, m);
    let (next, guest) = mention(c, at, m);
    if let Some(guest) = guest {
        lemma_rewrite(next, at, RewriteView { path, action: ActionView::Replace(guest) });
    }
}

proof fn lemma_variants(
    c: Collected,
    at: Bases,
    variants: Seq<NodeView>,
    entry: NodeView,
    key: Seq<char>,
    prefix: Seq<StepView>,
)
    requires
        sound(c, at),
    ensures
        sound(with_variants(c, at, variants, entry, key, prefix), at),
    decreases variants.len(),
{
    if variants.len() > 0 {
        lemma_variants(c, at, variants.drop_last(), entry, key, prefix);
        let rest = with_variants(c, at, variants.drop_last(), entry, key, prefix);
        let index = variants.len() - 1;
        if let Some(node) = variants.last().get("source"@) {
            if let Some(text) = node.text {
                lemma_mention_at(
                    rest,
                    at,
                    Mention {
                        text,
                        key: indexed(key + ".variants"@, index as nat),
                        span: node.span,
                        exclude: exclude_of(entry),
                        git_manifest: is_git(entry),
                        dotfiles_root: false,
                    },
                    prefix.push(StepView::Key("variants"@)).push(StepView::Index(index as usize)).push(
                        StepView::Key("source"@),
                    ),
                );
            }
        }
    }
}

proof fn lemma_entry(
    c: Collected,
    at: Bases,
    label: Seq<char>,
    target: Seq<char>,
    entry: NodeView,
    prefix: Seq<StepView>,
)
    requires
        sound(c, at),
    ensures
        sound(with_entry(c, at, label, target, entry, prefix), at),
{
    let key = label + ".\""@ + target + "\""@;
    match entry.text {
        Some(text) => lemma_mention_at(
            c,
            at,
            Mention {
                text,
                key,
                span: entry.span,
                exclude: Seq::empty(),
                git_manifest: false,
                dotfiles_root: false,
            },
            prefix,
        ),
        None => {
            if let Some(node) = entry.get("source"@) {
                if let Some(text) = node.text {
                    let m = Mention {
                        text,
                        key,
                        span: node.span,
                        exclude: exclude_of(entry),
                        git_manifest: is_git(entry),
                        dotfiles_root: false,
                    };
                    let path = prefix.push(StepView::Key("source"@));
                    lemma_mention_at(c, at, m, path);
                    lemma_rewrite(
                        mention_at(c, at, m, path),
                        at,
                        RewriteView {
                            path: prefix.push(StepView::Key("manifest"@)),
                            action: ActionView::Remove,
                        },
                    );
                }
            }
            let next = with_source(c, at, entry, key, prefix);
            assert(sound(next, at));
            if let Some(node) = entry.get("variants"@) {
                if let Some(variants) = node.elements {
                    lemma_variants(next, at, variants, entry, key, prefix);
                }
            }
        },
    }
}

proof fn lemma_file_entries(
    c: Collected,
    at: Bases,
    label: Seq<char>,
    path: Seq<StepView>,
    entries: Seq<EntryView>,
)
    requires
        sound(c, at),
    ensures
        sound(with_file_entries(c, at, label, path, entries), at),
    decreases entries.len(),
{
    if entries.len() > 0 {
        lemma_file_entries(c, at, label, path, entries.drop_last());
        let rest = with_file_entries(c, at, label, path, entries.drop_last());
        let target = entries.last().key;
        lemma_entry(rest, at, label, target, entries.last().node, path.push(StepView::Key(target)));
    }
}

proof fn lemma_file_table(
    c: Collected,
    at: Bases,
    label: Seq<char>,
    path: Seq<StepView>,
    table: Option<NodeView>,
)
    requires
        sound(c, at),
    ensures
        sound(with_file_table(c, at, label, path, table), at),
{
    if let Some(table) = table {
        if let Some(entries) = table.entries {
            lemma_file_entries(c, at, label, path, entries);
        }
    }
}

proof fn lemma_root(c: Collected, at: Bases, root: NodeView, dotfiles: Option<Seq<char>>)
    requires
        sound(c, at),
    ensures
        sound(with_root(c, at, root, dotfiles), at),
{
    match dotfiles {
        Some(text) => {
            let m = Mention {
                text,
                key: "_.microkitchen.dotfiles"@,
                span: None,
                exclude: Seq::empty(),
                git_manifest: false,
                dotfiles_root: true,
            };
            lemma_mention(c, at, m);
            let (next, guest) = mention(c, at, m);
            if let Some(guest) = guest {
                lemma_rewrite(
                    next,
                    at,
                    RewriteView { path: root_path(), action: ActionView::Ensure(guest) },
                );
            }
        },
        None => {
            if let Some(node) = dotfiles_root(root) {
                if let Some(text) = node.text {
                    lemma_mention_at(
                        c,
                        at,
                        Mention {
                            text,
                            key: "settings.dotfiles.root"@,
                            span: node.span,
                            exclude: Seq::empty(),
                            git_manifest: false,
                            dotfiles_root: true,
                        },
                        root_path(),
                    );
                }
            }
        },
    }
}

proof fn lemma_collected_sound(root: NodeView, at: Bases, dotfiles: Option<Seq<char>>)
    ensures
        sound(collected(root, at, dotfiles), at),
{
    let none = Collected {
        sources: Seq::empty(),
        rewrites: Seq::empty(),
        issues: no_issues(),
    };
    let p1 = seq![StepView::Key("dotfiles"@)];
    let p2 = seq![StepView::Key("bootstrap"@), StepView::Key("files"@)];
    let p3 = seq![StepView::Key("bootstrap"@), StepView::Key("directories"@)];
    let t1 = root.table("dotfiles"@);
    let t2 = value_at(root, "bootstrap"@, "files"@);
    let t3 = value_at(root, "bootstrap"@, "directories"@);
    lemma_file_table(none, at, "dotfiles"@, p1, t1);
    let c1 = with_file_table(none, at, "dotfiles"@, p1, t1);
    lemma_file_table(c1, at, "bootstrap.files"@, p2, t2);
    let c2 = with_file_table(c1, at, "bootstrap.files"@, p2, t2);
    lemma_file_table(c2, at, "bootstrap.directories"@, p3, t3);
    let c3 = with_file_table(c2, at, "bootstrap.directories"@, p3, t3);
    lemma_root(c3, at, root, dotfiles);
}

proof fn lemma_placed_contains(sorted: Seq<SourceView>, x: SourceView, s: SourceView)
    ensures
        placed(sorted, x).contains(s) <==> sorted.contains(s) || s == x,
    decreases sorted.len(),
{
    if sorted.len() == 0 || !path_lt(path_parts(x.host), path_parts(sorted.last().host)) {
        let all = sorted.push(x);
        assert(all[sorted.len() as int] == x);
        if sorted.contains(s) {
            let i = choose|i: int| 0 <= i < sorted.len() && sorted[i] == s;
            assert(all[i] == s);
        }
    } else {
        let rest = sorted.drop_last();
        let inner = placed(rest, x);
        let all = inner.push(sorted.last());
        lemma_placed_contains(rest, x, s);
        assert(all[inner.len() as int] == sorted.last());
        assert(sorted[sorted.len() - 1] == sorted.last());
        if inner.contains(s) {
            let i = choose|i: int| 0 <= i < inner.len() && inner[i] == s;
            assert(all[i] == s);
        }
        if rest.contains(s) {
            let i = choose|i: int| 0 <= i < rest.len() && rest[i] == s;
            assert(sorted[i] == s);
        }
        if sorted.contains(s) && s != sorted.last() {
            let i = choose|i: int| 0 <= i < sorted.len() && sorted[i] == s;
            assert(rest[i] == s);
        }
    }
}

proof fn lemma_uncovered_contains(some: Seq<SourceView>, all: Seq<SourceView>, s: SourceView)
    ensures
        uncovered(some, all).contains(s) <==> some.contains(s) && !is_covered(all, s),
    decreases some.len(),
{
    if some.len() > 0 {
        let rest = some.drop_last();
        lemma_uncovered_contains(rest, all, s);
        lemma_placed_contains(uncovered(rest, all), some.last(), s);
        assert(some[some.len() - 1] == some.last());
        if rest.contains(s) {
            let i = choose|i: int| 0 <= i < rest.len() && rest[i] == s;
            assert(some[i] == s);
        }
        if some.contains(s) && s != some.last() {
            let i = choose|i: int| 0 <= i < some.len() && some[i] == s;
            assert(rest[i] == s);
        }
    }
}

/// A source above another has fewer names, so going up ends at one that is
/// kept.
proof fn lemma_kept_above(sources: Seq<SourceView>, x: SourceView, guest: Seq<char>)
    requires
        sources.contains(x),
        lies_in(guest, x),
    ensures
        lies_in_some(guest, collapsed(sources)),
    decreases path_parts(x.host).names.len(),
{
    if is_covered(sources, x) {
        let i = choose|i: int| 0 <= i < sources.len() && covers(#[trigger] sources[i], x);
        let y = sources[i];
        let suffix = join(below(path_parts(x.host), path_parts(y.host)), "/"@);
        if guest == x.guest {
            assert(guest == y.guest + "/"@ + suffix);
        } else {
            let rest = choose|rest: Seq<char>| guest == x.guest + "/"@ + rest;
            assert(guest =~= y.guest + "/"@ + (suffix + "/"@ + rest));
        }
        assert(lies_in(guest, y));
        lemma_kept_above(sources, y, guest);
    } else {
        lemma_uncovered_contains(sources, sources, x);
        let kept = collapsed(sources);
        let i = choose|i: int| 0 <= i < kept.len() && kept[i] == x;
        assert(lies_in(guest, kept[i]));
    }
}

/// Every rewrite of a plan points at a copy that is staged, or into one: no
/// value of the guest config dangles.
pub proof fn law_rewrites_point_into_staged_copies(
    root: NodeView,
    at: Bases,
    dotfiles: Option<Seq<char>>,
    i: int,
)
    requires
        0 <= i < collected(root, at, dotfiles).rewrites.len(),
    ensures
        target_of(collected(root, at, dotfiles).rewrites[i].action) matches Some(guest)
            ==> lies_in_some(guest, collapsed(collected(root, at, dotfiles).sources)),
{
    lemma_collected_sound(root, at, dotfiles);
    let c = collected(root, at, dotfiles);
    if let Some(guest) = target_of(c.rewrites[i].action) {
        let k = choose|k: int| 0 <= k < c.sources.len() && lies_in(guest, #[trigger] c.sources[k]);
        lemma_kept_above(c.sources, c.sources[k], guest);
    }
}

/// No two sources of a plan are staged at one guest path, and each is staged
/// where [`guest_path`] says.
pub proof fn law_guest_paths_are_distinct(
    root: NodeView,
    at: Bases,
    dotfiles: Option<Seq<char>>,
    a: SourceView,
    b: SourceView,
)
    requires
        collapsed(collected(root, at, dotfiles).sources).contains(a),
        collapsed(collected(root, at, dotfiles).sources).contains(b),
    ensures
        a.guest == b.guest ==> a == b,
        a.guest == guest_of(path_parts(a.host), path_parts(at.kitchen)).0,
{
    lemma_collected_sound(root, at, dotfiles);
    let sources = collected(root, at, dotfiles).sources;
    lemma_uncovered_contains(sources, sources, a);
    lemma_uncovered_contains(sources, sources, b);
    let i = choose|i: int| 0 <= i < sources.len() && sources[i] == a;
    let j = choose|j: int| 0 <= j < sources.len() && sources[j] == b;
    assert(sources[i].guest == a.guest && sources[j].guest == b.guest);
}

/// Whether sources stand in the order of their host paths, no path twice.
pub open spec fn in_host_order(sources: Seq<SourceView>) -> bool {
    forall|i: int, j: int|
        0 <= i < j < sources.len() ==> path_lt(
            path_parts((#[trigger] sources[i]).host),
            path_parts((#[trigger] sources[j]).host),
        )
}

proof fn lemma_placed_in_order(sorted: Seq<SourceView>, x: SourceView)
    requires
        in_host_order(sorted),
        forall|i: int|
            0 <= i < sorted.len() ==> path_parts((#[trigger] sorted[i]).host) != path_parts(x.host),
    ensures
        in_host_order(placed(sorted, x)),
    decreases sorted.len(),
{
    let r = placed(sorted, x);
    let here = path_parts(x.host);
    if sorted.len() > 0 {
        let n = sorted.len() - 1;
        let last = path_parts(sorted[n].host);
        lemma_path_order(here, last, here);
        if path_lt(here, last) {
            let rest = sorted.drop_last();
            assert forall|i: int, j: int| 0 <= i < j < rest.len() implies path_lt(
                path_parts((#[trigger] rest[i]).host),
                path_parts((#[trigger] rest[j]).host),
            ) by {
                assert(rest[i] == sorted[i] && rest[j] == sorted[j]);
            }
            assert forall|i: int| 0 <= i < rest.len() implies path_parts(
                (#[trigger] rest[i]).host,
            ) != here by {
                assert(rest[i] == sorted[i]);
            }
            lemma_placed_in_order(rest, x);
            let inner = placed(rest, x);
            assert forall|i: int, j: int| 0 <= i < j < r.len() implies path_lt(
                path_parts((#[trigger] r[i]).host),
                path_parts((#[trigger] r[j]).host),
            ) by {
                assert(r[i] == inner[i]);
                if j < inner.len() {
                    assert(r[j] == inner[j]);
                } else {
                    assert(r[j] == sorted[n]);
                    lemma_placed_contains(rest, x, inner[i]);
                    assert(inner.contains(inner[i]));
                    if inner[i] != x {
                        let k = choose|k: int| 0 <= k < rest.len() && rest[k] == inner[i];
                        assert(sorted[k] == inner[i]);
                        assert(path_lt(path_parts(sorted[k].host), path_parts(sorted[n].host)));
                    }
                }
            }
        } else {
            assert forall|i: int, j: int| 0 <= i < j < r.len() implies path_lt(
                path_parts((#[trigger] r[i]).host),
                path_parts((#[trigger] r[j]).host),
            ) by {
                assert(r[i] == sorted[i]);
                if j < sorted.len() {
                    assert(r[j] == sorted[j]);
                } else if i < n {
                    assert(path_lt(path_parts(sorted[i].host), path_parts(sorted[n].host)));
                    lemma_path_order(path_parts(sorted[i].host), last, here);
                }
            }
        }
    }
}

proof fn lemma_uncovered_in_order(some: Seq<SourceView>, all: Seq<SourceView>)
    requires
        forall|i: int, j: int|
            0 <= i < some.len() && 0 <= j < some.len() && path_parts((#[trigger] some[i]).host)
                == path_parts((#[trigger] some[j]).host) ==> i == j,
    ensures
        in_host_order(uncovered(some, all)),
    decreases some.len(),
{
    if some.len() > 0 {
        let fewer = some.drop_last();
        let n = some.len() - 1;
        assert forall|i: int, j: int|
            0 <= i < fewer.len() && 0 <= j < fewer.len() && path_parts((#[trigger] fewer[i]).host)
                == path_parts((#[trigger] fewer[j]).host) implies i == j by {
            assert(fewer[i] == some[i] && fewer[j] == some[j]);
        }
        lemma_uncovered_in_order(fewer, all);
        let rest = uncovered(fewer, all);
        assert forall|i: int| 0 <= i < rest.len() implies path_parts((#[trigger] rest[i]).host)
            != path_parts(some.last().host) by {
            lemma_uncovered_contains(fewer, all, rest[i]);
            assert(rest.contains(rest[i]));
            let k = choose|k: int| 0 <= k < fewer.len() && fewer[k] == rest[i];
            assert(some[k] == rest[i] && some[n] == some.last());
        }
        lemma_placed_in_order(rest, some.last());
    }
}

/// The sources of a plan stand in the order of their host paths, no path
/// twice.
pub proof fn law_sources_are_in_order(root: NodeView, at: Bases, dotfiles: Option<Seq<char>>)
    ensures
        in_host_order(collapsed(collected(root, at, dotfiles).sources)),
{
    lemma_collected_sound(root, at, dotfiles);
    let sources = collected(root, at, dotfiles).sources;
    assert forall|i: int, j: int|
        0 <= i < sources.len() && 0 <= j < sources.len() && path_parts((#[trigger] sources[i]).host)
            == path_parts((#[trigger] sources[j]).host) implies i == j by {
        assert(sources[i].guest == sources[j].guest);
    }
    lemma_uncovered_in_order(sources, sources);
}

/// Collapsing drops exactly the sources that another one covers.
pub proof fn law_collapsing_drops_the_covered(sources: Seq<SourceView>, s: SourceView)
    ensures
        collapsed(sources).contains(s) <==> sources.contains(s) && !is_covered(sources, s),
{
    lemma_uncovered_contains(sources, sources, s);
}

/// A file below the kitchen is staged under the project's directory, with the names that
/// lead to it; any other, in a directory of its own that its parent names.
pub proof fn law_guest_paths(host: PathView, kitchen: PathView, rest: Seq<Seq<char>>)
    requires
        rest.len() > 0,
    ensures
        host.names == kitchen.names + rest && host.absolute == kitchen.absolute ==> guest_of(
            host,
            kitchen,
        ) == ("/opt/kitchen/files"@ + "/project/"@ + join(rest, seq!['/']), false),
        !(host.within(kitchen) && host.names.len() > kitchen.names.len()) ==> guest_of(
            host,
            kitchen,
        ).1 && guest_of(host, kitchen).0 == "/opt/kitchen/files"@ + seq!['/'] + short_hash(
            encode_utf8(
                if host.names.len() == 0 {
                    "/"@
                } else {
                    (PathView { absolute: host.absolute, names: host.names.drop_last() }).text()
                },
            ),
            4,
        ) + seq!['/'] + if host.names.len() == 0 || host.names.last() == ".."@ {
            "root"@
        } else {
            host.names.last()
        },
{
    reveal_strlit("/");
    assert("/"@ =~= seq!['/']);
    let n = kitchen.names.len() as int;
    if host.names == kitchen.names + rest {
        assert(host.names.subrange(0, n) =~= kitchen.names);
        assert(below(host, kitchen) =~= rest);
    }
}

/// A path is staged up to its first name with a wildcard, which and all behind it is a
/// pattern.
pub proof fn law_paths_are_split_at_wildcards(
    absolute: bool,
    plain: Seq<Seq<char>>,
    rest: Seq<Seq<char>>,
)
    requires
        forall|i: int|
            0 <= i < plain.len() ==> !(#[trigger] plain[i]).contains('*') && !plain[i].contains('?')
                && !plain[i].contains('['),
        rest.len() > 0 ==> rest[0].contains('*') || rest[0].contains('?') || rest[0].contains('['),
    ensures
        ({
            let split = glob_split(PathView { absolute, names: plain + rest });
            let prefix = (PathView { absolute, names: plain }).text();
            if rest.len() == 0 {
                split == (prefix, None::<Seq<char>>)
            } else {
                split.1 == Some(join(rest, seq!['/'])) && (absolute || plain.len() > 0 ==> split.0
                    == prefix)
            }
        }),
{
    reveal_strlit("/");
    assert("/"@ =~= seq!['/']);
    let names = plain + rest;
    lemma_literal(plain, rest, 0);
    assert(names.subrange(0, plain.len() as int) =~= plain);
    assert(names.subrange(plain.len() as int, names.len() as int) =~= rest);
}

proof fn lemma_literal(plain: Seq<Seq<char>>, rest: Seq<Seq<char>>, from: int)
    requires
        0 <= from <= plain.len(),
        forall|i: int| 0 <= i < plain.len() ==> !is_glob(#[trigger] plain[i]),
        rest.len() > 0 ==> is_glob(rest[0]),
    ensures
        literal_names(plain + rest, from) == plain.len(),
    decreases plain.len() - from,
{
    let names = plain + rest;
    if from < plain.len() {
        assert(names[from] == plain[from]);
        lemma_literal(plain, rest, from + 1);
    } else if rest.len() > 0 {
        assert(names[from] == rest[0]);
    }
}

/// Where a mentioned path is on the host.
pub open spec fn staged_host(at: Bases, text: Seq<char>) -> Seq<char> {
    glob_split(path_parts(host_path(text, at.base, at.home)->Ok_0)).0
}

/// What a mentioned path is in the guest.
pub open spec fn staged_text(at: Bases, text: Seq<char>) -> Seq<char> {
    let guest = guest_of(path_parts(staged_host(at, text)), path_parts(at.kitchen)).0;
    match glob_split(path_parts(host_path(text, at.base, at.home)->Ok_0)).1 {
        Some(pattern) => guest + seq!['/'] + pattern,
        None => guest,
    }
}

pub open spec fn has_source(c: Collected, host: Seq<char>) -> bool {
    exists|i: int| 0 <= i < c.sources.len() && (#[trigger] c.sources[i]).host == host
}

/// Whether a mention is dealt with: its file is staged and its text rewritten, or
/// something is wrong.
pub open spec fn dealt_with(
    c: Collected,
    at: Bases,
    text: Seq<char>,
    path: Seq<StepView>,
) -> bool {
    ||| c.issues.len() > 0
    ||| {
        &&& host_path(text, at.base, at.home) is Ok
        &&& has_source(c, staged_host(at, text))
        &&& c.rewrites.contains(
            RewriteView { path, action: ActionView::Replace(staged_text(at, text)) },
        )
    }
}

/// Whether nothing is lost from one collection to another.
pub open spec fn holds_all(d: Collected, c: Collected) -> bool {
    &&& c.issues.len() <= d.issues.len()
    &&& forall|host: Seq<char>| #[trigger] has_source(c, host) ==> has_source(d, host)
    &&& forall|rewrite: RewriteView| #[trigger]
        c.rewrites.contains(rewrite) ==> d.rewrites.contains(rewrite)
}

proof fn lemma_pushed<T>(s: Seq<T>, x: T)
    ensures
        s.push(x).contains(x),
        forall|y: T| #[trigger] s.contains(y) ==> s.push(x).contains(y),
{
    assert(s.push(x)[s.len() as int] == x);
    assert forall|y: T| #[trigger] s.contains(y) implies s.push(x).contains(y) by {
        let i = choose|i: int| 0 <= i < s.len() && s[i] == y;
        assert(s.push(x)[i] == y);
    }
}

proof fn lemma_source_found(sources: Seq<SourceView>, host: Seq<char>, guest: Seq<char>, from: int)
    requires
        0 <= from,
    ensures
        source_index(sources, host, from) matches Some(i) ==> from <= i < sources.len()
            && sources[i].host == host,
        guest_index(sources, guest, from) matches Some(i) ==> from <= i < sources.len()
            && sources[i].guest == guest,
    decreases sources.len() - from,
{
    if from < sources.len() {
        lemma_source_found(sources, host, guest, from + 1);
    }
}

proof fn lemma_mentioned(c: Collected, at: Bases, m: Mention)
    ensures
        holds_all(mention(c, at, m).0, c),
        mention(c, at, m).1 is None ==> mention(c, at, m).0.issues.len() > 0,
        mention(c, at, m).1 matches Some(text) ==> {
            &&& host_path(m.text, at.base, at.home) is Ok
            &&& text == staged_text(at, m.text)
            &&& has_source(mention(c, at, m).0, staged_host(at, m.text))
        },
        mention(c, at, m).0.rewrites == c.rewrites,
{
    reveal_strlit("/");
    assert("/"@ =~= seq!['/']);
    let d = mention(c, at, m).0;
    if let Ok(resolved) = host_path(m.text, at.base, at.home) {
        let (host, pattern) = glob_split(path_parts(resolved));
        let (guest, outside) = guest_of(path_parts(host), path_parts(at.kitchen));
        lemma_source_found(c.sources, host, guest, 0);
        assert forall|other: Seq<char>| #[trigger] has_source(c, other) implies has_source(d, other) by {
            let i = choose|i: int|
                0 <= i < c.sources.len() && (#[trigger] c.sources[i]).host == other;
            assert(d.sources[i].host == other);
        }
        match source_index(c.sources, host, 0) {
            Some(i) => {
                assert(d.sources[i].host == host);
            },
            None => {
                if guest_index(c.sources, guest, 0) is None {
                    assert(d.sources[c.sources.len() as int].host == host);
                }
            },
        }
    }
}

proof fn lemma_mentioned_at(c: Collected, at: Bases, m: Mention, path: Seq<StepView>)
    ensures
        holds_all(mention_at(c, at, m, path), c),
        dealt_with(mention_at(c, at, m, path), at, m.text, path),
{
    lemma_mentioned(c, at, m);
    let (next, guest) = mention(c, at, m);
    if let Some(guest) = guest {
        let d = mention_at(c, at, m, path);
        lemma_pushed(
            next.rewrites,
            RewriteView { path, action: ActionView::Replace(guest) },
        );
        assert forall|host: Seq<char>| has_source(next, host) implies #[trigger] has_source(
            d,
            host,
        ) by {
            let i = choose|i: int|
                0 <= i < next.sources.len() && (#[trigger] next.sources[i]).host == host;
            assert(d.sources[i].host == host);
        }
    }
}

proof fn lemma_still_dealt_with(
    c: Collected,
    d: Collected,
    at: Bases,
    text: Seq<char>,
    path: Seq<StepView>,
)
    requires
        holds_all(d, c),
        dealt_with(c, at, text, path),
    ensures
        dealt_with(d, at, text, path),
{
}

proof fn lemma_rewrite_more(c: Collected, rewrite: RewriteView)
    ensures
        holds_all(Collected { rewrites: c.rewrites.push(rewrite), ..c }, c),
{
    let d = Collected { rewrites: c.rewrites.push(rewrite), ..c };
    lemma_pushed(c.rewrites, rewrite);
    assert forall|host: Seq<char>| #[trigger] has_source(c, host) implies has_source(d, host) by {
        let i = choose|i: int| 0 <= i < c.sources.len() && (#[trigger] c.sources[i]).host == host;
        assert(d.sources[i].host == host);
    }
}

proof fn lemma_source_dealt_with(
    c: Collected,
    at: Bases,
    entry: NodeView,
    key: Seq<char>,
    prefix: Seq<StepView>,
)
    ensures
        holds_all(with_source(c, at, entry, key, prefix), c),
        entry.get("source"@) matches Some(node) && node.text is Some ==> dealt_with(
            with_source(c, at, entry, key, prefix),
            at,
            entry.get("source"@)->0.text->0,
            prefix.push(StepView::Key("source"@)),
        ),
{
    if let Some(node) = entry.get("source"@) {
        if let Some(text) = node.text {
            let m = Mention {
                text,
                key,
                span: node.span,
                exclude: exclude_of(entry),
                git_manifest: is_git(entry),
                dotfiles_root: false,
            };
            let path = prefix.push(StepView::Key("source"@));
            lemma_mentioned_at(c, at, m, path);
            let next = mention_at(c, at, m, path);
            let rewrite = RewriteView {
                path: prefix.push(StepView::Key("manifest"@)),
                action: ActionView::Remove,
            };
            lemma_rewrite_more(next, rewrite);
            let d = Collected { rewrites: next.rewrites.push(rewrite), ..next };
            lemma_still_dealt_with(next, d, at, text, path);
        }
    }
}

/// The place of a variant's source.
pub open spec fn variant_path(prefix: Seq<StepView>, j: int) -> Seq<StepView> {
    prefix + seq![
        StepView::Key("variants"@),
        StepView::Index(j as usize),
        StepView::Key("source"@),
    ]
}

proof fn lemma_variants_dealt_with(
    c: Collected,
    at: Bases,
    variants: Seq<NodeView>,
    entry: NodeView,
    key: Seq<char>,
    prefix: Seq<StepView>,
    j: int,
)
    ensures
        holds_all(with_variants(c, at, variants, entry, key, prefix), c),
        0 <= j < variants.len() && (variants[j].get("source"@) matches Some(node)
            && node.text is Some) ==> dealt_with(
            with_variants(c, at, variants, entry, key, prefix),
            at,
            variants[j].get("source"@)->0.text->0,
            variant_path(prefix, j),
        ),
    decreases variants.len(),
{
    if variants.len() > 0 {
        let few = variants.drop_last();
        let rest = with_variants(c, at, few, entry, key, prefix);
        let all = with_variants(c, at, variants, entry, key, prefix);
        lemma_variants_dealt_with(c, at, few, entry, key, prefix, j);
        let index = variants.len() - 1;
        if let Some(node) = variants.last().get("source"@) {
            if let Some(text) = node.text {
                let m = Mention {
                    text,
                    key: indexed(key + ".variants"@, index as nat),
                    span: node.span,
                    exclude: exclude_of(entry),
                    git_manifest: is_git(entry),
                    dotfiles_root: false,
                };
                let path = prefix.push(StepView::Key("variants"@)).push(
                    StepView::Index(index as usize),
                ).push(StepView::Key("source"@));
                assert(path =~= variant_path(prefix, index));
                lemma_mentioned_at(rest, at, m, path);
            }
        }
        if 0 <= j < few.len() {
            assert(few[j] == variants[j]);
            if variants[j].get("source"@) matches Some(node) && node.text is Some {
                lemma_still_dealt_with(
                    rest,
                    all,
                    at,
                    variants[j].get("source"@)->0.text->0,
                    variant_path(prefix, j),
                );
            }
        }
    }
}

/// Whether an entry mentions a file at a place: it is the file itself, or names it as
/// its source or as that of a variant.
pub open spec fn mentions(
    entry: NodeView,
    text: Seq<char>,
    prefix: Seq<StepView>,
    path: Seq<StepView>,
) -> bool {
    ||| entry.text == Some(text) && path == prefix
    ||| entry.text is None && entry.is_table() && (entry.get("source"@) matches Some(node)
        && node.text == Some(text)) && path == prefix + seq![StepView::Key("source"@)]
    ||| entry.text is None && entry.is_table() && (entry.get("variants"@) matches Some(node) && (
    node.elements matches Some(variants) && exists|j: int|
        0 <= j < variants.len() && (#[trigger] variants[j].get("source"@) matches Some(source)
            && source.text == Some(text)) && path == variant_path(prefix, j)))
}

proof fn lemma_entry_dealt_with(
    c: Collected,
    at: Bases,
    label: Seq<char>,
    target: Seq<char>,
    entry: NodeView,
    prefix: Seq<StepView>,
    text: Seq<char>,
    path: Seq<StepView>,
)
    ensures
        holds_all(with_entry(c, at, label, target, entry, prefix), c),
        mentions(entry, text, prefix, path) ==> dealt_with(
            with_entry(c, at, label, target, entry, prefix),
            at,
            text,
            path,
        ),
{
    let key = label + ".\""@ + target + "\""@;
    match entry.text {
        Some(own) => {
            let m = Mention {
                text: own,
                key,
                span: entry.span,
                exclude: Seq::empty(),
                git_manifest: false,
                dotfiles_root: false,
            };
            lemma_mentioned_at(c, at, m, prefix);
        },
        None => {
            if entry.is_table() {
                let next = with_source(c, at, entry, key, prefix);
                lemma_source_dealt_with(c, at, entry, key, prefix);
                assert(prefix.push(StepView::Key("source"@)) =~= prefix + seq![
                    StepView::Key("source"@),
                ]);
                if let Some(node) = entry.get("variants"@) {
                    if let Some(variants) = node.elements {
                        let all = with_variants(next, at, variants, entry, key, prefix);
                        lemma_variants_dealt_with(next, at, variants, entry, key, prefix, -1);
                        if dealt_with(next, at, text, path) {
                            lemma_still_dealt_with(next, all, at, text, path);
                        }
                        if exists|j: int|
                            0 <= j < variants.len() && (#[trigger] variants[j].get(
                                "source"@,
                            ) matches Some(source) && source.text == Some(text)) && path
                                == variant_path(prefix, j) {
                            let j = choose|j: int|
                                0 <= j < variants.len() && (#[trigger] variants[j].get(
                                    "source"@,
                                ) matches Some(source) && source.text == Some(text)) && path
                                    == variant_path(prefix, j);
                            lemma_variants_dealt_with(next, at, variants, entry, key, prefix, j);
                        }
                    }
                }
            }
        },
    }
}

proof fn lemma_entries_dealt_with(
    c: Collected,
    at: Bases,
    label: Seq<char>,
    start: Seq<StepView>,
    entries: Seq<EntryView>,
    k: int,
    text: Seq<char>,
    path: Seq<StepView>,
)
    ensures
        holds_all(with_file_entries(c, at, label, start, entries), c),
        0 <= k < entries.len() && mentions(
            entries[k].node,
            text,
            start.push(StepView::Key(entries[k].key)),
            path,
        ) ==> dealt_with(with_file_entries(c, at, label, start, entries), at, text, path),
    decreases entries.len(),
{
    if entries.len() > 0 {
        let few = entries.drop_last();
        let rest = with_file_entries(c, at, label, start, few);
        let all = with_file_entries(c, at, label, start, entries);
        let last = entries.last();
        lemma_entries_dealt_with(c, at, label, start, few, k, text, path);
        lemma_entry_dealt_with(
            rest,
            at,
            label,
            last.key,
            last.node,
            start.push(StepView::Key(last.key)),
            text,
            path,
        );
        if 0 <= k < few.len() {
            assert(few[k] == entries[k]);
            if mentions(entries[k].node, text, start.push(StepView::Key(entries[k].key)), path) {
                lemma_still_dealt_with(rest, all, at, text, path);
            }
        }
    }
}

proof fn lemma_table_dealt_with(
    c: Collected,
    at: Bases,
    label: Seq<char>,
    start: Seq<StepView>,
    table: Option<NodeView>,
    k: int,
    text: Seq<char>,
    path: Seq<StepView>,
)
    ensures
        holds_all(with_file_table(c, at, label, start, table), c),
        table matches Some(table) && (table.entries matches Some(entries) && 0 <= k < entries.len()
            && mentions(
            entries[k].node,
            text,
            start.push(StepView::Key(entries[k].key)),
            path,
        )) ==> dealt_with(with_file_table(c, at, label, start, table), at, text, path),
{
    if let Some(table) = table {
        if let Some(entries) = table.entries {
            lemma_entries_dealt_with(c, at, label, start, entries, k, text, path);
        }
    }
}

proof fn lemma_root_holds(c: Collected, at: Bases, root: NodeView, dotfiles: Option<Seq<char>>)
    ensures
        holds_all(with_root(c, at, root, dotfiles), c),
        dotfiles matches Some(text) ==> ({
            let all = with_root(c, at, root, dotfiles);
            ||| all.issues.len() > 0
            ||| has_source(all, staged_host(at, text)) && all.rewrites.contains(
                RewriteView {
                    path: seq![
                        StepView::Key("settings"@),
                        StepView::Key("dotfiles"@),
                        StepView::Key("root"@),
                    ],
                    action: ActionView::Ensure(staged_text(at, text)),
                },
            )
        }),
{
    match dotfiles {
        Some(text) => {
            let m = Mention {
                text,
                key: "_.microkitchen.dotfiles"@,
                span: None,
                exclude: Seq::empty(),
                git_manifest: false,
                dotfiles_root: true,
            };
            lemma_mentioned(c, at, m);
            let (next, guest) = mention(c, at, m);
            if let Some(guest) = guest {
                let rewrite = RewriteView { path: root_path(), action: ActionView::Ensure(guest) };
                lemma_rewrite_more(next, rewrite);
                lemma_pushed(next.rewrites, rewrite);
            }
        },
        None => {
            if let Some(node) = dotfiles_root(root) {
                if let Some(text) = node.text {
                    lemma_mentioned_at(
                        c,
                        at,
                        Mention {
                            text,
                            key: "settings.dotfiles.root"@,
                            span: node.span,
                            exclude: Seq::empty(),
                            git_manifest: false,
                            dotfiles_root: true,
                        },
                        root_path(),
                    );
                }
            }
        },
    }
}

/// Every file that `[dotfiles]`, `[bootstrap.files]` or `[bootstrap.directories]`
/// mentions is staged, and where it is mentioned the guest's path is written, unless
/// something is wrong with one of them. So is the directory of dotfiles.
pub proof fn law_every_mentioned_file_is_staged(
    root: NodeView,
    at: Bases,
    dotfiles: Option<Seq<char>>,
    table: NodeView,
    start: Seq<StepView>,
    k: int,
    text: Seq<char>,
    path: Seq<StepView>,
)
    requires
        ({
            ||| root.table("dotfiles"@) == Some(table) && start == seq![StepView::Key("dotfiles"@)]
            ||| (root.table("bootstrap"@) matches Some(bootstrap) && bootstrap.get("files"@) == Some(
                table,
            )) && start == seq![StepView::Key("bootstrap"@), StepView::Key("files"@)]
            ||| (root.table("bootstrap"@) matches Some(bootstrap) && bootstrap.get("directories"@)
                == Some(table)) && start == seq![
                StepView::Key("bootstrap"@),
                StepView::Key("directories"@),
            ]
        }),
        table.entries matches Some(entries) && 0 <= k < entries.len() && mentions(
            entries[k].node,
            text,
            start + seq![StepView::Key(entries[k].key)],
            path,
        ),
    ensures
        dealt_with(collected(root, at, dotfiles), at, text, path),
        dotfiles matches Some(own) ==> ({
            let all = collected(root, at, dotfiles);
            ||| all.issues.len() > 0
            ||| has_source(all, staged_host(at, own)) && all.rewrites.contains(
                RewriteView {
                    path: seq![
                        StepView::Key("settings"@),
                        StepView::Key("dotfiles"@),
                        StepView::Key("root"@),
                    ],
                    action: ActionView::Ensure(staged_text(at, own)),
                },
            )
        }),
{
    let entries = table.entries->0;
    assert(start.push(StepView::Key(entries[k].key)) =~= start + seq![
        StepView::Key(entries[k].key),
    ]);
    let none = Collected { sources: Seq::empty(), rewrites: Seq::empty(), issues: no_issues() };
    let p1 = seq![StepView::Key("dotfiles"@)];
    let p2 = seq![StepView::Key("bootstrap"@), StepView::Key("files"@)];
    let p3 = seq![StepView::Key("bootstrap"@), StepView::Key("directories"@)];
    let t1 = root.table("dotfiles"@);
    let t2 = value_at(root, "bootstrap"@, "files"@);
    let t3 = value_at(root, "bootstrap"@, "directories"@);
    let c1 = with_file_table(none, at, "dotfiles"@, p1, t1);
    let c2 = with_file_table(c1, at, "bootstrap.files"@, p2, t2);
    let c3 = with_file_table(c2, at, "bootstrap.directories"@, p3, t3);
    let all = with_root(c3, at, root, dotfiles);
    lemma_table_dealt_with(none, at, "dotfiles"@, p1, t1, k, text, path);
    lemma_table_dealt_with(c1, at, "bootstrap.files"@, p2, t2, k, text, path);
    lemma_table_dealt_with(c2, at, "bootstrap.directories"@, p3, t3, k, text, path);
    lemma_root_holds(c3, at, root, dotfiles);
    if dealt_with(c1, at, text, path) {
        lemma_still_dealt_with(c1, c2, at, text, path);
    }
    if dealt_with(c2, at, text, path) {
        lemma_still_dealt_with(c2, c3, at, text, path);
    }
    lemma_still_dealt_with(c3, all, at, text, path);
}

/// A file that is mentioned for the first time is staged with what its mention says of
/// it, behind those that are there. Mentioned again, what is left out of it is left out
/// only where both agree, and it follows Git only where both do; the other sources stay.
pub proof fn law_a_mention_adds_its_file(c: Collected, at: Bases, m: Mention)
    requires
        host_path(m.text, at.base, at.home) is Ok,
    ensures
        ({
            let host = staged_host(at, m.text);
            let guest = guest_of(path_parts(host), path_parts(at.kitchen));
            let d = mention(c, at, m).0;
            &&& !has_source(c, host) && (forall|i: int|
                0 <= i < c.sources.len() ==> (#[trigger] c.sources[i]).guest != guest.0) ==> {
                &&& d.sources == c.sources + seq![
                    SourceView {
                        host,
                        guest: guest.0,
                        key: m.key,
                        span: m.span,
                        exclude: m.exclude,
                        git_manifest: m.git_manifest,
                        outside: guest.1,
                        dotfiles_root: m.dotfiles_root,
                    },
                ]
                &&& d.issues == c.issues
            }
            &&& has_source(c, host) ==> {
                &&& d.issues == c.issues && d.sources.len() == c.sources.len()
                &&& forall|i: int|
                    0 <= i < c.sources.len() ==> (d.sources[i] == #[trigger] c.sources[i]
                        || c.sources[i].host == host && d.sources[i] == (SourceView {
                        exclude: d.sources[i].exclude,
                        git_manifest: c.sources[i].git_manifest && m.git_manifest,
                        dotfiles_root: c.sources[i].dotfiles_root || m.dotfiles_root,
                        ..c.sources[i]
                    }) && (d.sources[i].exclude == m.exclude || d.sources[i].exclude.len() == 0) && (
                    c.sources[i].exclude == m.exclude ==> d.sources[i].exclude == m.exclude) && (
                    c.sources[i].exclude != m.exclude ==> d.sources[i].exclude.len() == 0))
            }
        }),
{
    let host = staged_host(at, m.text);
    let guest = guest_of(path_parts(host), path_parts(at.kitchen));
    lemma_source_found(c.sources, host, guest.0, 0);
    lemma_found_if_there(c.sources, host, 0);
    let d = mention(c, at, m).0;
    if !has_source(c, host) && guest_index(c.sources, guest.0, 0) is None {
        assert(d.sources =~= c.sources + seq![d.sources.last()]);
    }
}

proof fn lemma_found_if_there(sources: Seq<SourceView>, host: Seq<char>, from: int)
    requires
        0 <= from,
    ensures
        source_index(sources, host, from) is None <==> forall|i: int|
            from <= i < sources.len() ==> (#[trigger] sources[i]).host != host,
    decreases sources.len() - from,
{
    if from < sources.len() && sources[from].host != host {
        lemma_found_if_there(sources, host, from + 1);
    }
}

/// What is left out of a source are the texts of its `exclude` list; it follows Git where
/// its `manifest` says so.
pub proof fn law_what_is_left_out(entry: NodeView)
    ensures
        exclude_of(entry) == match entry.get("exclude"@) {
            Some(node) => match node.elements {
                Some(nodes) => nodes.flat_map(
                    |element: NodeView|
                        match element.text {
                            Some(text) => seq![text],
                            None => Seq::empty(),
                        },
                ),
                None => Seq::empty(),
            },
            None => Seq::empty(),
        },
        is_git(entry) <==> (entry.get("manifest"@) matches Some(node) && node.text == Some(
            seq!['g', 'i', 't'],
        )),
{
    reveal_strlit("git");
    assert("git"@ =~= seq!['g', 'i', 't']);
    if let Some(node) = entry.get("exclude"@) {
        if let Some(nodes) = node.elements {
            lemma_texts_of(nodes);
        }
    }
}

proof fn lemma_texts_of(nodes: Seq<NodeView>)
    ensures
        texts_of(nodes) == nodes.flat_map(
            |element: NodeView|
                match element.text {
                    Some(text) => seq![text],
                    None => Seq::empty(),
                },
        ),
    decreases nodes.len(),
{
    let f = |element: NodeView|
        match element.text {
            Some(text) => seq![text],
            None => Seq::<Seq<char>>::empty(),
        };
    crate::maps::lemma_flat_map_step(nodes, f);
    if nodes.len() > 0 {
        lemma_texts_of(nodes.drop_last());
        assert(texts_of(nodes) =~= nodes.flat_map(f));
    }
}

/// A source is covered by one above it that is staged whole and at the same place.
pub proof fn law_what_covers_a_source(y: SourceView, x: SourceView)
    ensures
        covers(y, x) <==> exists|rest: Seq<Seq<char>>|
            #![trigger join(rest, seq!['/'])]
            rest.len() > 0 && path_parts(x.host).names == path_parts(y.host).names + rest
                && path_parts(x.host).absolute == path_parts(y.host).absolute && y.exclude.len()
                == 0 && !y.git_manifest && x.guest == y.guest + seq!['/'] + join(rest, seq!['/']),
{
    reveal_strlit("/");
    assert("/"@ =~= seq!['/']);
    let inner = path_parts(x.host);
    let outer = path_parts(y.host);
    let n = outer.names.len() as int;
    if covers(y, x) {
        let rest = below(inner, outer);
        assert(inner.names =~= outer.names + rest);
        assert(join(rest, seq!['/']) == join(rest, "/"@));
    }
    if exists|rest: Seq<Seq<char>>|
        #![trigger join(rest, seq!['/'])]
        rest.len() > 0 && inner.names == outer.names + rest && inner.absolute == outer.absolute
            && y.exclude.len() == 0 && !y.git_manifest && x.guest == y.guest + seq!['/'] + join(
            rest,
            seq!['/'],
        ) {
        let rest = choose|rest: Seq<Seq<char>>|
            #![trigger join(rest, seq!['/'])]
            rest.len() > 0 && inner.names == outer.names + rest && inner.absolute == outer.absolute
                && y.exclude.len() == 0 && !y.git_manifest && x.guest == y.guest + seq!['/'] + join(
                rest,
                seq!['/'],
            );
        assert(inner.names.subrange(0, n) =~= outer.names);
        assert(below(inner, outer) =~= rest);
    }
}

} // verus!
