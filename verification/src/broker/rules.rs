//! Persistent rules come from the kitchen file and from the file for every
//! sandbox, reloaded when they change.
//!
//! Hand edits, `remodel` and approval answers therefore apply to the next
//! flow without restarting anything.

use vstd::prelude::*;

use crate::broker::decision::{read_names, readable, Rules, RulesView};
use crate::config::hostpat::{HostPattern, PatternView};
use crate::config::schema::{opt_str};
use crate::config::staging::texts_of;
use crate::config::walker::{kitchen_of, read_kitchen};
use crate::paths::{path_parts, take_apart};
use crate::text::views;
use crate::tree::{node_views, read_tree, toml_document, Node, NodeView};

verus! {

/// Allowed in every kitchen: the image's own time sync would otherwise prompt
/// every few seconds. A kitchen `deny` still wins (deny rules come first).
pub const BUILTIN_ALLOW: &'static str = "ntp.ubuntu.com";

pub open spec fn builtin_rule() -> PatternView {
    PatternView::Exact(BUILTIN_ALLOW@)
}

/// The directory that a file stands in.
pub open spec fn dir_of(file: Seq<char>) -> Seq<char> {
    match path_parts(file).parent() {
        Some(parent) => parent.text(),
        None => "/"@,
    }
}

/// The rules of a kitchen file's document, with the built-in ones.
pub open spec fn kitchen_rules(
    root: NodeView,
    file: Seq<char>,
    home: Option<Seq<char>>,
) -> RulesView {
    let network = kitchen_of(root, dir_of(file), home).config.network;
    RulesView { allow: network.allow.push(builtin_rule()), deny: network.deny }
}

/// The texts in a list of a document.
pub open spec fn list_texts(root: NodeView, key: Seq<char>) -> Seq<Seq<char>> {
    match root.get(key) {
        Some(node) => match node.elements {
            Some(nodes) => texts_of(nodes),
            None => Seq::empty(),
        },
        None => Seq::empty(),
    }
}

/// The rules for every sandbox: top-level lists.
pub open spec fn global_rules(root: NodeView) -> RulesView {
    RulesView {
        allow: readable(list_texts(root, "allow"@)),
        deny: readable(list_texts(root, "deny"@)),
    }
}

fn builtin_allow() -> (r: HostPattern)
    ensures
        r@ == builtin_rule(),
{
    HostPattern::Exact(BUILTIN_ALLOW.to_owned())
}

/// The `allow`/`deny` lists of a kitchen file, plus [`BUILTIN_ALLOW`];
/// invalid entries are skipped. `None` if the text is not valid TOML.
pub fn parse_rules(file: &str, text: &str, home: Option<&str>) -> (r: Option<Rules>)
    ensures
        match (r, toml_document(text@)) {
            (Some(rules), Ok(root)) => rules@ == kitchen_rules(root, file@, opt_str(home)),
            (None, Err(_)) => true,
            _ => false,
        },
{
    let root = match read_tree(text) {
        Ok(root) => root,
        Err(_) => {
            return None;
        },
    };
    let path = take_apart(file);
    let dir = match path.parent() {
        Some(parent) => parent.text(),
        None => "/".to_owned(),
    };
    let (kitchen, _) = read_kitchen(&root, dir.as_str(), home);
    let mut allow = kitchen.config.network.allow;
    let ghost done = views(allow@);
    allow.push(builtin_allow());
    assert(views(allow@) =~= done.push(builtin_rule()));
    Some(Rules { allow, deny: kitchen.config.network.deny })
}

fn read_list(root: &Node, key: &str) -> (r: Vec<HostPattern>)
    ensures
        views(r@) == readable(list_texts(root@, key@)),
{
    let mut texts: Vec<String> = Vec::new();
    assert(views(texts@) =~= Seq::empty());
    if let Some(node) = root.get(key) {
        if let Some(nodes) = &node.elements {
            let ghost nv = node_views(nodes@);
            let mut i: usize = 0;
            assert(nv.subrange(0, 0) =~= Seq::empty());
            while i < nodes.len()
                invariant
                    i <= nodes@.len(),
                    nv == node_views(nodes@),
                    views(texts@) == texts_of(nv.subrange(0, i as int)),
                decreases nodes@.len() - i,
            {
                assert(nv.subrange(0, i + 1).drop_last() =~= nv.subrange(0, i as int));
                assert(nv.subrange(0, i + 1).last() == nodes@[i as int]@);
                if let Some(text) = &nodes[i].text {
                    let ghost done = views(texts@);
                    texts.push(text.clone());
                    assert(views(texts@) =~= done.push(text@));
                }
                i += 1;
            }
            assert(nv.subrange(0, nv.len() as int) =~= nv);
        }
    }
    read_names(&texts)
}

/// The rules for every sandbox; invalid entries are skipped. `None` if the text
/// is not valid TOML.
pub fn parse_global_rules(text: &str) -> (r: Option<Rules>)
    ensures
        match (r, toml_document(text@)) {
            (Some(rules), Ok(root)) => rules@ == global_rules(root),
            (None, Err(_)) => true,
            _ => false,
        },
{
    match read_tree(text) {
        Ok(root) => Some(
            Rules { allow: read_list(&root, "allow"), deny: read_list(&root, "deny") },
        ),
        Err(_) => None,
    }
}

// ---------------------------------------------------------------------------
// Reloading
// ---------------------------------------------------------------------------

/// When a file was last modified, and its length.
#[derive(Debug, Clone, Copy, PartialEq, Eq, Structural)]
pub struct Stamp {
    pub modified: u64,
    pub len: u64,
}

/// The rules of a kitchen file as last read.
pub struct RuleSource {
    file: String,
    stamp: Option<Stamp>,
    rules: Rules,
}

/// A [`RuleSource`] by its contents.
#[verifier::ext_equal]
pub struct RuleSourceView {
    pub file: Seq<char>,
    pub stamp: Option<Stamp>,
    pub rules: RulesView,
}

impl View for RuleSource {
    type V = RuleSourceView;

    closed spec fn view(&self) -> RuleSourceView {
        RuleSourceView { file: self.file@, stamp: self.stamp, rules: self.rules@ }
    }
}

impl RuleSourceView {
    /// Whether the rules are those of a file with this stamp.
    pub open spec fn is_fresh(self, stamp: Option<Stamp>) -> bool {
        stamp is Some && self.stamp == stamp
    }

    /// The rules after a look at the file: `text` is what it holds, if it can
    /// be read. If it cannot be read or parsed, the last good rules stay in
    /// effect.
    pub open spec fn refreshed(
        self,
        stamp: Option<Stamp>,
        text: Option<Seq<char>>,
        home: Option<Seq<char>>,
    ) -> RuleSourceView {
        if self.is_fresh(stamp) {
            self
        } else {
            match text {
                None => self,
                Some(text) => match toml_document(text) {
                    Err(_) => self,
                    Ok(root) => RuleSourceView {
                        file: self.file,
                        stamp,
                        rules: kitchen_rules(root, self.file, home),
                    },
                },
            }
        }
    }
}

impl RuleSource {
    /// Before the kitchen file is first read, only the built-ins apply.
    pub fn new(file: &str) -> (r: Self)
        ensures
            r@ == (RuleSourceView {
                file: file@,
                stamp: None,
                rules: RulesView { allow: seq![builtin_rule()], deny: Seq::empty() },
            }),
    {
        let mut allow: Vec<HostPattern> = Vec::new();
        allow.push(builtin_allow());
        let deny: Vec<HostPattern> = Vec::new();
        assert(views(allow@) =~= seq![builtin_rule()]);
        assert(views(deny@) =~= Seq::empty());
        RuleSource { file: file.to_owned(), stamp: None, rules: Rules { allow, deny } }
    }

    pub fn file(&self) -> (r: &str)
        ensures
            r@ == self@.file,
    {
        self.file.as_str()
    }

    /// Whether the file need not be read again.
    pub fn is_fresh(&self, stamp: Option<Stamp>) -> (r: bool)
        ensures
            r == self@.is_fresh(stamp),
    {
        match (stamp, self.stamp) {
            (Some(now), Some(then)) => now == then,
            _ => false,
        }
    }

    /// Take over what the file holds now.
    pub fn refresh(&mut self, stamp: Option<Stamp>, text: Option<&str>, home: Option<&str>)
        ensures
            final(self)@ == old(self)@.refreshed(stamp, opt_str(text), opt_str(home)),
    {
        if self.is_fresh(stamp) {
            return;
        }
        if let Some(text) = text {
            if let Some(rules) = parse_rules(self.file.as_str(), text, home) {
                self.rules = rules;
                self.stamp = stamp;
            }
        }
    }

    /// The rules as of the last look at the file.
    pub fn current(&self) -> (r: &Rules)
        ensures
            r@ == self@.rules,
    {
        &self.rules
    }
}

/// The rules for every sandbox as last read.
pub struct GlobalRules {
    stamp: Option<Stamp>,
    rules: Rules,
}

/// [`GlobalRules`] by their contents.
#[verifier::ext_equal]
pub struct GlobalView {
    pub stamp: Option<Stamp>,
    pub rules: RulesView,
}

impl View for GlobalRules {
    type V = GlobalView;

    closed spec fn view(&self) -> GlobalView {
        GlobalView { stamp: self.stamp, rules: self.rules@ }
    }
}

impl GlobalView {
    pub open spec fn is_fresh(self, stamp: Option<Stamp>) -> bool {
        stamp is Some && self.stamp == stamp
    }

    /// The rules after a look at the file; see [`RuleSourceView::refreshed`].
    pub open spec fn refreshed(
        self,
        stamp: Option<Stamp>,
        text: Option<Seq<char>>,
    ) -> GlobalView {
        if self.is_fresh(stamp) {
            self
        } else {
            match text {
                None => self,
                Some(text) => match toml_document(text) {
                    Err(_) => self,
                    Ok(root) => GlobalView { stamp, rules: global_rules(root) },
                },
            }
        }
    }
}

impl Default for GlobalRules {
    /// Before the file is first read there are none.
    fn default() -> (r: Self)
        ensures
            r@ == (GlobalView {
                stamp: None,
                rules: RulesView { allow: Seq::empty(), deny: Seq::empty() },
            }),
    {
        GlobalRules { stamp: None, rules: Rules::default() }
    }
}

impl GlobalRules {
    /// Whether the file need not be read again.
    pub fn is_fresh(&self, stamp: Option<Stamp>) -> (r: bool)
        ensures
            r == self@.is_fresh(stamp),
    {
        match (stamp, self.stamp) {
            (Some(now), Some(then)) => now == then,
            _ => false,
        }
    }

    /// Take over what the file holds now.
    pub fn refresh(&mut self, stamp: Option<Stamp>, text: Option<&str>)
        ensures
            final(self)@ == old(self)@.refreshed(stamp, opt_str(text)),
    {
        if self.is_fresh(stamp) {
            return;
        }
        if let Some(text) = text {
            if let Some(rules) = parse_global_rules(text) {
                self.rules = rules;
                self.stamp = stamp;
            }
        }
    }

    /// The rules as of the last look at the file.
    pub fn current(&self) -> (r: &Rules)
        ensures
            r@ == self@.rules,
    {
        &self.rules
    }
}

// ---------------------------------------------------------------------------
// Laws
// ---------------------------------------------------------------------------

/// Whatever the kitchen file says, the built-in rules are among its `allow`
/// rules, and its own come first.
pub proof fn law_builtins_always_apply(
    root: NodeView,
    file: Seq<char>,
    home: Option<Seq<char>>,
)
    ensures
        kitchen_rules(root, file, home).allow.last() == builtin_rule(),
        kitchen_rules(root, file, home).allow.drop_last() == kitchen_of(
            root,
            dir_of(file),
            home,
        ).config.network.allow,
{
    assert(kitchen_rules(root, file, home).allow.drop_last() =~= kitchen_of(
        root,
        dir_of(file),
        home,
    ).config.network.allow);
}

/// A file that cannot be read or parsed keeps the last good rules.
pub proof fn law_broken_files_keep_the_rules(
    source: RuleSourceView,
    stamp: Option<Stamp>,
    text: Option<Seq<char>>,
    home: Option<Seq<char>>,
)
    requires
        text matches Some(text) ==> toml_document(text) is Err,
    ensures
        source.refreshed(stamp, text, home) == source,
{
}

/// The rules of a kitchen are those of its file, read with its directory, and one more
/// that allows `ntp.ubuntu.com`.
pub proof fn law_kitchen_rules_are_those_of_the_file(
    root: NodeView,
    file: Seq<char>,
    home: Option<Seq<char>>,
)
    ensures
        kitchen_rules(root, file, home).allow == kitchen_of(
            root,
            dir_of(file),
            home,
        ).config.network.allow + seq![PatternView::Exact("ntp.ubuntu.com"@)],
        kitchen_rules(root, file, home).deny == kitchen_of(
            root,
            dir_of(file),
            home,
        ).config.network.deny,
        dir_of(file) == if path_parts(file).names.len() == 0 {
            "/"@
        } else {
            (crate::paths::PathView {
                absolute: path_parts(file).absolute,
                names: path_parts(file).names.drop_last(),
            }).text()
        },
{
    assert(kitchen_rules(root, file, home).allow =~= kitchen_of(
        root,
        dir_of(file),
        home,
    ).config.network.allow + seq![PatternView::Exact("ntp.ubuntu.com"@)]);
}

/// The rules of the global file are the entries of its `allow` and `deny` lists that
/// can be read, in order.
pub proof fn law_global_rules_are_those_of_the_file(root: NodeView)
    ensures
        global_rules(root).allow == rules_at(root, "allow"@),
        global_rules(root).deny == rules_at(root, "deny"@),
{
    lemma_rules_at(root, "allow"@);
    lemma_rules_at(root, "deny"@);
}

/// The rules that the strings of a list write.
pub open spec fn rules_at(root: NodeView, key: Seq<char>) -> Seq<PatternView> {
    match root.get(key) {
        Some(node) => match node.elements {
            Some(nodes) => nodes.flat_map(
                |element: NodeView|
                    match element.text {
                        Some(text) => match crate::config::hostpat::pattern_text(text) {
                            Ok(pattern) => seq![pattern],
                            Err(_) => Seq::empty(),
                        },
                        None => Seq::empty(),
                    },
            ),
            None => Seq::empty(),
        },
        None => Seq::empty(),
    }
}

proof fn lemma_rules_at(root: NodeView, key: Seq<char>)
    ensures
        readable(list_texts(root, key)) == rules_at(root, key),
{
    if let Some(node) = root.get(key) {
        if let Some(nodes) = node.elements {
            lemma_rules_of(nodes);
        }
    }
}

proof fn lemma_rules_of(nodes: Seq<NodeView>)
    ensures
        readable(texts_of(nodes)) == nodes.flat_map(
            |element: NodeView|
                match element.text {
                    Some(text) => match crate::config::hostpat::pattern_text(text) {
                        Ok(pattern) => seq![pattern],
                        Err(_) => Seq::empty(),
                    },
                    None => Seq::empty(),
                },
        ),
    decreases nodes.len(),
{
    let f = |element: NodeView|
        match element.text {
            Some(text) => match crate::config::hostpat::pattern_text(text) {
                Ok(pattern) => seq![pattern],
                Err(_) => Seq::<PatternView>::empty(),
            },
            None => Seq::<PatternView>::empty(),
        };
    crate::maps::lemma_flat_map_step(nodes, f);
    if nodes.len() > 0 {
        let rest = nodes.drop_last();
        lemma_rules_of(rest);
        if let Some(text) = nodes.last().text {
            assert(texts_of(nodes).drop_last() =~= texts_of(rest));
            assert(texts_of(nodes).last() == text);
        }
        assert(readable(texts_of(nodes)) =~= nodes.flat_map(f));
    }
}

/// A file that has not changed is not read again; one that has, and can be read, gives
/// the rules from then on.
pub proof fn law_changed_files_are_read_again(
    source: RuleSourceView,
    global: GlobalView,
    stamp: Option<Stamp>,
    text: Seq<char>,
    home: Option<Seq<char>>,
)
    ensures
        stamp is Some && source.stamp == stamp ==> source.refreshed(stamp, Some(text), home)
            == source,
        stamp is Some && global.stamp == stamp ==> global.refreshed(stamp, Some(text)) == global,
        (stamp is None || source.stamp != stamp) ==> (toml_document(text) matches Ok(root) ==> {
            let after = source.refreshed(stamp, Some(text), home);
            &&& after.rules == kitchen_rules(root, source.file, home)
            &&& after.stamp == stamp && after.file == source.file
        }),
        (stamp is None || global.stamp != stamp) ==> (toml_document(text) matches Ok(root) ==> {
            let after = global.refreshed(stamp, Some(text));
            after.rules == global_rules(root) && after.stamp == stamp
        }),
        toml_document(text) is Err ==> global.refreshed(stamp, Some(text)) == global,
        global.refreshed(stamp, None) == global,
        source.refreshed(stamp, None, home) == source,
{
}

} // verus!
