//! Comment-preserving edits to the kitchen file.
//!
//! Used by approval decisions and `microkitchen net allow|deny|revoke`. Writers
//! are serialized through a lock in `~/.microkitchen` and replace the file
//! atomically.

use vstd::prelude::*;

use crate::config::document::{
    child_mut, editable_document, ends_plainly, fits, inner_nesting, inner_parts, is_blank, is_full,
    is_header_table, is_readable, is_settled, lemma_child_then_get, lemma_fits_child,
    lemma_fits_with, lemma_put_then_get, lemma_same_get, lemma_text_reads_back, open_document,
    print_document, prints, push_text, put, reads_back, remove_element, root_mut, root_of,
    same_contents, set_prefix, set_suffix, stays, text_value, vanishes, with_child, with_put, Fresh,
    MAX_DEPTH,
};
use crate::config::hostpat::{pattern_text, HostPattern, PatternErrorView, PatternView};
use crate::text::{
    after, chars, concat, concat3, find_last, last_index, opt_view, string_of, views,
};
use crate::tree::{
    item_tree, node_of, node_views, well_keyed, Node, NodeView, SyntaxError, SyntaxErrorView,
};

verus! {

// ---------------------------------------------------------------------------
// Types
// ---------------------------------------------------------------------------

/// Which list of `[_.microkitchen.network]` to edit.
#[derive(Debug, Clone, Copy, PartialEq, Eq, Structural)]
pub enum RuleList {
    Allow,
    Deny,
}

/// What an edit changed.
#[derive(Debug, Clone, Copy, PartialEq, Eq, Structural)]
pub struct RuleChange {
    /// The rule was appended to the target list (it was not already there).
    pub added: bool,
    /// The rule was removed from the opposite list.
    pub removed_from_other: bool,
}

/// Why a file cannot be edited.
#[derive(Debug, PartialEq, Eq)]
pub enum EditError {
    /// The file is not valid TOML.
    Syntax(SyntaxError),
    /// The value of this key is not a table.
    NotATable(String),
    /// The value of this key is not an array.
    NotAnArray(String),
}

/// An [`EditError`] by its contents.
pub enum EditErrorView {
    Syntax(SyntaxErrorView),
    NotATable(Seq<char>),
    NotAnArray(Seq<char>),
}

impl View for EditError {
    type V = EditErrorView;

    open spec fn view(&self) -> EditErrorView {
        match self {
            EditError::Syntax(error) => EditErrorView::Syntax(error@),
            EditError::NotATable(key) => EditErrorView::NotATable(key@),
            EditError::NotAnArray(key) => EditErrorView::NotAnArray(key@),
        }
    }
}

impl EditErrorView {
    pub open spec fn text(self) -> Seq<char> {
        match self {
            EditErrorView::Syntax(error) => "the file is not valid TOML: "@ + error.message,
            EditErrorView::NotATable(key) => "`"@ + key + "` is not a table"@,
            EditErrorView::NotAnArray(key) => "`"@ + key + "` is not an array"@,
        }
    }
}

impl EditError {
    pub fn to_text(&self) -> (r: String)
        ensures
            r@ == self@.text(),
    {
        match self {
            EditError::Syntax(error) => concat(
                "the file is not valid TOML: ",
                error.message.as_str(),
            ),
            EditError::NotATable(key) => concat3("`", key.as_str(), "` is not a table"),
            EditError::NotAnArray(key) => concat3("`", key.as_str(), "` is not an array"),
        }
    }
}

impl Default for RuleChange {
    fn default() -> (r: Self)
        ensures
            r == (RuleChange { added: false, removed_from_other: false }),
    {
        RuleChange { added: false, removed_from_other: false }
    }
}

impl RuleList {
    pub open spec fn spec_key(self) -> Seq<char> {
        match self {
            RuleList::Allow => "allow"@,
            RuleList::Deny => "deny"@,
        }
    }

    pub open spec fn spec_other(self) -> RuleList {
        match self {
            RuleList::Allow => RuleList::Deny,
            RuleList::Deny => RuleList::Allow,
        }
    }

    pub fn key(self) -> (r: &'static str)
        ensures
            r@ == self.spec_key(),
    {
        match self {
            RuleList::Allow => "allow",
            RuleList::Deny => "deny",
        }
    }

    pub fn other(self) -> (r: Self)
        ensures
            r == self.spec_other(),
    {
        match self {
            RuleList::Allow => RuleList::Deny,
            RuleList::Deny => RuleList::Allow,
        }
    }
}

impl RuleChange {
    pub fn is_noop(self) -> (r: bool)
        ensures
            r == (!self.added && !self.removed_from_other),
    {
        !self.added && !self.removed_from_other
    }
}

// ---------------------------------------------------------------------------
// Rules in a list
// ---------------------------------------------------------------------------

/// Whether an element of a list is a rule. Entries are compared as parsed
/// patterns, so `Example.com` and `example.com` are the same rule.
pub open spec fn is_rule(node: NodeView, rule: PatternView) -> bool {
    match node.text {
        Some(text) => pattern_text(text) == Ok::<PatternView, PatternErrorView>(rule),
        None => false,
    }
}

pub open spec fn has_rule(elements: Seq<NodeView>, rule: PatternView) -> bool {
    exists|i: int| 0 <= i < elements.len() && is_rule(#[trigger] elements[i], rule)
}

/// The elements that are not the rule.
pub open spec fn without_rule(elements: Seq<NodeView>, rule: PatternView) -> Seq<NodeView>
    decreases elements.len(),
{
    if elements.len() == 0 {
        Seq::empty()
    } else {
        let rest = without_rule(elements.drop_last(), rule);
        if is_rule(elements.last(), rule) {
            rest
        } else {
            rest.push(elements.last())
        }
    }
}

/// A list without a rule. The new first element takes over the old first
/// element's spacing.
pub open spec fn dropped(list: NodeView, rule: PatternView) -> NodeView {
    let before = list.elements->0;
    let left = without_rule(before, rule);
    NodeView {
        elements: Some(
            if left.len() != before.len() && left.len() > 0 && before[0].prefix is Some {
                left.update(0, NodeView { prefix: before[0].prefix, ..left[0] })
            } else {
                left
            },
        ),
        ..list
    }
}

/// The indentation of an element: its spacing from the last line break on, or
/// one blank.
pub open spec fn indent(prefix: Option<Seq<char>>) -> Seq<char> {
    let text = match prefix {
        Some(text) => text,
        None => ""@,
    };
    match last_index(text, '\n') {
        Some(newline) => if is_blank(after(text, newline)) {
            after(text, newline)
        } else {
            " "@
        },
        None => " "@,
    }
}

/// A list with a rule appended, keeping the layout of multi-line arrays: the
/// new element gets the indentation of the last element (but none of its
/// comments).
pub open spec fn appended(list: NodeView, rule: PatternView) -> NodeView {
    let elements = list.elements->0;
    let value = text_value(rule.text());
    NodeView {
        elements: Some(
            elements.push(
                if elements.len() == 0 {
                    value
                } else {
                    NodeView {
                        prefix: Some(indent(elements.last().prefix)),
                        suffix: Some(""@),
                        ..value
                    }
                },
            ),
        ),
        ..list
    }
}

// ---------------------------------------------------------------------------
// Rules in a table
// ---------------------------------------------------------------------------

/// Whether the value under a key, if there is one, is an array.
pub open spec fn list_ok(table: NodeView, key: Seq<char>) -> bool {
    match table.get(key) {
        Some(list) => list.elements is Some,
        None => true,
    }
}

/// A table whose list under a key, if there is one, has no rule.
pub open spec fn list_dropped(table: NodeView, key: Seq<char>, rule: PatternView) -> NodeView {
    match table.get(key) {
        Some(list) => with_child(table, key, dropped(list, rule)),
        None => table,
    }
}

pub open spec fn list_has(table: NodeView, key: Seq<char>, rule: PatternView) -> bool {
    match table.get(key) {
        Some(list) => has_rule(list.elements->0, rule),
        None => false,
    }
}

/// A table with a list under a key, an empty one where it has none.
pub open spec fn with_list(table: NodeView, key: Seq<char>) -> NodeView {
    match table.get(key) {
        Some(_) => table,
        None => with_put(
            table,
            key,
            NodeView {
                elements: Some(Seq::empty()),
                ..crate::config::document::bare()
            },
        ),
    }
}

/// A table with a rule put into one list, and taken out of the other.
pub open spec fn rule_set(table: NodeView, list: RuleList, rule: PatternView) -> Result<
    (NodeView, RuleChange),
    EditErrorView,
> {
    let key = list.spec_key();
    let other = list.spec_other().spec_key();
    if !list_ok(table, other) {
        Err(EditErrorView::NotAnArray(other))
    } else if !list_ok(table, key) {
        Err(EditErrorView::NotAnArray(key))
    } else {
        let moved = list_dropped(with_list(table, key), other, rule);
        let change = RuleChange {
            added: !list_has(table, key, rule),
            removed_from_other: list_has(table, other, rule),
        };
        if change.added {
            Ok((with_child(moved, key, appended(moved.get(key)->0, rule)), change))
        } else {
            Ok((moved, change))
        }
    }
}

/// A table with a rule taken out of both lists, and whether it was there.
pub open spec fn rule_revoked(table: NodeView, rule: PatternView) -> Result<
    (NodeView, bool),
    EditErrorView,
> {
    if !list_ok(table, "allow"@) {
        Err(EditErrorView::NotAnArray("allow"@))
    } else if !list_ok(table, "deny"@) {
        Err(EditErrorView::NotAnArray("deny"@))
    } else {
        Ok(
            (
                list_dropped(list_dropped(table, "allow"@, rule), "deny"@, rule),
                list_has(table, "allow"@, rule) || list_has(table, "deny"@, rule),
            ),
        )
    }
}

// ---------------------------------------------------------------------------
// Tables in a document
// ---------------------------------------------------------------------------

/// Where the rules of a kitchen file stand: in the network table of the
/// existing microkitchen section, else in `[_.microkitchen.network]`.
pub open spec fn network_keys(root: NodeView) -> Seq<Seq<char>> {
    let has_underscore = match root.get("_"@) {
        Some(underscore) => underscore.get("microkitchen"@) is Some,
        None => false,
    };
    if !has_underscore && root.get("microkitchen"@) is Some {
        seq!["microkitchen"@, "network"@]
    } else {
        seq!["_"@, "microkitchen"@, "network"@]
    }
}

/// An empty table inside another one: inline inside inline tables, otherwise
/// with or without a header of its own.
pub open spec fn fresh_table(parent: NodeView, implicit: bool) -> NodeView {
    NodeView {
        entries: Some(Seq::empty()),
        inline: parent.inline,
        implicit: implicit && !parent.inline,
        ..crate::config::document::bare()
    }
}

/// A table with a table under a key, created where there is none.
pub open spec fn prepared(node: NodeView, key: Seq<char>, implicit: bool) -> NodeView {
    match node.get(key) {
        Some(_) => node,
        None => with_put(node, key, fresh_table(node, implicit)),
    }
}

/// The table at the end of a chain of keys, with what is missing created.
pub open spec fn reached(node: NodeView, keys: Seq<Seq<char>>, from: int) -> Result<
    NodeView,
    EditErrorView,
>
    decreases keys.len() - from,
{
    if from < 0 || from >= keys.len() {
        Ok(node)
    } else {
        let child = prepared(node, keys[from], from + 1 < keys.len()).get(keys[from])->0;
        if child.entries is None {
            Err(EditErrorView::NotATable(keys[from]))
        } else {
            reached(child, keys, from + 1)
        }
    }
}

/// A tree with another table at the end of a chain of keys.
pub open spec fn replaced_at(
    node: NodeView,
    keys: Seq<Seq<char>>,
    from: int,
    table: NodeView,
) -> NodeView
    decreases keys.len() - from,
{
    if from < 0 || from >= keys.len() {
        table
    } else {
        let before = prepared(node, keys[from], from + 1 < keys.len());
        with_child(
            before,
            keys[from],
            replaced_at(before.get(keys[from])->0, keys, from + 1, table),
        )
    }
}

/// Whether every key of a chain is there.
pub open spec fn chain_exists(node: NodeView, keys: Seq<Seq<char>>, from: int) -> bool
    decreases keys.len() - from,
{
    if from < 0 || from >= keys.len() {
        true
    } else {
        match node.get(keys[from]) {
            Some(child) => chain_exists(child, keys, from + 1),
            None => false,
        }
    }
}

/// A document with a rule set in the table at the end of a chain of keys.
pub open spec fn document_rule_set(
    root: NodeView,
    keys: Seq<Seq<char>>,
    list: RuleList,
    rule: PatternView,
) -> Result<(NodeView, RuleChange), EditErrorView> {
    match reached(root, keys, 0) {
        Err(error) => Err(error),
        Ok(table) => match rule_set(table, list, rule) {
            Err(error) => Err(error),
            Ok((table, change)) => Ok((replaced_at(root, keys, 0, table), change)),
        },
    }
}

/// A document with a rule revoked from the table at the end of a chain of keys.
/// Where there is no such table, nothing changes.
pub open spec fn document_rule_revoked(
    root: NodeView,
    keys: Seq<Seq<char>>,
    rule: PatternView,
) -> Result<(NodeView, bool), EditErrorView> {
    if !chain_exists(root, keys, 0) {
        Ok((root, false))
    } else {
        match reached(root, keys, 0) {
            Err(error) => Err(error),
            Ok(table) => match rule_revoked(table, rule) {
                Err(error) => Err(error),
                Ok((table, removed)) => Ok((replaced_at(root, keys, 0, table), removed)),
            },
        }
    }
}

// ---------------------------------------------------------------------------
// Editing lists
// ---------------------------------------------------------------------------

proof fn lemma_without_rule(elements: Seq<NodeView>, rule: PatternView)
    ensures
        without_rule(elements, rule).len() <= elements.len(),
        without_rule(elements, rule).len() == elements.len() <==> !has_rule(elements, rule),
        !has_rule(elements, rule) ==> without_rule(elements, rule) == elements,
        !has_rule(without_rule(elements, rule), rule),
    decreases elements.len(),
{
    if elements.len() > 0 {
        let rest = elements.drop_last();
        lemma_without_rule(rest, rule);
        let left = without_rule(rest, rule);
        if is_rule(elements.last(), rule) {
            assert(is_rule(elements[elements.len() - 1], rule));
        } else {
            let all = left.push(elements.last());
            if has_rule(all, rule) {
                let k = choose|k: int| 0 <= k < all.len() && is_rule(#[trigger] all[k], rule);
                assert(is_rule(left[k], rule));
            }
            if has_rule(elements, rule) {
                let k = choose|k: int|
                    0 <= k < elements.len() && is_rule(#[trigger] elements[k], rule);
                assert(is_rule(rest[k], rule));
            }
            if has_rule(rest, rule) {
                let k = choose|k: int| 0 <= k < rest.len() && is_rule(#[trigger] rest[k], rule);
                assert(is_rule(elements[k], rule));
            }
            if !has_rule(elements, rule) {
                assert(all =~= elements);
            }
        }
    }
}

fn matches_rule(node: &Node, rule: &HostPattern) -> (r: bool)
    ensures
        r == is_rule(node@, rule@),
{
    match &node.text {
        Some(text) => match HostPattern::from_str(text.as_str()) {
            Ok(pattern) => pattern.equals(rule),
            Err(_) => false,
        },
        None => false,
    }
}

fn contains_rule(elements: &Vec<Node>, rule: &HostPattern) -> (r: bool)
    ensures
        r == has_rule(node_views(elements@), rule@),
{
    let ghost ev = node_views(elements@);
    let mut i: usize = 0;
    while i < elements.len()
        invariant
            i <= elements@.len(),
            ev == node_views(elements@),
            forall|k: int| 0 <= k < i ==> !is_rule(#[trigger] ev[k], rule@),
        decreases elements@.len() - i,
    {
        assert(ev[i as int] == elements@[i as int]@);
        if matches_rule(&elements[i], rule) {
            assert(is_rule(ev[i as int], rule@));
            return true;
        }
        i += 1;
    }
    false
}

/// Giving the first element that stays another spacing commutes with dropping
/// the rule.
proof fn lemma_respaced(elements: Seq<NodeView>, rule: PatternView, at: int, prefix: Seq<char>)
    requires
        0 <= at < elements.len(),
        forall|k: int| 0 <= k < at ==> is_rule(#[trigger] elements[k], rule),
        !is_rule(elements[at], rule),
    ensures
        without_rule(elements, rule).len() > 0,
        without_rule(
            elements.update(at, NodeView { prefix: Some(prefix), ..elements[at] }),
            rule,
        ) == without_rule(elements, rule).update(
            0,
            NodeView { prefix: Some(prefix), ..without_rule(elements, rule)[0] },
        ),
    decreases elements.len(),
{
    let spaced = elements.update(at, NodeView { prefix: Some(prefix), ..elements[at] });
    let rest = elements.drop_last();
    if at == elements.len() - 1 {
        lemma_all_dropped(rest, rule);
        assert(spaced.drop_last() =~= rest);
    } else {
        assert(spaced.drop_last() =~= rest.update(
            at,
            NodeView { prefix: Some(prefix), ..rest[at] },
        ));
        lemma_respaced(rest, rule, at, prefix);
    }
    assert(without_rule(spaced, rule) =~= without_rule(elements, rule).update(
        0,
        NodeView { prefix: Some(prefix), ..without_rule(elements, rule)[0] },
    ));
}

proof fn lemma_all_dropped(elements: Seq<NodeView>, rule: PatternView)
    requires
        forall|k: int| 0 <= k < elements.len() ==> is_rule(#[trigger] elements[k], rule),
    ensures
        without_rule(elements, rule) == Seq::<NodeView>::empty(),
    decreases elements.len(),
{
    if elements.len() > 0 {
        let rest = elements.drop_last();
        assert forall|k: int| 0 <= k < rest.len() implies is_rule(#[trigger] rest[k], rule) by {
            assert(rest[k] == elements[k]);
        }
        lemma_all_dropped(rest, rule);
        assert(is_rule(elements[elements.len() - 1], rule));
    }
}

/// Remove every element that is the rule.
fn remove_all(list: &mut toml_edit::Item, elements: &Vec<Node>, rule: &HostPattern)
    requires
        is_settled(*old(list)),
        item_tree(*old(list)).elements is Some,
        item_tree(*old(list)).elements->0.len() == elements@.len(),
        forall|k: int|
            0 <= k < elements@.len() ==> is_rule(#[trigger] elements@[k]@, rule@) == is_rule(
                item_tree(*old(list)).elements->0[k],
                rule@,
            ),
    ensures
        stays(*old(list), *final(list)),
        item_tree(*final(list)) == (NodeView {
            elements: Some(without_rule(item_tree(*old(list)).elements->0, rule@)),
            ..item_tree(*old(list))
        }),
{
    let ghost before = item_tree(*list);
    let ghost ev = before.elements->0;
    let ghost start = *list;
    let mut kept: usize = 0;
    let mut i: usize = 0;
    assert(ev.subrange(0, 0) =~= Seq::empty());
    assert(without_rule(ev.subrange(0, 0), rule@) + ev.subrange(0, ev.len() as int) =~= ev);
    while i < elements.len()
        invariant
            i <= elements@.len(),
            ev.len() == elements@.len(),
            forall|k: int|
                0 <= k < elements@.len() ==> is_rule(#[trigger] elements@[k]@, rule@) == is_rule(
                    ev[k],
                    rule@,
                ),
            before == item_tree(start),
            before.elements is Some,
            stays(start, *list),
            item_tree(*list) == (NodeView {
                elements: Some(
                    without_rule(ev.subrange(0, i as int), rule@) + ev.subrange(
                        i as int,
                        ev.len() as int,
                    ),
                ),
                ..before
            }),
            kept == without_rule(ev.subrange(0, i as int), rule@).len(),
            kept <= i,
        decreases elements@.len() - i,
    {
        let ghost done = without_rule(ev.subrange(0, i as int), rule@);
        assert(ev.subrange(0, i + 1).drop_last() =~= ev.subrange(0, i as int));
        assert(ev.subrange(0, i + 1).last() == ev[i as int]);
        assert(is_rule(elements@[i as int]@, rule@) == is_rule(ev[i as int], rule@));
        if matches_rule(&elements[i], rule) {
            remove_element(list, kept);
            assert((done + ev.subrange(i as int, ev.len() as int)).remove(kept as int) =~= done
                + ev.subrange(i + 1, ev.len() as int));
        } else {
            kept += 1;
            assert(done + ev.subrange(i as int, ev.len() as int) =~= done.push(ev[i as int])
                + ev.subrange(i + 1, ev.len() as int));
        }
        i += 1;
    }
    assert(ev.subrange(0, ev.len() as int) =~= ev);
    let ghost left = without_rule(ev, rule@);
    assert(left + ev.subrange(ev.len() as int, ev.len() as int) =~= left);
}

/// Take a rule out of a list.
fn drop_rule(list: &mut toml_edit::Item, rule: &HostPattern) -> (r: bool)
    requires
        is_settled(*old(list)),
        item_tree(*old(list)).elements is Some,
    ensures
        stays(*old(list), *final(list)),
        item_tree(*final(list)) == dropped(item_tree(*old(list)), rule@),
        r == has_rule(item_tree(*old(list)).elements->0, rule@),
{
    let ghost before = item_tree(*list);
    let ghost ev = before.elements->0;
    let node = node_of(list);
    let elements = match node.elements {
        Some(elements) => elements,
        None => {
            return false;
        },
    };
    assert(node_views(elements@) == ev);
    assert(forall|k: int| 0 <= k < elements@.len() ==> (#[trigger] elements@[k])@ == ev[k]);
    proof {
        lemma_without_rule(ev, rule@);
    }
    let removed = contains_rule(&elements, rule);
    if !removed {
        assert(dropped(before, rule@) =~= before);
        return false;
    }
    let mut first: usize = 0;
    while first < elements.len() && matches_rule(&elements[first], rule)
        invariant
            first <= elements@.len(),
            ev == node_views(elements@),
            forall|k: int| 0 <= k < elements@.len() ==> (#[trigger] elements@[k])@ == ev[k],
            forall|k: int| 0 <= k < first ==> is_rule(#[trigger] ev[k], rule@),
        decreases elements@.len() - first,
    {
        assert(elements@[first as int]@ == ev[first as int]);
        first += 1;
    }
    if first == elements.len() {
        proof {
            lemma_all_dropped(ev, rule@);
        }
        remove_all(list, &elements, rule);
        return true;
    }
    assert(elements@[first as int]@ == ev[first as int]);
    assert(elements@[0]@ == ev[0]);
    match &elements[0].prefix {
        Some(prefix) => {
            proof {
                lemma_respaced(ev, rule@, first as int, prefix@);
            }
            assert(ev[0].prefix == Some(prefix@));
            set_prefix(list, first, prefix.as_str());
            let ghost spaced = item_tree(*list).elements->0;
            assert forall|k: int| 0 <= k < elements@.len() implies is_rule(
                #[trigger] elements@[k]@,
                rule@,
            ) == is_rule(spaced[k], rule@) by {
                assert(elements@[k]@ == ev[k]);
            }
            remove_all(list, &elements, rule);
        },
        None => {
            remove_all(list, &elements, rule);
        },
    }
    true
}

fn indent_of(prefix: &Option<String>) -> (r: String)
    ensures
        r@ == indent(opt_view(*prefix)),
        is_blank(r@),
{
    proof {
        reveal_strlit(" ");
    }
    let text = match prefix {
        Some(text) => text.as_str(),
        None => "",
    };
    let v = chars(text);
    match find_last(&v, '\n') {
        Some(newline) => {
            let mut blank = true;
            let mut i: usize = newline;
            while i < v.len()
                invariant
                    newline <= i <= v@.len(),
                    blank == (forall|k: int|
                        newline <= k < i ==> (#[trigger] v@[k]) == ' ' || v@[k] == '\t' || v@[k]
                            == '\n'),
                decreases v@.len() - i,
            {
                if v[i] != ' ' && v[i] != '\t' && v[i] != '\n' {
                    blank = false;
                }
                i += 1;
            }
            let ghost rest = after(v@, newline as int);
            proof {
                assert(forall|k: int| 0 <= k < rest.len() ==> #[trigger] rest[k] == v@[newline + k]);
                if is_blank(rest) {
                    assert forall|k: int| newline <= k < v@.len() implies (#[trigger] v@[k]) == ' '
                        || v@[k] == '\t' || v@[k] == '\n' by {
                        assert(rest[k - newline] == v@[k]);
                    }
                }
            }
            if !blank {
                return " ".to_owned();
            }
            string_of(&v, newline, v.len())
        },
        None => " ".to_owned(),
    }
}

/// Append keeping the layout of multi-line arrays: the new element gets the
/// indentation of the last element (but none of its comments).
fn push_like_siblings(list: &mut toml_edit::Item, rule: &HostPattern)
    requires
        is_settled(*old(list)),
        item_tree(*old(list)).elements is Some,
    ensures
        stays(*old(list), *final(list)),
        item_tree(*final(list)) == appended(item_tree(*old(list)), rule@),
{
    let node = node_of(list);
    let elements = match node.elements {
        Some(elements) => elements,
        None => {
            return;
        },
    };
    let ghost ev = item_tree(*list).elements->0;
    let n: usize = elements.len();
    push_text(list, rule.to_text());
    if n > 0 {
        assert(ev.last() == elements@[n - 1]@);
        let spacing = indent_of(&elements[n - 1].prefix);
        proof {
            reveal_strlit("");
        }
        set_prefix(list, n, spacing.as_str());
        set_suffix(list, n, "");
        assert(item_tree(*list).elements->0 =~= appended(item_tree(*old(list)), rule@).elements->0);
    }
}

// ---------------------------------------------------------------------------
// Editing tables
// ---------------------------------------------------------------------------

/// Take a rule out of the list under a key, if there is one.
fn drop_from(table: &mut toml_edit::Item, key: &str, rule: &HostPattern) -> (r: bool)
    requires
        is_settled(*old(table)),
        item_tree(*old(table)).entries is Some,
        list_ok(item_tree(*old(table)), key@),
    ensures
        stays(*old(table), *final(table)),
        item_tree(*final(table)) == list_dropped(item_tree(*old(table)), key@, rule@),
        r == list_has(item_tree(*old(table)), key@, rule@),
{
    match child_mut(table, key) {
        Some(list) => drop_rule(list, rule),
        None => false,
    }
}

fn list_fits(table: &Node, key: &str) -> (r: bool)
    ensures
        r == list_ok(table@, key@),
{
    match table.get(key) {
        Some(list) => list.elements.is_some(),
        None => true,
    }
}

/// Put a rule into one list of a table, and take it out of the other.
fn set_rule(table: &mut toml_edit::Item, list: RuleList, rule: &HostPattern) -> (r: Result<
    RuleChange,
    EditError,
>)
    requires
        is_settled(*old(table)),
        item_tree(*old(table)).entries is Some,
    ensures
        match (r, rule_set(item_tree(*old(table)), list, rule@)) {
            (Ok(change), Ok((after, expected))) => change == expected && item_tree(*final(table))
                == after && stays(*old(table), *final(table)),
            (Err(error), Err(expected)) => error@ == expected,
            _ => false,
        },
{
    let ghost before = item_tree(*table);
    let node = node_of(table);
    let key = list.key();
    let other = list.other().key();
    proof {
        reveal_strlit("allow");
        reveal_strlit("deny");
        assert(key@ != other@) by {
            assert(key@.len() != other@.len());
        }
    }
    if !list_fits(&node, other) {
        return Err(EditError::NotAnArray(other.to_owned()));
    }
    if !list_fits(&node, key) {
        return Err(EditError::NotAnArray(key.to_owned()));
    }
    let added = match node.get(key) {
        Some(target) => match &target.elements {
            Some(elements) => !contains_rule(elements, rule),
            None => true,
        },
        None => {
            let fresh = Fresh::Texts(Vec::new());
            assert(fresh.tree().elements->0 =~= Seq::empty());
            put(table, key, fresh);
            true
        },
    };
    let ghost listed = item_tree(*table);
    proof {
        assert(listed == with_list(before, key@));
        if before.get(key@) is None {
            let empty = NodeView {
                elements: Some(Seq::empty()),
                ..crate::config::document::bare()
            };
            lemma_put_then_get(before, key@, empty, key@);
            lemma_put_then_get(before, key@, empty, other@);
        }
        if let Some(list) = listed.get(other@) {
            lemma_child_then_get(listed, other@, dropped(list, rule@), key@);
        }
    }
    let removed_from_other = drop_from(table, other, rule);
    let ghost moved = item_tree(*table);
    assert(moved.get(key@) == listed.get(key@));
    if added {
        if let Some(target) = child_mut(table, key) {
            push_like_siblings(target, rule);
        }
    }
    Ok(RuleChange { added, removed_from_other })
}

/// Take a rule out of both lists of a table.
fn revoke_rule(table: &mut toml_edit::Item, rule: &HostPattern) -> (r: Result<bool, EditError>)
    requires
        is_settled(*old(table)),
        item_tree(*old(table)).entries is Some,
    ensures
        match (r, rule_revoked(item_tree(*old(table)), rule@)) {
            (Ok(removed), Ok((after, expected))) => removed == expected && item_tree(*final(table))
                == after && stays(*old(table), *final(table)),
            (Err(error), Err(expected)) => error@ == expected,
            _ => false,
        },
{
    let ghost before = item_tree(*table);
    let node = node_of(table);
    if !list_fits(&node, "allow") {
        return Err(EditError::NotAnArray("allow".to_owned()));
    }
    if !list_fits(&node, "deny") {
        return Err(EditError::NotAnArray("deny".to_owned()));
    }
    proof {
        reveal_strlit("allow");
        reveal_strlit("deny");
        assert("allow"@ != "deny"@) by {
            assert("allow"@.len() != "deny"@.len());
        }
        if let Some(list) = before.get("allow"@) {
            lemma_child_then_get(before, "allow"@, dropped(list, rule@), "deny"@);
        }
    }
    let allowed = drop_from(table, "allow", rule);
    assert(item_tree(*table).get("deny"@) == before.get("deny"@));
    let denied = drop_from(table, "deny", rule);
    Ok(allowed || denied)
}

// ---------------------------------------------------------------------------
// Editing documents
// ---------------------------------------------------------------------------

/// Get or create the table at the end of a chain of keys. New tables are inline
/// inside inline parents; those on the way print no header of their own.
fn child_table<'a>(item: &'a mut toml_edit::Item, keys: &Vec<String>, from: usize) -> (r: Result<
    &'a mut toml_edit::Item,
    EditError,
>)
    requires
        is_settled(*old(item)),
        item_tree(*old(item)).entries is Some,
        from <= keys.len(),
    ensures
        match (r, reached(item_tree(*old(item)), views(keys@), from as int)) {
            (Ok(table), Ok(expected)) => {
                &&& item_tree(*table) == expected
                &&& expected.entries is Some
                &&& is_settled(*table)
                &&& stays(*table, *final(table)) ==> {
                    &&& item_tree(*final(item)) == replaced_at(
                        item_tree(*old(item)),
                        views(keys@),
                        from as int,
                        item_tree(*final(table)),
                    )
                    &&& stays(*old(item), *final(item))
                }
            },
            (Err(error), Err(expected)) => error@ == expected,
            _ => false,
        },
    decreases keys@.len() - from,
{
    if from == keys.len() {
        return Ok(item);
    }
    let key = keys[from].as_str();
    assert(views(keys@)[from as int] == key@);
    let ghost before = item_tree(*item);
    let node = node_of(item);
    if node.get(key).is_none() {
        let fresh = if node.inline {
            Fresh::InlineTable
        } else {
            Fresh::Table { implicit: from + 1 < keys.len() }
        };
        assert(fresh.tree() == fresh_table(before, from + 1 < keys.len()));
        proof {
            lemma_put_then_get(before, key@, fresh.tree(), key@);
        }
        put(item, key, fresh);
    }
    assert(item_tree(*item) == prepared(before, key@, from + 1 < keys.len()));
    assert(item_tree(*item).get(key@) is Some);
    match child_mut(item, key) {
        Some(child) => {
            let inner = node_of(child);
            if !inner.is_table() {
                return Err(EditError::NotATable(key.to_owned()));
            }
            child_table(child, keys, from + 1)
        },
        None => Err(EditError::NotATable(key.to_owned())),
    }
}

fn network_path(root: &Node) -> (r: Vec<String>)
    ensures
        views(r@) == network_keys(root@),
{
    let has_underscore = match root.get("_") {
        Some(underscore) => underscore.get("microkitchen").is_some(),
        None => false,
    };
    let mut keys: Vec<String> = Vec::new();
    if !has_underscore && root.get("microkitchen").is_some() {
        keys.push("microkitchen".to_owned());
    } else {
        keys.push("_".to_owned());
        keys.push("microkitchen".to_owned());
    }
    keys.push("network".to_owned());
    assert(views(keys@) =~= network_keys(root@));
    keys
}

/// Whether every key of a chain is there.
fn chain_found(node: &Node, keys: &Vec<String>, from: usize) -> (r: bool)
    requires
        from <= keys.len(),
    ensures
        r == chain_exists(node@, views(keys@), from as int),
    decreases keys@.len() - from,
{
    if from == keys.len() {
        return true;
    }
    assert(views(keys@)[from as int] == keys@[from as int]@);
    match node.get(keys[from].as_str()) {
        Some(child) => chain_found(child, keys, from + 1),
        None => false,
    }
}

/// What an edit gives: the text itself where nothing `changed`, else that of the
/// document with the expected tree; or the expected error. Either way the text
/// reads back as the tree.
pub open spec fn edit_outcome<T>(
    text: Seq<char>,
    r: Result<(String, T), EditError>,
    expected: Result<(NodeView, T), EditErrorView>,
    changed: bool,
) -> bool {
    match (r, expected) {
        (Ok((out, change)), Ok((tree, expected))) => {
            &&& change == expected
            &&& reads_back(out@, tree)
            &&& if changed {
                prints(out@, tree)
            } else {
                out@ == text
            }
        },
        (Err(error), Err(expected)) => error@ == expected,
        _ => false,
    }
}

/// Whether setting a rule changed anything.
pub open spec fn did_set(expected: Result<(NodeView, RuleChange), EditErrorView>) -> bool {
    expected matches Ok((_, change)) && (change.added || change.removed_from_other)
}

/// Whether revoking a rule changed anything.
pub open spec fn did_revoke(expected: Result<(NodeView, bool), EditErrorView>) -> bool {
    expected matches Ok((_, removed)) && removed
}

/// Whether setting a rule in what a text writes, in the table at the end of a
/// chain of keys, changes nothing: its list holds the rule and the other does
/// not.
pub open spec fn is_set_in(root: NodeView, keys: Seq<Seq<char>>, list: RuleList, rule: PatternView) -> bool {
    &&& reached(root, keys, 0) matches Ok(table) && list_has(table, list.spec_key(), rule)
        && !list_has(table, list.spec_other().spec_key(), rule)
    &&& document_rule_set(root, keys, list, rule) == Ok::<(NodeView, RuleChange), EditErrorView>(
        (root, RuleChange { added: false, removed_from_other: false }),
    )
}

/// Whether a kitchen file's text has a rule in one list and not in the other, so
/// that setting it again changes nothing.
pub open spec fn kitchen_has(text: Seq<char>, list: RuleList, rule: PatternView) -> bool {
    editable_document(text) matches Ok(root) && is_set_in(root, network_keys(root), list, rule)
}

/// [`kitchen_has`] for the rules of every sandbox.
pub open spec fn global_has(text: Seq<char>, list: RuleList, rule: PatternView) -> bool {
    editable_document(text) matches Ok(root) && is_set_in(root, Seq::empty(), list, rule)
}

/// Whether revoking a rule from a kitchen file's text changes nothing.
pub open spec fn kitchen_lacks(text: Seq<char>, rule: PatternView) -> bool {
    editable_document(text) matches Ok(root) && document_rule_revoked(
        root,
        network_keys(root),
        rule,
    ) == Ok::<(NodeView, bool), EditErrorView>((root, false))
}

/// [`kitchen_lacks`] for the rules of every sandbox.
pub open spec fn global_lacks(text: Seq<char>, rule: PatternView) -> bool {
    editable_document(text) matches Ok(root) && document_rule_revoked(root, Seq::empty(), rule)
        == Ok::<(NodeView, bool), EditErrorView>((root, false))
}

/// The texts of the entries of a list, in order; those of a missing list are
/// none.
pub open spec fn entry_texts(table: NodeView, key: Seq<char>) -> Seq<Option<Seq<char>>> {
    match table.get(key) {
        Some(list) => list.elements->0.map_values(|element: NodeView| element.text),
        None => Seq::empty(),
    }
}

/// Whether the lists in what a text writes, in the table at the end of a chain of
/// keys, have the entries of those in a document, in the same order.
pub open spec fn lists_read(text: Seq<char>, keys: Seq<Seq<char>>, tree: NodeView) -> bool {
    &&& editable_document(text) matches Ok(root) && reached(root, keys, 0) matches Ok(there)
        && reached(tree, keys, 0) matches Ok(table) && entry_texts(there, "allow"@) == entry_texts(
        table,
        "allow"@,
    ) && entry_texts(there, "deny"@) == entry_texts(table, "deny"@)
}

/// What setting a rule in the text of a kitchen file comes to.
pub open spec fn kitchen_rule_set(text: Seq<char>, list: RuleList, rule: PatternView) -> Result<
    (NodeView, RuleChange),
    EditErrorView,
> {
    match editable_document(text) {
        Err(error) => Err(EditErrorView::Syntax(error)),
        Ok(root) => document_rule_set(root, network_keys(root), list, rule),
    }
}

/// What revoking a rule in the text of a kitchen file comes to.
pub open spec fn kitchen_rule_revoked(text: Seq<char>, rule: PatternView) -> Result<
    (NodeView, bool),
    EditErrorView,
> {
    match editable_document(text) {
        Err(error) => Err(EditErrorView::Syntax(error)),
        Ok(root) => document_rule_revoked(root, network_keys(root), rule),
    }
}

/// What setting a rule in the text of the global rules comes to.
pub open spec fn global_rule_set(text: Seq<char>, list: RuleList, rule: PatternView) -> Result<
    (NodeView, RuleChange),
    EditErrorView,
> {
    match editable_document(text) {
        Err(error) => Err(EditErrorView::Syntax(error)),
        Ok(root) => document_rule_set(root, Seq::empty(), list, rule),
    }
}

/// What revoking a rule in the text of the global rules comes to.
pub open spec fn global_rule_revoked(text: Seq<char>, rule: PatternView) -> Result<
    (NodeView, bool),
    EditErrorView,
> {
    match editable_document(text) {
        Err(error) => Err(EditErrorView::Syntax(error)),
        Ok(root) => document_rule_revoked(root, Seq::empty(), rule),
    }
}

fn set_rule_in(
    text: &str,
    mut document: toml_edit::DocumentMut,
    keys: &Vec<String>,
    list: RuleList,
    rule: &HostPattern,
) -> (r: Result<(String, RuleChange), EditError>)
    requires
        editable_document(text@) == Ok::<NodeView, SyntaxErrorView>(item_tree(root_of(document))),
        ends_plainly(document),
        is_settled(root_of(document)),
        is_full(item_tree(root_of(document))),
        is_readable(item_tree(root_of(document))),
        is_header_table(item_tree(root_of(document))),
        keys@.len() <= 3,
    ensures
        ({
            let expected = document_rule_set(
                item_tree(root_of(document)),
                views(keys@),
                list,
                rule@,
            );
            edit_outcome(text@, r, expected, did_set(expected))
        }),
{
    let ghost before = item_tree(root_of(document));
    let root = root_mut(&mut document);
    let _whole = node_of(root);
    assert(well_keyed(before));
    let table = match child_table(root, keys, 0) {
        Ok(table) => table,
        Err(error) => {
            return Err(error);
        },
    };
    let change = match set_rule(table, list, rule) {
        Ok(change) => change,
        Err(error) => {
            return Err(error);
        },
    };
    if change.is_noop() {
        proof {
            lemma_set_again(before, views(keys@), list, rule@);
            lemma_text_reads_back(text@, before);
        }
        return Ok((text.to_owned(), change));
    }
    let out = print_document(&document);
    proof {
        lemma_set_fits(before, views(keys@), list, rule@);
    }
    Ok((out, change))
}

fn revoke_rule_in(
    text: &str,
    mut document: toml_edit::DocumentMut,
    keys: &Vec<String>,
    rule: &HostPattern,
) -> (r: Result<(String, bool), EditError>)
    requires
        editable_document(text@) == Ok::<NodeView, SyntaxErrorView>(item_tree(root_of(document))),
        ends_plainly(document),
        is_settled(root_of(document)),
        is_full(item_tree(root_of(document))),
        is_readable(item_tree(root_of(document))),
        is_header_table(item_tree(root_of(document))),
        keys@.len() <= 3,
    ensures
        ({
            let expected = document_rule_revoked(
                item_tree(root_of(document)),
                views(keys@),
                rule@,
            );
            edit_outcome(text@, r, expected, did_revoke(expected))
        }),
{
    let ghost before = item_tree(root_of(document));
    let root = root_mut(&mut document);
    let node = node_of(root);
    assert(well_keyed(before));
    let mut removed = false;
    if chain_found(&node, keys, 0) {
        let table = match child_table(root, keys, 0) {
            Ok(table) => table,
            Err(error) => {
                return Err(error);
            },
        };
        removed = match revoke_rule(table, rule) {
            Ok(removed) => removed,
            Err(error) => {
                return Err(error);
            },
        };
    }
    if !removed {
        proof {
            lemma_revoke_again(before, views(keys@), rule@);
            lemma_text_reads_back(text@, before);
        }
        return Ok((text.to_owned(), false));
    }
    let out = print_document(&document);
    proof {
        lemma_revoked_fits(before, views(keys@), rule@);
    }
    Ok((out, removed))
}

/// Put `rule` into `list` of the kitchen file with this text (and take it out
/// of the other list). Entries are compared as parsed patterns, so
/// `Example.com` and `example.com` count as the same rule.
pub fn set_network_rule_in(text: &str, list: RuleList, rule: &HostPattern) -> (r: Result<
    (String, RuleChange),
    EditError,
>)
    ensures
        ({
            let expected = kitchen_rule_set(text@, list, rule@);
            &&& edit_outcome(text@, r, expected, did_set(expected))
            &&& expected matches Ok((tree, _)) ==> (rule@.is_canonical() ==> kitchen_has(
                r->Ok_0.0@,
                list,
                rule@,
            ))
            &&& expected matches Ok((tree, _)) ==> (rule@.is_canonical() ==> lists_read(
                r->Ok_0.0@,
                network_keys(tree),
                tree,
            ))
        }),
{
    match open_document(text) {
        Err(error) => Err(EditError::Syntax(error)),
        Ok(mut document) => {
            let ghost root = item_tree(root_of(document));
            let keys = network_path(&node_of(root_mut(&mut document)));
            let r = set_rule_in(text, document, &keys, list, rule);
            proof {
                if let Ok((tree, change)) = document_rule_set(root, network_keys(root), list, rule@) {
                    if rule@.is_canonical() {
                        lemma_network_keys_set(root, list, rule@);
                        lemma_set_reads_back(
                            root,
                            network_keys(root),
                            list,
                            rule@,
                            editable_document(r->Ok_0.0@)->Ok_0,
                        );
                        lemma_network_keys_read(
                            tree,
                            network_keys(root),
                            editable_document(r->Ok_0.0@)->Ok_0,
                        );
                    }
                }
            }
            r
        },
    }
}

/// Take `rule` out of both lists of the kitchen file with this text. Whether it
/// was there is said too.
pub fn revoke_network_rule_in(text: &str, rule: &HostPattern) -> (r: Result<
    (String, bool),
    EditError,
>)
    ensures
        ({
            let expected = kitchen_rule_revoked(text@, rule@);
            &&& edit_outcome(text@, r, expected, did_revoke(expected))
            &&& expected is Ok ==> kitchen_lacks(r->Ok_0.0@, rule@)
        }),
{
    match open_document(text) {
        Err(error) => Err(EditError::Syntax(error)),
        Ok(mut document) => {
            let ghost root = item_tree(root_of(document));
            let keys = network_path(&node_of(root_mut(&mut document)));
            let r = revoke_rule_in(text, document, &keys, rule);
            proof {
                if let Ok((tree, removed)) = document_rule_revoked(root, network_keys(root), rule@) {
                    if !removed {
                        lemma_revoke_again(root, network_keys(root), rule@);
                    } else {
                        lemma_network_keys_revoked(root, rule@);
                        lemma_revoke_reads_back(
                            root,
                            network_keys(root),
                            rule@,
                            editable_document(r->Ok_0.0@)->Ok_0,
                        );
                        lemma_network_keys_read(
                            tree,
                            network_keys(root),
                            editable_document(r->Ok_0.0@)->Ok_0,
                        );
                    }
                }
            }
            r
        },
    }
}

/// [`set_network_rule_in`] for the rules of every sandbox, which stand in
/// top-level lists.
pub fn set_global_rule_in(text: &str, list: RuleList, rule: &HostPattern) -> (r: Result<
    (String, RuleChange),
    EditError,
>)
    ensures
        ({
            let expected = global_rule_set(text@, list, rule@);
            &&& edit_outcome(text@, r, expected, did_set(expected))
            &&& expected matches Ok((tree, _)) ==> (rule@.is_canonical() ==> global_has(
                r->Ok_0.0@,
                list,
                rule@,
            ))
            &&& expected matches Ok((tree, _)) ==> (rule@.is_canonical() ==> lists_read(
                r->Ok_0.0@,
                Seq::empty(),
                tree,
            ))
        }),
{
    match open_document(text) {
        Err(error) => Err(EditError::Syntax(error)),
        Ok(document) => {
            let ghost root = item_tree(root_of(document));
            let keys: Vec<String> = Vec::new();
            assert(views(keys@) =~= Seq::empty());
            let r = set_rule_in(text, document, &keys, list, rule);
            proof {
                if let Ok((tree, change)) = document_rule_set(root, Seq::empty(), list, rule@) {
                    if rule@.is_canonical() {
                        lemma_set_reads_back(
                            root,
                            Seq::empty(),
                            list,
                            rule@,
                            editable_document(r->Ok_0.0@)->Ok_0,
                        );
                    }
                }
            }
            r
        },
    }
}

/// [`revoke_network_rule_in`] for the rules of every sandbox.
pub fn revoke_global_rule_in(text: &str, rule: &HostPattern) -> (r: Result<
    (String, bool),
    EditError,
>)
    ensures
        ({
            let expected = global_rule_revoked(text@, rule@);
            &&& edit_outcome(text@, r, expected, did_revoke(expected))
            &&& expected is Ok ==> global_lacks(r->Ok_0.0@, rule@)
        }),
{
    match open_document(text) {
        Err(error) => Err(EditError::Syntax(error)),
        Ok(document) => {
            let ghost root = item_tree(root_of(document));
            let keys: Vec<String> = Vec::new();
            assert(views(keys@) =~= Seq::empty());
            let r = revoke_rule_in(text, document, &keys, rule);
            proof {
                if let Ok((tree, removed)) = document_rule_revoked(root, Seq::empty(), rule@) {
                    if !removed {
                        lemma_revoke_again(root, Seq::empty(), rule@);
                    } else {
                        lemma_revoke_reads_back(
                            root,
                            Seq::empty(),
                            rule@,
                            editable_document(r->Ok_0.0@)->Ok_0,
                        );
                    }
                }
            }
            r
        },
    }
}

// ---------------------------------------------------------------------------
// What is read back
// ---------------------------------------------------------------------------

/// Putting back what stands under a key changes nothing.
pub proof fn lemma_put_back(node: NodeView, key: Seq<char>)
    requires
        node.get(key) is Some,
    ensures
        with_child(node, key, node.get(key)->0) == node,
{
    crate::tree::lemma_entry_index(node.entries->0, key);
    assert(with_child(node, key, node.get(key)->0).entries->0 =~= node.entries->0);
}

proof fn lemma_prepared_get(node: NodeView, key: Seq<char>, implicit: bool)
    requires
        node.entries is Some,
    ensures
        prepared(node, key, implicit).entries is Some,
        prepared(node, key, implicit).get(key) is Some,
        node.get(key) is None ==> prepared(node, key, implicit).get(key) == Some(
            fresh_table(node, implicit),
        ),
{
    if node.get(key) is None {
        lemma_put_then_get(node, key, fresh_table(node, implicit), key);
    }
}

/// What is reached through a new table is empty.
proof fn lemma_reached_empty(node: NodeView, keys: Seq<Seq<char>>, from: int)
    requires
        node.entries == Some(Seq::<crate::tree::EntryView>::empty()),
        0 <= from,
    ensures
        reached(node, keys, from) matches Ok(table) && table.entries == Some(
            Seq::<crate::tree::EntryView>::empty(),
        ),
    decreases keys.len() - from,
{
    if from < keys.len() {
        assert(node.get(keys[from]) is None);
        lemma_prepared_get(node, keys[from], from + 1 < keys.len());
        lemma_reached_empty(fresh_table(node, from + 1 < keys.len()), keys, from + 1);
    }
}

/// A table with something in it was there.
proof fn lemma_reached_exists(node: NodeView, keys: Seq<Seq<char>>, from: int, key: Seq<char>)
    requires
        node.entries is Some,
        0 <= from,
        reached(node, keys, from) matches Ok(table) && table.get(key) is Some,
    ensures
        chain_exists(node, keys, from),
    decreases keys.len() - from,
{
    if from < keys.len() {
        lemma_prepared_get(node, keys[from], from + 1 < keys.len());
        if node.get(keys[from]) is None {
            lemma_reached_empty(fresh_table(node, from + 1 < keys.len()), keys, from + 1);
        } else {
            lemma_reached_exists(node.get(keys[from])->0, keys, from + 1, key);
        }
    }
}

/// Putting back the table at the end of a chain changes nothing.
proof fn lemma_replaced_same(node: NodeView, keys: Seq<Seq<char>>, from: int)
    requires
        0 <= from,
        chain_exists(node, keys, from),
        reached(node, keys, from) is Ok,
    ensures
        replaced_at(node, keys, from, reached(node, keys, from)->Ok_0) == node,
    decreases keys.len() - from,
{
    if from < keys.len() {
        lemma_replaced_same(node.get(keys[from])->0, keys, from + 1);
        lemma_put_back(node, keys[from]);
    }
}

/// The table that was put at the end of a chain is what is reached there.
proof fn lemma_replaced_reached(node: NodeView, keys: Seq<Seq<char>>, from: int, table: NodeView)
    requires
        node.entries is Some,
        table.entries is Some,
        0 <= from,
        reached(node, keys, from) is Ok,
    ensures
        replaced_at(node, keys, from, table).entries is Some,
        chain_exists(replaced_at(node, keys, from, table), keys, from),
        reached(replaced_at(node, keys, from, table), keys, from) == Ok::<NodeView, EditErrorView>(
            table,
        ),
    decreases keys.len() - from,
{
    if from < keys.len() {
        let key = keys[from];
        let implicit = from + 1 < keys.len();
        lemma_prepared_get(node, key, implicit);
        let before = prepared(node, key, implicit);
        let child = before.get(key)->0;
        lemma_replaced_reached(child, keys, from + 1, table);
        lemma_child_then_get(before, key, replaced_at(child, keys, from + 1, table), key);
    }
}

/// Setting a rule where it changes nothing gives the same document.
proof fn lemma_set_again(root: NodeView, keys: Seq<Seq<char>>, list: RuleList, rule: PatternView)
    requires
        root.entries is Some,
        document_rule_set(root, keys, list, rule) matches Ok((_, change)) && !change.added
            && !change.removed_from_other,
    ensures
        document_rule_set(root, keys, list, rule)->Ok_0.0 == root,
        is_set_in(root, keys, list, rule),
{
    law_other_is_an_involution(list);
    let table = reached(root, keys, 0)->Ok_0;
    lemma_reached_exists(root, keys, 0, list.spec_key());
    lemma_replaced_same(root, keys, 0);
    lemma_list_dropped(table, list.spec_other().spec_key(), rule, list.spec_key());
}

/// Revoking a rule where it changes nothing gives the same document.
proof fn lemma_revoke_again(root: NodeView, keys: Seq<Seq<char>>, rule: PatternView)
    requires
        document_rule_revoked(root, keys, rule) matches Ok((_, removed)) && !removed,
    ensures
        document_rule_revoked(root, keys, rule)->Ok_0.0 == root,
{
    if chain_exists(root, keys, 0) {
        law_other_is_an_involution(RuleList::Allow);
        let table = reached(root, keys, 0)->Ok_0;
        lemma_replaced_same(root, keys, 0);
        lemma_list_dropped(table, "allow"@, rule, "deny"@);
        lemma_list_dropped(table, "deny"@, rule, "allow"@);
    }
}

/// A table in which a list stands is read back, and so is the way to it.
proof fn lemma_walk(
    a: NodeView,
    b: NodeView,
    keys: Seq<Seq<char>>,
    from: int,
    key: Seq<char>,
)
    requires
        same_contents(a, b),
        0 <= from,
        a.entries is Some,
        chain_exists(a, keys, from),
        reached(a, keys, from) matches Ok(table) && table.entries is Some && (table.get(
            key,
        ) matches Some(list) && list.elements is Some),
    ensures
        chain_exists(b, keys, from),
        reached(b, keys, from) matches Ok(table) && same_contents(
            reached(a, keys, from)->Ok_0,
            table,
        ),
        b.entries is Some,
        !vanishes(a),
    decreases keys.len() - from,
{
    if from < keys.len() {
        let child = a.get(keys[from])->0;
        lemma_same_get(a, b, keys[from]);
        match b.get(keys[from]) {
            Some(other) => {
                lemma_walk(child, other, keys, from + 1, key);
            },
            None => {
                // What vanishes holds no list.
                lemma_no_list_vanishes(child, keys, from + 1, key);
            },
        }
        lemma_no_list_vanishes(a, keys, from, key);
    } else {
        lemma_no_list_vanishes(a, keys, from, key);
    }
}

proof fn lemma_no_list_vanishes(a: NodeView, keys: Seq<Seq<char>>, from: int, key: Seq<char>)
    requires
        0 <= from,
        chain_exists(a, keys, from),
        reached(a, keys, from) matches Ok(table) && (table.get(key) matches Some(list)
            && list.elements is Some),
    ensures
        !vanishes(a),
    decreases keys.len() - from,
{
    let at = if from < keys.len() {
        keys[from]
    } else {
        key
    };
    if a.entries is Some {
        let entries = a.entries->0;
        crate::tree::lemma_entry_index(entries, at);
        let i = crate::tree::entry_index(entries, at)->0;
        assert(entries[i].key == at);
        if from < keys.len() {
            lemma_no_list_vanishes(a.get(at)->0, keys, from + 1, key);
        }
        assert(!vanishes(entries[i].node));
    }
}

proof fn lemma_same_texts(a: NodeView, b: NodeView, key: Seq<char>)
    requires
        same_contents(a, b),
        list_ok(a, key),
    ensures
        entry_texts(b, key) == entry_texts(a, key),
{
    lemma_same_get(a, b, key);
    if let (Some(x), Some(y)) = (a.get(key), b.get(key)) {
        let (xs, ys) = (x.elements->0, y.elements->0);
        assert forall|i: int| 0 <= i < xs.len() implies (#[trigger] xs[i]).text == ys[i].text by {
            assert(same_contents(xs[i], ys[i]));
        }
        assert(entry_texts(b, key) =~= entry_texts(a, key));
    }
}

/// A list is read back with its rules.
proof fn lemma_same_rules(a: NodeView, b: NodeView, key: Seq<char>, rule: PatternView)
    requires
        same_contents(a, b),
        list_ok(a, key),
    ensures
        list_ok(b, key),
        list_has(b, key, rule) == list_has(a, key, rule),
        b.get(key) is Some <==> a.get(key) is Some,
{
    lemma_same_get(a, b, key);
    if let (Some(x), Some(y)) = (a.get(key), b.get(key)) {
        let (xs, ys) = (x.elements->0, y.elements->0);
        if has_rule(xs, rule) {
            let k = choose|k: int| 0 <= k < xs.len() && is_rule(#[trigger] xs[k], rule);
            assert(same_contents(xs[k], ys[k]));
            assert(is_rule(ys[k], rule));
        }
        if has_rule(ys, rule) {
            let k = choose|k: int| 0 <= k < ys.len() && is_rule(#[trigger] ys[k], rule);
            assert(same_contents(xs[k], ys[k]));
            assert(is_rule(xs[k], rule));
        }
    }
}

// ---------------------------------------------------------------------------
// What a reader takes
// ---------------------------------------------------------------------------

proof fn lemma_left_fits(elements: Seq<NodeView>, rule: PatternView, nesting: int, header: int)
    requires
        forall|i: int|
            0 <= i < elements.len() ==> fits(
                #[trigger] elements[i],
                nesting,
                header,
                MAX_DEPTH as int,
            ) && !elements[i].dotted,
    ensures
        forall|i: int|
            0 <= i < without_rule(elements, rule).len() ==> fits(
                #[trigger] without_rule(elements, rule)[i],
                nesting,
                header,
                MAX_DEPTH as int,
            ) && !without_rule(elements, rule)[i].dotted,
    decreases elements.len(),
{
    if elements.len() > 0 {
        let fewer = elements.drop_last();
        assert forall|i: int| 0 <= i < fewer.len() implies fits(
            #[trigger] fewer[i],
            nesting,
            header,
            MAX_DEPTH as int,
        ) && !fewer[i].dotted by {
            assert(fewer[i] == elements[i]);
        }
        lemma_left_fits(fewer, rule, nesting, header);
        assert(elements[elements.len() - 1] == elements.last());
    }
}

/// A list fits without a rule, and with one more.
proof fn lemma_list_fits(list: NodeView, rule: PatternView, nesting: int, header: int, parts: int)
    requires
        list.elements is Some,
        fits(list, nesting, header, parts),
    ensures
        fits(dropped(list, rule), nesting, header, parts),
        fits(appended(list, rule), nesting, header, parts),
{
    let before = list.elements->0;
    let inner = inner_nesting(list, nesting);
    lemma_left_fits(before, rule, inner, header);
    let left = without_rule(before, rule);
    let now = dropped(list, rule);
    assert forall|i: int| 0 <= i < now.elements->0.len() implies fits(
        #[trigger] now.elements->0[i],
        inner,
        header,
        MAX_DEPTH as int,
    ) && !now.elements->0[i].dotted by {
        assert(fits(left[i], inner, header, MAX_DEPTH as int));
    }
    let more = appended(list, rule);
    assert forall|i: int| 0 <= i < more.elements->0.len() implies fits(
        #[trigger] more.elements->0[i],
        inner,
        header,
        MAX_DEPTH as int,
    ) && !more.elements->0[i].dotted by {
        if i < before.len() {
            assert(more.elements->0[i] == before[i]);
        }
    }
}

/// A table fits with a list that has no rule.
proof fn lemma_dropped_fits(
    table: NodeView,
    key: Seq<char>,
    rule: PatternView,
    nesting: int,
    header: int,
    parts: int,
)
    requires
        fits(table, nesting, header, parts),
        list_ok(table, key),
    ensures
        fits(list_dropped(table, key, rule), nesting, header, parts),
        list_dropped(table, key, rule).inline == table.inline,
        list_dropped(table, key, rule).dotted == table.dotted,
{
    if let Some(list) = table.get(key) {
        lemma_fits_child(table, key, nesting, header, parts);
        lemma_list_fits(
            list,
            rule,
            inner_nesting(table, nesting),
            header - 1,
            inner_parts(table, parts) - 1,
        );
        lemma_fits_with(table, key, dropped(list, rule), nesting, header, parts);
    }
}

proof fn lemma_rule_set_fits(
    table: NodeView,
    list: RuleList,
    rule: PatternView,
    nesting: int,
    header: int,
    parts: int,
)
    requires
        table.entries is Some,
        fits(table, nesting, header, parts),
        nesting >= 2,
        parts >= 2,
        rule_set(table, list, rule) is Ok,
    ensures
        fits(rule_set(table, list, rule)->Ok_0.0, nesting, header, parts),
        rule_set(table, list, rule)->Ok_0.0.inline == table.inline,
        rule_set(table, list, rule)->Ok_0.0.dotted == table.dotted,
{
    law_other_is_an_involution(list);
    let own = list.spec_key();
    let other = list.spec_other().spec_key();
    let listed = with_list(table, own);
    let empty = NodeView { elements: Some(Seq::empty()), ..crate::config::document::bare() };
    if table.get(own) is None {
        lemma_fits_with(table, own, empty, nesting, header, parts);
        lemma_put_then_get(table, own, empty, own);
        lemma_put_then_get(table, own, empty, other);
    }
    lemma_dropped_fits(listed, other, rule, nesting, header, parts);
    lemma_list_dropped(listed, other, rule, own);
    lemma_kept_table(listed, other, rule);
    let moved = list_dropped(listed, other, rule);
    if !list_has(table, own, rule) {
        let target = moved.get(own)->0;
        lemma_fits_child(moved, own, nesting, header, parts);
        lemma_list_fits(
            target,
            rule,
            inner_nesting(moved, nesting),
            header - 1,
            inner_parts(moved, parts) - 1,
        );
        lemma_fits_with(moved, own, appended(target, rule), nesting, header, parts);
    }
}

/// A tree fits with another table at the end of a short chain of keys, where the
/// table fits wherever the one before did.
proof fn lemma_replaced_fits(
    node: NodeView,
    keys: Seq<Seq<char>>,
    from: int,
    table: NodeView,
    nesting: int,
    header: int,
    parts: int,
)
    requires
        0 <= from <= keys.len(),
        node.entries is Some,
        fits(node, nesting, header, parts),
        nesting >= keys.len() - from + 2,
        header >= keys.len() - from + 2,
        keys.len() - from + 2 <= parts <= MAX_DEPTH,
        keys.len() - from + 2 <= MAX_DEPTH,
        reached(node, keys, from) is Ok,
        table.inline == reached(node, keys, from)->Ok_0.inline,
        table.dotted == reached(node, keys, from)->Ok_0.dotted,
        forall|a: int, b: int, c: int| #[trigger]
            fits(reached(node, keys, from)->Ok_0, a, b, c) && a >= 2 && c >= 2 ==> fits(
                table,
                a,
                b,
                c,
            ),
    ensures
        fits(replaced_at(node, keys, from, table), nesting, header, parts),
        replaced_at(node, keys, from, table).inline == node.inline,
        replaced_at(node, keys, from, table).dotted == node.dotted,
    decreases keys.len() - from,
{
    if from < keys.len() {
        let key = keys[from];
        let implicit = from + 1 < keys.len();
        lemma_prepared_get(node, key, implicit);
        let before = prepared(node, key, implicit);
        let child = before.get(key)->0;
        if node.get(key) is None {
            lemma_fits_with(node, key, fresh_table(node, implicit), nesting, header, parts);
        }
        lemma_fits_child(before, key, nesting, header, parts);
        lemma_replaced_fits(
            child,
            keys,
            from + 1,
            table,
            inner_nesting(before, nesting),
            header - 1,
            inner_parts(before, parts) - 1,
        );
        lemma_fits_with(
            before,
            key,
            replaced_at(child, keys, from + 1, table),
            nesting,
            header,
            parts,
        );
    }
}

/// A reader takes a document that it took with a rule set in it.
proof fn lemma_set_fits(root: NodeView, keys: Seq<Seq<char>>, list: RuleList, rule: PatternView)
    requires
        root.entries is Some,
        is_readable(root),
        keys.len() <= 3,
        document_rule_set(root, keys, list, rule) is Ok,
    ensures
        is_readable(document_rule_set(root, keys, list, rule)->Ok_0.0),
{
    let table = reached(root, keys, 0)->Ok_0;
    let after = rule_set(table, list, rule)->Ok_0.0;
    lemma_reached_table(root, keys, 0);
    assert forall|a: int, b: int, c: int| #[trigger] fits(table, a, b, c) && a >= 2 && c >= 2 implies fits(
        after,
        a,
        b,
        c,
    ) by {
        lemma_rule_set_fits(table, list, rule, a, b, c);
    }
    lemma_rule_set_form(table, list, rule);
    let max = MAX_DEPTH as int;
    lemma_replaced_fits(root, keys, 0, after, max, max, max);
}

proof fn lemma_rule_set_form(table: NodeView, list: RuleList, rule: PatternView)
    requires
        rule_set(table, list, rule) is Ok,
    ensures
        rule_set(table, list, rule)->Ok_0.0.inline == table.inline,
        rule_set(table, list, rule)->Ok_0.0.dotted == table.dotted,
{
}

/// A reader takes a document that it took with a rule revoked from it.
proof fn lemma_revoked_fits(root: NodeView, keys: Seq<Seq<char>>, rule: PatternView)
    requires
        root.entries is Some,
        is_readable(root),
        keys.len() <= 3,
        document_rule_revoked(root, keys, rule) is Ok,
    ensures
        is_readable(document_rule_revoked(root, keys, rule)->Ok_0.0),
{
    if chain_exists(root, keys, 0) {
        law_other_is_an_involution(RuleList::Allow);
        let table = reached(root, keys, 0)->Ok_0;
        let once = list_dropped(table, "allow"@, rule);
        let after = rule_revoked(table, rule)->Ok_0.0;
        lemma_list_dropped(table, "allow"@, rule, "deny"@);
        assert forall|a: int, b: int, c: int| #[trigger] fits(table, a, b, c) && a >= 2 && c >= 2 implies fits(
            after,
            a,
            b,
            c,
        ) by {
            lemma_dropped_fits(table, "allow"@, rule, a, b, c);
            lemma_dropped_fits(once, "deny"@, rule, a, b, c);
        }
        let max = MAX_DEPTH as int;
        lemma_replaced_fits(root, keys, 0, after, max, max, max);
    }
}

// ---------------------------------------------------------------------------
// Laws
// ---------------------------------------------------------------------------

/// The other list of the other list is the list itself.
pub proof fn law_other_is_an_involution(list: RuleList)
    ensures
        list.spec_other() != list,
        list.spec_other().spec_other() == list,
        list.spec_other().spec_key() != list.spec_key(),
{
    reveal_strlit("allow");
    reveal_strlit("deny");
    assert(list.spec_other().spec_key().len() != list.spec_key().len());
}

proof fn lemma_dropped_has_none(list: NodeView, rule: PatternView)
    requires
        list.elements is Some,
    ensures
        !has_rule(dropped(list, rule).elements->0, rule),
        !has_rule(list.elements->0, rule) ==> dropped(list, rule) == list,
{
    let before = list.elements->0;
    lemma_without_rule(before, rule);
    let left = without_rule(before, rule);
    let now = dropped(list, rule).elements->0;
    if has_rule(now, rule) {
        let k = choose|k: int| 0 <= k < now.len() && is_rule(#[trigger] now[k], rule);
        assert(is_rule(left[k], rule));
    }
}

proof fn lemma_list_dropped(table: NodeView, key: Seq<char>, rule: PatternView, other: Seq<char>)
    requires
        list_ok(table, key),
    ensures
        !list_has(list_dropped(table, key, rule), key, rule),
        list_ok(list_dropped(table, key, rule), key),
        other != key ==> list_dropped(table, key, rule).get(other) == table.get(other),
        !list_has(table, key, rule) ==> list_dropped(table, key, rule) == table,
{
    if let Some(list) = table.get(key) {
        lemma_dropped_has_none(list, rule);
        lemma_child_then_get(table, key, dropped(list, rule), key);
        lemma_child_then_get(table, key, dropped(list, rule), other);
        if !has_rule(list.elements->0, rule) {
            crate::tree::lemma_entry_index(table.entries->0, key);
            assert(with_child(table, key, list).entries->0 =~= table.entries->0);
        }
    }
}

/// After a rule is set, the other list does not hold it, and its own list does:
/// a rule is never in both. The lists are the only entries that change.
pub proof fn law_a_rule_is_in_one_list(
    table: NodeView,
    list: RuleList,
    rule: PatternView,
    key: Seq<char>,
)
    requires
        table.entries is Some,
        rule_set(table, list, rule) is Ok,
        rule.is_canonical(),
    ensures
        !list_has(rule_set(table, list, rule)->Ok_0.0, list.spec_other().spec_key(), rule),
        list_has(rule_set(table, list, rule)->Ok_0.0, list.spec_key(), rule),
        key != "allow"@ && key != "deny"@ ==> rule_set(table, list, rule)->Ok_0.0.get(key)
            == table.get(key),
{
    law_other_is_an_involution(list);
    let own = list.spec_key();
    let other = list.spec_other().spec_key();
    let listed = with_list(table, own);
    if table.get(own) is None {
        let empty = NodeView { elements: Some(Seq::empty()), ..crate::config::document::bare() };
        lemma_put_then_get(table, own, empty, own);
        lemma_put_then_get(table, own, empty, other);
        lemma_put_then_get(table, own, empty, key);
    }
    lemma_list_dropped(listed, other, rule, own);
    lemma_list_dropped(listed, other, rule, key);
    let moved = list_dropped(listed, other, rule);
    if !list_has(table, own, rule) {
        let target = moved.get(own)->0;
        let now = appended(target, rule);
        lemma_child_then_get(moved, own, now, own);
        lemma_child_then_get(moved, own, now, other);
        lemma_child_then_get(moved, own, now, key);
        let elements = now.elements->0;
        assert(is_rule(elements[elements.len() - 1], rule));
    }
}

/// Setting a rule leaves the other entries of both lists in their order: its own
/// list has the rule behind them where it had not, and the other list has its
/// entries but for the rule.
pub proof fn law_other_entries_keep_their_order(table: NodeView, list: RuleList, rule: PatternView)
    requires
        table.entries is Some,
        rule_set(table, list, rule) is Ok,
    ensures
        ({
            let (after, change) = rule_set(table, list, rule)->Ok_0;
            let own = list.spec_key();
            let other = list.spec_other().spec_key();
            &&& entry_texts(after, own) == if change.added {
                entry_texts(table, own).push(Some(rule.text()))
            } else {
                entry_texts(table, own)
            }
            &&& entry_texts(after, other) == match table.get(other) {
                Some(list) => without_rule(list.elements->0, rule).map_values(
                    |element: NodeView| element.text,
                ),
                None => Seq::empty(),
            }
        }),
{
    law_other_is_an_involution(list);
    let own = list.spec_key();
    let other = list.spec_other().spec_key();
    let (after, change) = rule_set(table, list, rule)->Ok_0;
    let listed = with_list(table, own);
    let empty = NodeView { elements: Some(Seq::empty()), ..crate::config::document::bare() };
    if table.get(own) is None {
        lemma_put_then_get(table, own, empty, own);
        lemma_put_then_get(table, own, empty, other);
    }
    lemma_list_dropped(listed, other, rule, own);
    let moved = list_dropped(listed, other, rule);
    if let Some(there) = listed.get(other) {
        lemma_child_then_get(listed, other, dropped(there, rule), other);
        lemma_without_rule(there.elements->0, rule);
    }
    if change.added {
        let now = appended(moved.get(own)->0, rule);
        lemma_child_then_get(moved, own, now, own);
        lemma_child_then_get(moved, own, now, other);
    }
    assert(entry_texts(after, own) =~= if change.added {
        entry_texts(table, own).push(Some(rule.text()))
    } else {
        entry_texts(table, own)
    });
    assert(entry_texts(after, other) =~= match table.get(other) {
        Some(list) => without_rule(list.elements->0, rule).map_values(
            |element: NodeView| element.text,
        ),
        None => Seq::empty(),
    });
}

/// Setting a rule that is set changes nothing.
pub proof fn law_setting_a_rule_twice_changes_nothing(
    table: NodeView,
    list: RuleList,
    rule: PatternView,
)
    requires
        table.entries is Some,
        rule_set(table, list, rule) is Ok,
        rule.is_canonical(),
    ensures
        ({
            let after = rule_set(table, list, rule)->Ok_0.0;
            rule_set(after, list, rule) == Ok::<(NodeView, RuleChange), EditErrorView>(
                (after, RuleChange { added: false, removed_from_other: false }),
            )
        }),
{
    law_other_is_an_involution(list);
    let own = list.spec_key();
    let other = list.spec_other().spec_key();
    let after = rule_set(table, list, rule)->Ok_0.0;
    law_a_rule_is_in_one_list(table, list, rule, own);
    let listed = with_list(table, own);
    let empty = NodeView { elements: Some(Seq::empty()), ..crate::config::document::bare() };
    if table.get(own) is None {
        lemma_put_then_get(table, own, empty, own);
        lemma_put_then_get(table, own, empty, other);
    }
    lemma_list_dropped(listed, other, rule, own);
    let moved = list_dropped(listed, other, rule);
    if !list_has(table, own, rule) {
        let now = appended(moved.get(own)->0, rule);
        lemma_child_then_get(moved, own, now, own);
        lemma_child_then_get(moved, own, now, other);
    }
    assert(list_ok(after, own) && list_ok(after, other));
    assert(with_list(after, own) == after);
    lemma_list_dropped(after, other, rule, own);
}

/// After a rule is revoked, neither list holds it.
pub proof fn law_a_revoked_rule_is_gone(table: NodeView, rule: PatternView)
    requires
        rule_revoked(table, rule) is Ok,
    ensures
        !list_has(rule_revoked(table, rule)->Ok_0.0, "allow"@, rule),
        !list_has(rule_revoked(table, rule)->Ok_0.0, "deny"@, rule),
{
    law_other_is_an_involution(RuleList::Allow);
    lemma_list_dropped(table, "allow"@, rule, "deny"@);
    let once = list_dropped(table, "allow"@, rule);
    lemma_list_dropped(once, "deny"@, rule, "allow"@);
}

/// What a rule was set in is read back with the rule set.
proof fn lemma_set_reads_back(
    root: NodeView,
    keys: Seq<Seq<char>>,
    list: RuleList,
    rule: PatternView,
    read: NodeView,
)
    requires
        root.entries is Some,
        document_rule_set(root, keys, list, rule) is Ok,
        same_contents(document_rule_set(root, keys, list, rule)->Ok_0.0, read),
        rule.is_canonical(),
    ensures
        is_set_in(read, keys, list, rule),
        chain_exists(read, keys, 0),
        ({
            let tree = document_rule_set(root, keys, list, rule)->Ok_0.0;
            reached(read, keys, 0) matches Ok(there) && reached(tree, keys, 0) matches Ok(table)
                && entry_texts(there, "allow"@) == entry_texts(table, "allow"@) && entry_texts(
                there,
                "deny"@,
            ) == entry_texts(table, "deny"@)
        }),
{
    law_other_is_an_involution(list);
    let own = list.spec_key();
    let other = list.spec_other().spec_key();
    let table = reached(root, keys, 0)->Ok_0;
    let after = rule_set(table, list, rule)->Ok_0.0;
    let tree = document_rule_set(root, keys, list, rule)->Ok_0.0;
    lemma_reached_table(root, keys, 0);
    law_a_rule_is_in_one_list(table, list, rule, own);
    lemma_set_lists(table, list, rule);
    lemma_replaced_reached(root, keys, 0, after);
    lemma_walk(tree, read, keys, 0, own);
    let there = reached(read, keys, 0)->Ok_0;
    lemma_same_rules(after, there, own, rule);
    lemma_same_rules(after, there, other, rule);
    lemma_same_texts(after, there, own);
    lemma_same_texts(after, there, other);
    lemma_list_dropped(there, other, rule, own);
    lemma_replaced_same(read, keys, 0);
}

/// What a rule was revoked from is read back without the rule.
proof fn lemma_revoke_reads_back(
    root: NodeView,
    keys: Seq<Seq<char>>,
    rule: PatternView,
    read: NodeView,
)
    requires
        root.entries is Some,
        document_rule_revoked(root, keys, rule) matches Ok((_, removed)) && removed,
        same_contents(document_rule_revoked(root, keys, rule)->Ok_0.0, read),
    ensures
        document_rule_revoked(read, keys, rule) == Ok::<(NodeView, bool), EditErrorView>(
            (read, false),
        ),
        chain_exists(read, keys, 0),
{
    law_other_is_an_involution(RuleList::Allow);
    let table = reached(root, keys, 0)->Ok_0;
    let after = rule_revoked(table, rule)->Ok_0.0;
    let tree = document_rule_revoked(root, keys, rule)->Ok_0.0;
    lemma_reached_table(root, keys, 0);
    law_a_revoked_rule_is_gone(table, rule);
    lemma_list_dropped(table, "allow"@, rule, "deny"@);
    let once = list_dropped(table, "allow"@, rule);
    lemma_list_dropped(once, "deny"@, rule, "allow"@);
    let key = if list_has(table, "allow"@, rule) {
        "allow"@
    } else {
        "deny"@
    };
    lemma_kept_table(table, "allow"@, rule);
    lemma_kept_table(once, "deny"@, rule);
    lemma_replaced_reached(root, keys, 0, after);
    lemma_walk(tree, read, keys, 0, key);
    let there = reached(read, keys, 0)->Ok_0;
    lemma_same_rules(after, there, "allow"@, rule);
    lemma_same_rules(after, there, "deny"@, rule);
    lemma_list_dropped(there, "allow"@, rule, "deny"@);
    lemma_list_dropped(there, "deny"@, rule, "allow"@);
    lemma_replaced_same(read, keys, 0);
}

/// Dropping a rule from a list leaves the list, and the table a table.
proof fn lemma_kept_table(table: NodeView, key: Seq<char>, rule: PatternView)
    ensures
        list_dropped(table, key, rule).entries is Some <==> table.entries is Some,
        table.get(key) is Some ==> list_dropped(table, key, rule).get(key) is Some,
{
    if let Some(list) = table.get(key) {
        lemma_child_then_get(table, key, dropped(list, rule), key);
    }
}

proof fn lemma_reached_table(node: NodeView, keys: Seq<Seq<char>>, from: int)
    requires
        node.entries is Some,
        0 <= from,
        reached(node, keys, from) is Ok,
    ensures
        reached(node, keys, from)->Ok_0.entries is Some,
    decreases keys.len() - from,
{
    if from < keys.len() {
        lemma_prepared_get(node, keys[from], from + 1 < keys.len());
        lemma_reached_table(
            prepared(node, keys[from], from + 1 < keys.len()).get(keys[from])->0,
            keys,
            from + 1,
        );
    }
}

/// After a rule is set, both lists are arrays, and its own is there.
proof fn lemma_set_lists(table: NodeView, list: RuleList, rule: PatternView)
    requires
        table.entries is Some,
        rule_set(table, list, rule) is Ok,
    ensures
        ({
            let after = rule_set(table, list, rule)->Ok_0.0;
            &&& after.entries is Some
            &&& after.get(list.spec_key()) is Some
            &&& list_ok(after, list.spec_key())
            &&& list_ok(after, list.spec_other().spec_key())
        }),
{
    law_other_is_an_involution(list);
    let own = list.spec_key();
    let other = list.spec_other().spec_key();
    let listed = with_list(table, own);
    if table.get(own) is None {
        let empty = NodeView { elements: Some(Seq::empty()), ..crate::config::document::bare() };
        lemma_put_then_get(table, own, empty, own);
        lemma_put_then_get(table, own, empty, other);
    }
    lemma_list_dropped(listed, other, rule, own);
    lemma_kept_table(listed, other, rule);
    let moved = list_dropped(listed, other, rule);
    if !list_has(table, own, rule) {
        let now = appended(moved.get(own)->0, rule);
        lemma_child_then_get(moved, own, now, own);
        lemma_child_then_get(moved, own, now, other);
    }
}

/// Where the rules stand does not change when one is put there.
proof fn lemma_keys_replaced(root: NodeView, table: NodeView)
    requires
        root.entries is Some,
        table.entries is Some,
        reached(root, network_keys(root), 0) is Ok,
    ensures
        network_keys(replaced_at(root, network_keys(root), 0, table)) == network_keys(root),
{
    reveal_strlit("_");
    reveal_strlit("microkitchen");
    assert("_"@.len() != "microkitchen"@.len());
    let keys = network_keys(root);
    let tree = replaced_at(root, keys, 0, table);
    lemma_replaced_reached(root, keys, 0, table);
    assert(chain_exists(tree.get(keys[0])->0, keys, 1));
    if keys[0] == "microkitchen"@ {
        let before = prepared(root, keys[0], 1 < keys.len());
        lemma_child_then_get(before, keys[0], replaced_at(before.get(keys[0])->0, keys, 1, table), "_"@);
    }
}

proof fn lemma_network_keys_set(root: NodeView, list: RuleList, rule: PatternView)
    requires
        root.entries is Some,
        document_rule_set(root, network_keys(root), list, rule) is Ok,
    ensures
        network_keys(document_rule_set(root, network_keys(root), list, rule)->Ok_0.0)
            == network_keys(root),
{
    let table = reached(root, network_keys(root), 0)->Ok_0;
    lemma_reached_table(root, network_keys(root), 0);
    lemma_set_lists(table, list, rule);
    lemma_keys_replaced(root, rule_set(table, list, rule)->Ok_0.0);
}

proof fn lemma_network_keys_revoked(root: NodeView, rule: PatternView)
    requires
        root.entries is Some,
        document_rule_revoked(root, network_keys(root), rule) matches Ok((_, removed)) && removed,
    ensures
        network_keys(document_rule_revoked(root, network_keys(root), rule)->Ok_0.0)
            == network_keys(root),
{
    let table = reached(root, network_keys(root), 0)->Ok_0;
    lemma_reached_table(root, network_keys(root), 0);
    lemma_kept_table(table, "allow"@, rule);
    lemma_kept_table(list_dropped(table, "allow"@, rule), "deny"@, rule);
    lemma_keys_replaced(root, rule_revoked(table, rule)->Ok_0.0);
}

/// The rules are read back where they stand.
proof fn lemma_network_keys_read(tree: NodeView, keys: Seq<Seq<char>>, read: NodeView)
    requires
        same_contents(tree, read),
        keys == network_keys(tree),
        chain_exists(read, keys, 0),
    ensures
        network_keys(read) == keys,
{
    assert(chain_exists(read.get(keys[0])->0, keys, 1));
    lemma_same_get(tree, read, "_"@);
    if let (Some(x), Some(y)) = (tree.get("_"@), read.get("_"@)) {
        lemma_same_get(x, y, "microkitchen"@);
    }
}

/// What setting a rule needs and does: both lists must be lists; the rule is added
/// exactly where its list has not got it, and taken from the other list exactly where
/// that has it; and the other list keeps every other entry, in order.
pub proof fn law_setting_a_rule_says_what_it_did(
    table: NodeView,
    list: RuleList,
    rule: PatternView,
)
    requires
        table.entries is Some,
    ensures
        ({
            let own = if list == RuleList::Allow {
                "allow"@
            } else {
                "deny"@
            };
            let other = if list == RuleList::Allow {
                "deny"@
            } else {
                "allow"@
            };
            let bad = |key: Seq<char>|
                table.get(key) matches Some(node) && node.elements is None;
            &&& bad(other) ==> rule_set(table, list, rule) == Err::<
                (NodeView, RuleChange),
                EditErrorView,
            >(EditErrorView::NotAnArray(other))
            &&& !bad(other) && bad(own) ==> rule_set(table, list, rule) == Err::<
                (NodeView, RuleChange),
                EditErrorView,
            >(EditErrorView::NotAnArray(own))
            &&& !bad(other) && !bad(own) ==> rule_set(table, list, rule) is Ok
            &&& rule_set(table, list, rule) matches Ok((after, change)) ==> {
                &&& change.added <==> !writes(table, own, rule)
                &&& change.removed_from_other <==> writes(table, other, rule)
                &&& entry_texts(after, own) == entry_texts(table, own) + if change.added {
                    seq![Some(rule.text())]
                } else {
                    Seq::empty()
                }
                &&& entry_texts(after, other) == entry_texts(table, other).filter(
                    |text: Option<Seq<char>>| !writes_rule(text, rule),
                )
            }
        }),
{
    let own = list.spec_key();
    let other = list.spec_other().spec_key();
    if let Ok((after, change)) = rule_set(table, list, rule) {
        law_other_entries_keep_their_order(table, list, rule);
        lemma_writes(table, own, rule);
        lemma_writes(table, other, rule);
        assert(entry_texts(after, own) =~= entry_texts(table, own) + if change.added {
            seq![Some(rule.text())]
        } else {
            Seq::empty()
        });
        if let Some(node) = table.get(other) {
            lemma_without_rule_texts(node.elements->0, rule);
        } else {
            reveal(Seq::filter);
        }
    }
}

/// Whether an entry of a list writes a rule.
pub open spec fn writes_rule(text: Option<Seq<char>>, rule: PatternView) -> bool {
    text matches Some(text) && pattern_text(text) == Ok::<PatternView, PatternErrorView>(rule)
}

/// Whether some entry of a list writes a rule.
pub open spec fn writes(table: NodeView, key: Seq<char>, rule: PatternView) -> bool {
    exists|i: int|
        0 <= i < entry_texts(table, key).len() && writes_rule(
            #[trigger] entry_texts(table, key)[i],
            rule,
        )
}

proof fn lemma_writes(table: NodeView, key: Seq<char>, rule: PatternView)
    ensures
        writes(table, key, rule) <==> list_has(table, key, rule),
{
    if let Some(list) = table.get(key) {
        let elements = list.elements->0;
        let texts = entry_texts(table, key);
        if writes(table, key, rule) {
            let i = choose|i: int| 0 <= i < texts.len() && writes_rule(#[trigger] texts[i], rule);
            assert(is_rule(elements[i], rule));
        }
        if has_rule(elements, rule) {
            let i = choose|i: int| 0 <= i < elements.len() && is_rule(#[trigger] elements[i], rule);
            assert(writes_rule(texts[i], rule));
        }
    }
}

proof fn lemma_without_rule_texts(elements: Seq<NodeView>, rule: PatternView)
    ensures
        without_rule(elements, rule).map_values(|element: NodeView| element.text)
            == elements.map_values(|element: NodeView| element.text).filter(
            |text: Option<Seq<char>>| !writes_rule(text, rule),
        ),
    decreases elements.len(),
{
    reveal(Seq::filter);
    let f = |element: NodeView| element.text;
    let keep = |text: Option<Seq<char>>| !writes_rule(text, rule);
    let texts = elements.map_values(f);
    if elements.len() > 0 {
        let rest = elements.drop_last();
        lemma_without_rule_texts(rest, rule);
        assert(texts.drop_last() =~= rest.map_values(f));
        assert(texts.last() == elements.last().text);
    }
    assert(without_rule(elements, rule).map_values(f) =~= texts.filter(keep));
}

/// Revoking a rule takes it from both lists and leaves every other entry, in order; it
/// says whether one of them had it.
pub proof fn law_revoking_a_rule_says_what_it_did(table: NodeView, rule: PatternView)
    ensures
        rule_revoked(table, rule) is Ok <==> (table.get("allow"@) matches Some(node)
            ==> node.elements is Some) && (table.get("deny"@) matches Some(node)
            ==> node.elements is Some),
        rule_revoked(table, rule) matches Ok((after, removed)) ==> {
            &&& removed <==> writes(table, "allow"@, rule) || writes(table, "deny"@, rule)
            &&& entry_texts(after, "allow"@) == entry_texts(table, "allow"@).filter(
                |text: Option<Seq<char>>| !writes_rule(text, rule),
            )
            &&& entry_texts(after, "deny"@) == entry_texts(table, "deny"@).filter(
                |text: Option<Seq<char>>| !writes_rule(text, rule),
            )
        },
{
    if let Ok((after, removed)) = rule_revoked(table, rule) {
        law_other_is_an_involution(RuleList::Allow);
        lemma_writes(table, "allow"@, rule);
        lemma_writes(table, "deny"@, rule);
        let once = list_dropped(table, "allow"@, rule);
        lemma_list_dropped(table, "allow"@, rule, "deny"@);
        lemma_list_dropped(once, "deny"@, rule, "allow"@);
        lemma_dropped_texts(table, "allow"@, rule);
        lemma_dropped_texts(once, "deny"@, rule);
        assert(entry_texts(after, "allow"@) == entry_texts(once, "allow"@));
        assert(entry_texts(once, "deny"@) == entry_texts(table, "deny"@));
    }
}

proof fn lemma_dropped_texts(table: NodeView, key: Seq<char>, rule: PatternView)
    requires
        list_ok(table, key),
    ensures
        entry_texts(list_dropped(table, key, rule), key) == entry_texts(table, key).filter(
            |text: Option<Seq<char>>| !writes_rule(text, rule),
        ),
{
    let f = |element: NodeView| element.text;
    if let Some(list) = table.get(key) {
        lemma_child_then_get(table, key, dropped(list, rule), key);
        let before = list.elements->0;
        lemma_without_rule_texts(before, rule);
        assert((dropped(list, rule).elements->0).map_values(f) =~= without_rule(
            before,
            rule,
        ).map_values(f));
    } else {
        reveal(Seq::filter);
    }
}

/// An edit of a document changes what stands at the end of its keys and nothing beside
/// them.
pub proof fn law_edits_keep_to_their_table(
    root: NodeView,
    keys: Seq<Seq<char>>,
    table: NodeView,
    other: Seq<char>,
)
    requires
        root.entries is Some,
        table.entries is Some,
        reached(root, keys, 0) is Ok,
    ensures
        reached(replaced_at(root, keys, 0, table), keys, 0) == Ok::<NodeView, EditErrorView>(table),
        keys.len() > 0 && other != keys[0] ==> replaced_at(root, keys, 0, table).get(other)
            == root.get(other),
        keys.len() == 0 ==> replaced_at(root, keys, 0, table) == table && reached(root, keys, 0)
            == Ok::<NodeView, EditErrorView>(root),
{
    lemma_replaced_reached(root, keys, 0, table);
    if keys.len() > 0 {
        let implicit = 1 < keys.len();
        let key = keys[0];
        let before = prepared(root, key, implicit);
        lemma_prepared_get(root, key, implicit);
        if root.get(key) is None {
            lemma_put_then_get(root, key, fresh_table(root, implicit), other);
        }
        lemma_child_then_get(
            before,
            key,
            replaced_at(before.get(key)->0, keys, 1, table),
            other,
        );
    }
}

/// A kitchen's rules are in the `network` table of its section: `[_.microkitchen]`
/// unless only `[microkitchen]` is there.
pub proof fn law_kitchen_rules_are_in_the_section(root: NodeView)
    ensures
        (root.get("_"@) matches Some(table) && table.get("microkitchen"@) is Some) ==> network_keys(
            root,
        ) == seq!["_"@, "microkitchen"@, "network"@],
        !(root.get("_"@) matches Some(table) && table.get("microkitchen"@) is Some) && root.get(
            "microkitchen"@,
        ) is Some ==> network_keys(root) == seq!["microkitchen"@, "network"@],
        root.get("microkitchen"@) is None ==> network_keys(root) == seq![
            "_"@,
            "microkitchen"@,
            "network"@,
        ],
{
}

/// An edit of a document is the edit of the table at the end of its keys; one that
/// cannot reach it is refused. Where there is no such table, nothing is there to revoke.
pub proof fn law_documents_are_edited_at_their_table(
    root: NodeView,
    keys: Seq<Seq<char>>,
    list: RuleList,
    rule: PatternView,
)
    ensures
        match reached(root, keys, 0) {
            Ok(table) => match rule_set(table, list, rule) {
                Ok((after, change)) => document_rule_set(root, keys, list, rule) == Ok::<
                    (NodeView, RuleChange),
                    EditErrorView,
                >((replaced_at(root, keys, 0, after), change)),
                Err(error) => document_rule_set(root, keys, list, rule) == Err::<
                    (NodeView, RuleChange),
                    EditErrorView,
                >(error),
            },
            Err(error) => document_rule_set(root, keys, list, rule) == Err::<
                (NodeView, RuleChange),
                EditErrorView,
            >(error),
        },
        !chain_exists(root, keys, 0) ==> document_rule_revoked(root, keys, rule) == Ok::<
            (NodeView, bool),
            EditErrorView,
        >((root, false)),
        chain_exists(root, keys, 0) && reached(root, keys, 0) is Ok ==> (match rule_revoked(
            reached(root, keys, 0)->Ok_0,
            rule,
        ) {
            Ok((after, removed)) => document_rule_revoked(root, keys, rule) == Ok::<
                (NodeView, bool),
                EditErrorView,
            >((replaced_at(root, keys, 0, after), removed)),
            Err(error) => document_rule_revoked(root, keys, rule) == Err::<
                (NodeView, bool),
                EditErrorView,
            >(error),
        }),
{
}

} // verus!
