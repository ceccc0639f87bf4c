//! The copy of the kitchen file placed in the guest at `/opt/kitchen/mise.toml`.
//!
//! `[env]` declarations stay, so `mise bootstrap` in the guest sees the same
//! variables (required ones are satisfied by injected env vars and secret
//! placeholders). Host-file directives (`_.file`, `_.source`, `_.path`) are
//! removed so `.env` values and host paths never enter the guest. The
//! `[_.microkitchen]` table configures the sandbox from the host; the guest
//! gets no copy, so it changes only when something mise uses does.
//!
//! The sandbox user is declared here too: `[bootstrap.users.chef]` is added
//! when the kitchen file has none, and chef's ids are filled in when missing,
//! since the sandbox was created to run as them (see
//! [`GuestUser`](crate::config::schema::GuestUser)).

use vstd::prelude::*;

use crate::config::document::{
    bare, child_mut, editable_document, element_at, element_mut, ends_plainly, fits, inner_nesting,
    inner_parts, is_full, is_header_table, is_readable, is_settled, lemma_child_then_get,
    lemma_fits_child, lemma_fits_with, lemma_fits_without, lemma_put_then_get, lemma_same_get,
    lemma_text_reads_back, lemma_without_then_get, open_document, print_document, prints, put,
    reads_back, root_mut, root_of, same_contents, stays, take_out, text_value, vanishes,
    with_child, with_element, with_put, without, Fresh, MAX_DEPTH,
};
use crate::config::edit::{fresh_table, lemma_put_back, prepared};
use crate::config::schema::{CHEF, DEFAULT_CHEF_ID};
use crate::config::staging::{ActionView, RewriteAction, RewriteView, StagePlan, Step, StepView};
use crate::text::{same, views};
use crate::tree::{
    entry_index, item_tree, lemma_entry_index, node_of, same_tree, unique_keys, well_keyed, NodeView,
    SyntaxError, SyntaxErrorView,
};

verus! {

// ---------------------------------------------------------------------------
// Tables that may be missing
// ---------------------------------------------------------------------------

/// The table under a key, an empty one where there is none; `None` if it is
/// something else (mise reports that).
pub open spec fn implicit(node: NodeView, key: Seq<char>) -> Option<NodeView> {
    let child = prepared(node, key, true).get(key)->0;
    if child.entries is Some {
        Some(child)
    } else {
        None
    }
}

/// `parent.key` as a table, created without a header of its own if missing;
/// `None` if it is something else (mise reports that).
fn implicit_table<'a>(parent: &'a mut toml_edit::Item, key: &str) -> (r: Option<
    &'a mut toml_edit::Item,
>)
    requires
        is_settled(*old(parent)),
        item_tree(*old(parent)).entries is Some,
    ensures
        match r {
            None => implicit(item_tree(*old(parent)), key@) is None && item_tree(*final(parent))
                == item_tree(*old(parent)) && stays(*old(parent), *final(parent)),
            Some(child) => {
                &&& implicit(item_tree(*old(parent)), key@) == Some(item_tree(*child))
                &&& is_settled(*child)
                &&& stays(*child, *final(child)) ==> {
                    &&& item_tree(*final(parent)) == with_child(
                        prepared(item_tree(*old(parent)), key@, true),
                        key@,
                        item_tree(*final(child)),
                    )
                    &&& stays(*old(parent), *final(parent))
                }
            },
        },
{
    let ghost before = item_tree(*parent);
    let node = node_of(parent);
    match node.get(key) {
        Some(child) => {
            if !child.is_table() {
                return None;
            }
        },
        None => {
            let fresh = if node.inline {
                Fresh::InlineTable
            } else {
                Fresh::Table { implicit: true }
            };
            proof {
                lemma_put_then_get(before, key@, fresh.tree(), key@);
            }
            assert(fresh.tree() == fresh_table(before, true));
            put(parent, key, fresh);
        },
    }
    child_mut(parent, key)
}

// ---------------------------------------------------------------------------
// Rewrites
// ---------------------------------------------------------------------------

/// A tree with one rewrite applied, descending `path` from `node`. `inside` is
/// set within an array element.
///
/// `Replace` and `Remove` only touch keys that exist, so a rewrite whose entry
/// the user edited away changes nothing; `Ensure` creates the key and any
/// missing parents.
pub open spec fn rewritten(
    node: NodeView,
    path: Seq<StepView>,
    from: int,
    action: ActionView,
    inside: bool,
) -> NodeView
    decreases path.len() - from,
{
    if from < 0 || from >= path.len() {
        node
    } else {
        match path[from] {
            StepView::Key(key) => if node.entries is None {
                node
            } else if from + 1 == path.len() {
                match action {
                    ActionView::Replace(text) => if node.get(key) is Some {
                        with_put(node, key, text_value(text))
                    } else {
                        node
                    },
                    ActionView::Ensure(text) => with_put(node, key, text_value(text)),
                    ActionView::Remove => without(node, key),
                }
            } else if action is Ensure && !inside {
                match implicit(node, key) {
                    None => node,
                    Some(child) => with_child(
                        prepared(node, key, true),
                        key,
                        rewritten(child, path, from + 1, action, inside),
                    ),
                }
            } else {
                match node.get(key) {
                    None => node,
                    Some(child) => with_child(
                        node,
                        key,
                        rewritten(child, path, from + 1, action, inside),
                    ),
                }
            },
            StepView::Index(index) => if inside || node.elements is None {
                node
            } else {
                match element_at(node, index as int) {
                    None => node,
                    Some(element) => with_element(
                        node,
                        index as int,
                        rewritten(element, path, from + 1, action, true),
                    ),
                }
            },
        }
    }
}

/// A tree with rewrites applied in order.
pub open spec fn all_rewritten(node: NodeView, rewrites: Seq<RewriteView>) -> NodeView
    decreases rewrites.len(),
{
    if rewrites.len() == 0 {
        node
    } else {
        let last = rewrites.last();
        rewritten(all_rewritten(node, rewrites.drop_last()), last.path, 0, last.action, false)
    }
}

/// Apply the last step of a rewrite to a table.
fn rewrite_key(item: &mut toml_edit::Item, key: &str, action: &RewriteAction)
    requires
        is_settled(*old(item)),
        item_tree(*old(item)).entries is Some,
    ensures
        stays(*old(item), *final(item)),
        item_tree(*final(item)) == rewritten(
            item_tree(*old(item)),
            seq![StepView::Key(key@)],
            0,
            action@,
            false,
        ),
{
    match action {
        RewriteAction::Replace(text) => {
            let node = node_of(item);
            if node.get(key).is_some() {
                put(item, key, Fresh::Text(text.clone()));
            }
        },
        RewriteAction::Ensure(text) => put(item, key, Fresh::Text(text.clone())),
        RewriteAction::Remove => take_out(item, key),
    }
}

/// Apply one rewrite, descending `path` from `item`.
fn apply_rewrite(
    item: &mut toml_edit::Item,
    path: &Vec<Step>,
    from: usize,
    action: &RewriteAction,
    inside: bool,
)
    requires
        is_settled(*old(item)),
        from <= path.len(),
    ensures
        stays(*old(item), *final(item)),
        item_tree(*final(item)) == rewritten(
            item_tree(*old(item)),
            views(path@),
            from as int,
            action@,
            inside,
        ),
    decreases path@.len() - from,
{
    if from == path.len() {
        return;
    }
    assert(views(path@)[from as int] == path@[from as int]@);
    let node = node_of(item);
    match &path[from] {
        Step::Key(key) => {
            if !node.is_table() {
                return;
            }
            if from + 1 == path.len() {
                rewrite_key(item, key.as_str(), action);
                return;
            }
            let ensure = match action {
                RewriteAction::Ensure(_) => true,
                _ => false,
            };
            // `Ensure` creates the parents it descends through; the others
            // leave a config that no longer has the key alone.
            if ensure && !inside {
                if let Some(child) = implicit_table(item, key.as_str()) {
                    apply_rewrite(child, path, from + 1, action, inside);
                }
            } else if let Some(child) = child_mut(item, key.as_str()) {
                apply_rewrite(child, path, from + 1, action, inside);
            }
        },
        Step::Index(index) => {
            if inside || node.elements.is_none() {
                return;
            }
            if let Some(element) = element_mut(item, *index) {
                apply_rewrite(element, path, from + 1, action, true);
            }
        },
    }
}

// ---------------------------------------------------------------------------
// What stays on the host
// ---------------------------------------------------------------------------

/// A document without its microkitchen table, and without the `_` table that
/// held nothing else.
pub open spec fn user_stripped(root: NodeView) -> NodeView {
    match root.get("_"@) {
        Some(user) => if user.entries is None {
            root
        } else {
            let left = without(user, "microkitchen"@);
            if left.entries->0.len() == 0 {
                without(root, "_"@)
            } else {
                with_child(root, "_"@, left)
            }
        },
        None => root,
    }
}

/// A directive table without what reads host files or adds host paths.
pub open spec fn directives_stripped(table: NodeView) -> NodeView {
    without(without(without(table, "file"@), "source"@), "path"@)
}

/// An `[env]` table whose directive table under a key is stripped, and dropped
/// where nothing else is in it.
pub open spec fn directive_table_stripped(env: NodeView, key: Seq<char>) -> NodeView {
    match env.get(key) {
        Some(table) => if table.entries is None {
            env
        } else {
            let left = directives_stripped(table);
            if left.entries->0.len() == 0 {
                without(env, key)
            } else {
                with_child(env, key, left)
            }
        },
        None => env,
    }
}

/// An `[env]` table without host directives. They stand in `_` and in the older
/// `mise`.
pub open spec fn host_stripped(env: NodeView) -> NodeView {
    directive_table_stripped(directive_table_stripped(env, "_"@), "mise"@)
}

/// A list of `[env]` tables without host directives, from an index on.
pub open spec fn each_stripped(list: NodeView, n: int) -> NodeView
    decreases n,
{
    if n <= 0 {
        list
    } else {
        let rest = each_stripped(list, n - 1);
        match element_at(rest, n - 1) {
            Some(element) => with_element(rest, n - 1, host_stripped(element)),
            None => rest,
        }
    }
}

/// How many elements a list has.
pub open spec fn list_len(list: NodeView) -> int {
    match (list.elements, list.tables) {
        (Some(elements), _) => elements.len() as int,
        (None, Some(tables)) => tables.len() as int,
        (None, None) => 0,
    }
}

/// A document whose `[env]` has no host directives.
pub open spec fn env_stripped(root: NodeView) -> NodeView {
    match root.get("env"@) {
        None => root,
        Some(env) => with_child(
            root,
            "env"@,
            if env.entries is Some {
                host_stripped(env)
            } else {
                each_stripped(env, list_len(env))
            },
        ),
    }
}

fn strip_user(root: &mut toml_edit::Item)
    requires
        is_settled(*old(root)),
        item_tree(*old(root)).entries is Some,
    ensures
        stays(*old(root), *final(root)),
        item_tree(*final(root)) == user_stripped(item_tree(*old(root))),
{
    let ghost before = item_tree(*root);
    let node = node_of(root);
    let is_table = match node.get("_") {
        Some(user) => user.is_table(),
        None => false,
    };
    if !is_table {
        return;
    }
    let mut emptied = false;
    if let Some(user) = child_mut(root, "_") {
        take_out(user, "microkitchen");
        let left = node_of(user);
        emptied = match left.entries {
            Some(entries) => entries.len() == 0,
            None => false,
        };
    }
    if emptied {
        proof {
            lemma_without_after_child(before, "_"@, without(before.get("_"@)->0, "microkitchen"@));
        }
        take_out(root, "_");
    }
}

/// What stood under a key does not matter once the key is gone.
proof fn lemma_without_after_child(node: NodeView, key: Seq<char>, child: NodeView)
    requires
        node.get(key) is Some,
    ensures
        without(with_child(node, key, child), key) == without(node, key),
{
    let entries = node.entries->0;
    let after = with_child(node, key, child).entries->0;
    lemma_entry_index(entries, key);
    lemma_entry_index(after, key);
    let i = entry_index(entries, key)->0;
    assert forall|k: int| 0 <= k < entries.len() implies (#[trigger] after[k]).key
        == entries[k].key by {}
    assert(after[i].key == key);
    assert(entry_index(after, key) == Some(i));
    assert(after.remove(i) =~= entries.remove(i));
}

fn strip_directive_table(env: &mut toml_edit::Item, key: &str)
    requires
        is_settled(*old(env)),
    ensures
        stays(*old(env), *final(env)),
        item_tree(*final(env)) == directive_table_stripped(item_tree(*old(env)), key@),
{
    let ghost before = item_tree(*env);
    let node = node_of(env);
    let is_table = match node.get(key) {
        Some(table) => table.is_table(),
        None => false,
    };
    if !is_table {
        return;
    }
    let mut emptied = false;
    if let Some(table) = child_mut(env, key) {
        take_out(table, "file");
        take_out(table, "source");
        take_out(table, "path");
        let left = node_of(table);
        emptied = match left.entries {
            Some(entries) => entries.len() == 0,
            None => false,
        };
    }
    if emptied {
        proof {
            lemma_without_after_child(before, key@, directives_stripped(before.get(key@)->0));
        }
        take_out(env, key);
    }
}

fn strip_host_directives(env: &mut toml_edit::Item)
    requires
        is_settled(*old(env)),
    ensures
        stays(*old(env), *final(env)),
        item_tree(*final(env)) == host_stripped(item_tree(*old(env))),
{
    strip_directive_table(env, "_");
    strip_directive_table(env, "mise");
}

fn strip_each(list: &mut toml_edit::Item)
    requires
        is_settled(*old(list)),
    ensures
        stays(*old(list), *final(list)),
        item_tree(*final(list)) == each_stripped(
            item_tree(*old(list)),
            list_len(item_tree(*old(list))),
        ),
{
    let ghost before = item_tree(*list);
    let node = node_of(list);
    let n: usize = match (&node.elements, &node.tables) {
        (Some(elements), _) => elements.len(),
        (None, Some(tables)) => tables.len(),
        (None, None) => 0,
    };
    let mut i: usize = 0;
    while i < n
        invariant
            i <= n,
            stays(*old(list), *list),
            item_tree(*list) == each_stripped(before, i as int),
        decreases n - i,
    {
        if let Some(element) = element_mut(list, i) {
            strip_host_directives(element);
        }
        i += 1;
    }
}

fn strip_env(root: &mut toml_edit::Item)
    requires
        is_settled(*old(root)),
    ensures
        stays(*old(root), *final(root)),
        item_tree(*final(root)) == env_stripped(item_tree(*old(root))),
{
    if let Some(env) = child_mut(root, "env") {
        let node = node_of(env);
        if node.is_table() {
            strip_host_directives(env);
        } else {
            strip_each(env);
        }
    }
}

// ---------------------------------------------------------------------------
// Chef
// ---------------------------------------------------------------------------

pub open spec fn integer_value(n: i64) -> NodeView {
    NodeView { integer: Some(n), ..bare() }
}

/// A table with a value under a key that it does not have.
pub open spec fn filled(table: NodeView, key: Seq<char>, value: NodeView) -> NodeView {
    if table.get(key) is Some {
        table
    } else {
        with_put(table, key, value)
    }
}

/// An empty table inside another one: inline inside inline tables.
pub open spec fn new_table(parent: NodeView) -> NodeView {
    fresh_table(parent, false)
}

/// The declaration of chef in a table of users: passwordless sudo (through the
/// `sudo` group) and Docker.
pub open spec fn new_chef(users: NodeView) -> NodeView {
    let ids = with_put(
        with_put(new_table(users), "uid"@, integer_value(DEFAULT_CHEF_ID as i64)),
        "group"@,
        text_value(CHEF@),
    );
    let groups = with_put(
        ids,
        "groups"@,
        NodeView { elements: Some(seq![text_value("sudo"@), text_value("docker"@)]), ..bare() },
    );
    with_put(
        with_put(groups, "shell"@, text_value("/bin/bash"@)),
        "comment"@,
        text_value("sandbox user"@),
    )
}

/// The declaration of chef's group in a table of groups.
pub open spec fn new_chef_group(groups: NodeView) -> NodeView {
    with_put(new_table(groups), "gid"@, integer_value(DEFAULT_CHEF_ID as i64))
}

/// A declared chef with its ids.
pub open spec fn chef_filled(chef: NodeView) -> NodeView {
    filled(
        filled(chef, "uid"@, integer_value(DEFAULT_CHEF_ID as i64)),
        "group"@,
        text_value(CHEF@),
    )
}

/// The chef of a table of users, if it is declared as a table.
pub open spec fn declared_chef(users: NodeView) -> Option<NodeView> {
    users.table(CHEF@)
}

/// The users with chef among them, and chef's primary group.
pub open spec fn users_with_chef(users: NodeView) -> (NodeView, Seq<char>) {
    match declared_chef(users) {
        Some(chef) => {
            let now = chef_filled(chef);
            (
                with_child(users, CHEF@, now),
                match now.get("group"@)->0.text {
                    Some(group) => group,
                    None => CHEF@,
                },
            )
        },
        None => (with_put(users, CHEF@, new_chef(users)), CHEF@),
    }
}

/// The groups with chef's among them.
pub open spec fn groups_with_chef(groups: NodeView) -> NodeView {
    match groups.table(CHEF@) {
        Some(chef) => with_child(
            groups,
            CHEF@,
            filled(chef, "gid"@, integer_value(DEFAULT_CHEF_ID as i64)),
        ),
        None => with_put(groups, CHEF@, new_chef_group(groups)),
    }
}

/// `[bootstrap]` with chef in it.
pub open spec fn bootstrap_with_chef(bootstrap: NodeView) -> NodeView {
    match implicit(bootstrap, "users"@) {
        None => bootstrap,
        Some(users) => {
            let (now, group) = users_with_chef(users);
            let named = with_child(prepared(bootstrap, "users"@, true), "users"@, now);
            if group != CHEF@ {
                named
            } else {
                match implicit(named, "groups"@) {
                    None => named,
                    Some(groups) => with_child(
                        prepared(named, "groups"@, true),
                        "groups"@,
                        groups_with_chef(groups),
                    ),
                }
            }
        },
    }
}

/// A document that declares chef.
pub open spec fn with_chef(root: NodeView) -> NodeView {
    match implicit(root, "bootstrap"@) {
        None => root,
        Some(bootstrap) => with_child(
            prepared(root, "bootstrap"@, true),
            "bootstrap"@,
            bootstrap_with_chef(bootstrap),
        ),
    }
}

/// Put a value under a key that a table does not have.
fn fill(table: &mut toml_edit::Item, key: &str, fresh: Fresh)
    requires
        is_settled(*old(table)),
        item_tree(*old(table)).entries is Some,
        !(fresh is Table),
    ensures
        stays(*old(table), *final(table)),
        item_tree(*final(table)) == filled(item_tree(*old(table)), key@, fresh.tree()),
{
    let node = node_of(table);
    if node.get(key).is_none() {
        put(table, key, fresh);
    }
}

/// Put an empty table under a key.
fn put_table<'a>(parent: &'a mut toml_edit::Item, key: &str) -> (r: Option<&'a mut toml_edit::Item>)
    requires
        is_settled(*old(parent)),
        item_tree(*old(parent)).entries is Some,
    ensures
        match r {
            None => false,
            Some(child) => {
                &&& item_tree(*child) == new_table(item_tree(*old(parent)))
                &&& is_settled(*child)
                &&& stays(*child, *final(child)) ==> {
                    &&& item_tree(*final(parent)) == with_put(
                        item_tree(*old(parent)),
                        key@,
                        item_tree(*final(child)),
                    )
                    &&& stays(*old(parent), *final(parent))
                }
            },
        },
{
    let ghost before = item_tree(*parent);
    let node = node_of(parent);
    let fresh = if node.inline {
        Fresh::InlineTable
    } else {
        Fresh::Table { implicit: false }
    };
    assert(fresh.tree() == new_table(before));
    proof {
        lemma_put_then_get(before, key@, new_table(before), key@);
        lemma_put_child(before, key@, new_table(before));
    }
    put(parent, key, fresh);
    child_mut(parent, key)
}

/// Putting a value and then another in its place is putting the other.
proof fn lemma_put_child(node: NodeView, key: Seq<char>, first: NodeView)
    requires
        node.entries is Some,
    ensures
        forall|second: NodeView|
            #[trigger] with_child(with_put(node, key, first), key, second) == with_put(
                node,
                key,
                second,
            ),
{
    let entries = node.entries->0;
    let once = with_put(node, key, first).entries->0;
    lemma_entry_index(entries, key);
    lemma_entry_index(once, key);
    let at = match entry_index(entries, key) {
        Some(i) => i,
        None => entries.len() as int,
    };
    assert(once[at].key == key);
    assert forall|k: int| 0 <= k < at implies (#[trigger] once[k]).key != key by {
        assert(once[k] == entries[k]);
    }
    assert(entry_index(once, key) == Some(at));
    assert forall|second: NodeView| #[trigger]
        with_child(with_put(node, key, first), key, second) == with_put(node, key, second) by {
        assert(with_child(with_put(node, key, first), key, second).entries->0 =~= with_put(
            node,
            key,
            second,
        ).entries->0);
    }
}

/// Declare chef among the users, giving its primary group.
fn add_chef_user(users: &mut toml_edit::Item) -> (r: String)
    requires
        is_settled(*old(users)),
        item_tree(*old(users)).entries is Some,
    ensures
        stays(*old(users), *final(users)),
        item_tree(*final(users)) == users_with_chef(item_tree(*old(users))).0,
        r@ == users_with_chef(item_tree(*old(users))).1,
{
    let node = node_of(users);
    match node.table(CHEF) {
        Some(_) => {
            let mut group = CHEF.to_owned();
            if let Some(chef) = child_mut(users, CHEF) {
                let ghost before = item_tree(*chef);
                fill(chef, "uid", Fresh::Integer(DEFAULT_CHEF_ID as i64));
                let ghost half = item_tree(*chef);
                fill(chef, "group", Fresh::Text(CHEF.to_owned()));
                proof {
                    lemma_put_then_get(half, "group"@, text_value(CHEF@), "group"@);
                }
                let now = node_of(chef);
                if let Some(value) = now.get("group") {
                    if let Some(text) = &value.text {
                        group = text.clone();
                    }
                }
            }
            group
        },
        None => {
            if let Some(chef) = put_table(users, CHEF) {
                put(chef, "uid", Fresh::Integer(DEFAULT_CHEF_ID as i64));
                put(chef, "group", Fresh::Text(CHEF.to_owned()));
                let mut groups: Vec<String> = Vec::new();
                groups.push("sudo".to_owned());
                groups.push("docker".to_owned());
                let fresh = Fresh::Texts(groups);
                assert(fresh.tree().elements->0 =~= seq![text_value("sudo"@), text_value("docker"@)]);
                put(chef, "groups", fresh);
                put(chef, "shell", Fresh::Text("/bin/bash".to_owned()));
                put(chef, "comment", Fresh::Text("sandbox user".to_owned()));
            }
            CHEF.to_owned()
        },
    }
}

/// Declare chef's group among the groups.
fn add_chef_group(groups: &mut toml_edit::Item)
    requires
        is_settled(*old(groups)),
        item_tree(*old(groups)).entries is Some,
    ensures
        stays(*old(groups), *final(groups)),
        item_tree(*final(groups)) == groups_with_chef(item_tree(*old(groups))),
{
    let node = node_of(groups);
    match node.table(CHEF) {
        Some(_) => {
            if let Some(chef) = child_mut(groups, CHEF) {
                fill(chef, "gid", Fresh::Integer(DEFAULT_CHEF_ID as i64));
            }
        },
        None => {
            if let Some(chef) = put_table(groups, CHEF) {
                put(chef, "gid", Fresh::Integer(DEFAULT_CHEF_ID as i64));
            }
        },
    }
}

fn add_chef_to(bootstrap: &mut toml_edit::Item)
    requires
        is_settled(*old(bootstrap)),
        item_tree(*old(bootstrap)).entries is Some,
    ensures
        stays(*old(bootstrap), *final(bootstrap)),
        item_tree(*final(bootstrap)) == bootstrap_with_chef(item_tree(*old(bootstrap))),
{
    let mut own_group = false;
    if let Some(users) = implicit_table(bootstrap, "users") {
        let group = add_chef_user(users);
        own_group = same(group.as_str(), CHEF);
    }
    if own_group {
        if let Some(groups) = implicit_table(bootstrap, "groups") {
            add_chef_group(groups);
        }
    }
}

/// Declare chef: passwordless sudo (through the `sudo` group) and Docker unless
/// the kitchen file says otherwise.
fn add_chef(root: &mut toml_edit::Item)
    requires
        is_settled(*old(root)),
        item_tree(*old(root)).entries is Some,
    ensures
        stays(*old(root), *final(root)),
        item_tree(*final(root)) == with_chef(item_tree(*old(root))),
{
    if let Some(bootstrap) = implicit_table(root, "bootstrap") {
        add_chef_to(bootstrap);
    }
}

// ---------------------------------------------------------------------------
// Rendering
// ---------------------------------------------------------------------------

/// What the guest gets of a document.
pub open spec fn guest_tree(root: NodeView) -> NodeView {
    with_chef(env_stripped(user_stripped(root)))
}

/// What rendering the text of a kitchen file comes to.
pub open spec fn guest_document(text: Seq<char>, rewrites: Seq<RewriteView>) -> Result<
    NodeView,
    SyntaxErrorView,
> {
    match editable_document(text) {
        Err(error) => Err(error),
        Ok(root) => Ok(guest_tree(all_rewritten(root, rewrites))),
    }
}

/// What rendering a text gives: the text itself where the guest's copy says
/// what it says, else that of the document with the expected tree; or the
/// error. It reads back as the tree and holds nothing that stays on the host as
/// long as a reader takes the rewritten document, and is a guest's copy of it
/// where the rewrites stay readable: so it is without rewrites.
pub open spec fn render_outcome(
    text: Seq<char>,
    r: Result<String, SyntaxError>,
    rewrites: Seq<RewriteView>,
) -> bool {
    let expected = guest_document(text, rewrites);
    let source = all_rewritten(editable_document(text)->Ok_0, rewrites);
    match (r, expected) {
        (Ok(out), Ok(tree)) => {
            &&& if editable_document(text) == expected {
                out@ == text && reads_back(out@, tree)
            } else {
                prints(out@, tree)
            }
            &&& is_readable(source) ==> reads_back(out@, tree) && is_for_guest(out@)
            &&& stay_readable(editable_document(text)->Ok_0, rewrites) ==> reads_back(out@, tree)
                && is_for_guest(out@) && is_guest_copy(out@, source)
        },
        (Err(error), Err(expected)) => error@ == expected,
        _ => false,
    }
}

/// Whether a document holds nothing that stays on the host: no microkitchen
/// table, and no directive that reads host files or adds host paths.
pub open spec fn is_guest_tree(root: NodeView) -> bool {
    &&& root.get("_"@) matches Some(user) ==> user.get("microkitchen"@) is None
    &&& root.get("env"@) matches Some(env) ==> if env.entries is Some {
        is_clean(env)
    } else {
        forall|i: int|
            0 <= i < list_len(env) ==> is_clean((#[trigger] element_at(env, i))->0)
    }
}

/// Whether a text is TOML that holds nothing that stays on the host.
pub open spec fn is_for_guest(text: Seq<char>) -> bool {
    editable_document(text) matches Ok(root) && is_guest_tree(root)
}

/// Whether rendering a text gives the text itself.
pub open spec fn renders_to_itself(text: Seq<char>) -> bool {
    editable_document(text) is Ok && guest_document(text, Seq::empty()) == editable_document(text)
}

/// Whether a key says what it said, or is missing as it was.
pub open spec fn is_kept(before: Option<NodeView>, now: Option<NodeView>) -> bool {
    match (before, now) {
        (Some(x), Some(y)) => same_contents(x, y),
        (None, None) => true,
        _ => false,
    }
}

/// A key of the `[env]` table.
pub open spec fn env_key(root: NodeView, key: Seq<char>) -> Option<NodeView> {
    match root.get("env"@) {
        Some(env) => env.get(key),
        None => None,
    }
}

/// Whether a document keeps what the guest's copy of `before` has no reason to
/// change: the other top-level keys, the variables of `[env]`, and what is said
/// of chef.
pub open spec fn carries_over(before: NodeView, now: NodeView) -> bool {
    &&& forall|key: Seq<char>|
        key != "_"@ && key != "env"@ && key != "bootstrap"@ ==> is_kept(
            before.get(key),
            #[trigger] now.get(key),
        )
    &&& forall|key: Seq<char>|
        key != "_"@ && key != "mise"@ ==> is_kept(env_key(before, key), #[trigger] env_key(now, key))
    &&& chef_of(before) matches Some(chef) ==> forall|key: Seq<char>|
        #[trigger] chef.get(key) is Some ==> is_kept(
            chef.get(key),
            match chef_of(now) {
                Some(chef) => chef.get(key),
                None => None,
            },
        )
}

/// Whether the `bootstrap.users` of a document is a table, or can be made one.
pub open spec fn takes_users(root: NodeView) -> bool {
    implicit(root, "bootstrap"@) matches Some(bootstrap) && implicit(bootstrap, "users"@) is Some
}

/// Whether a document declares chef with a uid and a group.
pub open spec fn declares_chef(root: NodeView) -> bool {
    chef_of(root) matches Some(chef) && chef.get("uid"@) is Some && chef.get("group"@) is Some
}

/// Whether a text is a guest's copy of a document: it declares chef where the
/// document takes users, keeps the rest, and has nothing left to render.
pub open spec fn is_guest_copy(text: Seq<char>, before: NodeView) -> bool {
    &&& renders_to_itself(text)
    &&& takes_users(before) ==> declares_chef(editable_document(text)->Ok_0)
    &&& carries_over(before, editable_document(text)->Ok_0)
}

/// Render the guest copy of the kitchen file, preserving everything else.
pub fn render_guest_config(text: &str) -> (r: Result<String, SyntaxError>)
    ensures
        render_outcome(text@, r, Seq::empty()),
{
    let plan = StagePlan::default();
    assert(views(plan.rewrites@) =~= Seq::empty());
    render_guest_config_with(text, &plan)
}

/// As [`render_guest_config`], with each staged `source` rewritten to the
/// absolute guest path of its copy.
///
/// Rewrites run first: they address keys as written in the kitchen file, before
/// `[_.microkitchen]` is removed.
pub fn render_guest_config_with(text: &str, staging: &StagePlan) -> (r: Result<String, SyntaxError>)
    ensures
        render_outcome(text@, r, views(staging.rewrites@)),
{
    let mut document = match open_document(text) {
        Ok(document) => document,
        Err(error) => {
            return Err(error);
        },
    };
    let root = root_mut(&mut document);
    let ghost before = item_tree(*root);
    let given = node_of(root);
    let ghost rv = views(staging.rewrites@);
    let mut i: usize = 0;
    assert(rv.subrange(0, 0) =~= Seq::empty());
    while i < staging.rewrites.len()
        invariant
            i <= staging.rewrites@.len(),
            rv == views(staging.rewrites@),
            is_settled(*root),
            ends_plainly(after_borrow(document)),
            is_header_table(item_tree(*root)),
            item_tree(*root) == all_rewritten(before, rv.subrange(0, i as int)),
            root_of(after_borrow(document)) == *final(root),
        decreases staging.rewrites@.len() - i,
    {
        assert(rv.subrange(0, i + 1).drop_last() =~= rv.subrange(0, i as int));
        assert(rv.subrange(0, i + 1).last() == staging.rewrites@[i as int]@);
        apply_rewrite(root, &staging.rewrites[i].path, 0, &staging.rewrites[i].action, false);
        i += 1;
    }
    assert(rv.subrange(0, rv.len() as int) =~= rv);
    // A document that was read holds no key twice.
    let _rewritten = node_of(root);
    let ghost source = item_tree(*root);
    assert(well_keyed(source));
    strip_user(root);
    strip_env(root);
    add_chef(root);
    let ghost tree = item_tree(*root);
    proof {
        lemma_guest_tree(source);
    }
    proof {
        if stay_readable(before, rv) {
            law_rewritten_documents_are_readable(before, rv);
        }
    }
    let rendered = node_of(root);
    if same_tree(&given, &rendered) {
        proof {
            lemma_text_reads_back(text@, before);
            lemma_read_for_guest(tree, before);
            if is_full(source) {
                lemma_rendered_again(source, before);
                lemma_carried_over(source, before);
            }
        }
        return Ok(text.to_owned());
    }
    let out = print_document(&document);
    proof {
        if is_readable(source) {
            lemma_guest_fits(source);
            lemma_read_for_guest(tree, editable_document(out@)->Ok_0);
            if is_full(source) {
                lemma_rendered_again(source, editable_document(out@)->Ok_0);
                lemma_carried_over(source, editable_document(out@)->Ok_0);
            }
        }
    }
    Ok(out)
}

proof fn lemma_keyed_child(node: NodeView, key: Seq<char>)
    requires
        well_keyed(node),
    ensures
        node.get(key) matches Some(child) ==> well_keyed(child),
{
    if let Some(entries) = node.entries {
        lemma_entry_index(entries, key);
        if let Some(i) = entry_index(entries, key) {
            assert(well_keyed(entries[i].node));
        }
    }
}

/// What the guest gets holds nothing that stays on the host.
proof fn lemma_guest_tree(root: NodeView)
    requires
        root.entries is Some,
        well_keyed(root),
    ensures
        is_guest_tree(guest_tree(root)),
{
    lemma_keyed_child(root, "_"@);
    law_guest_gets_no_microkitchen_table(root);
    lemma_keyed_child(root, "env"@);
    if let Some(env) = root.get("env"@) {
        assert forall|i: int| 0 <= i < list_len(env) implies is_tidy(
            (#[trigger] element_at(env, i))->0,
        ) by {
            let element = element_at(env, i)->0;
            assert(well_keyed(element));
            lemma_keyed_child(element, "_"@);
            lemma_keyed_child(element, "mise"@);
        }
        lemma_keyed_child(env, "_"@);
        lemma_keyed_child(env, "mise"@);
    }
    law_guest_gets_no_host_directives(root);
}

proof fn lemma_read_clean(a: NodeView, b: NodeView)
    requires
        same_contents(a, b),
        is_clean(a),
    ensures
        is_clean(b),
{
    assert forall|key: Seq<char>, name: Seq<char>|
        #![trigger b.get(key), is_host_directive(name)]
        (key == "_"@ || key == "mise"@) && is_host_directive(name) implies (b.get(
        key,
    ) matches Some(table) ==> table.get(name) is None) by {
        lemma_same_get(a, b, key);
        if let (Some(x), Some(y)) = (a.get(key), b.get(key)) {
            lemma_same_get(x, y, name);
            assert(is_host_directive(name));
        }
    }
}

/// What is read back of a guest's copy holds nothing that stays on the host.
proof fn lemma_read_for_guest(tree: NodeView, read: NodeView)
    requires
        same_contents(tree, read),
        is_guest_tree(tree),
    ensures
        is_guest_tree(read),
{
    lemma_same_get(tree, read, "_"@);
    if let (Some(x), Some(y)) = (tree.get("_"@), read.get("_"@)) {
        lemma_same_get(x, y, "microkitchen"@);
    }
    lemma_same_get(tree, read, "env"@);
    if let (Some(x), Some(y)) = (tree.get("env"@), read.get("env"@)) {
        if x.entries is Some {
            lemma_read_clean(x, y);
        } else {
            assert forall|i: int| 0 <= i < list_len(y) implies is_clean(
                (#[trigger] element_at(y, i))->0,
            ) by {
                assert(is_clean(element_at(x, i)->0));
                assert(same_contents(element_at(x, i)->0, element_at(y, i)->0));
                lemma_read_clean(element_at(x, i)->0, element_at(y, i)->0);
            }
        }
    }
}

// ---------------------------------------------------------------------------
// Rendering twice
// ---------------------------------------------------------------------------

proof fn lemma_full_prints(node: NodeView)
    requires
        is_full(node),
    ensures
        !vanishes(node),
    decreases node,
{
    if vanishes(node) {
        let entries = node.entries->0;
        lemma_full_prints(entries[0].node);
        assert(vanishes(entries[0].node));
    }
}

proof fn lemma_full_child(node: NodeView, key: Seq<char>)
    requires
        is_full(node),
    ensures
        node.get(key) matches Some(child) ==> is_full(child) && !vanishes(child),
{
    if let Some(entries) = node.entries {
        lemma_entry_index(entries, key);
        if let Some(i) = entry_index(entries, key) {
            assert(is_full(entries[i].node));
            lemma_full_prints(entries[i].node);
        }
    }
}

/// A table prints if something in it does.
proof fn lemma_child_prints(node: NodeView, key: Seq<char>)
    requires
        node.get(key) matches Some(child) && !vanishes(child),
    ensures
        !vanishes(node),
{
    let entries = node.entries->0;
    lemma_entry_index(entries, key);
    let i = entry_index(entries, key)->0;
    assert(!vanishes(entries[i].node));
}

/// Whether a table holds something, and nothing that does not print.
pub open spec fn holds_printed(table: NodeView) -> bool {
    table.entries matches Some(entries) ==> entries.len() > 0 && forall|i: int|
        0 <= i < entries.len() ==> is_full((#[trigger] entries[i]).node)
}

proof fn lemma_holds_read(a: NodeView, b: NodeView)
    requires
        same_contents(a, b),
        holds_printed(a),
    ensures
        b.entries matches Some(entries) ==> entries.len() > 0,
{
    if let Some(entries) = a.entries {
        assert(is_full(entries[0].node));
        lemma_full_prints(entries[0].node);
        let key = entries[0].key;
        assert(b.get(key) is Some);
        lemma_entry_index(b.entries->0, key);
    }
}

proof fn lemma_without_full(table: NodeView, key: Seq<char>)
    requires
        table.entries matches Some(entries) ==> forall|i: int|
            0 <= i < entries.len() ==> is_full((#[trigger] entries[i]).node),
    ensures
        without(table, key).entries matches Some(entries) ==> forall|i: int|
            0 <= i < entries.len() ==> is_full((#[trigger] entries[i]).node),
{
    if let Some(entries) = table.entries {
        lemma_entry_index(entries, key);
        if let Some(at) = entry_index(entries, key) {
            let after = entries.remove(at);
            assert forall|i: int| 0 <= i < after.len() implies is_full((#[trigger] after[i]).node) by {
                let k = if i < at {
                    i
                } else {
                    i + 1
                };
                assert(after[i] == entries[k]);
            }
        }
    }
}

/// A directive table that is left holds something.
proof fn lemma_left_holds(env: NodeView, key: Seq<char>)
    requires
        unique_keys(env),
        env.get(key) matches Some(table) ==> is_full(table),
    ensures
        directive_table_stripped(env, key).get(key) matches Some(table) ==> holds_printed(table),
{
    if let Some(table) = env.get(key) {
        if table.entries is Some {
            lemma_without_full(table, "file"@);
            lemma_without_full(without(table, "file"@), "source"@);
            lemma_without_full(without(without(table, "file"@), "source"@), "path"@);
            lemma_child_then_get(env, key, directives_stripped(table), key);
            lemma_without_same(env, key);
        }
    }
}

/// Whether the directive tables of an `[env]` table hold something.
pub open spec fn directives_hold(env: NodeView) -> bool {
    &&& env.get("_"@) matches Some(table) ==> holds_printed(table)
    &&& env.get("mise"@) matches Some(table) ==> holds_printed(table)
}

proof fn lemma_stripped_holds(env: NodeView)
    requires
        is_full(env),
        well_keyed(env),
    ensures
        directives_hold(host_stripped(env)),
        is_clean(host_stripped(env)),
{
    lemma_distinct_names();
    lemma_full_child(env, "_"@);
    lemma_full_child(env, "mise"@);
    lemma_keyed_child(env, "_"@);
    lemma_keyed_child(env, "mise"@);
    lemma_host_stripped(env);
    let once = directive_table_stripped(env, "_"@);
    lemma_left_holds(env, "_"@);
    assert(is_host_directive("file"@));
    lemma_directive_table(env, "_"@, "mise"@, "file"@);
    lemma_left_holds(once, "mise"@);
    lemma_directive_table(once, "mise"@, "_"@, "file"@);
}

/// Where nothing is to be stripped, nothing changes.
proof fn lemma_strip_nothing(env: NodeView)
    requires
        is_clean(env),
        env.get("_"@) matches Some(table) ==> (table.entries matches Some(entries) ==> entries.len()
            > 0),
        env.get("mise"@) matches Some(table) ==> (table.entries matches Some(entries)
            ==> entries.len() > 0),
    ensures
        host_stripped(env) == env,
{
    assert(is_host_directive("file"@) && is_host_directive("source"@) && is_host_directive("path"@));
    if let Some(table) = env.get("_"@) {
        assert(table.get("file"@) is None && table.get("source"@) is None && table.get("path"@) is None);
        assert(directives_stripped(table) == table);
        lemma_put_back(env, "_"@);
    }
    if let Some(table) = env.get("mise"@) {
        assert(table.get("file"@) is None && table.get("source"@) is None && table.get("path"@) is None);
        assert(directives_stripped(table) == table);
        lemma_put_back(env, "mise"@);
    }
}

/// What is read back of a stripped `[env]` table has nothing to be stripped.
proof fn lemma_read_stripped(env: NodeView, read: NodeView)
    requires
        is_full(env),
        well_keyed(env),
        same_contents(host_stripped(env), read),
    ensures
        host_stripped(read) == read,
{
    let now = host_stripped(env);
    lemma_stripped_holds(env);
    lemma_read_clean(now, read);
    lemma_same_get(now, read, "_"@);
    lemma_same_get(now, read, "mise"@);
    if let (Some(x), Some(y)) = (now.get("_"@), read.get("_"@)) {
        lemma_holds_read(x, y);
    }
    if let (Some(x), Some(y)) = (now.get("mise"@), read.get("mise"@)) {
        lemma_holds_read(x, y);
    }
    lemma_strip_nothing(read);
}

proof fn lemma_each_unchanged(list: NodeView, n: int)
    requires
        0 <= n <= list_len(list),
        forall|i: int|
            0 <= i < list_len(list) ==> host_stripped((#[trigger] element_at(list, i))->0)
                == element_at(list, i)->0,
    ensures
        each_stripped(list, n) == list,
    decreases n,
{
    if n > 0 {
        lemma_each_unchanged(list, n - 1);
        let element = element_at(list, n - 1)->0;
        assert(host_stripped(element) == element);
        match (list.elements, list.tables) {
            (Some(elements), _) => assert(elements.update(n - 1, element) =~= elements),
            (None, Some(tables)) => assert(tables.update(n - 1, element) =~= tables),
            (None, None) => {},
        }
    }
}

/// The users' part of a document that is rendered again does not change.
proof fn lemma_users_again(users: NodeView, read: NodeView)
    requires
        users.entries is Some,
        is_full(users) || users.entries->0.len() == 0,
        same_contents(users_with_chef(users).0, read),
    ensures
        users_with_chef(read) == (read, users_with_chef(users).1),
        !vanishes(users_with_chef(users).0),
{
    reveal_strlit("uid");
    reveal_strlit("group");
    reveal_strlit("groups");
    reveal_strlit("shell");
    reveal_strlit("comment");
    assert("uid"@.len() != "group"@.len() && "groups"@.len() != "uid"@.len() && "groups"@.len()
        != "group"@.len() && "shell"@.len() != "uid"@.len() && "comment"@.len() != "uid"@.len()
        && "comment"@.len() != "group"@.len());
    assert("shell"@[0] != "group"@[0]);
    let (now, group) = users_with_chef(users);
    let uid = integer_value(DEFAULT_CHEF_ID as i64);
    let chef = match declared_chef(users) {
        Some(chef) => {
            if users.entries->0.len() > 0 {
                lemma_full_child(users, CHEF@);
            }
            let half = filled(chef, "uid"@, uid);
            lemma_put_then_get(chef, "uid"@, uid, "uid"@);
            lemma_put_then_get(chef, "uid"@, uid, "group"@);
            lemma_put_then_get(half, "group"@, text_value(CHEF@), "uid"@);
            lemma_put_then_get(half, "group"@, text_value(CHEF@), "group"@);
            lemma_full_child(chef, "uid"@);
            lemma_full_child(chef, "group"@);
            lemma_child_then_get(users, CHEF@, chef_filled(chef), CHEF@);
            chef_filled(chef)
        },
        None => {
            let t0 = new_table(users);
            let t1 = with_put(t0, "uid"@, uid);
            let t2 = with_put(t1, "group"@, text_value(CHEF@));
            let list = NodeView {
                elements: Some(seq![text_value("sudo"@), text_value("docker"@)]),
                ..bare()
            };
            let t3 = with_put(t2, "groups"@, list);
            let t4 = with_put(t3, "shell"@, text_value("/bin/bash"@));
            lemma_put_then_get(t0, "uid"@, uid, "uid"@);
            lemma_put_then_get(t1, "group"@, text_value(CHEF@), "uid"@);
            lemma_put_then_get(t1, "group"@, text_value(CHEF@), "group"@);
            lemma_put_then_get(t2, "groups"@, list, "uid"@);
            lemma_put_then_get(t2, "groups"@, list, "group"@);
            lemma_put_then_get(t3, "shell"@, text_value("/bin/bash"@), "uid"@);
            lemma_put_then_get(t3, "shell"@, text_value("/bin/bash"@), "group"@);
            lemma_put_then_get(t4, "comment"@, text_value("sandbox user"@), "uid"@);
            lemma_put_then_get(t4, "comment"@, text_value("sandbox user"@), "group"@);
            lemma_put_then_get(users, CHEF@, new_chef(users), CHEF@);
            new_chef(users)
        },
    };
    assert(now.get(CHEF@) == Some(chef));
    assert(chef.entries is Some);
    assert(!vanishes(chef.get("uid"@)->0) && !vanishes(chef.get("group"@)->0));
    lemma_child_prints(chef, "uid"@);
    lemma_child_prints(now, CHEF@);
    lemma_same_get(now, read, CHEF@);
    let there = read.get(CHEF@)->0;
    lemma_same_get(chef, there, "uid"@);
    lemma_same_get(chef, there, "group"@);
    assert(chef_filled(there) == there);
    lemma_put_back(read, CHEF@);
    assert(chef.get("group"@)->0.text == there.get("group"@)->0.text);
    assert(group == match chef.get("group"@)->0.text {
        Some(group) => group,
        None => CHEF@,
    });
}

/// The groups' part of a document that is rendered again does not change.
proof fn lemma_groups_again(groups: NodeView, read: NodeView)
    requires
        groups.entries is Some,
        is_full(groups) || groups.entries->0.len() == 0,
        same_contents(groups_with_chef(groups), read),
    ensures
        groups_with_chef(read) == read,
        !vanishes(groups_with_chef(groups)),
{
    let now = groups_with_chef(groups);
    let gid = integer_value(DEFAULT_CHEF_ID as i64);
    let chef = match groups.table(CHEF@) {
        Some(chef) => {
            if groups.entries->0.len() > 0 {
                lemma_full_child(groups, CHEF@);
            }
            lemma_put_then_get(chef, "gid"@, gid, "gid"@);
            lemma_full_child(chef, "gid"@);
            lemma_child_then_get(groups, CHEF@, filled(chef, "gid"@, gid), CHEF@);
            filled(chef, "gid"@, gid)
        },
        None => {
            lemma_put_then_get(new_table(groups), "gid"@, gid, "gid"@);
            lemma_put_then_get(groups, CHEF@, new_chef_group(groups), CHEF@);
            new_chef_group(groups)
        },
    };
    assert(now.get(CHEF@) == Some(chef));
    assert(!vanishes(chef.get("gid"@)->0));
    lemma_child_prints(chef, "gid"@);
    lemma_child_prints(now, CHEF@);
    lemma_same_get(now, read, CHEF@);
    let there = read.get(CHEF@)->0;
    lemma_same_get(chef, there, "gid"@);
    lemma_put_back(read, CHEF@);
}

/// `[bootstrap]` does not change when it is rendered again.
proof fn lemma_bootstrap_again(bootstrap: NodeView, read: NodeView)
    requires
        bootstrap.entries is Some,
        is_full(bootstrap) || bootstrap.entries->0.len() == 0,
        same_contents(bootstrap_with_chef(bootstrap), read),
    ensures
        bootstrap_with_chef(read) == read,
        !vanishes(bootstrap_with_chef(bootstrap)),
{
    reveal_strlit("users");
    reveal_strlit("groups");
    assert("users"@.len() != "groups"@.len());
    let after = bootstrap_with_chef(bootstrap);
    lemma_prepared(bootstrap, "users"@, "groups"@);
    if bootstrap.entries->0.len() > 0 {
        lemma_full_child(bootstrap, "users"@);
        lemma_full_child(bootstrap, "groups"@);
    }
    if bootstrap.get("users"@) is None {
        lemma_put_then_get(bootstrap, "users"@, fresh_table(bootstrap, true), "users"@);
    }
    match implicit(bootstrap, "users"@) {
        None => {
            lemma_child_prints(bootstrap, "users"@);
            lemma_same_get(after, read, "users"@);
        },
        Some(users) => {
            let (now, group) = users_with_chef(users);
            let before = prepared(bootstrap, "users"@, true);
            let named = with_child(before, "users"@, now);
            lemma_child_then_get(before, "users"@, now, "users"@);
            lemma_child_then_get(before, "users"@, now, "groups"@);
            assert(users_with_chef(users).0.entries is Some);
            lemma_prepared(named, "groups"@, "users"@);
            if named.get("groups"@) is None {
                lemma_put_then_get(named, "groups"@, fresh_table(named, true), "groups"@);
            }
            if group == CHEF@ {
                if let Some(groups) = implicit(named, "groups"@) {
                    let wide = prepared(named, "groups"@, true);
                    lemma_child_then_get(wide, "groups"@, groups_with_chef(groups), "users"@);
                    lemma_child_then_get(wide, "groups"@, groups_with_chef(groups), "groups"@);
                }
            }
            assert(after.get("users"@) == Some(now));
            lemma_same_get(after, read, "users"@);
            lemma_users_print(users);
            let there = read.get("users"@)->0;
            lemma_users_again(users, there);
            lemma_child_prints(after, "users"@);
            lemma_put_back(read, "users"@);
            if group == CHEF@ {
                lemma_same_get(after, read, "groups"@);
                match implicit(named, "groups"@) {
                    Some(groups) => {
                        lemma_groups_print(groups);
                        lemma_groups_again(groups, read.get("groups"@)->0);
                        lemma_put_back(read, "groups"@);
                    },
                    None => {
                        assert(after.get("groups"@) == bootstrap.get("groups"@));
                    },
                }
            }
        },
    }
}

proof fn lemma_users_print(users: NodeView)
    requires
        users.entries is Some,
        is_full(users) || users.entries->0.len() == 0,
    ensures
        !vanishes(users_with_chef(users).0),
{
    let uid = integer_value(DEFAULT_CHEF_ID as i64);
    match declared_chef(users) {
        Some(chef) => {
            if users.entries->0.len() > 0 {
                lemma_full_child(users, CHEF@);
            }
            lemma_child_then_get(users, CHEF@, chef_filled(chef), CHEF@);
            reveal_strlit("uid");
            reveal_strlit("group");
            assert("uid"@.len() != "group"@.len());
            let half = filled(chef, "uid"@, uid);
            lemma_put_then_get(chef, "uid"@, uid, "uid"@);
            lemma_put_then_get(half, "group"@, text_value(CHEF@), "uid"@);
            lemma_full_child(chef, "uid"@);
            lemma_child_prints(chef_filled(chef), "uid"@);
        },
        None => {
            lemma_put_then_get(users, CHEF@, new_chef(users), CHEF@);
            assert(!new_chef(users).implicit && !new_chef(users).dotted);
        },
    }
    lemma_child_prints(users_with_chef(users).0, CHEF@);
}

proof fn lemma_groups_print(groups: NodeView)
    requires
        groups.entries is Some,
        is_full(groups) || groups.entries->0.len() == 0,
    ensures
        !vanishes(groups_with_chef(groups)),
{
    let gid = integer_value(DEFAULT_CHEF_ID as i64);
    match groups.table(CHEF@) {
        Some(chef) => {
            if groups.entries->0.len() > 0 {
                lemma_full_child(groups, CHEF@);
            }
            lemma_child_then_get(groups, CHEF@, filled(chef, "gid"@, gid), CHEF@);
            lemma_put_then_get(chef, "gid"@, gid, "gid"@);
            lemma_full_child(chef, "gid"@);
            lemma_child_prints(filled(chef, "gid"@, gid), "gid"@);
        },
        None => {
            lemma_put_then_get(groups, CHEF@, new_chef_group(groups), CHEF@);
        },
    }
    lemma_child_prints(groups_with_chef(groups), CHEF@);
}

/// What is read back of a rendered document is rendered to itself.
proof fn lemma_rendered_again(source: NodeView, read: NodeView)
    requires
        source.entries is Some,
        is_full(source),
        well_keyed(source),
        same_contents(guest_tree(source), read),
        well_keyed(read),
        read.entries is Some,
    ensures
        guest_tree(read) == read,
        guest_tree(all_rewritten(read, Seq::empty())) == read,
{
    lemma_distinct_names();
    let unowned = user_stripped(source);
    let stripped = env_stripped(unowned);
    let tree = guest_tree(source);
    lemma_guest_tree(source);
    lemma_read_for_guest(tree, read);
    // What each of the three parts makes of the others' keys.
    lemma_without_same(source, "_"@);
    if let Some(user) = source.get("_"@) {
        lemma_child_then_get(source, "_"@, without(user, "microkitchen"@), "_"@);
        lemma_child_then_get(source, "_"@, without(user, "microkitchen"@), "env"@);
        lemma_child_then_get(source, "_"@, without(user, "microkitchen"@), "bootstrap"@);
        lemma_without_then_get(source, "_"@, "env"@);
        lemma_without_then_get(source, "_"@, "bootstrap"@);
    }
    assert(unowned.get("env"@) == source.get("env"@));
    assert(unowned.get("bootstrap"@) == source.get("bootstrap"@));
    if let Some(env) = unowned.get("env"@) {
        let now = if env.entries is Some {
            host_stripped(env)
        } else {
            each_stripped(env, list_len(env))
        };
        lemma_child_then_get(unowned, "env"@, now, "_"@);
        lemma_child_then_get(unowned, "env"@, now, "env"@);
        lemma_child_then_get(unowned, "env"@, now, "bootstrap"@);
    }
    assert(stripped.get("bootstrap"@) == source.get("bootstrap"@));
    lemma_chef_elsewhere(stripped, "_"@);
    lemma_chef_elsewhere(stripped, "env"@);
    // The `_` table.
    lemma_same_get(tree, read, "_"@);
    lemma_full_child(source, "_"@);
    if let (Some(x), Some(y)) = (tree.get("_"@), read.get("_"@)) {
        if y.entries is Some {
            lemma_without_full(source.get("_"@)->0, "microkitchen"@);
            lemma_holds_read(x, y);
            assert(without(y, "microkitchen"@) == y);
            lemma_put_back(read, "_"@);
        }
    }
    assert(user_stripped(read) == read);
    // `[env]`.
    lemma_same_get(tree, read, "env"@);
    lemma_full_child(source, "env"@);
    lemma_keyed_child(source, "env"@);
    if let (Some(x), Some(y)) = (tree.get("env"@), read.get("env"@)) {
        let env = source.get("env"@)->0;
        if env.entries is Some {
            assert(x == host_stripped(env));
            lemma_read_stripped(env, y);
        } else {
            let n = list_len(env);
            if n > 0 {
                lemma_tidy_elements(env);
                lemma_each_stripped(env, n, 0);
            }
            assert forall|i: int| 0 <= i < list_len(y) implies host_stripped(
                (#[trigger] element_at(y, i))->0,
            ) == element_at(y, i)->0 by {
                lemma_tidy_elements(env);
                lemma_each_stripped(env, n, i);
                let element = element_at(env, i)->0;
                assert(is_full(element) && well_keyed(element));
                assert(element_at(x, i)->0 == host_stripped(element));
                assert(same_contents(element_at(x, i)->0, element_at(y, i)->0));
                lemma_read_stripped(element, element_at(y, i)->0);
            }
            assert(y.entries is None);
            lemma_each_unchanged(y, list_len(y));
        }
        lemma_put_back(read, "env"@);
    }
    assert(env_stripped(read) == read);
    // Chef.
    lemma_same_get(tree, read, "bootstrap"@);
    lemma_full_child(source, "bootstrap"@);
    lemma_prepared(stripped, "bootstrap"@, "_"@);
    if stripped.get("bootstrap"@) is None {
        lemma_put_then_get(stripped, "bootstrap"@, fresh_table(stripped, true), "bootstrap"@);
    }
    match implicit(stripped, "bootstrap"@) {
        None => {
            assert(tree == stripped);
        },
        Some(bootstrap) => {
            let before = prepared(stripped, "bootstrap"@, true);
            lemma_child_then_get(before, "bootstrap"@, bootstrap_with_chef(bootstrap), "bootstrap"@);
            lemma_bootstrap_prints(bootstrap);
            lemma_bootstrap_again(bootstrap, read.get("bootstrap"@)->0);
            lemma_put_back(read, "bootstrap"@);
        },
    }
    assert(with_chef(read) == read);
}

/// Stripping leaves the variables of an `[env]` table.
proof fn lemma_variables_stay(env: NodeView, key: Seq<char>)
    requires
        key != "_"@,
        key != "mise"@,
        well_keyed(env),
    ensures
        host_stripped(env).get(key) == env.get(key),
{
    lemma_distinct_names();
    lemma_keyed_child(env, "_"@);
    lemma_keyed_child(env, "mise"@);
    let once = directive_table_stripped(env, "_"@);
    assert(is_host_directive("file"@));
    lemma_directive_table(env, "_"@, key, "file"@);
    lemma_directive_table(env, "_"@, "mise"@, "file"@);
    lemma_directive_table(once, "mise"@, key, "file"@);
}

/// The document before chef is added keeps every key but `_` and `env`, and
/// `[env]` but for what is stripped.
proof fn lemma_stripped_get(source: NodeView, key: Seq<char>)
    requires
        source.entries is Some,
        unique_keys(source),
    ensures
        env_stripped(user_stripped(source)).entries is Some,
        key != "_"@ && key != "env"@ ==> env_stripped(user_stripped(source)).get(key) == source.get(
            key,
        ),
        env_stripped(user_stripped(source)).get("env"@) == match source.get("env"@) {
            Some(env) => Some(
                if env.entries is Some {
                    host_stripped(env)
                } else {
                    each_stripped(env, list_len(env))
                },
            ),
            None => None,
        },
{
    lemma_distinct_names();
    let unowned = user_stripped(source);
    if let Some(user) = source.get("_"@) {
        lemma_child_then_get(source, "_"@, without(user, "microkitchen"@), "env"@);
        lemma_child_then_get(source, "_"@, without(user, "microkitchen"@), key);
        lemma_without_then_get(source, "_"@, "env"@);
        if key != "_"@ {
            lemma_without_then_get(source, "_"@, key);
        }
    }
    assert(unowned.get("env"@) == source.get("env"@));
    if let Some(env) = unowned.get("env"@) {
        let now = if env.entries is Some {
            host_stripped(env)
        } else {
            each_stripped(env, list_len(env))
        };
        lemma_child_then_get(unowned, "env"@, now, "env"@);
        lemma_child_then_get(unowned, "env"@, now, key);
    }
}

proof fn lemma_other_keys_kept(source: NodeView, read: NodeView, key: Seq<char>)
    requires
        source.entries is Some,
        is_full(source),
        well_keyed(source),
        same_contents(guest_tree(source), read),
        key != "_"@ && key != "env"@ && key != "bootstrap"@,
    ensures
        is_kept(source.get(key), read.get(key)),
{
    lemma_stripped_get(source, key);
    lemma_chef_elsewhere(env_stripped(user_stripped(source)), key);
    lemma_full_child(source, key);
    lemma_same_get(guest_tree(source), read, key);
}

proof fn lemma_variables_kept(source: NodeView, read: NodeView, key: Seq<char>)
    requires
        source.entries is Some,
        is_full(source),
        well_keyed(source),
        same_contents(guest_tree(source), read),
        key != "_"@ && key != "mise"@,
    ensures
        is_kept(env_key(source, key), env_key(read, key)),
{
    lemma_distinct_names();
    let tree = guest_tree(source);
    lemma_stripped_get(source, "env"@);
    lemma_chef_elsewhere(env_stripped(user_stripped(source)), "env"@);
    lemma_same_get(tree, read, "env"@);
    lemma_full_child(source, "env"@);
    lemma_keyed_child(source, "env"@);
    if let Some(env) = source.get("env"@) {
        let x = tree.get("env"@)->0;
        if env.entries is Some {
            lemma_variables_stay(env, key);
            lemma_full_child(env, key);
            if env.get(key) is Some {
                lemma_child_prints(x, key);
            }
            if let Some(y) = read.get("env"@) {
                lemma_same_get(x, y, key);
            }
        } else if list_len(env) > 0 {
            lemma_tidy_elements(env);
            lemma_each_stripped(env, list_len(env), 0);
        }
    }
}

proof fn lemma_chef_kept(source: NodeView, read: NodeView, key: Seq<char>)
    requires
        source.entries is Some,
        is_full(source),
        well_keyed(source),
        same_contents(guest_tree(source), read),
        chef_of(source) matches Some(chef) && chef.get(key) is Some,
    ensures
        chef_of(read) matches Some(chef) && is_kept(chef_of(source)->0.get(key), chef.get(key)),
{
    lemma_distinct_names();
    let tree = guest_tree(source);
    let stripped = env_stripped(user_stripped(source));
    let chef = chef_of(source)->0;
    let bootstrap = source.get("bootstrap"@)->0;
    let users = bootstrap.get("users"@)->0;
    lemma_stripped_get(source, "bootstrap"@);
    law_chef_is_declared(stripped, key);
    let now = chef_of(tree)->0;
    lemma_full_child(source, "bootstrap"@);
    lemma_full_child(bootstrap, "users"@);
    lemma_full_child(users, CHEF@);
    lemma_full_child(chef, key);
    lemma_child_prints(now, key);
    let b = tree.get("bootstrap"@)->0;
    let u = b.get("users"@)->0;
    lemma_child_prints(u, CHEF@);
    lemma_child_prints(b, "users"@);
    lemma_same_get(tree, read, "bootstrap"@);
    lemma_same_get(b, read.get("bootstrap"@)->0, "users"@);
    lemma_same_get(u, read.get("bootstrap"@)->0.get("users"@)->0, CHEF@);
    lemma_same_get(now, chef_of(read)->0, key);
}

proof fn lemma_made_where_missing(node: NodeView, key: Seq<char>)
    requires
        node.entries is Some,
        node.get(key) is None,
    ensures
        implicit(node, key) == Some(fresh_table(node, true)),
{
    lemma_put_then_get(node, key, fresh_table(node, true), key);
}

proof fn lemma_rendered_declares(source: NodeView, read: NodeView)
    requires
        source.entries is Some,
        is_full(source),
        well_keyed(source),
        same_contents(guest_tree(source), read),
        read.entries is Some,
        well_keyed(read),
        guest_tree(read) == read,
        takes_users(source),
    ensures
        declares_chef(read),
{
    lemma_distinct_names();
    let tree = guest_tree(source);
    let stripped = env_stripped(user_stripped(source));
    lemma_stripped_get(source, "bootstrap"@);
    lemma_full_child(source, "bootstrap"@);
    if source.get("bootstrap"@) is None {
        lemma_made_where_missing(stripped, "bootstrap"@);
        lemma_made_where_missing(fresh_table(stripped, true), "users"@);
    }
    let bootstrap = implicit(stripped, "bootstrap"@)->0;
    assert(implicit(bootstrap, "users"@) is Some);
    if bootstrap.get("users"@) is None {
        lemma_made_where_missing(bootstrap, "users"@);
    } else {
        lemma_full_child(bootstrap, "users"@);
    }
    let users = implicit(bootstrap, "users"@)->0;
    lemma_prepared(stripped, "bootstrap"@, "_"@);
    lemma_child_then_get(
        prepared(stripped, "bootstrap"@, true),
        "bootstrap"@,
        bootstrap_with_chef(bootstrap),
        "bootstrap"@,
    );
    lemma_bootstrap_prints(bootstrap);
    lemma_users_print(users);
    lemma_same_get(tree, read, "bootstrap"@);
    let there = read.get("bootstrap"@)->0;
    lemma_same_get(bootstrap_with_chef(bootstrap), there, "users"@);
    lemma_stripped_get(read, "bootstrap"@);
    let again = env_stripped(user_stripped(read));
    assert(implicit(again, "bootstrap"@) == Some(there));
    assert(implicit(there, "users"@) is Some);
    law_chef_is_declared(again, "uid"@);
}

/// What is read back of a guest's copy declares chef and keeps the rest.
proof fn lemma_carried_over(source: NodeView, read: NodeView)
    requires
        source.entries is Some,
        is_full(source),
        well_keyed(source),
        same_contents(guest_tree(source), read),
        well_keyed(read),
        read.entries is Some,
        guest_tree(read) == read,
    ensures
        takes_users(source) ==> declares_chef(read),
        carries_over(source, read),
{
    if takes_users(source) {
        lemma_rendered_declares(source, read);
    }
    assert forall|key: Seq<char>|
        key != "_"@ && key != "env"@ && key != "bootstrap"@ implies is_kept(
        source.get(key),
        #[trigger] read.get(key),
    ) by {
        lemma_other_keys_kept(source, read, key);
    }
    assert forall|key: Seq<char>| key != "_"@ && key != "mise"@ implies is_kept(
        env_key(source, key),
        #[trigger] env_key(read, key),
    ) by {
        lemma_variables_kept(source, read, key);
    }
    if let Some(chef) = chef_of(source) {
        assert forall|key: Seq<char>| #[trigger] chef.get(key) is Some implies is_kept(
            chef.get(key),
            match chef_of(read) {
                Some(chef) => chef.get(key),
                None => None,
            },
        ) by {
            lemma_chef_kept(source, read, key);
        }
    }
}

proof fn lemma_tidy_elements(env: NodeView)
    requires
        well_keyed(env),
        is_full(env),
    ensures
        forall|i: int|
            0 <= i < list_len(env) ==> is_tidy((#[trigger] element_at(env, i))->0) && well_keyed(
                element_at(env, i)->0,
            ) && is_full(element_at(env, i)->0),
{
    assert forall|i: int| 0 <= i < list_len(env) implies is_tidy((#[trigger] element_at(env, i))->0)
        && well_keyed(element_at(env, i)->0) && is_full(element_at(env, i)->0) by {
        let element = element_at(env, i)->0;
        assert(well_keyed(element));
        lemma_keyed_child(element, "_"@);
        lemma_keyed_child(element, "mise"@);
    }
}

proof fn lemma_bootstrap_prints(bootstrap: NodeView)
    requires
        bootstrap.entries is Some,
        is_full(bootstrap) || bootstrap.entries->0.len() == 0,
    ensures
        !vanishes(bootstrap_with_chef(bootstrap)),
        implicit(bootstrap, "users"@) matches Some(users) ==> bootstrap_with_chef(bootstrap).get(
            "users"@,
        ) == Some(users_with_chef(users).0),
{
    reveal_strlit("users");
    reveal_strlit("groups");
    assert("users"@.len() != "groups"@.len());
    let after = bootstrap_with_chef(bootstrap);
    lemma_prepared(bootstrap, "users"@, "groups"@);
    if bootstrap.entries->0.len() > 0 {
        lemma_full_child(bootstrap, "users"@);
    }
    if bootstrap.get("users"@) is None {
        lemma_put_then_get(bootstrap, "users"@, fresh_table(bootstrap, true), "users"@);
    }
    match implicit(bootstrap, "users"@) {
        None => {
            lemma_child_prints(bootstrap, "users"@);
        },
        Some(users) => {
            let (now, group) = users_with_chef(users);
            let before = prepared(bootstrap, "users"@, true);
            let named = with_child(before, "users"@, now);
            lemma_child_then_get(before, "users"@, now, "users"@);
            lemma_prepared(named, "groups"@, "users"@);
            if let Some(groups) = implicit(named, "groups"@) {
                let wide = prepared(named, "groups"@, true);
                lemma_child_then_get(wide, "groups"@, groups_with_chef(groups), "users"@);
            }
            lemma_users_print(users);
            assert(after.get("users"@) == Some(now));
            lemma_child_prints(after, "users"@);
        },
    }
}

// ---------------------------------------------------------------------------
// What a reader takes
// ---------------------------------------------------------------------------

/// Whether there is room for a few more keys and values.
spec fn has_room(nesting: int, header: int, parts: int, room: int) -> bool {
    nesting >= room && header >= room && room <= parts <= MAX_DEPTH
}

/// A value that is no table fits where there is room.
proof fn lemma_fits_put(
    table: NodeView,
    key: Seq<char>,
    value: NodeView,
    nesting: int,
    header: int,
    parts: int,
)
    requires
        fits(table, nesting, header, parts),
        table.entries is Some,
        nesting >= 2,
        parts >= 1,
        value.entries is None,
        value.tables is None,
        value.elements matches Some(elements) ==> forall|i: int|
            0 <= i < elements.len() ==> #[trigger] elements[i] == text_value(elements[i].text->0),
        !value.inline,
    ensures
        fits(with_put(table, key, value), nesting, header, parts),
        fits(filled(table, key, value), nesting, header, parts),
{
    let inner = inner_nesting(table, nesting);
    if let Some(elements) = value.elements {
        assert forall|i: int| 0 <= i < elements.len() implies fits(
            #[trigger] elements[i],
            inner_nesting(value, inner),
            header - 1,
            MAX_DEPTH as int,
        ) && !elements[i].dotted by {
            assert(elements[i] == text_value(elements[i].text->0));
        }
    }
    lemma_fits_with(table, key, value, nesting, header, parts);
}

/// A new table fits in a table where there is room.
proof fn lemma_fits_fresh(
    node: NodeView,
    implicit: bool,
    nesting: int,
    header: int,
    parts: int,
)
    requires
        has_room(nesting, header, parts, 2),
    ensures
        fits(
            fresh_table(node, implicit),
            inner_nesting(node, nesting),
            header - 1,
            inner_parts(node, parts) - 1,
        ),
{
}

/// A table that is there, or is made where it is missing, fits.
proof fn lemma_fits_implicit(
    node: NodeView,
    key: Seq<char>,
    nesting: int,
    header: int,
    parts: int,
)
    requires
        node.entries is Some,
        fits(node, nesting, header, parts),
        has_room(nesting, header, parts, 2),
    ensures
        prepared(node, key, true).entries is Some,
        prepared(node, key, true).get(key) is Some,
        prepared(node, key, true).inline == node.inline,
        prepared(node, key, true).dotted == node.dotted,
        fits(prepared(node, key, true), nesting, header, parts),
        implicit(node, key) matches Some(child) ==> fits(
            child,
            inner_nesting(node, nesting),
            header - 1,
            inner_parts(node, parts) - 1,
        ) && (child.inline && child.dotted ==> node.inline),
{
    lemma_fits_fresh(node, true, nesting, header, parts);
    lemma_fits_with(node, key, fresh_table(node, true), nesting, header, parts);
    lemma_put_then_get(node, key, fresh_table(node, true), key);
    lemma_fits_child(prepared(node, key, true), key, nesting, header, parts);
}

proof fn lemma_new_chef_fits(users: NodeView, nesting: int, header: int, parts: int)
    requires
        has_room(nesting, header, parts, 4),
    ensures
        fits(
            new_chef(users),
            inner_nesting(users, nesting),
            header - 1,
            inner_parts(users, parts) - 1,
        ),
        !new_chef(users).dotted,
        fits(
            new_chef_group(users),
            inner_nesting(users, nesting),
            header - 1,
            inner_parts(users, parts) - 1,
        ),
        !new_chef_group(users).dotted,
{
    lemma_fits_fresh(users, false, nesting, header, parts);
    let (n, h, p) = (inner_nesting(users, nesting), header - 1, inner_parts(users, parts) - 1);
    let uid = integer_value(DEFAULT_CHEF_ID as i64);
    let t0 = new_table(users);
    let t1 = with_put(t0, "uid"@, uid);
    let t2 = with_put(t1, "group"@, text_value(CHEF@));
    let list = NodeView {
        elements: Some(seq![text_value("sudo"@), text_value("docker"@)]),
        ..bare()
    };
    let t3 = with_put(t2, "groups"@, list);
    let t4 = with_put(t3, "shell"@, text_value("/bin/bash"@));
    lemma_fits_put(t0, "uid"@, uid, n, h, p);
    lemma_fits_put(t0, "gid"@, uid, n, h, p);
    lemma_fits_put(t1, "group"@, text_value(CHEF@), n, h, p);
    lemma_fits_put(t2, "groups"@, list, n, h, p);
    lemma_fits_put(t3, "shell"@, text_value("/bin/bash"@), n, h, p);
    lemma_fits_put(t4, "comment"@, text_value("sandbox user"@), n, h, p);
}

proof fn lemma_users_fit(users: NodeView, nesting: int, header: int, parts: int)
    requires
        users.entries is Some,
        fits(users, nesting, header, parts),
        has_room(nesting, header, parts, 6),
    ensures
        fits(users_with_chef(users).0, nesting, header, parts),
        users_with_chef(users).0.inline == users.inline,
        users_with_chef(users).0.dotted == users.dotted,
        fits(groups_with_chef(users), nesting, header, parts),
        groups_with_chef(users).inline == users.inline,
        groups_with_chef(users).dotted == users.dotted,
{
    let (n, h, p) = (inner_nesting(users, nesting), header - 1, inner_parts(users, parts) - 1);
    lemma_fits_child(users, CHEF@, nesting, header, parts);
    lemma_new_chef_fits(users, nesting, header, parts);
    lemma_fits_with(users, CHEF@, new_chef(users), nesting, header, parts);
    lemma_fits_with(users, CHEF@, new_chef_group(users), nesting, header, parts);
    if let Some(chef) = users.table(CHEF@) {
        let uid = integer_value(DEFAULT_CHEF_ID as i64);
        let half = filled(chef, "uid"@, uid);
        lemma_fits_put(chef, "uid"@, uid, n, h, p);
        lemma_fits_put(chef, "gid"@, uid, n, h, p);
        lemma_fits_put(half, "group"@, text_value(CHEF@), n, h, p);
        lemma_fits_with(users, CHEF@, chef_filled(chef), nesting, header, parts);
        lemma_fits_with(users, CHEF@, filled(chef, "gid"@, uid), nesting, header, parts);
    }
}

proof fn lemma_bootstrap_fits(bootstrap: NodeView, nesting: int, header: int, parts: int)
    requires
        bootstrap.entries is Some,
        fits(bootstrap, nesting, header, parts),
        has_room(nesting, header, parts, 8),
    ensures
        fits(bootstrap_with_chef(bootstrap), nesting, header, parts),
        bootstrap_with_chef(bootstrap).inline == bootstrap.inline,
        bootstrap_with_chef(bootstrap).dotted == bootstrap.dotted,
{
    let (n, h, p) = (
        inner_nesting(bootstrap, nesting),
        header - 1,
        inner_parts(bootstrap, parts) - 1,
    );
    lemma_fits_implicit(bootstrap, "users"@, nesting, header, parts);
    if let Some(users) = implicit(bootstrap, "users"@) {
        let before = prepared(bootstrap, "users"@, true);
        lemma_users_fit(users, n, h, p);
        let (now, group) = users_with_chef(users);
        lemma_fits_with(before, "users"@, now, nesting, header, parts);
        let named = with_child(before, "users"@, now);
        lemma_fits_implicit(named, "groups"@, nesting, header, parts);
        if let Some(groups) = implicit(named, "groups"@) {
            lemma_users_fit(groups, n, h, p);
            lemma_fits_with(
                prepared(named, "groups"@, true),
                "groups"@,
                groups_with_chef(groups),
                nesting,
                header,
                parts,
            );
        }
    }
}

/// An `[env]` table fits without host directives.
proof fn lemma_host_stripped_fits(env: NodeView, nesting: int, header: int, parts: int)
    requires
        fits(env, nesting, header, parts),
        !(env.inline && env.dotted),
    ensures
        fits(host_stripped(env), nesting, header, parts),
        host_stripped(env).inline == env.inline,
        host_stripped(env).dotted == env.dotted,
{
    lemma_directives_fit(env, "_"@, nesting, header, parts);
    lemma_directives_fit(directive_table_stripped(env, "_"@), "mise"@, nesting, header, parts);
}

proof fn lemma_directives_fit(
    env: NodeView,
    key: Seq<char>,
    nesting: int,
    header: int,
    parts: int,
)
    requires
        fits(env, nesting, header, parts),
        !(env.inline && env.dotted),
    ensures
        fits(directive_table_stripped(env, key), nesting, header, parts),
        directive_table_stripped(env, key).inline == env.inline,
        directive_table_stripped(env, key).dotted == env.dotted,
{
    if let Some(table) = env.get(key) {
        if table.entries is Some {
            lemma_fits_without(env, key, nesting, header, parts);
            let left = directives_stripped(table);
            if left.entries->0.len() > 0 {
                let (n, h, p) = (
                    inner_nesting(env, nesting),
                    header - 1,
                    inner_parts(env, parts) - 1,
                );
                lemma_fits_child(env, key, nesting, header, parts);
                let once = without(table, "file"@);
                let twice = without(once, "source"@);
                lemma_fits_without(table, "file"@, n, h, p);
                lemma_fits_without(once, "source"@, n, h, p);
                lemma_fits_without(twice, "path"@, n, h, p);
                lemma_fits_with(env, key, left, nesting, header, parts);
            }
        }
    }
}

proof fn lemma_each_fits(list: NodeView, count: int, nesting: int, header: int, parts: int)
    requires
        fits(list, nesting, header, parts),
        0 <= count <= list_len(list),
        list.entries is None,
    ensures
        fits(each_stripped(list, count), nesting, header, parts),
        list_len(each_stripped(list, count)) == list_len(list),
        each_stripped(list, count).inline == list.inline,
        each_stripped(list, count).dotted == list.dotted,
        each_stripped(list, count).entries is None,
    decreases count,
{
    if count > 0 {
        lemma_each_fits(list, count - 1, nesting, header, parts);
        let rest = each_stripped(list, count - 1);
        let at = count - 1;
        let n = inner_nesting(rest, nesting);
        let max = MAX_DEPTH as int;
        let element = element_at(rest, at)->0;
        match (rest.elements, rest.tables) {
            (Some(elements), _) => {
                assert(fits(elements[at], n, header, max));
                lemma_host_stripped_fits(element, n, header, max);
                let now = elements.update(at, host_stripped(element));
                assert forall|i: int| 0 <= i < now.len() implies fits(
                    #[trigger] now[i],
                    n,
                    header,
                    max,
                ) && !now[i].dotted by {
                    if i != at {
                        assert(now[i] == elements[i]);
                    }
                }
            },
            (None, Some(tables)) => {
                assert(fits(tables[at], n, header, max));
                lemma_host_stripped_fits(element, n, header, max);
                let now = tables.update(at, host_stripped(element));
                assert forall|i: int| 0 <= i < now.len() implies fits(
                    #[trigger] now[i],
                    n,
                    header,
                    max,
                ) && !now[i].dotted by {
                    if i != at {
                        assert(now[i] == tables[i]);
                    }
                }
            },
            (None, None) => {},
        }
    }
}

/// A reader takes the guest's copy of a document that it takes.
proof fn lemma_guest_fits(source: NodeView)
    requires
        is_header_table(source),
        is_readable(source),
    ensures
        is_readable(guest_tree(source)),
{
    let max = MAX_DEPTH as int;
    let unowned = user_stripped(source);
    if let Some(user) = source.get("_"@) {
        lemma_fits_child(source, "_"@, max, max, max);
        lemma_fits_without(
            user,
            "microkitchen"@,
            inner_nesting(source, max),
            max - 1,
            inner_parts(source, max) - 1,
        );
        lemma_fits_without(source, "_"@, max, max, max);
        lemma_fits_with(source, "_"@, without(user, "microkitchen"@), max, max, max);
    }
    assert(is_readable(unowned) && is_header_table(unowned));
    let stripped = env_stripped(unowned);
    if let Some(env) = unowned.get("env"@) {
        let (n, h, p) = (inner_nesting(unowned, max), max - 1, inner_parts(unowned, max) - 1);
        lemma_fits_child(unowned, "env"@, max, max, max);
        let now = if env.entries is Some {
            lemma_host_stripped_fits(env, n, h, p);
            host_stripped(env)
        } else {
            lemma_each_fits(env, list_len(env), n, h, p);
            each_stripped(env, list_len(env))
        };
        lemma_fits_with(unowned, "env"@, now, max, max, max);
    }
    assert(is_readable(stripped) && is_header_table(stripped));
    lemma_fits_implicit(stripped, "bootstrap"@, max, max, max);
    if let Some(bootstrap) = implicit(stripped, "bootstrap"@) {
        lemma_bootstrap_fits(
            bootstrap,
            inner_nesting(stripped, max),
            max - 1,
            inner_parts(stripped, max) - 1,
        );
        lemma_fits_with(
            prepared(stripped, "bootstrap"@, true),
            "bootstrap"@,
            bootstrap_with_chef(bootstrap),
            max,
            max,
            max,
        );
    }
}

/// Whether a removal leaves a table without a header empty.
pub open spec fn empties(node: NodeView, path: Seq<StepView>, from: int, inside: bool) -> bool
    decreases path.len() - from,
{
    if from < 0 || from >= path.len() {
        false
    } else {
        match path[from] {
            StepView::Key(key) => if node.entries is None {
                false
            } else if from + 1 == path.len() {
                (node.implicit || node.dotted) && without(node, key).entries->0.len() == 0
            } else {
                match node.get(key) {
                    Some(child) => empties(child, path, from + 1, inside),
                    None => false,
                }
            },
            StepView::Index(index) => match element_at(node, index as int) {
                Some(element) => empties(element, path, from + 1, true),
                None => false,
            },
        }
    }
}

/// Whether rewrites, one after the other, go down a way that a header can write,
/// make keys only, and leave no table without a header empty.
pub open spec fn stay_readable(root: NodeView, rewrites: Seq<RewriteView>) -> bool
    decreases rewrites.len(),
{
    rewrites.len() == 0 || {
        let last = rewrites.last();
        &&& stay_readable(root, rewrites.drop_last())
        &&& last.path.len() + 2 <= MAX_DEPTH
        &&& last.action is Ensure ==> all_keys(last.path)
        &&& last.action is Remove ==> !empties(
            all_rewritten(root, rewrites.drop_last()),
            last.path,
            0,
            false,
        )
    }
}

proof fn lemma_full_with(node: NodeView, key: Seq<char>, child: NodeView)
    requires
        node.entries matches Some(entries) && forall|i: int|
            0 <= i < entries.len() && Some(i) != entry_index(entries, key) ==> is_full(
                (#[trigger] entries[i]).node,
            ),
        node.elements matches Some(elements) ==> forall|i: int|
            0 <= i < elements.len() ==> is_full(#[trigger] elements[i]),
        node.tables matches Some(tables) ==> forall|i: int|
            0 <= i < tables.len() ==> is_full(#[trigger] tables[i]),
        is_full(child),
    ensures
        node.get(key) is Some ==> is_full(with_child(node, key, child)),
        is_full(with_put(node, key, child)),
{
    let entries = node.entries->0;
    lemma_entry_index(entries, key);
    let set = with_child(node, key, child).entries->0;
    let put = with_put(node, key, child).entries->0;
    if node.get(key) is Some {
        assert forall|i: int| 0 <= i < set.len() implies is_full((#[trigger] set[i]).node) by {
            assert(entries[i].key == entries[i].key);
        }
    }
    assert forall|i: int| 0 <= i < put.len() implies is_full((#[trigger] put[i]).node) by {
        if i < entries.len() {
            assert(entries[i].key == entries[i].key);
        }
    }
}

/// Whether every step of a path is a key.
pub open spec fn all_keys(path: Seq<StepView>) -> bool {
    forall|i: int| 0 <= i < path.len() ==> (#[trigger] path[i]) is Key
}

/// What is put below a new table fills it.
proof fn lemma_ensured_in_fresh(
    node: NodeView,
    path: Seq<StepView>,
    from: int,
    text: Seq<char>,
    nesting: int,
    header: int,
    parts: int,
)
    requires
        0 <= from < path.len(),
        all_keys(path),
        node.entries == Some(Seq::<crate::tree::EntryView>::empty()),
        node.elements is None,
        node.tables is None,
        fits(node, nesting, header, parts),
        has_room(nesting, header, parts, path.len() - from + 2),
    ensures
        ({
            let now = rewritten(node, path, from, ActionView::Ensure(text), false);
            &&& fits(now, nesting, header, parts)
            &&& is_full(now)
            &&& now.inline == node.inline
            &&& now.dotted == node.dotted
            &&& now.entries is Some
        }),
    decreases path.len() - from,
{
    assert(path[from] is Key);
    let key = path[from]->Key_0;
    assert(node.get(key) is None);
    if from + 1 == path.len() {
        lemma_fits_put(node, key, text_value(text), nesting, header, parts);
        lemma_full_with(node, key, text_value(text));
    } else {
        lemma_made_where_missing(node, key);
        lemma_fits_implicit(node, key, nesting, header, parts);
        let child = fresh_table(node, true);
        lemma_ensured_in_fresh(
            child,
            path,
            from + 1,
            text,
            inner_nesting(node, nesting),
            header - 1,
            inner_parts(node, parts) - 1,
        );
        let now = rewritten(child, path, from + 1, ActionView::Ensure(text), false);
        let before = prepared(node, key, true);
        lemma_fits_with(before, key, now, nesting, header, parts);
        lemma_entry_index(before.entries->0, key);
        lemma_full_with(before, key, now);
    }
}

/// A rewrite leaves what a reader takes.
proof fn lemma_rewritten_fits(
    node: NodeView,
    path: Seq<StepView>,
    from: int,
    action: ActionView,
    inside: bool,
    nesting: int,
    header: int,
    parts: int,
)
    requires
        0 <= from <= path.len(),
        fits(node, nesting, header, parts),
        is_full(node),
        has_room(nesting, header, parts, path.len() - from + 2),
        action is Remove ==> !empties(node, path, from, inside),
        action is Ensure ==> all_keys(path),
    ensures
        fits(rewritten(node, path, from, action, inside), nesting, header, parts),
        is_full(rewritten(node, path, from, action, inside)),
        rewritten(node, path, from, action, inside).inline == node.inline,
        rewritten(node, path, from, action, inside).dotted == node.dotted,
    decreases path.len() - from,
{
    if from < path.len() {
        let (n, h, p) = (
            inner_nesting(node, nesting),
            header - 1,
            inner_parts(node, parts) - 1,
        );
        match path[from] {
            StepView::Key(key) => if node.entries is None {
            } else if from + 1 == path.len() {
                match action {
                    ActionView::Replace(text) => {
                        lemma_fits_put(node, key, text_value(text), nesting, header, parts);
                        lemma_full_with(node, key, text_value(text));
                    },
                    ActionView::Ensure(text) => {
                        lemma_fits_put(node, key, text_value(text), nesting, header, parts);
                        lemma_full_with(node, key, text_value(text));
                    },
                    ActionView::Remove => {
                        lemma_fits_without(node, key, nesting, header, parts);
                        lemma_without_full(node, key);
                    },
                }
            } else if action is Ensure && !inside && node.get(key) is None {
                lemma_made_where_missing(node, key);
                lemma_fits_implicit(node, key, nesting, header, parts);
                let child = fresh_table(node, true);
                let text = action->Ensure_0;
                lemma_ensured_in_fresh(child, path, from + 1, text, n, h, p);
                let now = rewritten(child, path, from + 1, action, inside);
                let before = prepared(node, key, true);
                lemma_fits_with(before, key, now, nesting, header, parts);
                lemma_put_missing(node, key, child);
                lemma_full_with(before, key, now);
            } else if let Some(child) = node.get(key) {
                lemma_full_child(node, key);
                lemma_fits_child(node, key, nesting, header, parts);
                lemma_rewritten_fits(child, path, from + 1, action, inside, n, h, p);
                let now = rewritten(child, path, from + 1, action, inside);
                lemma_fits_with(node, key, now, nesting, header, parts);
                lemma_full_with(node, key, now);
            },
            StepView::Index(index) => if !inside && node.elements is Some {
                let elements = node.elements->0;
                let at = index as int;
                let max = MAX_DEPTH as int;
                if at < elements.len() {
                    assert(fits(elements[at], n, header, max) && is_full(elements[at]));
                    lemma_rewritten_fits(
                        elements[at],
                        path,
                        from + 1,
                        action,
                        true,
                        n,
                        header,
                        max,
                    );
                    let now = elements.update(
                        at,
                        rewritten(elements[at], path, from + 1, action, true),
                    );
                    assert forall|i: int| 0 <= i < now.len() implies fits(
                        #[trigger] now[i],
                        n,
                        header,
                        max,
                    ) && !now[i].dotted && is_full(now[i]) by {
                        if i != at {
                            assert(now[i] == elements[i]);
                        }
                    }
                }
            },
        }
    }
}

/// A new key stands behind the others.
proof fn lemma_put_missing(node: NodeView, key: Seq<char>, child: NodeView)
    requires
        node.entries is Some,
        node.get(key) is None,
    ensures
        entry_index(with_put(node, key, child).entries->0, key) == Some(
            node.entries->0.len() as int,
        ),
{
    let entries = node.entries->0;
    let after = with_put(node, key, child).entries->0;
    lemma_entry_index(entries, key);
    lemma_entry_index(after, key);
    let at = entry_index(after, key);
    assert(after[entries.len() as int].key == key);
    if let Some(i) = at {
        if i < entries.len() {
            assert(after[i] == entries[i]);
        }
    }
}

// ---------------------------------------------------------------------------
// Laws
// ---------------------------------------------------------------------------

proof fn lemma_without_same(node: NodeView, key: Seq<char>)
    requires
        unique_keys(node),
    ensures
        without(node, key).get(key) is None,
        unique_keys(without(node, key)),
{
    if node.entries is Some {
        let entries = node.entries->0;
        lemma_entry_index(entries, key);
        if let Some(at) = entry_index(entries, key) {
            let after = entries.remove(at);
            lemma_entry_index(after, key);
            assert forall|i: int, j: int|
                0 <= i < after.len() && 0 <= j < after.len() && (#[trigger] after[i]).key == (
                #[trigger] after[j]).key implies i == j by {
                let k = if i < at {
                    i
                } else {
                    i + 1
                };
                let l = if j < at {
                    j
                } else {
                    j + 1
                };
                assert(after[i] == entries[k] && after[j] == entries[l]);
            }
            if let Some(j) = entry_index(after, key) {
                let l = if j < at {
                    j
                } else {
                    j + 1
                };
                assert(after[j] == entries[l]);
                assert(entries[l].key == entries[at].key);
            }
        }
    }
}

proof fn lemma_prepared(node: NodeView, key: Seq<char>, other: Seq<char>)
    requires
        node.entries is Some,
    ensures
        prepared(node, key, true).get(key) is Some,
        prepared(node, key, true).entries is Some,
        other != key ==> prepared(node, key, true).get(other) == node.get(other),
{
    if node.get(key) is None {
        let child = fresh_table(node, true);
        lemma_put_then_get(node, key, child, key);
        lemma_put_then_get(node, key, child, other);
    }
}

proof fn lemma_chef_elsewhere(root: NodeView, other: Seq<char>)
    requires
        root.entries is Some,
        other != "bootstrap"@,
    ensures
        with_chef(root).get(other) == root.get(other),
{
    lemma_prepared(root, "bootstrap"@, other);
    if let Some(bootstrap) = implicit(root, "bootstrap"@) {
        lemma_child_then_get(
            prepared(root, "bootstrap"@, true),
            "bootstrap"@,
            bootstrap_with_chef(bootstrap),
            other,
        );
    }
}

proof fn lemma_distinct_names()
    ensures
        "_"@ != "bootstrap"@,
        "env"@ != "bootstrap"@,
        "_"@ != "env"@,
        "_"@ != "mise"@,
        "file"@ != "source"@,
        "file"@ != "path"@,
        "source"@ != "path"@,
{
    reveal_strlit("_");
    reveal_strlit("bootstrap");
    reveal_strlit("env");
    reveal_strlit("mise");
    reveal_strlit("file");
    reveal_strlit("source");
    reveal_strlit("path");
    assert("_"@.len() != "bootstrap"@.len());
    assert("env"@.len() != "bootstrap"@.len());
    assert("_"@.len() != "env"@.len());
    assert("_"@.len() != "mise"@.len());
    assert("file"@.len() != "source"@.len());
    assert("source"@.len() != "path"@.len());
    assert("file"@[0] != "path"@[0]);
}

/// Rendering a guest's copy again gives the copy itself.
pub proof fn law_rendering_twice_changes_nothing(
    text: Seq<char>,
    once: String,
    twice: Result<String, SyntaxError>,
)
    requires
        render_outcome(text, Ok(once), Seq::empty()),
        render_outcome(once@, twice, Seq::empty()),
    ensures
        twice matches Ok(twice) && twice@ == once@,
{
}

/// Rewrites that stay readable leave a document that a reader takes, with no
/// table that prints nothing: its guest's copy reads back, and rendering it again
/// changes nothing.
pub proof fn law_rewritten_documents_are_readable(root: NodeView, rewrites: Seq<RewriteView>)
    requires
        is_readable(root),
        is_full(root),
        stay_readable(root, rewrites),
    ensures
        is_readable(all_rewritten(root, rewrites)),
        is_full(all_rewritten(root, rewrites)),
    decreases rewrites.len(),
{
    if rewrites.len() > 0 {
        law_rewritten_documents_are_readable(root, rewrites.drop_last());
        let last = rewrites.last();
        let max = MAX_DEPTH as int;
        lemma_rewritten_fits(
            all_rewritten(root, rewrites.drop_last()),
            last.path,
            0,
            last.action,
            false,
            max,
            max,
            max,
        );
    }
}

/// The guest gets no microkitchen table.
pub proof fn law_guest_gets_no_microkitchen_table(root: NodeView)
    requires
        root.entries is Some,
        unique_keys(root),
        root.get("_"@) matches Some(user) ==> unique_keys(user),
    ensures
        guest_tree(root).get("_"@) matches Some(user) ==> user.get("microkitchen"@) is None,
{
    lemma_distinct_names();
    let stripped = user_stripped(root);
    lemma_without_same(root, "_"@);
    if let Some(user) = root.get("_"@) {
        lemma_without_same(user, "microkitchen"@);
        lemma_child_then_get(root, "_"@, without(user, "microkitchen"@), "_"@);
    }
    assert(stripped.get("_"@) matches Some(user) ==> user.get("microkitchen"@) is None);
    if let Some(env) = stripped.get("env"@) {
        lemma_child_then_get(
            stripped,
            "env"@,
            if env.entries is Some {
                host_stripped(env)
            } else {
                each_stripped(env, list_len(env))
            },
            "_"@,
        );
    }
    lemma_chef_elsewhere(env_stripped(stripped), "_"@);
}

/// Directives that read host files or add host paths.
pub open spec fn is_host_directive(name: Seq<char>) -> bool {
    name == "file"@ || name == "source"@ || name == "path"@
}

/// Whether an `[env]` table holds no host directive.
pub open spec fn is_clean(env: NodeView) -> bool {
    forall|key: Seq<char>, name: Seq<char>|
        #![trigger env.get(key), is_host_directive(name)]
        (key == "_"@ || key == "mise"@) && is_host_directive(name) ==> (env.get(key) matches Some(
            table,
        ) ==> table.get(name) is None)
}

/// Whether an `[env]` table and its directive tables hold no key twice.
pub open spec fn is_tidy(env: NodeView) -> bool {
    &&& unique_keys(env)
    &&& env.get("_"@) matches Some(table) ==> unique_keys(table)
    &&& env.get("mise"@) matches Some(table) ==> unique_keys(table)
}

proof fn lemma_directives_stripped(table: NodeView, name: Seq<char>)
    requires
        unique_keys(table),
        is_host_directive(name),
    ensures
        directives_stripped(table).get(name) is None,
        unique_keys(directives_stripped(table)),
{
    lemma_distinct_names();
    let one = without(table, "file"@);
    let two = without(one, "source"@);
    lemma_without_same(table, "file"@);
    lemma_without_same(one, "source"@);
    lemma_without_same(two, "path"@);
    lemma_without_then_get(one, "source"@, "file"@);
    lemma_without_then_get(two, "path"@, "file"@);
    lemma_without_then_get(two, "path"@, "source"@);
}

/// Stripping one directive table leaves no host directive in it, and the rest
/// as it was.
proof fn lemma_directive_table(env: NodeView, key: Seq<char>, other: Seq<char>, name: Seq<char>)
    requires
        unique_keys(env),
        env.get(key) matches Some(table) ==> unique_keys(table),
        is_host_directive(name),
    ensures
        directive_table_stripped(env, key).get(key) matches Some(table) ==> table.get(name) is None,
        other != key ==> directive_table_stripped(env, key).get(other) == env.get(other),
        unique_keys(directive_table_stripped(env, key)),
{
    if let Some(table) = env.get(key) {
        lemma_directives_stripped(table, name);
        lemma_child_then_get(env, key, directives_stripped(table), key);
        lemma_child_then_get(env, key, directives_stripped(table), other);
        lemma_without_same(env, key);
        if other != key {
            lemma_without_then_get(env, key, other);
        }
        let entries = env.entries->0;
        let after = with_child(env, key, directives_stripped(table)).entries->0;
        lemma_entry_index(entries, key);
        assert forall|i: int, j: int|
            0 <= i < after.len() && 0 <= j < after.len() && (#[trigger] after[i]).key == (
            #[trigger] after[j]).key implies i == j by {
            assert(after[i].key == entries[i].key && after[j].key == entries[j].key);
        }
        if table.entries is None {
            assert(table.get(name) is None);
        }
    }
}

proof fn lemma_host_stripped(env: NodeView)
    requires
        is_tidy(env),
    ensures
        is_clean(host_stripped(env)),
{
    lemma_distinct_names();
    let once = directive_table_stripped(env, "_"@);
    let now = host_stripped(env);
    assert forall|key: Seq<char>, name: Seq<char>|
        #![trigger now.get(key), is_host_directive(name)]
        (key == "_"@ || key == "mise"@) && is_host_directive(name) implies (now.get(
        key,
    ) matches Some(table) ==> table.get(name) is None) by {
        lemma_directive_table(env, "_"@, "mise"@, name);
        lemma_directive_table(once, "mise"@, "_"@, name);
    }
}

proof fn lemma_each_stripped(list: NodeView, n: int, i: int)
    requires
        0 <= n <= list_len(list),
        0 <= i < list_len(list),
        element_at(list, i) matches Some(element) ==> is_tidy(element),
    ensures
        list_len(each_stripped(list, n)) == list_len(list),
        each_stripped(list, n).entries == list.entries,
        each_stripped(list, n).elements is Some <==> list.elements is Some,
        each_stripped(list, n).tables is Some <==> list.tables is Some,
        element_at(each_stripped(list, n), i) == if i < n {
            Some(host_stripped(element_at(list, i)->0))
        } else {
            element_at(list, i)
        },
    decreases n,
{
    if n > 0 {
        lemma_each_stripped(list, n - 1, i);
    }
}

/// The guest gets no directive that reads a host file or adds a host path,
/// however `[env]` is written.
pub proof fn law_guest_gets_no_host_directives(root: NodeView)
    requires
        root.entries is Some,
        root.get("env"@) matches Some(env) ==> (env.entries is Some ==> is_tidy(env)) && forall|
            i: int,
        |
            0 <= i < list_len(env) ==> is_tidy((#[trigger] element_at(env, i))->0),
    ensures
        guest_tree(root).get("env"@) matches Some(env) ==> if env.entries is Some {
            is_clean(env)
        } else {
            forall|i: int|
                0 <= i < list_len(env) ==> is_clean((#[trigger] element_at(env, i))->0)
        },
{
    lemma_distinct_names();
    let stripped = user_stripped(root);
    if let Some(user) = root.get("_"@) {
        lemma_child_then_get(root, "_"@, without(user, "microkitchen"@), "env"@);
        lemma_without_then_get(root, "_"@, "env"@);
    }
    assert(stripped.get("env"@) == root.get("env"@));
    lemma_chef_elsewhere(env_stripped(stripped), "env"@);
    if let Some(env) = root.get("env"@) {
        let now = if env.entries is Some {
            host_stripped(env)
        } else {
            each_stripped(env, list_len(env))
        };
        lemma_child_then_get(stripped, "env"@, now, "env"@);
        if env.entries is Some {
            lemma_host_stripped(env);
        } else {
            if list_len(env) > 0 {
                lemma_each_stripped(env, list_len(env), 0);
            }
            assert forall|i: int| 0 <= i < list_len(now) implies is_clean(
                (#[trigger] element_at(now, i))->0,
            ) by {
                if list_len(env) == 0 {
                    assert(now == env);
                }
                lemma_each_stripped(env, list_len(env), i);
                assert(is_tidy(element_at(env, i)->0));
                lemma_host_stripped(element_at(env, i)->0);
            }
        }
    }
}

/// The chef that a document declares.
pub open spec fn chef_of(root: NodeView) -> Option<NodeView> {
    match root.get("bootstrap"@) {
        Some(bootstrap) => match bootstrap.get("users"@) {
            Some(users) => users.get(CHEF@),
            None => None,
        },
        None => None,
    }
}

/// The guest's copy declares chef, with a uid and a group, unless `bootstrap`
/// or `bootstrap.users` is not a table. What the kitchen file says of chef is
/// used as written.
pub proof fn law_chef_is_declared(root: NodeView, key: Seq<char>)
    requires
        root.entries is Some,
        implicit(root, "bootstrap"@) matches Some(bootstrap) && implicit(bootstrap, "users"@) is Some,
    ensures
        with_chef(root).entries is Some,
        chef_of(with_chef(root)) matches Some(chef) && chef.get("uid"@) is Some && chef.get(
            "group"@,
        ) is Some,
        chef_of(root) matches Some(chef) ==> (chef.get(key) is Some ==> chef_of(
            with_chef(root),
        )->0.get(key) == chef.get(key)),
{
    reveal_strlit("users");
    reveal_strlit("groups");
    reveal_strlit("uid");
    reveal_strlit("group");
    reveal_strlit("shell");
    reveal_strlit("comment");
    assert("users"@.len() != "groups"@.len());
    assert("uid"@.len() != "group"@.len());
    assert("groups"@.len() != "group"@.len() && "groups"@.len() != "uid"@.len());
    assert("shell"@.len() != "uid"@.len() && "comment"@.len() != "uid"@.len());
    assert("comment"@.len() != "group"@.len());
    assert("shell"@[0] != "group"@[0]);
    let bootstrap = implicit(root, "bootstrap"@)->0;
    let users = implicit(bootstrap, "users"@)->0;
    lemma_prepared(root, "bootstrap"@, "bootstrap"@);
    lemma_prepared(bootstrap, "users"@, "users"@);
    let (now, group) = users_with_chef(users);
    let named = with_child(prepared(bootstrap, "users"@, true), "users"@, now);
    lemma_child_then_get(prepared(bootstrap, "users"@, true), "users"@, now, "users"@);
    lemma_prepared(named, "groups"@, "users"@);
    if let Some(groups) = implicit(named, "groups"@) {
        lemma_child_then_get(
            prepared(named, "groups"@, true),
            "groups"@,
            groups_with_chef(groups),
            "users"@,
        );
    }
    let after = bootstrap_with_chef(bootstrap);
    assert(after.get("users"@) == Some(now));
    lemma_child_then_get(prepared(root, "bootstrap"@, true), "bootstrap"@, after, "bootstrap"@);
    match declared_chef(users) {
        Some(chef) => {
            lemma_child_then_get(users, CHEF@, chef_filled(chef), CHEF@);
            let uid = integer_value(DEFAULT_CHEF_ID as i64);
            let half = filled(chef, "uid"@, uid);
            lemma_put_then_get(chef, "uid"@, uid, "uid"@);
            lemma_put_then_get(chef, "uid"@, uid, key);
            lemma_put_then_get(half, "group"@, text_value(CHEF@), "uid"@);
            lemma_put_then_get(half, "group"@, text_value(CHEF@), "group"@);
            lemma_put_then_get(half, "group"@, text_value(CHEF@), key);
        },
        None => {
            lemma_put_then_get(users, CHEF@, new_chef(users), CHEF@);
            let t0 = new_table(users);
            let uid = integer_value(DEFAULT_CHEF_ID as i64);
            let t1 = with_put(t0, "uid"@, uid);
            let t2 = with_put(t1, "group"@, text_value(CHEF@));
            let list = NodeView {
                elements: Some(seq![text_value("sudo"@), text_value("docker"@)]),
                ..bare()
            };
            let t3 = with_put(t2, "groups"@, list);
            let t4 = with_put(t3, "shell"@, text_value("/bin/bash"@));
            lemma_put_then_get(t0, "uid"@, uid, "uid"@);
            lemma_put_then_get(t1, "group"@, text_value(CHEF@), "uid"@);
            lemma_put_then_get(t1, "group"@, text_value(CHEF@), "group"@);
            lemma_put_then_get(t2, "groups"@, list, "uid"@);
            lemma_put_then_get(t2, "groups"@, list, "group"@);
            lemma_put_then_get(t3, "shell"@, text_value("/bin/bash"@), "uid"@);
            lemma_put_then_get(t3, "shell"@, text_value("/bin/bash"@), "group"@);
            lemma_put_then_get(t4, "comment"@, text_value("sandbox user"@), "uid"@);
            lemma_put_then_get(t4, "comment"@, text_value("sandbox user"@), "group"@);
        },
    }
}

/// What stands at the end of keys.
pub open spec fn at_keys(node: NodeView, path: Seq<StepView>, from: int) -> Option<NodeView>
    decreases path.len() - from,
{
    if from < 0 || from >= path.len() {
        Some(node)
    } else {
        match path[from] {
            StepView::Key(key) => match node.get(key) {
                Some(child) => at_keys(child, path, from + 1),
                None => None,
            },
            StepView::Index(_) => None,
        }
    }
}

/// A rewrite puts its text at the end of its keys: where something is there, or in any
/// case where it is to be ensured; beside the keys nothing changes.
pub proof fn law_rewrites_put_their_text(
    node: NodeView,
    path: Seq<StepView>,
    from: int,
    text: Seq<char>,
    other: Seq<char>,
)
    requires
        0 <= from < path.len(),
        forall|i: int| 0 <= i < path.len() ==> (#[trigger] path[i]) is Key,
    ensures
        at_keys(node, path, from) is Some ==> at_keys(
            rewritten(node, path, from, ActionView::Replace(text), false),
            path,
            from,
        ) == Some(text_value(text)),
        at_keys(node, path, from) is Some ==> at_keys(
            rewritten(node, path, from, ActionView::Ensure(text), false),
            path,
            from,
        ) == Some(text_value(text)),
        path[from] != StepView::Key(other) ==> rewritten(
            node,
            path,
            from,
            ActionView::Replace(text),
            false,
        ).get(other) == node.get(other),
        path[from] != StepView::Key(other) ==> rewritten(
            node,
            path,
            from,
            ActionView::Ensure(text),
            false,
        ).get(other) == node.get(other),
        node.get((path[from])->Key_0) is None ==> rewritten(
            node,
            path,
            from,
            ActionView::Replace(text),
            false,
        ) == node,
    decreases path.len() - from,
{
    let key = (path[from])->Key_0;
    assert(path[from] is Key);
    reveal_with_fuel(at_keys, 2);
    let replace = ActionView::Replace(text);
    let ensure = ActionView::Ensure(text);
    if node.entries is Some {
        if from + 1 == path.len() {
            lemma_put_then_get(node, key, text_value(text), key);
            lemma_put_then_get(node, key, text_value(text), other);
        } else {
            let ready = prepared(node, key, true);
            if node.get(key) is None {
                lemma_put_then_get(node, key, crate::config::edit::fresh_table(node, true), key);
                lemma_put_then_get(node, key, crate::config::edit::fresh_table(node, true), other);
            }
            if let Some(child) = node.get(key) {
                law_rewrites_put_their_text(child, path, from + 1, text, other);
                lemma_child_then_get(node, key, rewritten(child, path, from + 1, replace, false), key);
                lemma_child_then_get(
                    node,
                    key,
                    rewritten(child, path, from + 1, replace, false),
                    other,
                );
            }
            if let Some(child) = implicit(node, key) {
                lemma_child_then_get(ready, key, rewritten(child, path, from + 1, ensure, false), key);
                lemma_child_then_get(
                    ready,
                    key,
                    rewritten(child, path, from + 1, ensure, false),
                    other,
                );
            } else if let Some(child) = node.get(key) {
                assert(child.entries is None);
                assert(path[from + 1] is Key);
            }
        }
    }
}

/// A removal takes out what stands at the end of its keys, and nothing beside it.
pub proof fn law_removals_take_out_one_key(node: NodeView, key: Seq<char>, other: Seq<char>)
    requires
        unique_keys(node),
        other != key,
    ensures
        node.entries is Some ==> rewritten(
            node,
            seq![StepView::Key(key)],
            0,
            ActionView::Remove,
            false,
        ).get(key) is None,
        rewritten(node, seq![StepView::Key(key)], 0, ActionView::Remove, false).get(other)
            == node.get(other),
{
    lemma_without_same(node, key);
    lemma_without_then_get(node, key, other);
}

/// Rewrites are made one after the other.
pub proof fn law_rewrites_are_made_in_order(
    node: NodeView,
    rewrites: Seq<RewriteView>,
    rewrite: RewriteView,
)
    ensures
        all_rewritten(node, Seq::empty()) == node,
        all_rewritten(node, rewrites.push(rewrite)) == rewritten(
            all_rewritten(node, rewrites),
            rewrite.path,
            0,
            rewrite.action,
            false,
        ),
{
    assert(rewrites.push(rewrite).drop_last() =~= rewrites);
}

/// Of the user's own table everything but microkitchen's stays, and of the document
/// everything beside it.
pub proof fn law_the_users_table_stays(root: NodeView, key: Seq<char>)
    requires
        key != "microkitchen"@,
    ensures
        key != "_"@ ==> user_stripped(root).get(key) == root.get(key),
        root.get("_"@) matches Some(user) && user.get(key) is Some ==> (user_stripped(root).get(
            "_"@,
        ) matches Some(left) && left.get(key) == root.get("_"@)->0.get(key)),
{
    if let Some(user) = root.get("_"@) {
        let left = without(user, "microkitchen"@);
        if key != "_"@ {
            lemma_without_then_get(root, "_"@, key);
        }
        lemma_child_then_get(root, "_"@, left, key);
        lemma_child_then_get(root, "_"@, left, "_"@);
        lemma_without_then_get(user, "microkitchen"@, key);
    }
}

/// Of an environment everything stays but what `_` and `mise` say of files, sources and
/// paths.
pub proof fn law_the_environment_stays(env: NodeView, key: Seq<char>, name: Seq<char>)
    requires
        name != "file"@ && name != "source"@ && name != "path"@,
    ensures
        key != "_"@ && key != "mise"@ ==> host_stripped(env).get(key) == env.get(key),
        env.get(key) matches Some(table) && table.get(name) is Some ==> (host_stripped(env).get(
            key,
        ) matches Some(left) && left.get(name) == env.get(key)->0.get(name)),
{
    lemma_distinct_names();
    reveal_strlit("_");
    reveal_strlit("mise");
    assert("_"@.len() != "mise"@.len());
    lemma_table_stays(env, "_"@, key, name);
    let once = directive_table_stripped(env, "_"@);
    lemma_table_stays(once, "mise"@, key, name);
}

proof fn lemma_table_stays(env: NodeView, place: Seq<char>, key: Seq<char>, name: Seq<char>)
    requires
        name != "file"@ && name != "source"@ && name != "path"@,
    ensures
        key != place ==> directive_table_stripped(env, place).get(key) == env.get(key),
        env.get(place) matches Some(table) && table.get(name) is Some ==> (directive_table_stripped(
            env,
            place,
        ).get(place) matches Some(left) && left.get(name) == env.get(place)->0.get(name)),
{
    if let Some(table) = env.get(place) {
        let one = without(table, "file"@);
        let two = without(one, "source"@);
        let left = directives_stripped(table);
        lemma_without_then_get(table, "file"@, name);
        lemma_without_then_get(one, "source"@, name);
        lemma_without_then_get(two, "path"@, name);
        if key != place {
            lemma_without_then_get(env, place, key);
        }
        lemma_child_then_get(env, place, left, key);
        lemma_child_then_get(env, place, left, place);
    }
}

/// A new chef has the uid 1001, its own group, those of `sudo` and `docker`, a shell and
/// a comment; its group has the gid 1001. A chef that is declared keeps what it has.
pub proof fn law_a_new_chef(users: NodeView, groups: NodeView, chef: NodeView, key: Seq<char>)
    requires
        chef.entries is Some,
    ensures
        new_chef(users).get("uid"@) == Some(integer_value(1001)),
        new_chef(users).get("group"@) == Some(text_value("chef"@)),
        new_chef(users).get("shell"@) == Some(text_value("/bin/bash"@)),
        new_chef(users).get("comment"@) == Some(text_value("sandbox user"@)),
        new_chef(users).get("groups"@) matches Some(list) && (list.elements matches Some(names)
            && names.len() == 2 && names[0].text == Some("sudo"@) && names[1].text == Some(
            "docker"@,
        )),
        new_chef_group(groups).get("gid"@) == Some(integer_value(1001)),
        chef.get(key) is Some ==> chef_filled(chef).get(key) == chef.get(key),
        chef.get("uid"@) is None ==> chef_filled(chef).get("uid"@) == Some(integer_value(1001)),
        chef.get("group"@) is None ==> chef_filled(chef).get("group"@) == Some(
            text_value("chef"@),
        ),
{
    reveal_strlit("uid");
    reveal_strlit("group");
    reveal_strlit("groups");
    reveal_strlit("shell");
    reveal_strlit("comment");
    assert("group"@[0] == 'g' && "shell"@[0] == 's');
    assert("uid"@.len() == 3 && "group"@.len() == 5 && "groups"@.len() == 6 && "shell"@.len() == 5
        && "comment"@.len() == 7);
    let id = integer_value(1001);
    let own = text_value("chef"@);
    let none = new_table(users);
    let ids = with_put(none, "uid"@, id);
    let grouped = with_put(ids, "group"@, own);
    let list = NodeView {
        elements: Some(seq![text_value("sudo"@), text_value("docker"@)]),
        ..bare()
    };
    let listed = with_put(grouped, "groups"@, list);
    let shell = text_value("/bin/bash"@);
    let shelled = with_put(listed, "shell"@, shell);
    let comment = text_value("sandbox user"@);
    lemma_put_then_get(none, "uid"@, id, "uid"@);
    lemma_put_then_get(ids, "group"@, own, "uid"@);
    lemma_put_then_get(ids, "group"@, own, "group"@);
    lemma_put_then_get(grouped, "groups"@, list, "uid"@);
    lemma_put_then_get(grouped, "groups"@, list, "group"@);
    lemma_put_then_get(grouped, "groups"@, list, "groups"@);
    lemma_put_then_get(listed, "shell"@, shell, "uid"@);
    lemma_put_then_get(listed, "shell"@, shell, "group"@);
    lemma_put_then_get(listed, "shell"@, shell, "groups"@);
    lemma_put_then_get(listed, "shell"@, shell, "shell"@);
    lemma_put_then_get(shelled, "comment"@, comment, "uid"@);
    lemma_put_then_get(shelled, "comment"@, comment, "group"@);
    lemma_put_then_get(shelled, "comment"@, comment, "groups"@);
    lemma_put_then_get(shelled, "comment"@, comment, "shell"@);
    lemma_put_then_get(shelled, "comment"@, comment, "comment"@);
    assert(new_chef(users) == with_put(shelled, "comment"@, comment));
    lemma_put_then_get(new_table(groups), "gid"@, id, "gid"@);
    let first = filled(chef, "uid"@, id);
    lemma_put_then_get(chef, "uid"@, id, key);
    lemma_put_then_get(chef, "uid"@, id, "uid"@);
    lemma_put_then_get(chef, "uid"@, id, "group"@);
    lemma_put_then_get(first, "group"@, own, key);
    lemma_put_then_get(first, "group"@, own, "uid"@);
    lemma_put_then_get(first, "group"@, own, "group"@);
}

} // verus!
