//! TOML documents as plain trees: what the library reads of them.

use vstd::prelude::*;

use crate::text::{opt_view, same};

verus! {

/// A range of bytes of a document's text.
#[derive(Debug, Clone, Copy, PartialEq, Eq, Structural)]
pub struct Span {
    pub start: usize,
    pub end: usize,
}

/// One value of a document, with the forms in which it can be read.
#[derive(Debug, PartialEq, Eq)]
pub struct Node {
    pub span: Option<Span>,
    pub text: Option<String>,
    pub integer: Option<i64>,
    pub float: bool,
    pub boolean: Option<bool>,
    pub datetime: bool,
    /// Whether a table is an inline table.
    pub inline: bool,
    /// The elements of an array.
    pub elements: Option<Vec<Node>>,
    /// The entries of a table or an inline table, in order.
    pub entries: Option<Vec<Entry>>,
    /// The tables of an array of tables.
    pub tables: Option<Vec<Node>>,
    /// What stands between the value and what comes before it, in a document
    /// that is edited.
    pub prefix: Option<String>,
    /// What stands between the value and what comes behind it, in a document
    /// that is edited.
    pub suffix: Option<String>,
    /// Whether a table is there only because of the tables in it.
    pub implicit: bool,
    /// Whether a table is written by the dotted keys of what is in it.
    pub dotted: bool,
}

/// One entry of a table.
#[derive(Debug, PartialEq, Eq)]
pub struct Entry {
    pub key: String,
    pub key_span: Option<Span>,
    pub node: Node,
}

/// A [`Node`] by its contents.
#[verifier::ext_equal]
pub struct NodeView {
    pub span: Option<Span>,
    pub text: Option<Seq<char>>,
    pub integer: Option<i64>,
    pub float: bool,
    pub boolean: Option<bool>,
    pub datetime: bool,
    pub inline: bool,
    pub elements: Option<Seq<NodeView>>,
    pub entries: Option<Seq<EntryView>>,
    pub tables: Option<Seq<NodeView>>,
    pub prefix: Option<Seq<char>>,
    pub suffix: Option<Seq<char>>,
    pub implicit: bool,
    pub dotted: bool,
}

/// An [`Entry`] by its contents.
#[verifier::ext_equal]
pub struct EntryView {
    pub key: Seq<char>,
    pub key_span: Option<Span>,
    pub node: NodeView,
}

/// Why a text is not a TOML document.
#[derive(Debug, PartialEq, Eq)]
pub struct SyntaxError {
    pub message: String,
    pub span: Option<Span>,
}

/// A [`SyntaxError`] by its contents.
#[verifier::ext_equal]
pub struct SyntaxErrorView {
    pub message: Seq<char>,
    pub span: Option<Span>,
}

impl View for SyntaxError {
    type V = SyntaxErrorView;

    open spec fn view(&self) -> SyntaxErrorView {
        SyntaxErrorView { message: self.message@, span: self.span }
    }
}

/// The contents of a list of nodes.
pub open spec fn node_views(nodes: Seq<Node>) -> Seq<NodeView>
    decreases nodes,
{
    Seq::new(
        nodes.len(),
        |i: int|
            if 0 <= i < nodes.len() {
                nodes[i].tree()
            } else {
                arbitrary()
            },
    )
}

/// The contents of a list of entries.
pub open spec fn entry_views(entries: Seq<Entry>) -> Seq<EntryView>
    decreases entries,
{
    Seq::new(
        entries.len(),
        |i: int|
            if 0 <= i < entries.len() {
                entries[i].tree()
            } else {
                arbitrary()
            },
    )
}

impl Node {
    pub open spec fn tree(self) -> NodeView
        decreases self,
    {
        NodeView {
            span: self.span,
            text: match self.text {
                Some(text) => Some(text@),
                None => None,
            },
            integer: self.integer,
            float: self.float,
            boolean: self.boolean,
            datetime: self.datetime,
            inline: self.inline,
            elements: match self.elements {
                Some(nodes) => Some(node_views(nodes@)),
                None => None,
            },
            entries: match self.entries {
                Some(entries) => Some(entry_views(entries@)),
                None => None,
            },
            tables: match self.tables {
                Some(nodes) => Some(node_views(nodes@)),
                None => None,
            },
            prefix: match self.prefix {
                Some(text) => Some(text@),
                None => None,
            },
            suffix: match self.suffix {
                Some(text) => Some(text@),
                None => None,
            },
            implicit: self.implicit,
            dotted: self.dotted,
        }
    }
}

impl Entry {
    pub open spec fn tree(self) -> EntryView
        decreases self,
    {
        EntryView { key: self.key@, key_span: self.key_span, node: self.node.tree() }
    }
}

impl View for Node {
    type V = NodeView;

    open spec fn view(&self) -> NodeView {
        self.tree()
    }
}

impl View for Entry {
    type V = EntryView;

    open spec fn view(&self) -> EntryView {
        self.tree()
    }
}

// ---------------------------------------------------------------------------
// Reading text
// ---------------------------------------------------------------------------

/// An item of a `toml_edit` document: a table, a value, or an array of tables.
#[verifier::external_type_specification]
#[verifier::external_body]
pub struct ExItem(toml_edit::Item);

/// What a `toml_edit` item holds.
pub uninterp spec fn item_tree(item: toml_edit::Item) -> NodeView;

/// The document that a text writes, as `toml_edit` reads it, with spans.
pub uninterp spec fn toml_document(text: Seq<char>) -> Result<NodeView, SyntaxErrorView>;

/// `toml_edit::Document::parse`: the root table of the document that `text`
/// writes, or the message and place of the first error. Which texts are TOML
/// is left to the crate.
#[verifier::external_body]
fn parse_document(text: &str) -> (r: Result<toml_edit::Item, SyntaxError>)
    ensures
        match r {
            Ok(item) => toml_document(text@) == Ok::<NodeView, SyntaxErrorView>(item_tree(item)),
            Err(error) => toml_document(text@) == Err::<NodeView, SyntaxErrorView>(error@),
        },
{
    match toml_edit::Document::parse(text) {
        Ok(document) => Ok(document.as_item().clone()),
        Err(error) => Err(
            SyntaxError {
                message: error.message().to_owned(),
                span: error.span().map(|range| Span { start: range.start, end: range.end }),
            },
        ),
    }
}

/// The accessors of `toml_edit::Item` for what is not a list (`span`, `as_str`,
/// `as_integer`, `is_float`, `as_bool`, `is_datetime`, `is_inline_table`, and
/// `is_implicit` and `is_dotted` of a table): what they give.
#[verifier::external_body]
fn bare_leaf_of(item: &toml_edit::Item) -> (r: Node)
    ensures
        r@ == (NodeView {
            elements: None,
            entries: None,
            tables: None,
            prefix: None,
            suffix: None,
            ..item_tree(*item)
        }),
{
    Node {
        span: item.span().map(|range| Span { start: range.start, end: range.end }),
        text: item.as_str().map(str::to_owned), integer: item.as_integer(),
        float: item.is_float(), boolean: item.as_bool(), datetime: item.is_datetime(),
        inline: item.is_inline_table(), elements: None, entries: None, tables: None,
        prefix: None, suffix: None,
        implicit: item.as_table().is_some_and(|table| table.is_implicit()),
        dotted: item.as_table_like().is_some_and(|table| table.is_dotted()),
    }
}

/// `toml_edit::Value::decor`: the text before a value and after it, as far as
/// they are explicit.
#[verifier::external_body]
fn decor_of(item: &toml_edit::Item) -> (r: (Option<String>, Option<String>))
    ensures
        opt_view(r.0) == item_tree(*item).prefix,
        opt_view(r.1) == item_tree(*item).suffix,
{
    let decor = item.as_value().map(|v| v.decor());
    (
        decor.and_then(|d| d.prefix()?.as_str()).map(str::to_owned),
        decor.and_then(|d| d.suffix()?.as_str()).map(str::to_owned),
    )
}

/// What an item holds beside its lists.
fn leaf_of(item: &toml_edit::Item) -> (r: Node)
    ensures
        r@ == (NodeView { elements: None, entries: None, tables: None, ..item_tree(*item) }),
{
    let mut node = bare_leaf_of(item);
    let (prefix, suffix) = decor_of(item);
    node.prefix = prefix;
    node.suffix = suffix;
    node
}

/// Whether no key stands twice.
pub open spec fn distinct_keys(entries: Seq<EntryView>) -> bool {
    forall|i: int, j: int|
        0 <= i < entries.len() && 0 <= j < entries.len() && (#[trigger] entries[i]).key == (
        #[trigger] entries[j]).key ==> i == j
}

/// Whether no key stands twice in a table, as in every TOML table.
pub open spec fn unique_keys(node: NodeView) -> bool {
    node.entries matches Some(entries) ==> distinct_keys(entries)
}

/// Whether no key stands twice in any table of a tree.
pub open spec fn well_keyed(node: NodeView) -> bool
    decreases node,
{
    &&& unique_keys(node)
    &&& node.entries matches Some(entries) ==> forall|i: int|
        0 <= i < entries.len() ==> well_keyed((#[trigger] entries[i]).node)
    &&& node.elements matches Some(elements) ==> forall|i: int|
        0 <= i < elements.len() ==> well_keyed(#[trigger] elements[i])
    &&& node.tables matches Some(tables) ==> forall|i: int|
        0 <= i < tables.len() ==> well_keyed(#[trigger] tables[i])
}

/// Whether items hold these trees, one for one.
pub open spec fn hold(items: Seq<toml_edit::Item>, trees: Seq<NodeView>) -> bool {
    &&& items.len() == trees.len()
    &&& forall|i: int| 0 <= i < items.len() ==> item_tree(#[trigger] items[i]) == trees[i]
}

/// `Item::as_array` and `Array::iter`: the elements of an array.
#[verifier::external_body]
fn array_items(item: &toml_edit::Item) -> (r: Option<Vec<toml_edit::Item>>)
    ensures
        match (r, item_tree(*item).elements) {
            (Some(items), Some(trees)) => hold(items@, trees),
            (None, None) => true,
            _ => false,
        },
{
    item.as_array().map(|array| array.iter().map(|value| value.clone().into()).collect())
}

/// `Item::as_array_of_tables` and `ArrayOfTables::iter`: the tables of an array
/// of tables.
#[verifier::external_body]
fn array_tables(item: &toml_edit::Item) -> (r: Option<Vec<toml_edit::Item>>)
    ensures
        match (r, item_tree(*item).tables) {
            (Some(items), Some(trees)) => hold(items@, trees),
            (None, None) => true,
            _ => false,
        },
{
    item.as_array_of_tables().map(|tables| tables.iter().map(|t| t.clone().into()).collect())
}

/// `Item::as_table_like`, and `iter` and `key` of the table: the keys of a table
/// or an inline table, where they stand, and their items, in order. No key
/// stands twice.
#[verifier::external_body]
fn table_items(item: &toml_edit::Item) -> (r: Option<
    Vec<(String, Option<Span>, toml_edit::Item)>,
>)
    ensures
        match (r, item_tree(*item).entries) {
            (Some(items), Some(entries)) => {
                &&& items@.len() == entries.len()
                &&& distinct_keys(entries)
                &&& forall|i: int|
                    0 <= i < items@.len() ==> entries[i] == (EntryView {
                        key: (#[trigger] items@[i]).0@,
                        key_span: items@[i].1,
                        node: item_tree(items@[i].2),
                    })
            },
            (None, None) => true,
            _ => false,
        },
{
    let table = item.as_table_like()?;
    let span = |key: &str| {
        table.key(key).and_then(|k| k.span()).map(|r| Span { start: r.start, end: r.end })
    };
    Some(table.iter().map(|(key, item)| (key.to_owned(), span(key), item.clone())).collect())
}

fn nodes_of(items: &Vec<toml_edit::Item>, Ghost(trees): Ghost<Seq<NodeView>>) -> (r: Vec<Node>)
    requires
        hold(items@, trees),
    ensures
        node_views(r@) == trees,
        forall|i: int| 0 <= i < trees.len() ==> well_keyed(#[trigger] trees[i]),
    decreases trees, 0nat,
{
    let mut r: Vec<Node> = Vec::new();
    let mut i: usize = 0;
    while i < items.len()
        invariant
            i <= items@.len(),
            hold(items@, trees),
            r@.len() == i,
            forall|k: int| 0 <= k < i ==> (#[trigger] r@[k])@ == trees[k],
            forall|k: int| 0 <= k < i ==> well_keyed(#[trigger] trees[k]),
        decreases items@.len() - i,
    {
        assert(decreases_to!(trees => trees[i as int]));
        assert(item_tree(items@[i as int]) == trees[i as int]);
        r.push(node_of(&items[i]));
        i += 1;
    }
    assert(node_views(r@) =~= trees);
    r
}

/// What an item and the items in it hold.
pub(crate) fn node_of(item: &toml_edit::Item) -> (r: Node)
    ensures
        r@ == item_tree(*item),
        well_keyed(r@),
    decreases item_tree(*item), 1nat,
{
    let ghost tree = item_tree(*item);
    let mut node = leaf_of(item);
    let elements = match array_items(item) {
        Some(items) => {
            assert(decreases_to!(tree => tree.elements->0));
            Some(nodes_of(&items, Ghost(tree.elements->0)))
        },
        None => None,
    };
    let tables = match array_tables(item) {
        Some(items) => {
            assert(decreases_to!(tree => tree.tables->0));
            Some(nodes_of(&items, Ghost(tree.tables->0)))
        },
        None => None,
    };
    let entries = match table_items(item) {
        Some(items) => {
            let ghost all = tree.entries->0;
            let mut r: Vec<Entry> = Vec::new();
            let mut i: usize = 0;
            while i < items.len()
                invariant
                    i <= items@.len(),
                    tree == item_tree(*item),
                    tree.entries == Some(all),
                    items@.len() == all.len(),
                    forall|k: int|
                        0 <= k < items@.len() ==> all[k] == (EntryView {
                            key: (#[trigger] items@[k]).0@,
                            key_span: items@[k].1,
                            node: item_tree(items@[k].2),
                        }),
                    r@.len() == i,
                    forall|k: int| 0 <= k < i ==> (#[trigger] r@[k])@ == all[k],
                    forall|k: int| 0 <= k < i ==> well_keyed((#[trigger] all[k]).node),
                decreases items@.len() - i,
            {
                assert(all[i as int].node == item_tree(items@[i as int].2));
                assert(decreases_to!(tree => tree.entries->0[i as int].node));
                let child = node_of(&items[i].2);
                r.push(Entry { key: items[i].0.clone(), key_span: items[i].1, node: child });
                i += 1;
            }
            assert(entry_views(r@) =~= all);
            Some(r)
        },
        None => None,
    };
    node.elements = elements;
    node.tables = tables;
    node.entries = entries;
    assert(node@ =~= tree);
    assert(unique_keys(tree));
    assert(tree.entries matches Some(all) ==> forall|i: int|
        0 <= i < all.len() ==> well_keyed((#[trigger] all[i]).node));
    assert(tree.elements matches Some(all) ==> forall|i: int|
        0 <= i < all.len() ==> well_keyed(#[trigger] all[i]));
    assert(tree.tables matches Some(all) ==> forall|i: int|
        0 <= i < all.len() ==> well_keyed(#[trigger] all[i]));
    node
}

fn same_text(a: &Option<String>, b: &Option<String>) -> (r: bool)
    ensures
        r == (opt_view(*a) == opt_view(*b)),
{
    match (a, b) {
        (Some(a), Some(b)) => same(a.as_str(), b.as_str()),
        (None, None) => true,
        _ => false,
    }
}

fn same_span(a: Option<Span>, b: Option<Span>) -> (r: bool)
    ensures
        r == (a == b),
{
    match (a, b) {
        (Some(a), Some(b)) => a.start == b.start && a.end == b.end,
        (None, None) => true,
        _ => false,
    }
}

fn same_lists(a: &Vec<Node>, b: &Vec<Node>) -> (r: bool)
    ensures
        r == (node_views(a@) == node_views(b@)),
    decreases node_views(a@), 0nat,
{
    let ghost (av, bv) = (node_views(a@), node_views(b@));
    if a.len() != b.len() {
        assert(av.len() != bv.len());
        return false;
    }
    let mut i: usize = 0;
    while i < a.len()
        invariant
            i <= a@.len(),
            a@.len() == b@.len(),
            av == node_views(a@),
            bv == node_views(b@),
            forall|k: int| 0 <= k < i ==> (#[trigger] av[k]) == bv[k],
        decreases a@.len() - i,
    {
        assert(av[i as int] == a@[i as int]@ && bv[i as int] == b@[i as int]@);
        assert(decreases_to!(av => av[i as int]));
        if !same_tree(&a[i], &b[i]) {
            return false;
        }
        i += 1;
    }
    assert(av =~= bv);
    true
}

/// Whether two trees are the same.
pub fn same_tree(a: &Node, b: &Node) -> (r: bool)
    ensures
        r == (a@ == b@),
    decreases a@, 1nat,
{
    let ghost (at, bt) = (a@, b@);
    let leaves = same_span(a.span, b.span) && same_text(&a.text, &b.text) && a.integer == b.integer
        && a.float == b.float && a.boolean == b.boolean && a.datetime == b.datetime && a.inline
        == b.inline && same_text(&a.prefix, &b.prefix) && same_text(&a.suffix, &b.suffix)
        && a.implicit == b.implicit && a.dotted == b.dotted;
    if !leaves {
        return false;
    }
    let elements = match (&a.elements, &b.elements) {
        (Some(x), Some(y)) => {
            assert(decreases_to!(at => at.elements->0));
            same_lists(x, y)
        },
        (None, None) => true,
        _ => false,
    };
    let tables = match (&a.tables, &b.tables) {
        (Some(x), Some(y)) => {
            assert(decreases_to!(at => at.tables->0));
            same_lists(x, y)
        },
        (None, None) => true,
        _ => false,
    };
    if !elements || !tables {
        return false;
    }
    match (&a.entries, &b.entries) {
        (Some(x), Some(y)) => {
            let ghost (xv, yv) = (entry_views(x@), entry_views(y@));
            if x.len() != y.len() {
                assert(xv.len() != yv.len());
                return false;
            }
            let mut i: usize = 0;
            while i < x.len()
                invariant
                    i <= x@.len(),
                    x@.len() == y@.len(),
                    at == a@,
                    at.entries == Some(xv),
                    bt.entries == Some(yv),
                    bt == b@,
                    xv == entry_views(x@),
                    yv == entry_views(y@),
                    forall|k: int| 0 <= k < i ==> (#[trigger] xv[k]) == yv[k],
                decreases x@.len() - i,
            {
                assert(xv[i as int] == x@[i as int]@ && yv[i as int] == y@[i as int]@);
                assert(decreases_to!(at => at.entries->0[i as int].node));
                if !same(x[i].key.as_str(), y[i].key.as_str()) || !same_span(
                    x[i].key_span,
                    y[i].key_span,
                ) || !same_tree(&x[i].node, &y[i].node) {
                    return false;
                }
                i += 1;
            }
            assert(xv =~= yv);
            assert(at =~= bt);
            true
        },
        (None, None) => {
            assert(at =~= bt);
            true
        },
        _ => false,
    }
}

/// The outcome of reading a document, by its contents.
pub open spec fn read_outcome(r: Result<Node, SyntaxError>) -> Result<NodeView, SyntaxErrorView> {
    match r {
        Ok(node) => Ok(node@),
        Err(error) => Err(error@),
    }
}

/// Read a document.
pub fn read_tree(text: &str) -> (r: Result<Node, SyntaxError>)
    ensures
        read_outcome(r) == toml_document(text@),
{
    match parse_document(text) {
        Ok(item) => Ok(node_of(&item)),
        Err(error) => Err(error),
    }
}

// ---------------------------------------------------------------------------
// Looking things up
// ---------------------------------------------------------------------------

/// Where a key first stands among entries.
pub open spec fn entry_index(entries: Seq<EntryView>, key: Seq<char>) -> Option<int>
    decreases entries.len(),
{
    if entries.len() == 0 {
        None
    } else if entry_index(entries.drop_last(), key) is Some {
        entry_index(entries.drop_last(), key)
    } else if entries.last().key == key {
        Some(entries.len() - 1)
    } else {
        None
    }
}

pub proof fn lemma_entry_index(entries: Seq<EntryView>, key: Seq<char>)
    ensures
        entry_index(entries, key) matches Some(i) ==> 0 <= i < entries.len() && entries[i].key == key
            && forall|j: int| 0 <= j < i ==> (#[trigger] entries[j]).key != key,
        entry_index(entries, key) is None ==> forall|j: int|
            0 <= j < entries.len() ==> (#[trigger] entries[j]).key != key,
    decreases entries.len(),
{
    if entries.len() > 0 {
        let rest = entries.drop_last();
        lemma_entry_index(rest, key);
        match entry_index(rest, key) {
            Some(i) => {
                assert(rest[i] == entries[i]);
                assert forall|j: int| 0 <= j < i implies (#[trigger] entries[j]).key != key by {
                    assert(rest[j] == entries[j]);
                }
            },
            None => {
                assert forall|j: int| 0 <= j < rest.len() implies (#[trigger] entries[j]).key != key by {
                    assert(rest[j] == entries[j]);
                }
            },
        }
    }
}

proof fn lemma_entry_index_extends(entries: Seq<EntryView>, n: int, key: Seq<char>)
    requires
        0 <= n <= entries.len(),
        entry_index(entries.subrange(0, n), key) is Some,
    ensures
        entry_index(entries, key) == entry_index(entries.subrange(0, n), key),
    decreases entries.len() - n,
{
    if n < entries.len() {
        assert(entries.subrange(0, n + 1).drop_last() =~= entries.subrange(0, n));
        lemma_entry_index_extends(entries, n + 1, key);
    } else {
        assert(entries.subrange(0, n) =~= entries);
    }
}

impl NodeView {
    /// The entry of a table with a key.
    pub open spec fn entry(self, key: Seq<char>) -> Option<EntryView> {
        match self.entries {
            None => None,
            Some(entries) => match entry_index(entries, key) {
                Some(i) => Some(entries[i]),
                None => None,
            },
        }
    }

    /// The value of a table under a key.
    pub open spec fn get(self, key: Seq<char>) -> Option<NodeView> {
        match self.entry(key) {
            Some(entry) => Some(entry.node),
            None => None,
        }
    }

    /// What the value is called in messages.
    pub open spec fn kind(self) -> Seq<char> {
        if self.text is Some {
            "string"@
        } else if self.integer is Some {
            "integer"@
        } else if self.float {
            "float"@
        } else if self.boolean is Some {
            "boolean"@
        } else if self.datetime {
            "datetime"@
        } else if self.elements is Some {
            "array"@
        } else if self.inline {
            "inline table"@
        } else if self.entries is Some {
            "table"@
        } else if self.tables is Some {
            "array of tables"@
        } else {
            "none"@
        }
    }

    pub open spec fn is_table(self) -> bool {
        self.entries is Some
    }

    /// The table under a key.
    pub open spec fn table(self, key: Seq<char>) -> Option<NodeView> {
        match self.get(key) {
            Some(node) => if node.is_table() {
                Some(node)
            } else {
                None
            },
            None => None,
        }
    }

    /// Where a key stands: the key itself, else its value.
    pub open spec fn key_span(self, key: Seq<char>) -> Option<Span> {
        match self.entry(key) {
            Some(entry) => if entry.key_span is Some {
                entry.key_span
            } else {
                entry.node.span
            },
            None => None,
        }
    }
}

/// A borrowed value, by its contents.
pub open spec fn opt_node(o: Option<&Node>) -> Option<NodeView> {
    match o {
        Some(node) => Some(node@),
        None => None,
    }
}

impl Node {
    /// The entry of a table with a key.
    pub fn find(&self, key: &str) -> (r: Option<&Entry>)
        ensures
            match r {
                Some(entry) => self@.entry(key@) == Some(entry@),
                None => self@.entry(key@) is None,
            },
    {
        match &self.entries {
            None => None,
            Some(entries) => {
                let ghost ev = entry_views(entries@);
                assert(self@.entries == Some(ev));
                let mut i: usize = 0;
                assert(ev.subrange(0, 0) =~= Seq::empty());
                while i < entries.len()
                    invariant
                        i <= entries@.len(),
                        ev == entry_views(entries@),
                        entry_index(ev.subrange(0, i as int), key@) is None,
                        self@.entries == Some(ev),
                    decreases entries@.len() - i,
                {
                    assert(ev.subrange(0, i + 1).drop_last() =~= ev.subrange(0, i as int));
                    assert(ev[i as int] == entries@[i as int]@);
                    if same(entries[i].key.as_str(), key) {
                        proof {
                            lemma_entry_index_extends(ev, i + 1, key@);
                        }
                        return Some(&entries[i]);
                    }
                    i += 1;
                }
                assert(ev.subrange(0, ev.len() as int) =~= ev);
                None
            },
        }
    }

    /// The value of a table under a key.
    pub fn get(&self, key: &str) -> (r: Option<&Node>)
        ensures
            opt_node(r) == self@.get(key@),
    {
        match self.find(key) {
            Some(entry) => Some(&entry.node),
            None => None,
        }
    }

    /// What the value is called in messages.
    pub fn kind(&self) -> (r: String)
        ensures
            r@ == self@.kind(),
    {
        let name = if self.text.is_some() {
            "string"
        } else if self.integer.is_some() {
            "integer"
        } else if self.float {
            "float"
        } else if self.boolean.is_some() {
            "boolean"
        } else if self.datetime {
            "datetime"
        } else if self.elements.is_some() {
            "array"
        } else if self.inline {
            "inline table"
        } else if self.entries.is_some() {
            "table"
        } else if self.tables.is_some() {
            "array of tables"
        } else {
            "none"
        };
        name.to_owned()
    }

    pub fn is_table(&self) -> (r: bool)
        ensures
            r == self@.is_table(),
    {
        self.entries.is_some()
    }

    /// The table under a key.
    pub fn table(&self, key: &str) -> (r: Option<&Node>)
        ensures
            opt_node(r) == self@.table(key@),
    {
        match self.get(key) {
            Some(node) => if node.is_table() {
                Some(node)
            } else {
                None
            },
            None => None,
        }
    }

    /// Where a key stands: the key itself, else its value.
    pub fn key_span(&self, key: &str) -> (r: Option<Span>)
        ensures
            r == self@.key_span(key@),
    {
        match self.find(key) {
            Some(entry) => if entry.key_span.is_some() {
                entry.key_span
            } else {
                entry.node.span
            },
            None => None,
        }
    }
}

/// A table has under a key what its first entry of that key holds, and nothing where it
/// has none.
pub proof fn law_tables_hold_their_entries(node: NodeView, key: Seq<char>, i: int)
    ensures
        node.entries is None ==> node.get(key) is None && node.entry(key) is None,
        node.entries matches Some(entries) ==> {
            &&& 0 <= i < entries.len() && entries[i].key == key && (forall|j: int|
                0 <= j < i ==> (#[trigger] entries[j]).key != key) ==> node.get(key) == Some(
                entries[i].node,
            ) && node.entry(key) == Some(entries[i])
            &&& node.get(key) is None <==> forall|j: int|
                0 <= j < entries.len() ==> (#[trigger] entries[j]).key != key
        },
        node.table(key) == if (node.get(key) matches Some(child) && child.entries is Some) {
            node.get(key)
        } else {
            None
        },
        node.key_span(key) == match node.entry(key) {
            Some(entry) => match entry.key_span {
                Some(span) => Some(span),
                None => entry.node.span,
            },
            None => None,
        },
{
    if let Some(entries) = node.entries {
        lemma_entry_index(entries, key);
        if 0 <= i < entries.len() && entries[i].key == key && (forall|j: int|
            0 <= j < i ==> (#[trigger] entries[j]).key != key) {
            let k = entry_index(entries, key)->0;
            assert(entry_index(entries, key) is Some);
            assert(k == i);
        }
    }
}

} // verus!
