//! TOML documents that are edited: comments and layout stay as they are.
//!
//! The items of `toml_edit` hold a document; what an item holds is its
//! [`tree`](crate::tree::item_tree). Every edit here is one call into that
//! crate, said over the trees before and after it.

use vstd::prelude::*;

use crate::tree::{
    entry_index, item_tree, well_keyed, EntryView, NodeView, Span, SyntaxError, SyntaxErrorView,
};

verus! {

/// A TOML document of `toml_edit` that can be edited.
#[verifier::external_type_specification]
#[verifier::external_body]
pub struct ExDocumentMut(toml_edit::DocumentMut);

/// The root item of a document.
pub uninterp spec fn root_of(document: toml_edit::DocumentMut) -> toml_edit::Item;

/// The text that a document prints as.
pub uninterp spec fn document_text(document: toml_edit::DocumentMut) -> Seq<char>;

/// Whether a document ends in nothing but blanks and comments.
pub uninterp spec fn ends_plainly(document: toml_edit::DocumentMut) -> bool;

/// Whether an item is no placeholder (`toml_edit::Item::None`) and holds none,
/// what is around its keys, headers and values are blanks and comments where
/// TOML takes them, its values are written as what they are, and the tables of
/// each array of tables in it, with the tables in them, have their places
/// behind one another.
pub uninterp spec fn is_settled(item: toml_edit::Item) -> bool;

/// The place of a table's header among all headers, where it has one
/// (`toml_edit::Table::position`).
pub uninterp spec fn place_of(item: toml_edit::Item) -> Option<int>;

/// The places of all headers in an item, its own among them.
pub uninterp spec fn places_in(item: toml_edit::Item) -> Set<int>;

/// The document that a text writes, as `toml_edit` reads it for editing:
/// without spans, with the layout in front of each value.
pub uninterp spec fn editable_document(text: Seq<char>) -> Result<NodeView, SyntaxErrorView>;

// ---------------------------------------------------------------------------
// Trees
// ---------------------------------------------------------------------------

/// A value of which nothing can be read.
pub open spec fn bare() -> NodeView {
    NodeView {
        span: None,
        text: None,
        integer: None,
        float: false,
        boolean: None,
        datetime: false,
        inline: false,
        elements: None,
        entries: None,
        tables: None,
        prefix: None,
        suffix: None,
        implicit: false,
        dotted: false,
    }
}

pub open spec fn text_value(text: Seq<char>) -> NodeView {
    NodeView { text: Some(text), ..bare() }
}

/// Whether an item is a value: neither a table with a header nor an array of
/// them.
pub open spec fn is_value(node: NodeView) -> bool {
    node.tables is None && (node.entries is Some ==> node.inline)
}

/// Whether an item is a table that is not inline.
pub open spec fn is_header_table(node: NodeView) -> bool {
    node.entries is Some && !node.inline
}

/// Whether an item can stand where another one stood: it is settled, prints
/// nowhere that the other did not, and has the same layout and form.
pub open spec fn stays(before: toml_edit::Item, now: toml_edit::Item) -> bool {
    &&& is_settled(now)
    &&& place_of(now) == place_of(before)
    &&& places_in(now).subset_of(places_in(before))
    &&& item_tree(now).prefix == item_tree(before).prefix
    &&& item_tree(now).suffix == item_tree(before).suffix
    &&& item_tree(now).inline == item_tree(before).inline
    &&& item_tree(now).entries is Some <==> item_tree(before).entries is Some
    &&& item_tree(now).elements is Some <==> item_tree(before).elements is Some
    &&& item_tree(now).tables is Some <==> item_tree(before).tables is Some
}

/// How deep arrays and inline tables may be nested in a text, and how many parts
/// a key or a header may have.
pub const MAX_DEPTH: u32 = 80;

/// How deep the values in a node may be nested, where the node itself may be
/// nested so deep. The tables that a dotted key makes are not nested in the text.
pub open spec fn inner_nesting(node: NodeView, nesting: int) -> int {
    if node.elements is Some || (node.inline && !node.dotted) {
        nesting - 1
    } else {
        nesting
    }
}

/// How many parts the keys in a table may have, where its own key may have so
/// many more: those of a dotted key go on in the table that it makes.
pub open spec fn inner_parts(node: NodeView, parts: int) -> int {
    if node.dotted {
        parts
    } else {
        MAX_DEPTH as int
    }
}

/// Whether a reader takes what a tree prints as: arrays and inline tables are
/// nested at most `nesting` deep, headers have at most `header` more parts and
/// keys at most `parts` more, and what a dotted key makes in an inline table
/// holds something.
pub open spec fn fits(node: NodeView, nesting: int, header: int, parts: int) -> bool
    decreases node,
{
    &&& 0 <= inner_nesting(node, nesting)
    &&& is_header_table(node) && !node.dotted ==> 0 <= header
    &&& is_value(node) && !node.dotted ==> 0 <= parts
    &&& node.entries matches Some(entries) ==> {
        &&& node.inline && node.dotted ==> entries.len() > 0
        &&& forall|i: int|
            0 <= i < entries.len() ==> fits(
                (#[trigger] entries[i]).node,
                inner_nesting(node, nesting),
                header - 1,
                inner_parts(node, parts) - 1,
            ) && (entries[i].node.inline && entries[i].node.dotted ==> node.inline)
    }
    &&& node.elements matches Some(elements) ==> forall|i: int|
        0 <= i < elements.len() ==> fits(
            #[trigger] elements[i],
            inner_nesting(node, nesting),
            header,
            MAX_DEPTH as int,
        ) && !elements[i].dotted
    &&& node.tables matches Some(tables) ==> forall|i: int|
        0 <= i < tables.len() ==> fits(
            #[trigger] tables[i],
            inner_nesting(node, nesting),
            header,
            MAX_DEPTH as int,
        ) && !tables[i].dotted
}

/// Whether a reader takes what a document prints as.
pub open spec fn is_readable(tree: NodeView) -> bool {
    fits(tree, MAX_DEPTH as int, MAX_DEPTH as int, MAX_DEPTH as int)
}

/// Whether a table prints nothing: it has no header of its own, and holds
/// nothing that prints.
pub open spec fn vanishes(node: NodeView) -> bool
    decreases node,
{
    &&& node.implicit || node.dotted
    &&& node.elements is None && node.tables is None
    &&& node.entries matches Some(entries) && forall|i: int|
        0 <= i < entries.len() ==> vanishes((#[trigger] entries[i]).node)
}

/// Whether every table without a header of its own holds something.
pub open spec fn is_full(node: NodeView) -> bool
    decreases node,
{
    &&& node.entries matches Some(entries) ==> {
        &&& (node.implicit || node.dotted) ==> entries.len() > 0
        &&& forall|i: int| 0 <= i < entries.len() ==> is_full((#[trigger] entries[i]).node)
    }
    &&& node.elements matches Some(elements) ==> forall|i: int|
        0 <= i < elements.len() ==> is_full(#[trigger] elements[i])
    &&& node.tables matches Some(tables) ==> forall|i: int|
        0 <= i < tables.len() ==> is_full(#[trigger] tables[i])
}

/// Whether two lists of trees have the same length.
pub open spec fn same_length(a: Option<Seq<NodeView>>, b: Option<Seq<NodeView>>) -> bool {
    match (a, b) {
        (Some(a), Some(b)) => a.len() == b.len(),
        (None, None) => true,
        _ => false,
    }
}

/// Whether two trees say the same: up to spans, layout, the order of keys, and
/// tables of the first that print nothing.
pub open spec fn same_contents(a: NodeView, b: NodeView) -> bool
    decreases a,
{
    &&& a.text == b.text
    &&& a.integer == b.integer
    &&& a.float == b.float
    &&& a.boolean == b.boolean
    &&& a.datetime == b.datetime
    &&& a.inline == b.inline
    &&& same_length(a.elements, b.elements)
    &&& same_length(a.tables, b.tables)
    &&& a.entries is Some <==> b.entries is Some
    &&& a.elements matches Some(elements) ==> forall|i: int|
        0 <= i < elements.len() ==> same_contents(#[trigger] elements[i], b.elements->0[i])
    &&& a.tables matches Some(tables) ==> forall|i: int|
        0 <= i < tables.len() ==> same_contents(#[trigger] tables[i], b.tables->0[i])
    &&& a.entries matches Some(entries) ==> forall|i: int|
        0 <= i < entries.len() ==> match b.get((#[trigger] entries[i]).key) {
            Some(other) => same_contents(entries[i].node, other),
            None => vanishes(entries[i].node),
        }
    &&& b.entries matches Some(entries) ==> forall|j: int|
        0 <= j < entries.len() ==> a.get((#[trigger] entries[j]).key) is Some
}

/// Whether reading a text gives back what a tree says.
pub open spec fn reads_back(text: Seq<char>, tree: NodeView) -> bool {
    editable_document(text) matches Ok(read) && same_contents(tree, read) && well_keyed(read)
        && is_full(read) && is_header_table(read)
}

/// A table with another value under a key that it has.
pub open spec fn with_child(node: NodeView, key: Seq<char>, child: NodeView) -> NodeView {
    match node.entries {
        Some(entries) => match entry_index(entries, key) {
            Some(i) => NodeView {
                entries: Some(entries.update(i, EntryView { node: child, ..entries[i] })),
                ..node
            },
            None => node,
        },
        None => node,
    }
}

/// A table with a new value under a key: in place of the one that it has, or
/// behind the others.
pub open spec fn with_put(node: NodeView, key: Seq<char>, child: NodeView) -> NodeView {
    let entry = EntryView { key, key_span: None, node: child };
    match node.entries {
        Some(entries) => NodeView {
            entries: Some(
                match entry_index(entries, key) {
                    Some(i) => entries.update(i, entry),
                    None => entries.push(entry),
                },
            ),
            ..node
        },
        None => node,
    }
}

/// A table without a key.
pub open spec fn without(node: NodeView, key: Seq<char>) -> NodeView {
    match node.entries {
        Some(entries) => match entry_index(entries, key) {
            Some(i) => NodeView { entries: Some(entries.remove(i)), ..node },
            None => node,
        },
        None => node,
    }
}

/// The element of an array, or the table of an array of tables, at an index.
pub open spec fn element_at(node: NodeView, index: int) -> Option<NodeView> {
    match (node.elements, node.tables) {
        (Some(elements), _) => if 0 <= index < elements.len() {
            Some(elements[index])
        } else {
            None
        },
        (None, Some(tables)) => if 0 <= index < tables.len() {
            Some(tables[index])
        } else {
            None
        },
        (None, None) => None,
    }
}

/// An array, or an array of tables, with another element at an index.
pub open spec fn with_element(node: NodeView, index: int, element: NodeView) -> NodeView {
    match (node.elements, node.tables) {
        (Some(elements), _) => NodeView { elements: Some(elements.update(index, element)), ..node },
        (None, Some(tables)) => NodeView { tables: Some(tables.update(index, element)), ..node },
        (None, None) => node,
    }
}

/// A value to put into a document.
pub enum Fresh {
    Text(String),
    Integer(i64),
    Texts(Vec<String>),
    /// A table, which prints no header of its own where it is implicit.
    Table { implicit: bool },
    InlineTable,
}

impl Fresh {
    pub open spec fn tree(self) -> NodeView {
        match self {
            Fresh::Text(text) => text_value(text@),
            Fresh::Integer(n) => NodeView { integer: Some(n), ..bare() },
            Fresh::Texts(texts) => NodeView {
                elements: Some(Seq::new(texts@.len(), |i: int| text_value(texts@[i]@))),
                ..bare()
            },
            Fresh::Table { implicit } => NodeView {
                entries: Some(Seq::empty()),
                implicit,
                ..bare()
            },
            Fresh::InlineTable => NodeView { entries: Some(Seq::empty()), inline: true, ..bare() },
        }
    }
}

// ---------------------------------------------------------------------------
// Documents
// ---------------------------------------------------------------------------

/// `str::parse` to a `toml_edit::DocumentMut`: the document that `text` writes,
/// whose root is a table, or the message and place of the first error. The
/// tables that it makes for the parts of a header or a dotted key hold what
/// stands there, and what it takes is within its own limits. Which texts are
/// TOML is left to the crate.
#[verifier::external_body]
pub(crate) fn open_document(text: &str) -> (r: Result<toml_edit::DocumentMut, SyntaxError>)
    ensures
        match r {
            Ok(document) => {
                &&& editable_document(text@) == Ok::<NodeView, SyntaxErrorView>(
                    item_tree(root_of(document)),
                )
                &&& ends_plainly(document)
                &&& is_settled(root_of(document))
                &&& is_full(item_tree(root_of(document)))
                &&& is_readable(item_tree(root_of(document)))
                &&& is_header_table(item_tree(root_of(document)))
            },
            Err(error) => editable_document(text@) == Err::<NodeView, SyntaxErrorView>(error@),
        },
{
    match text.parse::<toml_edit::DocumentMut>() {
        Ok(document) => Ok(document),
        Err(error) => Err(
            SyntaxError {
                message: error.message().to_owned(),
                span: error.span().map(|range| Span { start: range.start, end: range.end }),
            },
        ),
    }
}

/// `toml_edit::DocumentMut::as_item_mut`: the root item.
#[verifier::external_body]
pub(crate) fn root_mut(document: &mut toml_edit::DocumentMut) -> (r: &mut toml_edit::Item)
    ensures
        *r == root_of(*old(document)),
        root_of(*final(document)) == *final(r),
        ends_plainly(*final(document)) == ends_plainly(*old(document)),
{
    document.as_item_mut()
}

/// `toml_edit::DocumentMut::to_string`: the text of a document whose root is
/// still a table. Reading that text gives back what the tree says, as long as it
/// is within the limits of the reader and no inline table is left with nothing
/// but empty tables of dotted keys, which a comma can follow. Tables print in the
/// order of their places and behind the values of the table that they are in, so
/// keys can change their order; a table without a header of its own prints
/// nothing where nothing is in it. Beyond that, what the text is is left to the
/// crate.
#[verifier::external_body]
pub(crate) fn print_document(document: &toml_edit::DocumentMut) -> (r: String)
    requires
        ends_plainly(*document),
        is_settled(root_of(*document)),
        is_header_table(item_tree(root_of(*document))),
    ensures
        r@ == document_text(*document),
        is_readable(item_tree(root_of(*document))) ==> reads_back(
            r@,
            item_tree(root_of(*document)),
        ),
{
    document.to_string()
}

/// Whether a text is that of a document that holds a tree, and reads back as it
/// where a reader takes it.
pub open spec fn prints(text: Seq<char>, tree: NodeView) -> bool {
    &&& exists|document: toml_edit::DocumentMut|
        #![trigger document_text(document)]
        item_tree(root_of(document)) == tree && text == document_text(document)
    &&& is_readable(tree) ==> reads_back(text, tree)
}

// ---------------------------------------------------------------------------
// Items
// ---------------------------------------------------------------------------

/// `toml_edit::TableLike::get_mut`: the value under a key, if the item is a
/// table or an inline table that has it. The table changes with it as long as
/// what is left there can stand where the value stood.
#[verifier::external_body]
pub(crate) fn child_mut<'a>(item: &'a mut toml_edit::Item, key: &str) -> (r: Option<
    &'a mut toml_edit::Item,
>)
    requires
        is_settled(*old(item)),
    ensures
        match r {
            None => item_tree(*old(item)).get(key@) is None && *final(item) == *old(item),
            Some(child) => {
                &&& item_tree(*old(item)).get(key@) == Some(item_tree(*child))
                &&& is_settled(*child)
                &&& item_tree(*old(item)).inline ==> is_value(item_tree(*child))
                &&& stays(*child, *final(child)) ==> {
                    &&& item_tree(*final(item)) == with_child(
                        item_tree(*old(item)),
                        key@,
                        item_tree(*final(child)),
                    )
                    &&& stays(*old(item), *final(item))
                }
            },
        },
{
    item.as_table_like_mut()?.get_mut(key)
}

/// `toml_edit::Item::get_mut` with an index: an element of an array, or a table
/// of an array of tables. The list changes with it as long as what is left there
/// can stand where the element stood.
#[verifier::external_body]
pub(crate) fn element_mut(item: &mut toml_edit::Item, index: usize) -> (r: Option<
    &mut toml_edit::Item,
>)
    requires
        is_settled(*old(item)),
    ensures
        match r {
            None => element_at(item_tree(*old(item)), index as int) is None && *final(item) == *old(
                item,
            ),
            Some(element) => {
                &&& element_at(item_tree(*old(item)), index as int) == Some(item_tree(*element))
                &&& item_tree(*old(item)).elements is Some ==> is_value(item_tree(*element))
                &&& item_tree(*old(item)).tables is Some ==> is_header_table(item_tree(*element))
                &&& is_settled(*element)
                &&& stays(*element, *final(element)) ==> {
                    &&& item_tree(*final(item)) == with_element(
                        item_tree(*old(item)),
                        index as int,
                        item_tree(*final(element)),
                    )
                    &&& stays(*old(item), *final(item))
                }
            },
        },
{
    item.get_mut(index)
}

/// `toml_edit::TableLike::insert`: a new value under a key of a table. An
/// inline table takes no table with a header.
#[verifier::external_body]
pub(crate) fn put(item: &mut toml_edit::Item, key: &str, fresh: Fresh)
    requires
        is_settled(*old(item)),
        item_tree(*old(item)).entries is Some,
        item_tree(*old(item)).inline ==> !(fresh is Table),
    ensures
        item_tree(*final(item)) == with_put(item_tree(*old(item)), key@, fresh.tree()),
        stays(*old(item), *final(item)),
{
    let new = match fresh {
        Fresh::Text(text) => toml_edit::value(text),
        Fresh::Integer(n) => toml_edit::value(n),
        Fresh::Texts(texts) => toml_edit::value(texts.into_iter().collect::<toml_edit::Array>()),
        Fresh::Table { implicit } => {
            let mut table = toml_edit::Table::new();
            table.set_implicit(implicit);
            toml_edit::Item::Table(table)
        },
        Fresh::InlineTable => toml_edit::value(toml_edit::InlineTable::new()),
    };
    item.as_table_like_mut().and_then(|table| table.insert(key, new));
}

/// `toml_edit::TableLike::remove`: a table without a key. The others keep their
/// order.
#[verifier::external_body]
pub(crate) fn take_out(item: &mut toml_edit::Item, key: &str)
    requires
        is_settled(*old(item)),
    ensures
        item_tree(*final(item)) == without(item_tree(*old(item)), key@),
        place_of(*final(item)) == place_of(*old(item)),
        places_in(*final(item)).subset_of(places_in(*old(item))),
        stays(*old(item), *final(item)),
{
    item.as_table_like_mut().and_then(|table| table.remove(key));
}

/// `toml_edit::Array::push`: an array with one more string.
#[verifier::external_body]
pub(crate) fn push_text(item: &mut toml_edit::Item, text: String)
    requires
        is_settled(*old(item)),
        item_tree(*old(item)).elements is Some,
    ensures
        item_tree(*final(item)) == (NodeView {
            elements: Some(item_tree(*old(item)).elements->0.push(text_value(text@))),
            ..item_tree(*old(item))
        }),
        stays(*old(item), *final(item)),
{
    item.as_array_mut().map(|array| array.push(text));
}

/// `toml_edit::Array::remove`: an array without the element at an index.
#[verifier::external_body]
pub(crate) fn remove_element(item: &mut toml_edit::Item, index: usize)
    requires
        is_settled(*old(item)),
        item_tree(*old(item)).elements is Some,
        index < item_tree(*old(item)).elements->0.len(),
    ensures
        item_tree(*final(item)) == (NodeView {
            elements: Some(item_tree(*old(item)).elements->0.remove(index as int)),
            ..item_tree(*old(item))
        }),
        stays(*old(item), *final(item)),
{
    item.as_array_mut().map(|array| array.remove(index));
}

/// Whether a text is blanks and line breaks.
pub open spec fn is_blank(text: Seq<char>) -> bool {
    forall|i: int|
        0 <= i < text.len() ==> (#[trigger] text[i]) == ' ' || text[i] == '\t' || text[i] == '\n'
}

/// `toml_edit::Decor::set_prefix` of an element of an array: what stands in
/// front of it, which is blank or stands in front of another element.
#[verifier::external_body]
pub(crate) fn set_prefix(item: &mut toml_edit::Item, index: usize, prefix: &str)
    requires
        is_settled(*old(item)),
        item_tree(*old(item)).elements matches Some(elements) && index < elements.len() && (
        is_blank(prefix@) || exists|i: int|
            0 <= i < elements.len() && (#[trigger] elements[i]).prefix == Some(prefix@)),
    ensures
        item_tree(*final(item)) == with_element(
            item_tree(*old(item)),
            index as int,
            NodeView {
                prefix: Some(prefix@),
                ..item_tree(*old(item)).elements->0[index as int]
            },
        ),
        stays(*old(item), *final(item)),
{
    item.as_array_mut().and_then(|array| array.get_mut(index)).map(
        |value| value.decor_mut().set_prefix(prefix),
    );
}

/// `toml_edit::Decor::set_suffix` of an element of an array: the blanks that
/// stand behind it.
#[verifier::external_body]
pub(crate) fn set_suffix(item: &mut toml_edit::Item, index: usize, suffix: &str)
    requires
        is_settled(*old(item)),
        item_tree(*old(item)).elements matches Some(elements) && index < elements.len(),
        is_blank(suffix@),
    ensures
        item_tree(*final(item)) == with_element(
            item_tree(*old(item)),
            index as int,
            NodeView {
                suffix: Some(suffix@),
                ..item_tree(*old(item)).elements->0[index as int]
            },
        ),
        stays(*old(item), *final(item)),
{
    item.as_array_mut().and_then(|array| array.get_mut(index)).map(
        |value| value.decor_mut().set_suffix(suffix),
    );
}

// ---------------------------------------------------------------------------
// What reading back gives
// ---------------------------------------------------------------------------

/// What is under a key fits where the table does.
pub proof fn lemma_fits_child(
    node: NodeView,
    key: Seq<char>,
    nesting: int,
    header: int,
    parts: int,
)
    requires
        fits(node, nesting, header, parts),
    ensures
        node.get(key) matches Some(child) ==> fits(
            child,
            inner_nesting(node, nesting),
            header - 1,
            inner_parts(node, parts) - 1,
        ) && (child.inline && child.dotted ==> node.inline),
{
    if let Some(entries) = node.entries {
        crate::tree::lemma_entry_index(entries, key);
        if let Some(i) = entry_index(entries, key) {
            assert(fits(
                entries[i].node,
                inner_nesting(node, nesting),
                header - 1,
                inner_parts(node, parts) - 1,
            ));
        }
    }
}

/// A table fits with something that fits under a key.
pub proof fn lemma_fits_with(
    node: NodeView,
    key: Seq<char>,
    child: NodeView,
    nesting: int,
    header: int,
    parts: int,
)
    requires
        fits(node, nesting, header, parts),
        node.entries is Some,
        fits(child, inner_nesting(node, nesting), header - 1, inner_parts(node, parts) - 1),
        child.inline && child.dotted ==> node.inline,
    ensures
        fits(with_child(node, key, child), nesting, header, parts),
        fits(with_put(node, key, child), nesting, header, parts),
{
    let entries = node.entries->0;
    crate::tree::lemma_entry_index(entries, key);
    let child_set = with_child(node, key, child);
    let put_set = with_put(node, key, child);
    assert forall|i: int| 0 <= i < child_set.entries->0.len() implies fits(
        (#[trigger] child_set.entries->0[i]).node,
        inner_nesting(node, nesting),
        header - 1,
        inner_parts(node, parts) - 1,
    ) && (child_set.entries->0[i].node.inline && child_set.entries->0[i].node.dotted
        ==> node.inline) by {
        assert(entries[i].node == entries[i].node);
    }
    assert forall|i: int| 0 <= i < put_set.entries->0.len() implies fits(
        (#[trigger] put_set.entries->0[i]).node,
        inner_nesting(node, nesting),
        header - 1,
        inner_parts(node, parts) - 1,
    ) && (put_set.entries->0[i].node.inline && put_set.entries->0[i].node.dotted ==> node.inline) by {
        if i < entries.len() {
            assert(entries[i].node == entries[i].node);
        }
    }
}

/// A table that no dotted key made in an inline table fits without a key.
pub proof fn lemma_fits_without(
    node: NodeView,
    key: Seq<char>,
    nesting: int,
    header: int,
    parts: int,
)
    requires
        fits(node, nesting, header, parts),
        !(node.inline && node.dotted) || without(node, key).entries->0.len() > 0,
    ensures
        fits(without(node, key), nesting, header, parts),
{
    if let Some(entries) = node.entries {
        crate::tree::lemma_entry_index(entries, key);
        if let Some(at) = entry_index(entries, key) {
            let after = entries.remove(at);
            assert forall|i: int| 0 <= i < after.len() implies fits(
                (#[trigger] after[i]).node,
                inner_nesting(node, nesting),
                header - 1,
                inner_parts(node, parts) - 1,
            ) && (after[i].node.inline && after[i].node.dotted ==> node.inline) by {
                let k = if i < at {
                    i
                } else {
                    i + 1
                };
                assert(after[i] == entries[k]);
            }
        }
    }
}

pub proof fn lemma_same_get(a: NodeView, b: NodeView, key: Seq<char>)
    requires
        same_contents(a, b),
    ensures
        match (a.get(key), b.get(key)) {
            (Some(x), Some(y)) => same_contents(x, y),
            (Some(x), None) => vanishes(x),
            (None, Some(_)) => false,
            (None, None) => true,
        },
{
    if let Some(entries) = a.entries {
        crate::tree::lemma_entry_index(entries, key);
        if let Some(i) = entry_index(entries, key) {
            assert(entries[i].key == key);
        }
    }
    if let Some(entries) = b.entries {
        crate::tree::lemma_entry_index(entries, key);
        if let Some(j) = entry_index(entries, key) {
            assert(entries[j].key == key);
        }
    }
}

pub proof fn lemma_same_as_itself(node: NodeView)
    requires
        well_keyed(node),
    ensures
        same_contents(node, node),
    decreases node,
{
    if let Some(entries) = node.entries {
        assert forall|i: int| 0 <= i < entries.len() implies match node.get(
            (#[trigger] entries[i]).key,
        ) {
            Some(other) => same_contents(entries[i].node, other),
            None => vanishes(entries[i].node),
        } by {
            crate::tree::lemma_entry_index(entries, entries[i].key);
            let at = entry_index(entries, entries[i].key)->0;
            assert(entries[at].key == entries[i].key);
            assert(well_keyed(entries[i].node));
            lemma_same_as_itself(entries[i].node);
        }
        assert forall|j: int| 0 <= j < entries.len() implies node.get(
            (#[trigger] entries[j]).key,
        ) is Some by {
            crate::tree::lemma_entry_index(entries, entries[j].key);
        }
    }
    if let Some(elements) = node.elements {
        assert forall|i: int| 0 <= i < elements.len() implies same_contents(
            #[trigger] elements[i],
            elements[i],
        ) by {
            lemma_same_as_itself(elements[i]);
        }
    }
    if let Some(tables) = node.tables {
        assert forall|i: int| 0 <= i < tables.len() implies same_contents(
            #[trigger] tables[i],
            tables[i],
        ) by {
            lemma_same_as_itself(tables[i]);
        }
    }
}

/// Of a text that is read, reading gives back what it says.
pub proof fn lemma_text_reads_back(text: Seq<char>, tree: NodeView)
    requires
        editable_document(text) == Ok::<NodeView, SyntaxErrorView>(tree),
        well_keyed(tree),
        is_full(tree),
        is_header_table(tree),
    ensures
        reads_back(text, tree),
{
    lemma_same_as_itself(tree);
}

// ---------------------------------------------------------------------------
// What edits keep
// ---------------------------------------------------------------------------

pub proof fn lemma_put_then_get(node: NodeView, key: Seq<char>, child: NodeView, other: Seq<char>)
    requires
        node.entries is Some,
    ensures
        with_put(node, key, child).get(other) == if other == key {
            Some(child)
        } else {
            node.get(other)
        },
{
    let entries = node.entries->0;
    let after = with_put(node, key, child).entries->0;
    crate::tree::lemma_entry_index(entries, key);
    crate::tree::lemma_entry_index(entries, other);
    crate::tree::lemma_entry_index(after, other);
    let at = match entry_index(entries, key) {
        Some(i) => i,
        None => entries.len() as int,
    };
    assert(after[at].key == key);
    match (entry_index(entries, other), entry_index(after, other)) {
        (Some(i), Some(j)) => {
            assert(after[i].key == other);
            if j < i && j < entries.len() {
                assert(entries[j].key == other || j == at);
            }
            if i < j {
                assert(after[i].key != other);
            }
        },
        (Some(i), None) => {
            assert(after[i].key != other);
        },
        (None, Some(j)) => {
            if other != key {
                assert(entries[j].key != other);
            }
        },
        (None, None) => {
            if other == key {
                assert(after[at].key != other);
            }
        },
    }
}

pub proof fn lemma_child_then_get(
    node: NodeView,
    key: Seq<char>,
    child: NodeView,
    other: Seq<char>,
)
    requires
        node.get(key) is Some,
    ensures
        with_child(node, key, child).get(other) == if other == key {
            Some(child)
        } else {
            node.get(other)
        },
{
    let entries = node.entries->0;
    let after = with_child(node, key, child).entries->0;
    crate::tree::lemma_entry_index(entries, key);
    crate::tree::lemma_entry_index(entries, other);
    crate::tree::lemma_entry_index(after, other);
    assert forall|k: int| 0 <= k < entries.len() implies (#[trigger] after[k]).key
        == entries[k].key by {}
    match (entry_index(entries, other), entry_index(after, other)) {
        (Some(i), Some(j)) => {
            assert(after[i].key == other);
            assert(entries[j].key == other);
            assert(i == j);
        },
        (Some(i), None) => {
            assert(after[i].key != other);
        },
        (None, Some(j)) => {
            assert(entries[j].key != other);
        },
        (None, None) => {},
    }
}

pub proof fn lemma_without_then_get(node: NodeView, key: Seq<char>, other: Seq<char>)
    requires
        other != key,
    ensures
        without(node, key).get(other) == node.get(other),
{
    if node.entries is Some {
        let entries = node.entries->0;
        crate::tree::lemma_entry_index(entries, key);
        crate::tree::lemma_entry_index(entries, other);
        if let Some(at) = entry_index(entries, key) {
            let after = entries.remove(at);
            crate::tree::lemma_entry_index(after, other);
            assert forall|k: int| 0 <= k < after.len() implies #[trigger] after[k] == entries[if k
                < at {
                k
            } else {
                k + 1
            }] by {}
            match (entry_index(entries, other), entry_index(after, other)) {
                (Some(i), Some(j)) => {
                    let k = if i < at {
                        i
                    } else {
                        i - 1
                    };
                    assert(after[k].key == other);
                    let l = if j < at {
                        j
                    } else {
                        j + 1
                    };
                    assert(entries[l].key == other);
                },
                (Some(i), None) => {
                    let k = if i < at {
                        i
                    } else {
                        i - 1
                    };
                    assert(after[k].key != other);
                },
                (None, Some(j)) => {
                    let l = if j < at {
                        j
                    } else {
                        j + 1
                    };
                    assert(entries[l].key != other);
                },
                (None, None) => {},
            }
        }
    }
}

} // verus!
