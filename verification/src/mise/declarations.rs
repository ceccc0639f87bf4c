//! Variables declared in `[env]` across the loaded mise config files.
//!
//! Needed because mise omits pass-through variables from `mise env` output
//! and because every microkitchen secret must be declared in `[env]`.

use vstd::prelude::*;

use crate::maps::TextMap;
use crate::text::{contains_text, find, same};
use crate::tree::{
    entry_views, node_views, read_tree, toml_document, EntryView, Node, NodeView, SyntaxError,
};

verus! {

/// How a variable is declared.
#[derive(Debug, Clone, Copy, PartialEq, Eq, Structural)]
pub enum DeclarationKind {
    /// `A = "literal"` or `{ value = … }`.
    Value,
    /// `A = "{{ … }}"`.
    Template,
    /// `A = { required = true }`.
    Required,
    /// `A = { default = "" }`.
    Default,
    /// Any other table form mise understands.
    Other,
}

#[derive(Debug, PartialEq, Eq)]
pub struct Declaration {
    /// The highest-precedence file declaring the variable.
    pub file: String,
    pub kind: DeclarationKind,
}

/// A [`Declaration`] by its contents.
#[verifier::ext_equal]
pub struct DeclarationView {
    pub file: Seq<char>,
    pub kind: DeclarationKind,
}

/// Union of `[env]` declarations of the loaded files.
#[derive(Debug, PartialEq, Eq)]
pub struct EnvDeclarations {
    pub vars: TextMap<Declaration>,
}

impl View for Declaration {
    type V = DeclarationView;

    open spec fn view(&self) -> DeclarationView {
        DeclarationView { file: self.file@, kind: self.kind }
    }
}

impl View for EnvDeclarations {
    type V = Map<Seq<char>, DeclarationView>;

    open spec fn view(&self) -> Map<Seq<char>, DeclarationView> {
        self.vars@
    }
}

impl Default for EnvDeclarations {
    fn default() -> (r: Self)
        ensures
            r@ == Map::<Seq<char>, DeclarationView>::empty(),
    {
        EnvDeclarations { vars: TextMap::new() }
    }
}

/// How a value of `[env]` declares its variable.
pub open spec fn declared_as(node: NodeView) -> DeclarationKind {
    match node.text {
        Some(text) => if find(text, "{{"@) is Some {
            DeclarationKind::Template
        } else {
            DeclarationKind::Value
        },
        None => if !node.is_table() {
            DeclarationKind::Value
        } else if node.get("required"@) matches Some(required) && required.boolean != Some(false) {
            DeclarationKind::Required
        } else if node.get("default"@) is Some {
            DeclarationKind::Default
        } else if node.get("value"@) is Some {
            DeclarationKind::Value
        } else {
            DeclarationKind::Other
        },
    }
}

/// Keys of `[env]` that hold directives (`_.file`, `_.source`, …), not variables.
pub open spec fn is_directive(name: Seq<char>) -> bool {
    name == "_"@ || name == "mise"@
}

/// Declarations with those of a table on top: a value of `false` takes one
/// away.
pub open spec fn with_entries(
    vars: Map<Seq<char>, DeclarationView>,
    entries: Seq<EntryView>,
    file: Seq<char>,
) -> Map<Seq<char>, DeclarationView>
    decreases entries.len(),
{
    if entries.len() == 0 {
        vars
    } else {
        let rest = with_entries(vars, entries.drop_last(), file);
        let entry = entries.last();
        if is_directive(entry.key) {
            rest
        } else if entry.node.boolean == Some(false) {
            rest.remove(entry.key)
        } else {
            rest.insert(entry.key, DeclarationView { file, kind: declared_as(entry.node) })
        }
    }
}

pub open spec fn with_table(
    vars: Map<Seq<char>, DeclarationView>,
    table: NodeView,
    file: Seq<char>,
) -> Map<Seq<char>, DeclarationView> {
    match table.entries {
        Some(entries) => with_entries(vars, entries, file),
        None => vars,
    }
}

/// Declarations with those of an array of tables on top.
pub open spec fn with_tables(
    vars: Map<Seq<char>, DeclarationView>,
    tables: Seq<NodeView>,
    file: Seq<char>,
) -> Map<Seq<char>, DeclarationView>
    decreases tables.len(),
{
    if tables.len() == 0 {
        vars
    } else {
        with_table(with_tables(vars, tables.drop_last(), file), tables.last(), file)
    }
}

/// Declarations with the `[env]` of a document on top.
pub open spec fn with_document(
    vars: Map<Seq<char>, DeclarationView>,
    root: NodeView,
    file: Seq<char>,
) -> Map<Seq<char>, DeclarationView> {
    match root.get("env"@) {
        None => vars,
        Some(env) => match env.tables {
            Some(tables) => with_tables(vars, tables, file),
            None => with_table(vars, env, file),
        },
    }
}

/// How an item of `[env]` declares its variable.
pub fn kind_of(node: &Node) -> (r: DeclarationKind)
    ensures
        r == declared_as(node@),
{
    if let Some(text) = &node.text {
        return if contains_text(text.as_str(), "{{") {
            DeclarationKind::Template
        } else {
            DeclarationKind::Value
        };
    }
    if !node.is_table() {
        return DeclarationKind::Value;
    }
    let required = match node.get("required") {
        Some(required) => match required.boolean {
            Some(value) => value,
            None => true,
        },
        None => false,
    };
    if required {
        DeclarationKind::Required
    } else if node.get("default").is_some() {
        DeclarationKind::Default
    } else if node.get("value").is_some() {
        DeclarationKind::Value
    } else {
        DeclarationKind::Other
    }
}

impl EnvDeclarations {
    /// Merge the `[env]` of one file on top of what is already collected.
    pub fn add_document(&mut self, file: &str, text: &str) -> (r: Result<(), SyntaxError>)
        ensures
            match toml_document(text@) {
                Err(error) => r matches Err(e) && e@ == error && final(self)@ == old(self)@,
                Ok(root) => r is Ok && final(self)@ == with_document(old(self)@, root, file@),
            },
    {
        match read_tree(text) {
            Err(error) => Err(error),
            Ok(root) => {
                self.add_root(file, &root);
                Ok(())
            },
        }
    }

    /// Merge the `[env]` of one document on top of what is already collected.
    pub fn add_root(&mut self, file: &str, root: &Node)
        ensures
            final(self)@ == with_document(old(self)@, root@, file@),
    {
        if let Some(env) = root.get("env") {
            match &env.tables {
                None => self.add_table(file, env),
                Some(tables) => {
                    let ghost tv = node_views(tables@);
                    assert(env@.tables == Some(tv));
                    let mut i: usize = 0;
                    assert(tv.subrange(0, 0) =~= Seq::empty());
                    while i < tables.len()
                        invariant
                            i <= tables@.len(),
                            tv == node_views(tables@),
                            self@ == with_tables(old(self)@, tv.subrange(0, i as int), file@),
                        decreases tables@.len() - i,
                    {
                        assert(tv.subrange(0, i + 1).drop_last() =~= tv.subrange(0, i as int));
                        assert(tv.subrange(0, i + 1).last() == tables@[i as int]@);
                        self.add_table(file, &tables[i]);
                        i += 1;
                    }
                    assert(tv.subrange(0, tv.len() as int) =~= tv);
                },
            }
        }
    }

    pub fn contains(&self, name: &str) -> (r: bool)
        ensures
            r == self@.contains_key(name@),
    {
        self.vars.contains_key(name)
    }

    fn add_table(&mut self, file: &str, table: &Node)
        ensures
            final(self)@ == with_table(old(self)@, table@, file@),
    {
        if let Some(entries) = &table.entries {
            let ghost ev = entry_views(entries@);
            assert(table@.entries == Some(ev));
            let mut i: usize = 0;
            assert(ev.subrange(0, 0) =~= Seq::empty());
            while i < entries.len()
                invariant
                    i <= entries@.len(),
                    ev == entry_views(entries@),
                    self@ == with_entries(old(self)@, ev.subrange(0, i as int), file@),
                decreases entries@.len() - i,
            {
                assert(ev.subrange(0, i + 1).drop_last() =~= ev.subrange(0, i as int));
                let name = entries[i].key.as_str();
                let node = &entries[i].node;
                assert(ev.subrange(0, i + 1).last() == entries@[i as int]@);
                if !(same(name, "_") || same(name, "mise")) {
                    // `A = false` unsets a variable declared by a lower-precedence file.
                    let unset = match node.boolean {
                        Some(value) => !value,
                        None => false,
                    };
                    if unset {
                        self.vars.remove(name);
                    } else {
                        let declaration = Declaration {
                            file: file.to_owned(),
                            kind: kind_of(node),
                        };
                        self.vars.insert(name, declaration);
                    }
                }
                i += 1;
            }
            assert(ev.subrange(0, ev.len() as int) =~= ev);
        }
    }
}

/// A later file's declaration of a variable replaces an earlier one's, or
/// takes it away; what it does not mention stays.
pub proof fn law_later_files_override(
    vars: Map<Seq<char>, DeclarationView>,
    entries: Seq<EntryView>,
    file: Seq<char>,
    name: Seq<char>,
)
    requires
        !is_directive(name),
    ensures
        (forall|i: int| 0 <= i < entries.len() ==> (#[trigger] entries[i]).key != name) ==> (
        with_entries(vars, entries, file).contains_key(name) == vars.contains_key(name) && (
        vars.contains_key(name) ==> with_entries(vars, entries, file)[name] == vars[name])),
        entries.len() > 0 && entries.last().key == name ==> (with_entries(
            vars,
            entries,
            file,
        ).contains_key(name) <==> entries.last().node.boolean != Some(false)),
        entries.len() > 0 && entries.last().key == name && entries.last().node.boolean != Some(false)
            ==> with_entries(vars, entries, file)[name].file == file,
    decreases entries.len(),
{
    if entries.len() > 0 {
        let rest = entries.drop_last();
        law_later_files_override(vars, rest, file, name);
        if forall|i: int| 0 <= i < entries.len() ==> (#[trigger] entries[i]).key != name {
            assert forall|i: int| 0 <= i < rest.len() implies (#[trigger] rest[i]).key != name by {
                assert(rest[i] == entries[i]);
            }
            assert(entries[entries.len() - 1].key != name);
        }
    }
}

/// The last entry of a name decides: `false` takes the declaration away, anything else
/// declares it in this file. `_` and `mise` declare nothing.
pub proof fn law_the_last_entry_decides(
    vars: Map<Seq<char>, DeclarationView>,
    entries: Seq<EntryView>,
    file: Seq<char>,
    name: Seq<char>,
    i: int,
)
    requires
        name != "_"@ && name != "mise"@,
        0 <= i < entries.len(),
        entries[i].key == name,
        forall|j: int| i < j < entries.len() ==> (#[trigger] entries[j]).key != name,
    ensures
        with_entries(vars, entries, file).contains_key(name) <==> entries[i].node.boolean != Some(
            false,
        ),
        entries[i].node.boolean != Some(false) ==> with_entries(vars, entries, file)[name] == (
        DeclarationView { file, kind: declared_as(entries[i].node) }),
    decreases entries.len(),
{
    let rest = entries.drop_last();
    if i < rest.len() {
        assert(rest[i] == entries[i]);
        assert forall|j: int| i < j < rest.len() implies (#[trigger] rest[j]).key != name by {
            assert(rest[j] == entries[j]);
        }
        law_the_last_entry_decides(vars, rest, file, name, i);
        assert(entries[entries.len() - 1].key != name);
    }
}

/// What is not named in a file stays as it was, and so do directives.
pub proof fn law_other_declarations_stay(
    vars: Map<Seq<char>, DeclarationView>,
    entries: Seq<EntryView>,
    file: Seq<char>,
    name: Seq<char>,
)
    requires
        name == "_"@ || name == "mise"@ || forall|j: int|
            0 <= j < entries.len() ==> (#[trigger] entries[j]).key != name,
    ensures
        with_entries(vars, entries, file).contains_key(name) == vars.contains_key(name),
        vars.contains_key(name) ==> with_entries(vars, entries, file)[name] == vars[name],
    decreases entries.len(),
{
    if entries.len() > 0 {
        let rest = entries.drop_last();
        assert(entries[entries.len() - 1] == entries.last());
        assert forall|j: int| 0 <= j < rest.len() implies #[trigger] rest[j] == entries[j] by {}
        law_other_declarations_stay(vars, rest, file, name);
    }
}

/// How a variable is declared: by a text, which is a template where it holds `{{`; by a
/// table that requires it unless `required` is `false`, or gives a default or a value;
/// or by a plain value.
pub proof fn law_kinds_of_declarations(node: NodeView)
    ensures
        node.text matches Some(text) ==> (declared_as(node) == DeclarationKind::Template <==> find(
            text,
            seq!['{', '{'],
        ) is Some),
        node.text matches Some(text) ==> (declared_as(node) == DeclarationKind::Value <==> find(
            text,
            seq!['{', '{'],
        ) is None),
        node.text is None && !node.is_table() ==> declared_as(node) == DeclarationKind::Value,
        node.text is None && node.is_table() ==> {
            let required = node.get("required"@) matches Some(required) && required.boolean != Some(
                false,
            );
            &&& declared_as(node) == DeclarationKind::Required <==> required
            &&& declared_as(node) == DeclarationKind::Default <==> !required && node.get(
                "default"@,
            ) is Some
            &&& declared_as(node) == DeclarationKind::Value <==> !required && node.get(
                "default"@,
            ) is None && node.get("value"@) is Some
        },
{
    reveal_strlit("{{");
    assert("{{"@ =~= seq!['{', '{']);
}

/// A document declares what its `[env]` table holds, or the tables of `[[env]]` one
/// after the other.
pub proof fn law_documents_declare_their_env(
    vars: Map<Seq<char>, DeclarationView>,
    root: NodeView,
    tables: Seq<NodeView>,
    last: NodeView,
    file: Seq<char>,
)
    ensures
        root.get("env"@) is None ==> with_document(vars, root, file) == vars,
        root.get("env"@) matches Some(env) && env.tables is None && env.entries is Some
            ==> with_document(vars, root, file) == with_entries(
            vars,
            root.get("env"@)->0.entries->0,
            file,
        ),
        root.get("env"@) matches Some(env) && env.tables == Some(tables) ==> with_document(
            vars,
            root,
            file,
        ) == with_tables(vars, tables, file),
        with_tables(vars, Seq::empty(), file) == vars,
        last.entries is Some ==> with_tables(vars, tables.push(last), file) == with_entries(
            with_tables(vars, tables, file),
            last.entries->0,
            file,
        ),
{
    assert(tables.push(last).drop_last() =~= tables);
}

} // verus!
