//! Unix paths as lists of names, without touching a filesystem.

use vstd::prelude::*;

use crate::broker::bindings::clone_names;
use crate::maps::{lemma_text_lt_total, lemma_text_lt_trans, text_before, text_lt};
use crate::text::{
    chars, concat, join, join_with, lemma_split_concat, lemma_split_pieces, lemma_split_single,
    same, split, split_at, views,
};

verus! {

/// A path by its parts: whether it starts at the root, and its names. Empty
/// names and `.` do not count.
#[verifier::ext_equal]
pub struct PathView {
    pub absolute: bool,
    pub names: Seq<Seq<char>>,
}

/// A path taken apart.
pub struct Parts {
    pub absolute: bool,
    pub names: Vec<String>,
}

impl View for Parts {
    type V = PathView;

    open spec fn view(&self) -> PathView {
        PathView { absolute: self.absolute, names: views(self.names@) }
    }
}

pub open spec fn counts(name: Seq<char>) -> bool {
    name.len() > 0 && name != "."@
}

/// The names that count.
pub open spec fn real_names(pieces: Seq<Seq<char>>) -> Seq<Seq<char>>
    decreases pieces.len(),
{
    if pieces.len() == 0 {
        Seq::empty()
    } else if counts(pieces.last()) {
        real_names(pieces.drop_last()).push(pieces.last())
    } else {
        real_names(pieces.drop_last())
    }
}

pub open spec fn is_absolute(path: Seq<char>) -> bool {
    path.len() > 0 && path[0] == '/'
}

/// The parts of a path.
pub open spec fn path_parts(path: Seq<char>) -> PathView {
    PathView { absolute: is_absolute(path), names: real_names(split(path, '/')) }
}

/// `..` takes the name before it away; at the start it is dropped.
pub open spec fn resolve_dots(names: Seq<Seq<char>>) -> Seq<Seq<char>>
    decreases names.len(),
{
    if names.len() == 0 {
        Seq::empty()
    } else {
        let done = resolve_dots(names.drop_last());
        if names.last() != ".."@ {
            done.push(names.last())
        } else if done.len() > 0 {
            done.drop_last()
        } else {
            done
        }
    }
}

impl PathView {
    pub open spec fn text(self) -> Seq<char> {
        if self.absolute {
            "/"@ + join(self.names, "/"@)
        } else {
            join(self.names, "/"@)
        }
    }

    /// Without `.` and `..`.
    pub open spec fn normal(self) -> PathView {
        PathView { absolute: self.absolute, names: resolve_dots(self.names) }
    }

    /// The directory that holds the path; none above a root or an empty path.
    pub open spec fn parent(self) -> Option<PathView> {
        if self.names.len() == 0 {
            None
        } else {
            Some(PathView { absolute: self.absolute, names: self.names.drop_last() })
        }
    }

    pub open spec fn file_name(self) -> Option<Seq<char>> {
        if self.names.len() == 0 || self.names.last() == ".."@ {
            None
        } else {
            Some(self.names.last())
        }
    }

    /// Whether the path is `dir` or below it.
    pub open spec fn within(self, dir: PathView) -> bool {
        &&& self.absolute == dir.absolute
        &&& dir.names.len() <= self.names.len()
        &&& self.names.subrange(0, dir.names.len() as int) == dir.names
    }

    /// `path` seen from here: an absolute path stays as it is.
    pub open spec fn joined(self, path: PathView) -> PathView {
        if path.absolute {
            path
        } else {
            PathView { absolute: self.absolute, names: self.names + path.names }
        }
    }
}

/// A path without `.` and `..`.
pub open spec fn normalized(path: Seq<char>) -> Seq<char> {
    path_parts(path).normal().text()
}

/// Whether a name can stand in a path as one name.
pub open spec fn is_name(name: Seq<char>) -> bool {
    counts(name) && !name.contains('/')
}

pub open spec fn clean(p: PathView) -> bool {
    forall|i: int| 0 <= i < p.names.len() ==> is_name(#[trigger] p.names[i])
}

// ---------------------------------------------------------------------------
// Facts
// ---------------------------------------------------------------------------

proof fn lemma_real_names(pieces: Seq<Seq<char>>)
    requires
        forall|i: int| 0 <= i < pieces.len() ==> !(#[trigger] pieces[i]).contains('/'),
    ensures
        forall|i: int| 0 <= i < real_names(pieces).len() ==> is_name(#[trigger] real_names(pieces)[i]),
    decreases pieces.len(),
{
    if pieces.len() > 0 {
        let rest = pieces.drop_last();
        assert forall|i: int| 0 <= i < rest.len() implies !(#[trigger] rest[i]).contains('/') by {
            assert(rest[i] == pieces[i]);
        }
        lemma_real_names(rest);
        assert(!pieces[pieces.len() - 1].contains('/'));
        let r = real_names(pieces);
        assert forall|i: int| 0 <= i < r.len() implies is_name(#[trigger] r[i]) by {
            if i < real_names(rest).len() {
                assert(r[i] == real_names(rest)[i]);
            }
        }
    }
}

/// The names that count are pieces.
pub proof fn lemma_real_names_of(pieces: Seq<Seq<char>>)
    ensures
        forall|i: int|
            0 <= i < real_names(pieces).len() ==> pieces.contains(#[trigger] real_names(pieces)[i]),
    decreases pieces.len(),
{
    if pieces.len() > 0 {
        let rest = pieces.drop_last();
        lemma_real_names_of(rest);
        let r = real_names(pieces);
        assert forall|i: int| 0 <= i < r.len() implies pieces.contains(#[trigger] r[i]) by {
            if i < real_names(rest).len() {
                assert(rest.contains(real_names(rest)[i]));
                let k = choose|k: int| 0 <= k < rest.len() && rest[k] == r[i];
                assert(pieces[k] == r[i]);
            } else {
                assert(pieces[pieces.len() - 1] == r[i]);
            }
        }
    }
}

proof fn lemma_pieces_no_sep(path: Seq<char>)
    ensures
        forall|i: int|
            0 <= i < split(path, '/').len() ==> !(#[trigger] split(path, '/')[i]).contains('/'),
{
    lemma_split_pieces(path, '/');
    let p = split(path, '/');
    assert forall|i: int| 0 <= i < p.len() implies !(#[trigger] p[i]).contains('/') by {
        if p[i].contains('/') {
            let j = choose|j: int| 0 <= j < p[i].len() && p[i][j] == '/';
            assert(p[i][j] != '/');
        }
    }
}

/// The names of a path are names.
pub proof fn lemma_parts_clean(path: Seq<char>)
    ensures
        clean(path_parts(path)),
{
    lemma_pieces_no_sep(path);
    lemma_real_names(split(path, '/'));
}

proof fn lemma_real_names_keep(names: Seq<Seq<char>>)
    requires
        forall|i: int| 0 <= i < names.len() ==> is_name(#[trigger] names[i]),
    ensures
        real_names(names) == names,
    decreases names.len(),
{
    if names.len() > 0 {
        let rest = names.drop_last();
        assert forall|i: int| 0 <= i < rest.len() implies is_name(#[trigger] rest[i]) by {
            assert(rest[i] == names[i]);
        }
        lemma_real_names_keep(rest);
        assert(is_name(names[names.len() - 1]));
        assert(rest.push(names.last()) =~= names);
    } else {
        assert(real_names(names) =~= names);
    }
}

proof fn lemma_split_join(names: Seq<Seq<char>>)
    requires
        names.len() > 0,
        forall|i: int| 0 <= i < names.len() ==> is_name(#[trigger] names[i]),
    ensures
        split(join(names, "/"@), '/') == names,
    decreases names.len(),
{
    reveal_strlit("/");
    assert("/"@ =~= seq!['/']);
    if names.len() == 1 {
        assert(is_name(names[0]));
        lemma_split_single(names[0], '/');
        assert(split(names[0], '/') =~= names);
    } else {
        let rest = names.drop_last();
        assert forall|i: int| 0 <= i < rest.len() implies is_name(#[trigger] rest[i]) by {
            assert(rest[i] == names[i]);
        }
        lemma_split_join(rest);
        assert(is_name(names[names.len() - 1]));
        lemma_split_single(names.last(), '/');
        lemma_split_concat(join(rest, "/"@), names.last(), '/');
        assert(join(names, "/"@) == join(rest, "/"@) + seq!['/'] + names.last());
        assert(split(join(rest, "/"@), '/') + seq![names.last()] =~= names);
    }
}

pub proof fn lemma_real_names_concat(a: Seq<Seq<char>>, b: Seq<Seq<char>>)
    ensures
        real_names(a + b) == real_names(a) + real_names(b),
    decreases b.len(),
{
    if b.len() == 0 {
        assert(a + b =~= a);
        assert(real_names(a) + real_names(b) =~= real_names(a));
    } else {
        assert((a + b).drop_last() =~= a + b.drop_last());
        lemma_real_names_concat(a, b.drop_last());
        assert((a + b).last() == b.last());
        assert(real_names(a + b) =~= real_names(a) + real_names(b));
    }
}

/// Taking the text of a path apart gives the path back.
pub proof fn lemma_parts_of_text(p: PathView)
    requires
        clean(p),
    ensures
        path_parts(p.text()) == p,
{
    reveal_strlit("/");
    reveal_strlit("");
    let body = join(p.names, "/"@);
    if p.names.len() == 0 {
        assert(body =~= Seq::<char>::empty());
        if p.absolute {
            assert(p.text() =~= seq!['/']);
            assert(p.text().drop_last() =~= Seq::<char>::empty());
            assert(split(p.text(), '/') =~= seq![Seq::<char>::empty(), Seq::<char>::empty()]);
            let two = seq![Seq::<char>::empty(), Seq::<char>::empty()];
            assert(two.drop_last() =~= seq![Seq::<char>::empty()]);
            assert(two.drop_last().drop_last() =~= Seq::<Seq<char>>::empty());
            reveal_with_fuel(real_names, 4);
            assert(real_names(two) =~= Seq::<Seq<char>>::empty());
        } else {
            assert(p.text() =~= Seq::<char>::empty());
            reveal_with_fuel(real_names, 3);
            let one = seq![Seq::<char>::empty()];
            assert(split(p.text(), '/') =~= one);
            assert(one.drop_last() =~= Seq::<Seq<char>>::empty());
            assert(real_names(one) =~= Seq::<Seq<char>>::empty());
        }
        assert(path_parts(p.text()) =~= p);
    } else {
        lemma_split_join(p.names);
        lemma_real_names_keep(p.names);
        if p.absolute {
            lemma_split_concat(Seq::<char>::empty(), body, '/');
            assert(p.text() =~= Seq::<char>::empty() + seq!['/'] + body);
            assert(split(Seq::<char>::empty(), '/') =~= seq![Seq::<char>::empty()]);
            lemma_real_names_concat(seq![Seq::<char>::empty()], p.names);
            let one = seq![Seq::<char>::empty()];
            assert(one.drop_last() =~= Seq::<Seq<char>>::empty());
            reveal_with_fuel(real_names, 3);
            assert(real_names(one) =~= Seq::<Seq<char>>::empty());
            assert(real_names(one) + p.names =~= p.names);
            assert(path_parts(p.text()) =~= p);
        } else {
            lemma_join_first(p.names);
            assert(path_parts(p.text()) =~= p);
        }
    }
}

/// Joined names start with the first of them.
proof fn lemma_join_first(names: Seq<Seq<char>>)
    requires
        names.len() > 0,
        forall|i: int| 0 <= i < names.len() ==> is_name(#[trigger] names[i]),
    ensures
        join(names, "/"@).len() > 0,
        join(names, "/"@)[0] == names[0][0],
        names[0][0] != '/',
    decreases names.len(),
{
    assert(is_name(names[0]));
    assert(names[0].contains(names[0][0]));
    if names.len() > 1 {
        let rest = names.drop_last();
        assert forall|i: int| 0 <= i < rest.len() implies is_name(#[trigger] rest[i]) by {
            assert(rest[i] == names[i]);
        }
        lemma_join_first(rest);
    }
}

/// What is left after `..` has gone are names other than `..`.
pub proof fn lemma_resolve_dots(names: Seq<Seq<char>>)
    ensures
        forall|i: int| 0 <= i < resolve_dots(names).len() ==> #[trigger] resolve_dots(names)[i] != ".."@,
        forall|i: int|
            0 <= i < resolve_dots(names).len() ==> names.contains(#[trigger] resolve_dots(names)[i]),
    decreases names.len(),
{
    if names.len() > 0 {
        let rest = names.drop_last();
        lemma_resolve_dots(rest);
        let done = resolve_dots(rest);
        let r = resolve_dots(names);
        assert forall|i: int| 0 <= i < r.len() implies #[trigger] r[i] != ".."@ && names.contains(r[i]) by {
            if i < done.len() {
                assert(r[i] == done[i]);
                assert(rest.contains(done[i]));
                let k = choose|k: int| 0 <= k < rest.len() && rest[k] == done[i];
                assert(names[k] == r[i]);
            } else {
                assert(r[i] == names[names.len() - 1]);
            }
        }
    }
}

pub proof fn lemma_resolve_dots_keep(names: Seq<Seq<char>>)
    requires
        forall|i: int| 0 <= i < names.len() ==> #[trigger] names[i] != ".."@,
    ensures
        resolve_dots(names) == names,
    decreases names.len(),
{
    if names.len() > 0 {
        let rest = names.drop_last();
        assert forall|i: int| 0 <= i < rest.len() implies #[trigger] rest[i] != ".."@ by {
            assert(rest[i] == names[i]);
        }
        lemma_resolve_dots_keep(rest);
        assert(names[names.len() - 1] != ".."@);
        assert(rest.push(names.last()) =~= names);
    } else {
        assert(resolve_dots(names) =~= names);
    }
}

/// The parts of a normalized path are the normalized parts.
pub proof fn lemma_normalized_parts(path: Seq<char>)
    ensures
        path_parts(normalized(path)) == path_parts(path).normal(),
        clean(path_parts(path).normal()),
{
    lemma_parts_clean(path);
    let p = path_parts(path);
    lemma_resolve_dots(p.names);
    let n = p.normal();
    assert forall|i: int| 0 <= i < n.names.len() implies is_name(#[trigger] n.names[i]) by {
        assert(p.names.contains(n.names[i]));
        let k = choose|k: int| 0 <= k < p.names.len() && p.names[k] == n.names[i];
        assert(is_name(p.names[k]));
    }
    lemma_parts_of_text(n);
}

/// Normalizing twice is normalizing once.
pub proof fn law_normalizing_is_idempotent(path: Seq<char>)
    ensures
        normalized(normalized(path)) == normalized(path),
{
    lemma_normalized_parts(path);
    let p = path_parts(path);
    lemma_resolve_dots(p.names);
    lemma_resolve_dots_keep(p.normal().names);
    assert(p.normal().normal() =~= p.normal());
}

/// A normalized path keeps to its root: it starts where the path started and
/// has no `.` or `..` left.
pub proof fn law_normalized_paths_do_not_climb(path: Seq<char>)
    ensures
        path_parts(normalized(path)).absolute == path_parts(path).absolute,
        forall|i: int|
            0 <= i < path_parts(normalized(path)).names.len() ==> #[trigger] path_parts(
                normalized(path),
            ).names[i] != ".."@ && path_parts(normalized(path)).names[i] != "."@,
{
    lemma_normalized_parts(path);
    lemma_resolve_dots(path_parts(path).names);
    let n = path_parts(path).normal();
    assert forall|i: int| 0 <= i < n.names.len() implies #[trigger] n.names[i] != ".."@ && n.names[i]
        != "."@ by {
        assert(is_name(n.names[i]));
    }
}

// ---------------------------------------------------------------------------
// Functions
// ---------------------------------------------------------------------------

/// Take a path apart.
pub fn take_apart(path: &str) -> (r: Parts)
    ensures
        r@ == path_parts(path@),
{
    let v = chars(path);
    let absolute = v.len() > 0 && v[0] == '/';
    let pieces = split_at(&v, '/');
    let ghost pv = views(pieces@);
    let mut names: Vec<String> = Vec::new();
    let mut i: usize = 0;
    assert(pv.subrange(0, 0) =~= Seq::empty());
    assert(views(names@) =~= Seq::empty());
    while i < pieces.len()
        invariant
            i <= pieces@.len(),
            pv == views(pieces@),
            views(names@) == real_names(pv.subrange(0, i as int)),
        decreases pieces@.len() - i,
    {
        assert(pv.subrange(0, i + 1).drop_last() =~= pv.subrange(0, i as int));
        let ghost done = views(names@);
        let piece = pieces[i].as_str();
        if !piece.is_empty() && !same(piece, ".") {
            names.push(pieces[i].clone());
            assert(views(names@) =~= done.push(pv[i as int]));
        }
        i += 1;
    }
    assert(pv.subrange(0, pv.len() as int) =~= pv);
    Parts { absolute, names }
}

impl Parts {
    /// The path as text.
    pub fn text(&self) -> (r: String)
        ensures
            r@ == self@.text(),
    {
        let body = join_with(&self.names, "/");
        if self.absolute {
            concat("/", body.as_str())
        } else {
            body
        }
    }

    /// Without `.` and `..`.
    pub fn normal(&self) -> (r: Parts)
        ensures
            r@ == self@.normal(),
    {
        let ghost nv = views(self.names@);
        let mut names: Vec<String> = Vec::new();
        let mut i: usize = 0;
        assert(nv.subrange(0, 0) =~= Seq::empty());
        assert(views(names@) =~= Seq::empty());
        while i < self.names.len()
            invariant
                i <= self.names@.len(),
                nv == views(self.names@),
                views(names@) == resolve_dots(nv.subrange(0, i as int)),
            decreases self.names@.len() - i,
        {
            assert(nv.subrange(0, i + 1).drop_last() =~= nv.subrange(0, i as int));
            let ghost done = views(names@);
            if same(self.names[i].as_str(), "..") {
                if names.len() > 0 {
                    let _ = names.pop();
                    assert(views(names@) =~= done.drop_last());
                }
            } else {
                names.push(self.names[i].clone());
                assert(views(names@) =~= done.push(nv[i as int]));
            }
            i += 1;
        }
        assert(nv.subrange(0, nv.len() as int) =~= nv);
        Parts { absolute: self.absolute, names }
    }

    /// The directory that holds the path.
    pub fn parent(&self) -> (r: Option<Parts>)
        ensures
            match r {
                Some(parent) => self@.parent() == Some(parent@),
                None => self@.parent() is None,
            },
    {
        if self.names.len() == 0 {
            None
        } else {
            let mut names = clone_names(&self.names);
            let ghost all = views(names@);
            let _ = names.pop();
            assert(views(names@) =~= all.drop_last());
            Some(Parts { absolute: self.absolute, names })
        }
    }

    pub fn file_name(&self) -> (r: Option<&str>)
        ensures
            match r {
                Some(name) => self@.file_name() == Some(name@),
                None => self@.file_name() is None,
            },
    {
        if self.names.len() == 0 || same(self.names[self.names.len() - 1].as_str(), "..") {
            None
        } else {
            Some(self.names[self.names.len() - 1].as_str())
        }
    }

    /// Whether the path is `dir` or below it.
    pub fn is_within(&self, dir: &Parts) -> (r: bool)
        ensures
            r == self@.within(dir@),
    {
        if self.absolute != dir.absolute || dir.names.len() > self.names.len() {
            return false;
        }
        let ghost a = views(self.names@);
        let ghost b = views(dir.names@);
        let mut i: usize = 0;
        while i < dir.names.len()
            invariant
                i <= dir.names@.len() <= self.names@.len(),
                a == views(self.names@),
                b == views(dir.names@),
                forall|j: int| 0 <= j < i ==> a[j] == b[j],
            decreases dir.names@.len() - i,
        {
            if !same(self.names[i].as_str(), dir.names[i].as_str()) {
                assert(a.subrange(0, b.len() as int)[i as int] != b[i as int]);
                return false;
            }
            i += 1;
        }
        assert(a.subrange(0, b.len() as int) =~= b);
        true
    }

    /// `path` seen from here: an absolute path stays as it is.
    pub fn join(&self, path: &Parts) -> (r: Parts)
        ensures
            r@ == self@.joined(path@),
    {
        if path.absolute {
            return Parts { absolute: true, names: clone_names(&path.names) };
        }
        let mut names = clone_names(&self.names);
        let mut more = clone_names(&path.names);
        let ghost a = views(names@);
        let ghost b = views(more@);
        names.append(&mut more);
        assert(views(names@) =~= a + b);
        Parts { absolute: self.absolute, names }
    }

    /// Whether both name the same place.
    pub fn equals(&self, other: &Parts) -> (r: bool)
        ensures
            r == (self@ == other@),
    {
        let r = self.absolute == other.absolute && crate::broker::bindings::same_names(
            &self.names,
            &other.names,
        );
        assert(r == (self@ =~= other@));
        r
    }
}

/// Resolve `.` and `..` without touching the filesystem.
pub fn normalize(path: &str) -> (r: String)
    ensures
        r@ == normalized(path@),
{
    take_apart(path).normal().text()
}

/// A path seen from another one.
pub open spec fn path_join(base: Seq<char>, path: Seq<char>) -> Seq<char> {
    path_parts(base).joined(path_parts(path)).text()
}

pub fn join_paths(base: &str, path: &str) -> (r: String)
    ensures
        r@ == path_join(base@, path@),
{
    take_apart(base).join(&take_apart(path)).text()
}

// ---------------------------------------------------------------------------
// The order of paths
// ---------------------------------------------------------------------------

pub open spec fn names_lt(a: Seq<Seq<char>>, b: Seq<Seq<char>>, i: int) -> bool
    decreases a.len() - i,
{
    if i < 0 || i >= b.len() {
        false
    } else if i >= a.len() {
        true
    } else if a[i] == b[i] {
        names_lt(a, b, i + 1)
    } else {
        text_lt(a[i], b[i])
    }
}

/// Whether path `a` comes before path `b`: absolute paths first, then name by
/// name, a directory before what is in it.
pub open spec fn path_lt(a: PathView, b: PathView) -> bool {
    if a.absolute != b.absolute {
        a.absolute
    } else {
        names_lt(a.names, b.names, 0)
    }
}

proof fn lemma_names_lt_total(a: Seq<Seq<char>>, b: Seq<Seq<char>>, i: int)
    requires
        0 <= i <= a.len(),
        i <= b.len(),
        forall|j: int| 0 <= j < i ==> a[j] == b[j],
    ensures
        names_lt(a, b, i) || names_lt(b, a, i) || a == b,
    decreases a.len() - i,
{
    if i < a.len() && i < b.len() {
        if a[i] == b[i] {
            lemma_names_lt_total(a, b, i + 1);
        } else {
            lemma_text_lt_total(a[i], b[i]);
        }
    } else if i >= a.len() && i >= b.len() {
        assert(a =~= b);
    }
}

proof fn lemma_names_lt_trans(
    a: Seq<Seq<char>>,
    b: Seq<Seq<char>>,
    c: Seq<Seq<char>>,
    i: int,
)
    requires
        0 <= i,
        names_lt(a, b, i),
        names_lt(b, c, i),
    ensures
        names_lt(a, c, i),
    decreases b.len() - i,
{
    if i < a.len() {
        if a[i] == b[i] && b[i] == c[i] {
            lemma_names_lt_trans(a, b, c, i + 1);
        } else if a[i] != b[i] && b[i] != c[i] {
            lemma_text_lt_trans(a[i], b[i], c[i]);
            lemma_text_lt_total(a[i], b[i]);
        }
    }
}

/// The order of paths is total, and passes from one path to the next.
pub proof fn lemma_path_order(a: PathView, b: PathView, c: PathView)
    ensures
        path_lt(a, b) || path_lt(b, a) || a == b,
        path_lt(a, b) && path_lt(b, c) ==> path_lt(a, c),
{
    if a.absolute == b.absolute {
        lemma_names_lt_total(a.names, b.names, 0);
    }
    if path_lt(a, b) && path_lt(b, c) && a.absolute == b.absolute && b.absolute == c.absolute {
        lemma_names_lt_trans(a.names, b.names, c.names, 0);
    }
}

pub fn path_before(a: &Parts, b: &Parts) -> (r: bool)
    ensures
        r == path_lt(a@, b@),
{
    if a.absolute != b.absolute {
        return a.absolute;
    }
    let ghost x = views(a.names@);
    let ghost y = views(b.names@);
    let mut i: usize = 0;
    while i < a.names.len() && i < b.names.len() && same(a.names[i].as_str(), b.names[i].as_str())
        invariant
            i <= a.names@.len(),
            i <= b.names@.len(),
            x == views(a.names@),
            y == views(b.names@),
            names_lt(x, y, 0) == names_lt(x, y, i as int),
        decreases a.names@.len() - i,
    {
        i += 1;
    }
    if i >= b.names.len() {
        false
    } else if i >= a.names.len() {
        true
    } else {
        text_before(a.names[i].as_str(), b.names[i].as_str())
    }
}

/// A path is absolute where it starts with a slash, and its names are what stands
/// between slashes, without what is empty and single dots.
pub proof fn law_names_stand_between_slashes(path: Seq<char>)
    ensures
        path_parts(path).absolute <==> path.len() > 0 && path[0] == '/',
        path_parts(path).names == split(path, '/').filter(
            |name: Seq<char>| name.len() > 0 && name != seq!['.'],
        ),
{
    reveal_strlit(".");
    assert("."@ =~= seq!['.']);
    lemma_names_kept(split(path, '/'));
}

proof fn lemma_names_kept(pieces: Seq<Seq<char>>)
    ensures
        real_names(pieces) == pieces.filter(|name: Seq<char>| name.len() > 0 && name != seq!['.']),
    decreases pieces.len(),
{
    reveal(Seq::filter);
    reveal_strlit(".");
    assert("."@ =~= seq!['.']);
    if pieces.len() > 0 {
        lemma_names_kept(pieces.drop_last());
    }
}

proof fn lemma_resolve_more(a: Seq<Seq<char>>, b: Seq<Seq<char>>, more: Seq<Seq<char>>)
    requires
        resolve_dots(a) == resolve_dots(b),
    ensures
        resolve_dots(a + more) == resolve_dots(b + more),
    decreases more.len(),
{
    if more.len() == 0 {
        assert(a + more =~= a);
        assert(b + more =~= b);
    } else {
        lemma_resolve_more(a, b, more.drop_last());
        assert((a + more).drop_last() =~= a + more.drop_last());
        assert((b + more).drop_last() =~= b + more.drop_last());
    }
}

/// Two dots take off the name before them, at the start they take off nothing, and
/// names without them stay.
pub proof fn law_two_dots_take_off_a_name(
    before: Seq<Seq<char>>,
    name: Seq<char>,
    behind: Seq<Seq<char>>,
)
    requires
        name != seq!['.', '.'],
    ensures
        resolve_dots(before + seq![name] + seq![seq!['.', '.']] + behind) == resolve_dots(
            before + behind,
        ),
        resolve_dots(seq![seq!['.', '.']] + behind) == resolve_dots(behind),
        (forall|i: int| 0 <= i < before.len() ==> #[trigger] before[i] != seq!['.', '.'])
            ==> resolve_dots(before) == before,
{
    reveal_strlit("..");
    let dots = seq!['.', '.'];
    assert(".."@ =~= dots);
    let one = before + seq![name];
    let two = one + seq![dots];
    assert(one.drop_last() =~= before);
    assert(two.drop_last() =~= one);
    assert(resolve_dots(one) == resolve_dots(before).push(name));
    assert(resolve_dots(two) =~= resolve_dots(before));
    lemma_resolve_more(two, before, behind);
    let none = Seq::<Seq<char>>::empty();
    assert(seq![dots].drop_last() =~= none);
    assert(seq![dots].last() == dots);
    assert(resolve_dots(none) == none);
    assert(resolve_dots(seq![dots]) =~= none);
    lemma_resolve_more(seq![dots], none, behind);
    assert(none + behind =~= behind);
    if (forall|i: int| 0 <= i < before.len() ==> #[trigger] before[i] != dots) {
        lemma_resolve_dots_keep(before);
    }
}

/// Joining gives an absolute path as it is, and otherwise puts the names behind the
/// base's; a path is within another where it has its names and then more.
pub proof fn law_joined_paths_are_within(base: PathView, path: PathView)
    ensures
        path.absolute ==> base.joined(path) == path,
        !path.absolute ==> base.joined(path).names == base.names + path.names && base.joined(
            path,
        ).absolute == base.absolute && base.joined(path).within(base),
        path.within(base) <==> path.absolute == base.absolute && exists|rest: Seq<Seq<char>>|
            path.names == #[trigger] (base.names + rest),
        base.within(base),
        base.parent() matches Some(parent) ==> base.within(parent) && parent.names.len() + 1
            == base.names.len(),
        base.parent() is None <==> base.names.len() == 0,
        base.file_name() matches Some(name) ==> base.names.len() > 0 && name == base.names.last()
            && name != seq!['.', '.'],
        base.file_name() is None <==> base.names.len() == 0 || base.names.last() == seq!['.', '.'],
{
    reveal_strlit("..");
    assert(".."@ =~= seq!['.', '.']);
    let n = base.names.len() as int;
    assert((base.names + path.names).subrange(0, n) =~= base.names);
    assert(base.names.subrange(0, n) =~= base.names);
    if path.within(base) {
        assert(path.names =~= base.names + path.names.subrange(n, path.names.len() as int));
    }
    if exists|rest: Seq<Seq<char>>| path.names == #[trigger] (base.names + rest) {
        let rest = choose|rest: Seq<Seq<char>>| path.names == #[trigger] (base.names + rest);
        assert(path.names.subrange(0, n) =~= base.names);
    }
    if n > 0 {
        assert(base.names.subrange(0, n - 1) =~= base.names.drop_last());
    }
}

/// A path's text is its names with slashes between them, and one before them where
/// it is absolute.
pub proof fn law_path_texts_join_names(path: PathView)
    ensures
        path.text() == if path.absolute {
            seq!['/'] + join(path.names, seq!['/'])
        } else {
            join(path.names, seq!['/'])
        },
{
    reveal_strlit("/");
    assert("/"@ =~= seq!['/']);
}

/// Absolute paths stand before others, and paths in the order of their names: a path
/// before every one below it, and otherwise by the first name that differs.
pub proof fn law_the_order_of_paths(a: PathView, b: PathView, n: int)
    requires
        0 <= n <= a.names.len(),
        n <= b.names.len(),
        a.names.subrange(0, n) == b.names.subrange(0, n),
    ensures
        a.absolute && !b.absolute ==> path_lt(a, b) && !path_lt(b, a),
        a.absolute == b.absolute && n < a.names.len() && n < b.names.len() && a.names[n]
            != b.names[n] ==> (path_lt(a, b) <==> text_lt(a.names[n], b.names[n])),
        a.absolute == b.absolute && n == a.names.len() ==> (path_lt(a, b) <==> n < b.names.len()),
        a.absolute == b.absolute && n == b.names.len() ==> !path_lt(a, b),
{
    lemma_names_common(a.names, b.names, 0, n);
}

proof fn lemma_names_common(a: Seq<Seq<char>>, b: Seq<Seq<char>>, i: int, n: int)
    requires
        0 <= i <= n <= a.len(),
        n <= b.len(),
        a.subrange(0, n) == b.subrange(0, n),
    ensures
        names_lt(a, b, i) == names_lt(a, b, n),
    decreases n - i,
{
    if i < n {
        assert(a[i] == a.subrange(0, n)[i] && b[i] == b.subrange(0, n)[i]);
        lemma_names_common(a, b, i + 1, n);
    }
}

} // verus!
