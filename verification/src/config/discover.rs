//! Finding the kitchen file the way mise finds its config files.
//!
//! mise decides which files are loaded and in which order; microkitchen only
//! picks the kitchen file among them.

use vstd::prelude::*;

use crate::config::SectionLocation;
use crate::paths::{path_parts, take_apart, Parts, PathView};
use crate::text::{
    after, chars, concat, find_last, has_prefix, last_index, same, starts_with, string_of, views,
};
use crate::tree::{read_tree, toml_document, Node, NodeView};

verus! {

/// The project's mise config files and the one microkitchen reads and edits.
#[derive(Debug)]
pub struct Discovery {
    /// TOML config files mise loads, lowest precedence first (global ones included).
    pub loaded_files: Vec<String>,
    /// The highest-precedence project file with a microkitchen table, or the
    /// highest-precedence project file if none has one. Dialog decisions are
    /// written here.
    pub kitchen_file: String,
    /// The project directory the kitchen file belongs to; mount sources are
    /// relative to it.
    pub kitchen_dir: String,
    pub section: Option<SectionLocation>,
}

// ---------------------------------------------------------------------------
// Picking the kitchen file
// ---------------------------------------------------------------------------

/// The first candidate with a section, from a place on.
pub open spec fn first_with_section<P>(
    candidates: Seq<(P, Option<SectionLocation>)>,
    from: int,
) -> Option<int>
    decreases candidates.len() - from,
{
    if from < 0 || from >= candidates.len() {
        None
    } else if candidates[from].1 is Some {
        Some(from)
    } else {
        first_with_section(candidates, from + 1)
    }
}

/// The kitchen file among project files ordered highest precedence first: the
/// first with a section, else the first.
pub open spec fn selected<P>(candidates: Seq<(P, Option<SectionLocation>)>) -> Option<
    (P, Option<SectionLocation>),
> {
    match first_with_section(candidates, 0) {
        Some(i) => Some(candidates[i]),
        None => if candidates.len() > 0 {
            Some(candidates[0])
        } else {
            None
        },
    }
}

/// Pick the kitchen file from project files ordered highest precedence first.
pub fn select_kitchen<P: Copy>(candidates: &[(P, Option<SectionLocation>)]) -> (r: Option<
    (P, Option<SectionLocation>),
>)
    ensures
        r == selected(candidates@),
{
    let mut i: usize = 0;
    while i < candidates.len()
        invariant
            i <= candidates@.len(),
            first_with_section(candidates@, 0) == first_with_section(candidates@, i as int),
        decreases candidates@.len() - i,
    {
        if candidates[i].1.is_some() {
            return Some((candidates[i].0, candidates[i].1));
        }
        i += 1;
    }
    if candidates.len() > 0 {
        Some((candidates[0].0, candidates[0].1))
    } else {
        None
    }
}

// ---------------------------------------------------------------------------
// The project directory
// ---------------------------------------------------------------------------

pub open spec fn parent_or(p: PathView, otherwise: PathView) -> PathView {
    match p.parent() {
        Some(parent) => parent,
        None => otherwise,
    }
}

/// The directory above where the last name is `name`.
pub open spec fn above_if(p: PathView, leaves: bool) -> PathView {
    if leaves {
        parent_or(p, p)
    } else {
        p
    }
}

/// The project directory of a config file.
pub open spec fn project_of(file: PathView) -> PathView {
    let dir = parent_or(file, PathView { absolute: true, names: Seq::empty() });
    let config = file.file_name() matches Some(name) && starts_with(name, "config"@);
    let drop_in = dir.file_name() == Some("conf.d"@);
    let dir = above_if(dir, drop_in);
    let nested = (config || drop_in) && (dir.file_name() == Some("mise"@) || dir.file_name() == Some(
        ".mise"@,
    ));
    let dir = above_if(dir, nested);
    above_if(dir, dir.file_name() == Some(".config"@))
}

fn last_is(p: &Parts, name: &str) -> (r: bool)
    ensures
        r == (p@.file_name() == Some(name@)),
{
    match p.file_name() {
        Some(last) => same(last, name),
        None => false,
    }
}

fn up_if(p: Parts, leaves: bool) -> (r: Parts)
    ensures
        r@ == above_if(p@, leaves),
{
    if leaves {
        match p.parent() {
            Some(parent) => parent,
            None => p,
        }
    } else {
        p
    }
}

/// The project directory of a config file: `mise.toml`, `.mise.toml`,
/// `.config/mise.toml`, `.config/mise/config.toml`, `mise/config.toml`,
/// `.mise/config.toml` and `conf.d/*.toml` variants all belong to the
/// directory that holds them.
pub fn project_dir(file: &str) -> (r: String)
    ensures
        r@ == project_of(path_parts(file@)).text(),
{
    let path = take_apart(file);
    let dir = match path.parent() {
        Some(parent) => parent,
        None => {
            let root = Parts { absolute: true, names: Vec::new() };
            assert(root@ =~= (PathView { absolute: true, names: Seq::empty() }));
            root
        },
    };
    let config = match path.file_name() {
        Some(name) => has_prefix(name, "config"),
        None => false,
    };
    let drop_in = last_is(&dir, "conf.d");
    let dir = up_if(dir, drop_in);
    let nested = (config || drop_in) && (last_is(&dir, "mise") || last_is(&dir, ".mise"));
    let dir = up_if(dir, nested);
    let hidden = last_is(&dir, ".config");
    up_if(dir, hidden).text()
}

// ---------------------------------------------------------------------------
// Sections
// ---------------------------------------------------------------------------

/// Which microkitchen table a document has, if any.
pub open spec fn section_of(root: NodeView) -> Option<SectionLocation> {
    if root.get("_"@) matches Some(table) && table.get("microkitchen"@) is Some {
        Some(SectionLocation::Underscore)
    } else if root.get("microkitchen"@) is Some {
        Some(SectionLocation::Legacy)
    } else {
        None
    }
}

/// Which microkitchen table a document has, if any.
pub fn find_section(root: &Node) -> (r: Option<SectionLocation>)
    ensures
        r == section_of(root@),
{
    let underscore = match root.get("_") {
        Some(table) => table.get("microkitchen").is_some(),
        None => false,
    };
    if underscore {
        Some(SectionLocation::Underscore)
    } else if root.get("microkitchen").is_some() {
        Some(SectionLocation::Legacy)
    } else {
        None
    }
}

/// Which microkitchen table a config file's text has, if any. Invalid files
/// count as having none; mise has already rejected them.
pub fn section_in(text: &str) -> (r: Option<SectionLocation>)
    ensures
        r == match toml_document(text@) {
            Ok(root) => section_of(root),
            Err(_) => None,
        },
{
    match read_tree(text) {
        Ok(root) => find_section(&root),
        Err(_) => None,
    }
}

// ---------------------------------------------------------------------------
// Discovery
// ---------------------------------------------------------------------------

/// Whether a file's extension is `toml`.
pub open spec fn is_toml(file: PathView) -> bool {
    match file.file_name() {
        None => false,
        Some(name) => match last_index(name, '.') {
            None => false,
            Some(i) => i > 0 && after(name, i + 1) == "toml"@,
        },
    }
}

/// Whether a path is in one of the directories.
pub open spec fn in_any(path: PathView, dirs: Seq<Seq<char>>) -> bool {
    exists|i: int| 0 <= i < dirs.len() && path.within(path_parts(#[trigger] dirs[i]))
}

/// A config file that may be the kitchen file: TOML, and not global.
pub open spec fn is_candidate(file: Seq<char>, global: Seq<Seq<char>>) -> bool {
    is_toml(path_parts(file)) && !in_any(path_parts(file), global)
}

fn toml_file(file: &str) -> (r: bool)
    ensures
        r == is_toml(path_parts(file@)),
{
    let path = take_apart(file);
    match path.file_name() {
        None => false,
        Some(name) => {
            let v = chars(name);
            let end: usize = v.len();
            match find_last(&v, '.') {
                None => false,
                Some(i) => i > 0 && same(string_of(&v, i + 1, end).as_str(), "toml"),
            }
        },
    }
}

fn in_some(file: &str, dirs: &Vec<String>) -> (r: bool)
    ensures
        r == in_any(path_parts(file@), views(dirs@)),
{
    let path = take_apart(file);
    let mut i: usize = 0;
    while i < dirs.len()
        invariant
            i <= dirs@.len(),
            path@ == path_parts(file@),
            forall|j: int| 0 <= j < i ==> !path@.within(path_parts(#[trigger] views(dirs@)[j])),
        decreases dirs@.len() - i,
    {
        if path.is_within(&take_apart(dirs[i].as_str())) {
            assert(path@.within(path_parts(views(dirs@)[i as int])));
            return true;
        }
        i += 1;
    }
    false
}

/// The places of the candidates among the files.
pub open spec fn candidates(
    files: Seq<Seq<char>>,
    sections: Seq<Option<SectionLocation>>,
    global: Seq<Seq<char>>,
) -> Seq<(usize, Option<SectionLocation>)>
    decreases files.len(),
{
    if files.len() == 0 {
        Seq::empty()
    } else {
        let rest = candidates(files.drop_last(), sections, global);
        let n = files.len() - 1;
        if is_candidate(files[n], global) {
            rest.push((n as usize, sections[n]))
        } else {
            rest
        }
    }
}

/// The TOML files, from the last to the first.
pub open spec fn toml_reversed(files: Seq<Seq<char>>) -> Seq<Seq<char>>
    decreases files.len(),
{
    if files.len() == 0 {
        Seq::empty()
    } else {
        let rest = toml_reversed(files.drop_last());
        if is_toml(path_parts(files.last())) {
            seq![files.last()] + rest
        } else {
            rest
        }
    }
}

/// Discover the project from the config files that mise prints, highest
/// precedence first, and the microkitchen table of each. `global` holds the
/// directories of mise's global and system config. `None` when there is no
/// project file.
pub fn discover(
    files: &Vec<String>,
    sections: &Vec<Option<SectionLocation>>,
    global: &Vec<String>,
) -> (r: Option<Discovery>)
    requires
        sections@.len() == files@.len(),
    ensures
        match selected(candidates(views(files@), sections@, views(global@))) {
            None => r is None,
            Some((i, section)) => r matches Some(found) && {
                &&& views(found.loaded_files@) == toml_reversed(views(files@))
                &&& found.kitchen_file@ == views(files@)[i as int]
                &&& found.kitchen_dir@ == project_of(path_parts(views(files@)[i as int])).text()
                &&& found.section == section
            },
        },
{
    let ghost fv = views(files@);
    let ghost gv = views(global@);
    let mut places: Vec<(usize, Option<SectionLocation>)> = Vec::new();
    let mut loaded: Vec<String> = Vec::new();
    let mut i: usize = 0;
    assert(fv.subrange(0, 0) =~= Seq::empty());
    assert(views(loaded@) =~= Seq::empty());
    while i < files.len()
        invariant
            i <= files@.len(),
            sections@.len() == files@.len(),
            fv == views(files@),
            gv == views(global@),
            places@ == candidates(fv.subrange(0, i as int), sections@, gv),
            forall|k: int| 0 <= k < places@.len() ==> (#[trigger] places@[k]).0 < files@.len(),
            views(loaded@) == toml_reversed(fv.subrange(0, i as int)),
        decreases files@.len() - i,
    {
        assert(fv.subrange(0, i + 1).drop_last() =~= fv.subrange(0, i as int));
        let file = files[i].as_str();
        assert(fv[i as int] == file@);
        if toml_file(file) {
            let ghost done = views(loaded@);
            loaded.insert(0, files[i].clone());
            assert(views(loaded@) =~= seq![file@] + done);
            if !in_some(file, global) {
                places.push((i, sections[i]));
            }
        }
        i += 1;
    }
    assert(fv.subrange(0, fv.len() as int) =~= fv);
    proof {
        lemma_selected(places@);
    }
    match select_kitchen(places.as_slice()) {
        None => None,
        Some((place, section)) => {
            let kitchen_file = files[place].clone();
            let kitchen_dir = project_dir(kitchen_file.as_str());
            Some(Discovery { loaded_files: loaded, kitchen_file, kitchen_dir, section })
        },
    }
}

/// What is selected is one of the candidates, and where any has a section it
/// has one.
pub proof fn lemma_selected<P>(candidates: Seq<(P, Option<SectionLocation>)>)
    ensures
        candidates.len() > 0 <==> selected(candidates) is Some,
        selected(candidates) matches Some(found) ==> candidates.contains(found),
        selected(candidates) matches Some(found) ==> (found.1 is None ==> forall|i: int|
            0 <= i < candidates.len() ==> (#[trigger] candidates[i]).1 is None),
{
    lemma_first_with_section(candidates, 0);
    if candidates.len() > 0 && first_with_section(candidates, 0) is None {
        assert(candidates[0] == selected(candidates)->0);
    }
}

proof fn lemma_first_with_section<P>(candidates: Seq<(P, Option<SectionLocation>)>, from: int)
    requires
        0 <= from <= candidates.len(),
    ensures
        first_with_section(candidates, from) matches Some(i) ==> from <= i < candidates.len()
            && candidates[i].1 is Some,
        first_with_section(candidates, from) is None ==> forall|i: int|
            from <= i < candidates.len() ==> (#[trigger] candidates[i]).1 is None,
    decreases candidates.len() - from,
{
    if from < candidates.len() && candidates[from].1 is None {
        lemma_first_with_section(candidates, from + 1);
    }
}

/// The kitchen file is the highest-precedence project file with a
/// microkitchen table, or the highest-precedence project file if none has one.
pub proof fn law_kitchen_is_the_highest_with_a_section<P>(
    candidates: Seq<(P, Option<SectionLocation>)>,
    i: int,
)
    requires
        0 <= i < candidates.len(),
        selected(candidates) == Some(candidates[i]),
        forall|j: int, k: int|
            0 <= j < candidates.len() && 0 <= k < candidates.len() && (#[trigger] candidates[j]) == (
            #[trigger] candidates[k]) ==> j == k,
    ensures
        candidates[i].1 is Some ==> forall|j: int|
            0 <= j < i ==> (#[trigger] candidates[j]).1 is None,
        candidates[i].1 is None ==> i == 0 && forall|j: int|
            0 <= j < candidates.len() ==> (#[trigger] candidates[j]).1 is None,
{
    lemma_selected(candidates);
    lemma_first_none_before(candidates, 0);
    lemma_first_with_section(candidates, 0);
    if first_with_section(candidates, 0) is None {
        assert(candidates[i] == candidates[0]);
    } else {
        let k = first_with_section(candidates, 0)->0;
        assert(candidates[i] == candidates[k]);
    }
}

proof fn lemma_first_none_before<P>(candidates: Seq<(P, Option<SectionLocation>)>, from: int)
    requires
        0 <= from <= candidates.len(),
    ensures
        first_with_section(candidates, from) matches Some(i) ==> forall|j: int|
            from <= j < i ==> (#[trigger] candidates[j]).1 is None,
    decreases candidates.len() - from,
{
    if from < candidates.len() && candidates[from].1 is None {
        lemma_first_none_before(candidates, from + 1);
    }
}

/// Where mise's global and system config is told to be.
pub struct GlobalConfig<'a> {
    pub global_config_file: Option<&'a str>,
    pub system_config_file: Option<&'a str>,
    pub config_dir: Option<&'a str>,
    pub xdg_config_home: Option<&'a str>,
    pub home: Option<&'a str>,
}

/// A setting that is there and not empty.
pub open spec fn given(value: Option<&str>, below: Seq<char>) -> Seq<Seq<char>> {
    match value {
        Some(text) => if text@.len() > 0 {
            seq![text@ + below]
        } else {
            Seq::empty()
        },
        None => Seq::empty(),
    }
}

fn push_given(dirs: &mut Vec<String>, value: Option<&str>, below: &str)
    ensures
        views(final(dirs)@) == views(old(dirs)@) + given(value, below@),
{
    let ghost before = views(dirs@);
    if let Some(text) = value {
        if !text.is_empty() {
            dirs.push(concat(text, below));
        }
    }
    assert(views(dirs@) =~= before + given(value, below@));
}

/// Directories (and files) holding mise's global and system config; never
/// kitchen files.
pub fn global_config_dirs(config: &GlobalConfig) -> (r: Vec<String>)
    ensures
        views(r@) == seq!["/etc/mise"@] + given(config.global_config_file, ""@) + given(
            config.system_config_file,
            ""@,
        ) + given(config.config_dir, ""@) + given(config.xdg_config_home, "/mise"@) + given(
            config.home,
            "/.config/mise"@,
        ),
{
    let mut dirs: Vec<String> = Vec::new();
    dirs.push("/etc/mise".to_owned());
    assert(views(dirs@) =~= seq!["/etc/mise"@]);
    push_given(&mut dirs, config.global_config_file, "");
    push_given(&mut dirs, config.system_config_file, "");
    push_given(&mut dirs, config.config_dir, "");
    push_given(&mut dirs, config.xdg_config_home, "/mise");
    push_given(&mut dirs, config.home, "/.config/mise");
    dirs
}

/// Which directory a config file is the project's of: its own, or the one above
/// `.config`, `mise`, `.mise` and `conf.d`, as far as mise looks there for it.
pub proof fn law_projects_of_config_files(dir: PathView, name: Seq<char>)
    requires
        ({
            let last = dir.file_name();
            last != Some("conf.d"@) && last != Some("mise"@) && last != Some(".mise"@) && last
                != Some(".config"@)
        }),
        name != seq!['.', '.'],
    ensures
        project_of(below_dir(dir, seq![name])) == dir,
        project_of(below_dir(dir, seq![".config"@, name])) == dir,
        project_of(below_dir(dir, seq!["mise"@, "config.toml"@])) == dir,
        project_of(below_dir(dir, seq![".mise"@, "config.toml"@])) == dir,
        project_of(below_dir(dir, seq![".config"@, "mise"@, "config.toml"@])) == dir,
        project_of(below_dir(dir, seq![".config"@, "mise"@, "conf.d"@, name])) == dir,
        project_of(below_dir(dir, seq!["mise"@, "conf.d"@, name])) == dir,
        project_of(below_dir(dir, seq![".mise"@, "conf.d"@, name])) == dir,
{
    reveal_strlit("config.toml");
    reveal_strlit("config");
    reveal_strlit("mise");
    reveal_strlit(".mise");
    reveal_strlit(".config");
    reveal_strlit("conf.d");
    reveal_strlit("..");
    assert(".."@ =~= seq!['.', '.']);
    assert("config.toml"@.subrange(0, 6) =~= "config"@);
    assert("mise"@[0] == 'm' && ".mise"@[0] == '.' && ".mise"@[1] == 'm' && ".config"@[0] == '.'
        && ".config"@[1] == 'c' && "conf.d"@[0] == 'c' && ".."@[1] == '.' && "config.toml"@[0]
        == 'c');
    lemma_project(dir, name);
    lemma_project(below_dir(dir, seq![".config"@]), name);
    lemma_project(below_dir(dir, seq!["mise"@]), "config.toml"@);
    lemma_project(below_dir(dir, seq![".mise"@]), "config.toml"@);
    let config = below_dir(dir, seq![".config"@]);
    let mise = below_dir(dir, seq!["mise"@]);
    let dot_mise = below_dir(dir, seq![".mise"@]);
    let config_mise = below_dir(dir, seq![".config"@, "mise"@]);
    lemma_project(config_mise, "config.toml"@);
    lemma_project(below_dir(config_mise, seq!["conf.d"@]), name);
    lemma_project(below_dir(mise, seq!["conf.d"@]), name);
    lemma_project(below_dir(dot_mise, seq!["conf.d"@]), name);
    lemma_parent(dir, ".config"@);
    lemma_parent(dir, "mise"@);
    lemma_parent(dir, ".mise"@);
    lemma_parent(config, "mise"@);
    lemma_parent(config_mise, "conf.d"@);
    lemma_parent(mise, "conf.d"@);
    lemma_parent(dot_mise, "conf.d"@);
    assert(below_dir(dir, seq![".config"@, name]) =~= below_dir(config, seq![name]));
    assert(below_dir(dir, seq!["mise"@, "config.toml"@]) =~= below_dir(mise, seq!["config.toml"@]));
    assert(below_dir(dir, seq![".mise"@, "config.toml"@]) =~= below_dir(
        dot_mise,
        seq!["config.toml"@],
    ));
    assert(config_mise =~= below_dir(config, seq!["mise"@]));
    assert(below_dir(dir, seq![".config"@, "mise"@, "config.toml"@]) =~= below_dir(
        config_mise,
        seq!["config.toml"@],
    ));
    assert(below_dir(dir, seq![".config"@, "mise"@, "conf.d"@, name]) =~= below_dir(
        below_dir(config_mise, seq!["conf.d"@]),
        seq![name],
    ));
    assert(below_dir(dir, seq!["mise"@, "conf.d"@, name]) =~= below_dir(
        below_dir(mise, seq!["conf.d"@]),
        seq![name],
    ));
    assert(below_dir(dir, seq![".mise"@, "conf.d"@, name]) =~= below_dir(
        below_dir(dot_mise, seq!["conf.d"@]),
        seq![name],
    ));
}

/// A path below a directory.
pub open spec fn below_dir(dir: PathView, names: Seq<Seq<char>>) -> PathView {
    PathView { absolute: dir.absolute, names: dir.names + names }
}

proof fn lemma_parent(dir: PathView, name: Seq<char>)
    ensures
        below_dir(dir, seq![name]).parent() == Some(dir),
        name != ".."@ ==> below_dir(dir, seq![name]).file_name() == Some(name),
{
    assert((dir.names + seq![name]).drop_last() =~= dir.names);
}

proof fn lemma_project(dir: PathView, name: Seq<char>)
    requires
        name != ".."@,
    ensures
        ({
            let file = below_dir(dir, seq![name]);
            let config = starts_with(name, "config"@);
            let drop_in = dir.file_name() == Some("conf.d"@);
            let up = above_if(dir, drop_in);
            let nested = (config || drop_in) && (up.file_name() == Some("mise"@) || up.file_name()
                == Some(".mise"@));
            let top = above_if(up, nested);
            project_of(file) == above_if(top, top.file_name() == Some(".config"@))
        }),
{
    lemma_parent(dir, name);
}

/// A TOML file is one whose name ends in `.toml` and has something before it.
pub proof fn law_toml_files(file: PathView, stem: Seq<char>)
    requires
        file.names.len() > 0,
        file.names.last() == stem + seq!['.', 't', 'o', 'm', 'l'],
    ensures
        is_toml(file) <==> stem.len() > 0,
{
    reveal_strlit("toml");
    reveal_strlit("..");
    assert(".."@.len() == 2);
    let name = file.names.last();
    assert(name.len() >= 5);
    crate::text::law_places_of_a_character(name, '.', 0, stem.len() as int);
    assert(after(name, stem.len() as int + 1) =~= "toml"@);
}

/// A name without such an ending is no TOML file's.
pub proof fn law_other_files(file: PathView)
    requires
        is_toml(file),
    ensures
        file.names.len() > 0 && file.names.last().len() > 5 && file.names.last().subrange(
            file.names.last().len() - 5,
            file.names.last().len() as int,
        ) == seq!['.', 't', 'o', 'm', 'l'],
{
    reveal_strlit("toml");
    let name = file.names.last();
    let i = last_index(name, '.')->0;
    crate::text::law_places_of_a_character(name, '.', 0, i);
    let end = after(name, i + 1);
    assert(end.len() == 4);
    assert(end[0] == 't' && end[1] == 'o' && end[2] == 'm' && end[3] == 'l');
    assert(name.subrange(name.len() - 5, name.len() as int) =~= seq!['.', 't', 'o', 'm', 'l']);
}

/// The candidates are the TOML files that are in no global directory, in order, each
/// with its section; mise's files are read from the lowest to the highest.
pub proof fn law_candidates_are_the_project_files(
    files: Seq<Seq<char>>,
    sections: Seq<Option<SectionLocation>>,
    global: Seq<Seq<char>>,
)
    requires
        files.len() <= usize::MAX,
    ensures
        candidates(files, sections, global) == crate::maps::below(files.len()).flat_map(
            |i: int|
                if is_toml(path_parts(files[i])) && forall|d: int|
                    0 <= d < global.len() ==> !path_parts(files[i]).within(
                        path_parts(#[trigger] global[d]),
                    ) {
                    seq![(i as usize, sections[i])]
                } else {
                    Seq::empty()
                },
        ),
        toml_reversed(files) == files.filter(|file: Seq<char>| is_toml(path_parts(file))).reverse(),
    decreases files.len(),
{
    let f = |i: int|
        if is_toml(path_parts(files[i])) && forall|d: int|
            0 <= d < global.len() ==> !path_parts(files[i]).within(
                path_parts(#[trigger] global[d]),
            ) {
            seq![(i as usize, sections[i])]
        } else {
            Seq::<(usize, Option<SectionLocation>)>::empty()
        };
    let keep = |file: Seq<char>| is_toml(path_parts(file));
    reveal(Seq::filter);
    crate::maps::lemma_below_step(files.len(), f);
    if files.len() > 0 {
        let rest = files.drop_last();
        let n = rest.len();
        law_candidates_are_the_project_files(rest, sections, global);
        let g = |i: int|
            if is_toml(path_parts(rest[i])) && forall|d: int|
                0 <= d < global.len() ==> !path_parts(rest[i]).within(
                    path_parts(#[trigger] global[d]),
                ) {
                seq![(i as usize, sections[i])]
            } else {
                Seq::<(usize, Option<SectionLocation>)>::empty()
            };
        assert forall|i: int| 0 <= i < crate::maps::below(n).len() implies g(
            #[trigger] crate::maps::below(n)[i],
        ) == f(crate::maps::below(n)[i]) by {
            assert(rest[i] == files[i]);
        }
        crate::maps::lemma_flat_map_same(crate::maps::below(n), g, f);
        assert(candidates(files, sections, global) =~= crate::maps::below(files.len()).flat_map(f));
    }
    assert(toml_reversed(files) =~= files.filter(keep).reverse());
}

/// A file has its section where [`crate::config::walker`] finds it.
pub proof fn law_sections_of_files(root: NodeView)
    ensures
        (root.get("_"@) matches Some(table) && table.get("microkitchen"@) is Some) ==> section_of(
            root,
        ) == Some(SectionLocation::Underscore),
        !(root.get("_"@) matches Some(table) && table.get("microkitchen"@) is Some) && root.get(
            "microkitchen"@,
        ) is Some ==> section_of(root) == Some(SectionLocation::Legacy),
        !(root.get("_"@) matches Some(table) && table.get("microkitchen"@) is Some) && root.get(
            "microkitchen"@,
        ) is None ==> section_of(root) is None,
{
}

} // verus!
