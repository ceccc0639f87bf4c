//! Paths under `~/.microkitchen`, and what is kept there.

pub mod sandbox;
pub mod secret;
pub mod settings;

use vstd::prelude::*;

use crate::config::schema::opt_str;
use crate::paths::{join_paths, path_join};

verus! {

/// Overrides the state directory (also `--home`).
pub const HOME_ENV: &'static str = "MICROKITCHEN_HOME";

/// The microkitchen state directory, `~/.microkitchen` by default.
#[derive(Debug)]
pub struct Home {
    root: String,
}

impl View for Home {
    type V = Seq<char>;

    closed spec fn view(&self) -> Seq<char> {
        self.root@
    }
}

impl Clone for Home {
    fn clone(&self) -> (r: Self)
        ensures
            r@ == self@,
    {
        Home { root: self.root.clone() }
    }
}

/// `$HOME` is not set, and no directory was given.
#[derive(Debug, Clone, Copy, PartialEq, Eq, Structural)]
pub struct NoHome;

impl NoHome {
    pub fn to_text(&self) -> (r: &'static str)
        ensures
            r@ == "HOME is not set; pass --home"@,
    {
        "HOME is not set; pass --home"
    }
}

/// An environment variable that is set to something.
pub open spec fn nonempty(value: Option<Seq<char>>) -> Option<Seq<char>> {
    match value {
        Some(text) => if text.len() == 0 {
            None
        } else {
            Some(text)
        },
        None => None,
    }
}

/// The state directory: the one given, else `$MICROKITCHEN_HOME`, else
/// `$HOME/.microkitchen`, seen from the working directory.
pub open spec fn home_of(
    explicit: Option<Seq<char>>,
    variable: Option<Seq<char>>,
    home: Option<Seq<char>>,
    cwd: Seq<char>,
) -> Option<Seq<char>> {
    match explicit {
        Some(root) => Some(absolute(root, cwd)),
        None => match nonempty(variable) {
            Some(root) => Some(absolute(root, cwd)),
            None => match nonempty(home) {
                Some(home) => Some(absolute(path_join(home, ".microkitchen"@), cwd)),
                None => None,
            },
        },
    }
}

/// A path seen from the working directory. An empty path stays empty.
pub open spec fn absolute(path: Seq<char>, cwd: Seq<char>) -> Seq<char> {
    if path.len() == 0 {
        path
    } else {
        path_join(cwd, path)
    }
}

fn absolute_path(path: &str, cwd: &str) -> (r: String)
    ensures
        r@ == absolute(path@, cwd@),
{
    if path.unicode_len() == 0 {
        path.to_owned()
    } else {
        join_paths(cwd, path)
    }
}

fn set_to_something(value: Option<&str>) -> (r: Option<&str>)
    ensures
        opt_str(r) == nonempty(opt_str(value)),
{
    match value {
        Some(text) => if text.unicode_len() == 0 {
            None
        } else {
            Some(text)
        },
        None => None,
    }
}

impl Home {
    /// `explicit`, else `$MICROKITCHEN_HOME` (`variable`), else
    /// `$HOME/.microkitchen`.
    pub fn resolve(
        explicit: Option<&str>,
        variable: Option<&str>,
        home: Option<&str>,
        cwd: &str,
    ) -> (r: Result<Self, NoHome>)
        ensures
            match (r, home_of(opt_str(explicit), opt_str(variable), opt_str(home), cwd@)) {
                (Ok(found), Some(root)) => found@ == root,
                (Err(_), None) => true,
                _ => false,
            },
    {
        if let Some(root) = explicit {
            return Ok(Home { root: absolute_path(root, cwd) });
        }
        if let Some(root) = set_to_something(variable) {
            return Ok(Home { root: absolute_path(root, cwd) });
        }
        match set_to_something(home) {
            Some(home) => {
                let root = join_paths(home, ".microkitchen");
                Ok(Home { root: absolute_path(root.as_str(), cwd) })
            },
            None => Err(NoHome),
        }
    }

    pub fn at(root: &str) -> (r: Self)
        ensures
            r@ == root@,
    {
        Home { root: root.to_owned() }
    }

    pub fn root(&self) -> (r: &str)
        ensures
            r@ == self@,
    {
        self.root.as_str()
    }

    /// `config.toml`: user settings for microkitchen itself.
    pub fn config_file(&self) -> (r: String)
        ensures
            r@ == path_join(self@, "config.toml"@),
    {
        join_paths(self.root.as_str(), "config.toml")
    }

    /// `rules.toml`: network rules for every sandbox.
    pub fn rules_file(&self) -> (r: String)
        ensures
            r@ == path_join(self@, "rules.toml"@),
    {
        join_paths(self.root.as_str(), "rules.toml")
    }

    pub fn broker_dir(&self) -> (r: String)
        ensures
            r@ == path_join(self@, "broker"@),
    {
        join_paths(self.root.as_str(), "broker")
    }

    pub fn sandbox_dir(&self, name: &str) -> (r: String)
        ensures
            r@ == path_join(path_join(self@, "sandboxes"@), name@),
    {
        let sandboxes = join_paths(self.root.as_str(), "sandboxes");
        join_paths(sandboxes.as_str(), name)
    }

    pub fn logs_dir(&self) -> (r: String)
        ensures
            r@ == path_join(self@, "logs"@),
    {
        join_paths(self.root.as_str(), "logs")
    }

    /// The lock that serializes writers of config files.
    pub fn lock_file(&self) -> (r: String)
        ensures
            r@ == path_join(self@, "write.lock"@),
    {
        join_paths(self.root.as_str(), "write.lock")
    }
}

/// Where microkitchen's directory is: where it is told, else where the variable says,
/// else in the home directory; nothing that is empty counts.
pub proof fn law_where_the_directory_is(
    explicit: Seq<char>,
    variable: Seq<char>,
    home: Seq<char>,
    cwd: Seq<char>,
)
    requires
        variable.len() > 0,
        home.len() > 0,
    ensures
        home_of(Some(explicit), Some(variable), Some(home), cwd) == Some(absolute(explicit, cwd)),
        home_of(None, Some(variable), Some(home), cwd) == Some(absolute(variable, cwd)),
        home_of(None, Some(Seq::empty()), Some(home), cwd) == Some(
            absolute(path_join(home, ".microkitchen"@), cwd),
        ),
        home_of(None, None, Some(home), cwd) == Some(
            absolute(path_join(home, ".microkitchen"@), cwd),
        ),
        home_of(None, None, Some(Seq::empty()), cwd) is None,
        home_of(None, None, None, cwd) is None,
        explicit.len() > 0 ==> absolute(explicit, cwd) == path_join(cwd, explicit),
{
}

} // verus!
