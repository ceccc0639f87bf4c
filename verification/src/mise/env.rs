//! Host-side environment resolution.
//!
//! Two mise behaviours shape the merge:
//!
//! - A declared variable that exists on the host and that mise leaves
//!   unchanged (`{ required = true }`, or `{ default }` with a host value) is
//!   omitted from `mise env` output, so it is read from the host directly.
//! - A variable resolving to the empty string counts as absent. That is how
//!   optional variables are expressed (`{ default = "" }`), since mise rejects
//!   `{ required = false }`.

use vstd::prelude::*;

use crate::maps::{
    distinct_keys, has_key, key_index, lemma_to_map_at, text_lt, to_map, TextMap,
};
use crate::mise::declarations::{DeclarationView, EnvDeclarations};
use crate::text::{opt_view, same, views};

verus! {

/// One entry of `mise env --json-extended`.
#[derive(Debug, PartialEq, Eq)]
pub struct MiseEnvEntry {
    pub value: String,
    /// The config or env file the value came from; absent for mise's own
    /// additions such as `PATH`.
    pub source: Option<String>,
}

/// A [`MiseEnvEntry`] by its contents.
#[verifier::ext_equal]
pub struct MiseEnvView {
    pub value: Seq<char>,
    pub source: Option<Seq<char>>,
}

/// Variables to hand to the sandbox.
#[derive(Debug, PartialEq, Eq)]
pub struct ResolvedEnv {
    /// Non-empty values, as env vars or secrets.
    pub values: TextMap<String>,
    /// Variables that resolved to the empty string and are not forwarded, in
    /// order.
    pub empty: Vec<String>,
}

impl View for MiseEnvEntry {
    type V = MiseEnvView;

    open spec fn view(&self) -> MiseEnvView {
        MiseEnvView { value: self.value@, source: opt_view(self.source) }
    }
}

pub open spec fn opt_str_ref(o: Option<&str>) -> Option<Seq<char>> {
    match o {
        Some(text) => Some(text@),
        None => None,
    }
}

pub open spec fn at_key(m: Map<Seq<char>, Seq<char>>, key: Seq<char>) -> Option<Seq<char>> {
    if m.contains_key(key) {
        Some(m[key])
    } else {
        None
    }
}

impl ResolvedEnv {
    pub fn value(&self, name: &str) -> (r: Option<&str>)
        ensures
            opt_str_ref(r) == at_key(self.values@, name@),
    {
        match self.values.get(name) {
            Some(value) => Some(value.as_str()),
            None => None,
        }
    }
}

/// Whether mise set a variable from a file.
pub open spec fn from_mise(output: Map<Seq<char>, MiseEnvView>, name: Seq<char>) -> bool {
    output.contains_key(name) && output[name].source is Some && name != "PATH"@
}

/// Every variable with its value: what mise set from a file, and what is
/// declared and set on the host.
pub open spec fn merged(
    output: Map<Seq<char>, MiseEnvView>,
    declared: Map<Seq<char>, DeclarationView>,
    host: Map<Seq<char>, Seq<char>>,
) -> Map<Seq<char>, Seq<char>> {
    Map::new(
        |name: Seq<char>|
            from_mise(output, name) || (declared.contains_key(name) && host.contains_key(name)),
        |name: Seq<char>|
            if from_mise(output, name) {
                output[name].value
            } else {
                host[name]
            },
    )
}

/// The variables whose value is not empty.
pub open spec fn with_value(all: Map<Seq<char>, Seq<char>>) -> Map<Seq<char>, Seq<char>> {
    Map::new(
        |name: Seq<char>| all.contains_key(name) && all[name].len() > 0,
        |name: Seq<char>| all[name],
    )
}

/// Whether names are in order, none twice.
pub open spec fn ascending(names: Seq<Seq<char>>) -> bool {
    forall|i: int, j: int|
        0 <= i < j < names.len() ==> text_lt(#[trigger] names[i], #[trigger] names[j])
}

/// Whether an environment is what a set of variables resolves to.
pub open spec fn resolves_to(env: ResolvedEnv, all: Map<Seq<char>, Seq<char>>) -> bool {
    &&& env.values@ == with_value(all)
    &&& ascending(views(env.empty@))
    &&& forall|name: Seq<char>| #[trigger]
        views(env.empty@).contains(name) <==> all.contains_key(name) && all[name].len() == 0
}

/// Merge mise's output with the declarations and the host environment.
pub fn merge(
    output: &TextMap<MiseEnvEntry>,
    declarations: &EnvDeclarations,
    host: &TextMap<String>,
) -> (r: ResolvedEnv)
    ensures
        resolves_to(r, merged(output@, declarations@, host@)),
{
    let mut all: TextMap<String> = TextMap::new();
    let n: usize = output.len();
    let ghost op = output.pairs();
    let mut i: usize = 0;
    while i < n
        invariant
            i <= n,
            n == op.len(),
            op == output.pairs(),
            output@ == to_map(op),
            distinct_keys(op),
            forall|name: Seq<char>| #[trigger]
                all@.contains_key(name) <==> exists|k: int|
                    0 <= k < i && (#[trigger] op[k]).0 == name && from_mise(output@, name),
            forall|name: Seq<char>| #[trigger]
                all@.contains_key(name) ==> all@[name] == output@[name].value,
        decreases n - i,
    {
        let (name, entry) = output.at(i);
        let ghost before = all@;
        proof {
            lemma_to_map_at(op, i as int);
        }
        if entry.source.is_some() && !same(name, "PATH") {
            all.insert(name, entry.value.clone());
        }
        proof {
            assert forall|key: Seq<char>| #[trigger] all@.contains_key(key) <==> exists|k: int|
                0 <= k < i + 1 && (#[trigger] op[k]).0 == key && from_mise(output@, key) by {
                if before.contains_key(key) {
                    let k = choose|k: int|
                        0 <= k < i && (#[trigger] op[k]).0 == key && from_mise(output@, key);
                    assert(op[k].0 == key);
                }
                if key == name@ {
                    assert(op[i as int].0 == key);
                }
            }
        }
        i += 1;
    }
    proof {
        assert forall|name: Seq<char>| #[trigger] all@.contains_key(name) <==> from_mise(
            output@,
            name,
        ) by {
            if from_mise(output@, name) {
                assert(has_key(op, name));
                let k = key_index(op, name);
                assert(op[k].0 == name);
            }
        }
    }
    let ghost base = all@;
    let vars = &declarations.vars;
    let m: usize = vars.len();
    let ghost dp = vars.pairs();
    let mut j: usize = 0;
    while j < m
        invariant
            j <= m,
            m == dp.len(),
            dp == vars.pairs(),
            vars@ == to_map(dp),
            declarations@ == vars@,
            distinct_keys(dp),
            forall|name: Seq<char>| #[trigger] base.contains_key(name) <==> from_mise(output@, name),
            forall|name: Seq<char>| #[trigger]
                base.contains_key(name) ==> base[name] == output@[name].value,
            forall|name: Seq<char>| #[trigger]
                all@.contains_key(name) <==> base.contains_key(name) || (host@.contains_key(name)
                    && exists|k: int| 0 <= k < j && (#[trigger] dp[k]).0 == name),
            forall|name: Seq<char>| #[trigger]
                all@.contains_key(name) ==> all@[name] == if base.contains_key(name) {
                    base[name]
                } else {
                    host@[name]
                },
        decreases m - j,
    {
        let (name, _) = vars.at(j);
        let ghost before = all@;
        if !all.contains_key(name) {
            if let Some(value) = host.get(name) {
                all.insert(name, value.clone());
            }
        }
        proof {
            assert forall|key: Seq<char>| #[trigger] all@.contains_key(key) <==> base.contains_key(key)
                || (host@.contains_key(key) && exists|k: int|
                0 <= k < j + 1 && (#[trigger] dp[k]).0 == key) by {
                if before.contains_key(key) && !base.contains_key(key) {
                    let k = choose|k: int| 0 <= k < j && (#[trigger] dp[k]).0 == key;
                    assert(dp[k].0 == key);
                }
                if key == name@ {
                    assert(dp[j as int].0 == key);
                }
            }
        }
        j += 1;
    }
    proof {
        assert(all@ =~= merged(output@, declarations@, host@)) by {
            assert forall|name: Seq<char>| #[trigger] all@.contains_key(name) <==> merged(
                output@,
                declarations@,
                host@,
            ).contains_key(name) by {
                if declarations@.contains_key(name) {
                    assert(has_key(dp, name));
                    let k = key_index(dp, name);
                    assert(dp[k].0 == name);
                }
                if exists|k: int| 0 <= k < m && (#[trigger] dp[k]).0 == name {
                    assert(has_key(dp, name));
                }
            }
        }
    }
    split_empty(&all)
}

/// Whether one of the first `n` pairs is a name with an empty value.
spec fn is_empty_before(pairs: Seq<(Seq<char>, Seq<char>)>, n: int, name: Seq<char>) -> bool {
    exists|k: int| 0 <= k < n && (#[trigger] pairs[k]).0 == name && pairs[k].1.len() == 0
}

/// Part variables by whether their value is empty.
fn split_empty(all: &TextMap<String>) -> (r: ResolvedEnv)
    ensures
        resolves_to(r, all@),
{
    let mut values: TextMap<String> = TextMap::new();
    let mut empty: Vec<String> = Vec::new();
    let n: usize = all.len();
    let ghost ap = all.pairs();
    let mut i: usize = 0;
    while i < n
        invariant
            i <= n,
            n == ap.len(),
            ap == all.pairs(),
            all@ == to_map(ap),
            distinct_keys(ap),
            crate::maps::sorted_keys(ap),
            forall|name: Seq<char>| #[trigger]
                values@.contains_key(name) <==> exists|k: int|
                    0 <= k < i && (#[trigger] ap[k]).0 == name && ap[k].1.len() > 0,
            forall|name: Seq<char>| #[trigger]
                values@.contains_key(name) ==> values@[name] == all@[name],
            ascending(views(empty@)),
            forall|a: int|
                0 <= a < views(empty@).len() ==> is_empty_before(
                    ap,
                    i as int,
                    #[trigger] views(empty@)[a],
                ),
            forall|k: int|
                0 <= k < i && (#[trigger] ap[k]).1.len() == 0 ==> views(empty@).contains(ap[k].0),
        decreases n - i,
    {
        let (name, value) = all.at(i);
        let ghost before = values@;
        let ghost done = views(empty@);
        proof {
            lemma_to_map_at(ap, i as int);
        }
        if value.as_str().is_empty() {
            empty.push(name.to_owned());
            assert(views(empty@) =~= done.push(name@));
            proof {
                let e = views(empty@);
                assert forall|a: int, b: int| 0 <= a < b < e.len() implies text_lt(
                    #[trigger] e[a],
                    #[trigger] e[b],
                ) by {
                    assert(e[a] == done[a]);
                    if b == done.len() {
                        assert(is_empty_before(ap, i as int, done[a]));
                        let k = choose|k: int|
                            0 <= k < i && (#[trigger] ap[k]).0 == done[a] && ap[k].1.len() == 0;
                        assert(text_lt(ap[k].0, ap[i as int].0));
                    } else {
                        assert(e[b] == done[b]);
                    }
                }
                assert forall|a: int| 0 <= a < e.len() implies is_empty_before(
                    ap,
                    i + 1,
                    #[trigger] e[a],
                ) by {
                    if a < done.len() {
                        assert(e[a] == done[a]);
                        assert(is_empty_before(ap, i as int, done[a]));
                        let k = choose|k: int|
                            0 <= k < i && (#[trigger] ap[k]).0 == done[a] && ap[k].1.len() == 0;
                        assert(ap[k].0 == e[a]);
                    } else {
                        assert(ap[i as int].0 == e[a]);
                    }
                }
                assert forall|k: int| 0 <= k < i + 1 && (#[trigger] ap[k]).1.len() == 0 implies views(
                    empty@,
                ).contains(ap[k].0) by {
                    if k < i {
                        let a = choose|a: int| 0 <= a < done.len() && done[a] == ap[k].0;
                        assert(e[a] == ap[k].0);
                    } else {
                        assert(e[done.len() as int] == ap[k].0);
                    }
                }
            }
        } else {
            values.insert(name, value.clone());
            proof {
                assert forall|a: int| 0 <= a < done.len() implies is_empty_before(
                    ap,
                    i + 1,
                    #[trigger] done[a],
                ) by {
                    assert(is_empty_before(ap, i as int, done[a]));
                    let k = choose|k: int|
                        0 <= k < i && (#[trigger] ap[k]).0 == done[a] && ap[k].1.len() == 0;
                    assert(ap[k].0 == done[a]);
                }
            }
        }
        proof {
            assert forall|key: Seq<char>| #[trigger] values@.contains_key(key) <==> exists|k: int|
                0 <= k < i + 1 && (#[trigger] ap[k]).0 == key && ap[k].1.len() > 0 by {
                if before.contains_key(key) {
                    let k = choose|k: int|
                        0 <= k < i && (#[trigger] ap[k]).0 == key && ap[k].1.len() > 0;
                    assert(ap[k].0 == key);
                }
                if key == name@ && value@.len() > 0 {
                    assert(ap[i as int].0 == key);
                }
            }
        }
        i += 1;
    }
    proof {
        assert forall|name: Seq<char>| #[trigger] values@.contains_key(name) <==> with_value(
            all@,
        ).contains_key(name) by {
            if all@.contains_key(name) {
                assert(has_key(ap, name));
                let k = key_index(ap, name);
                assert(ap[k].0 == name);
                lemma_to_map_at(ap, k);
            }
            if values@.contains_key(name) {
                let k = choose|k: int|
                    0 <= k < n && (#[trigger] ap[k]).0 == name && ap[k].1.len() > 0;
                lemma_to_map_at(ap, k);
            }
        }
        assert(values@ =~= with_value(all@));
        assert forall|name: Seq<char>| #[trigger] views(empty@).contains(name) <==> all@.contains_key(
            name,
        ) && all@[name].len() == 0 by {
            if views(empty@).contains(name) {
                let a = choose|a: int| 0 <= a < empty@.len() && views(empty@)[a] == name;
                assert(is_empty_before(ap, n as int, views(empty@)[a]));
                let k = choose|k: int|
                    0 <= k < n && (#[trigger] ap[k]).0 == views(empty@)[a] && ap[k].1.len() == 0;
                lemma_to_map_at(ap, k);
            }
            if all@.contains_key(name) && all@[name].len() == 0 {
                assert(has_key(ap, name));
                let k = key_index(ap, name);
                assert(ap[k].0 == name);
                lemma_to_map_at(ap, k);
            }
        }
    }
    ResolvedEnv { values, empty }
}

/// What mise set from a file wins over the host, `PATH` is never forwarded
/// from mise, and nothing undeclared comes from the host.
pub proof fn law_mise_output_wins(
    output: Map<Seq<char>, MiseEnvView>,
    declared: Map<Seq<char>, DeclarationView>,
    host: Map<Seq<char>, Seq<char>>,
    name: Seq<char>,
)
    ensures
        from_mise(output, name) ==> merged(output, declared, host)[name] == output[name].value,
        !from_mise(output, name) && !declared.contains_key(name) ==> !merged(
            output,
            declared,
            host,
        ).contains_key(name),
        !from_mise(output, "PATH"@),
{
}

/// A variable comes from mise where mise names the file that sets it, unless it is
/// `PATH`; otherwise from the host, where it is declared and the host has it; and from
/// nowhere else. Nothing is made of its value, and an empty one is none.
pub proof fn law_variables_come_from_mise_or_the_host(
    output: Map<Seq<char>, MiseEnvView>,
    declared: Map<Seq<char>, DeclarationView>,
    host: Map<Seq<char>, Seq<char>>,
    name: Seq<char>,
)
    ensures
        ({
            let all = merged(output, declared, host);
            let set = output.contains_key(name) && output[name].source is Some && name != "PATH"@;
            &&& all.contains_key(name) <==> set || (declared.contains_key(name)
                && host.contains_key(name))
            &&& set ==> all[name] == output[name].value
            &&& !set && declared.contains_key(name) && host.contains_key(name) ==> all[name]
                == host[name]
            &&& with_value(all).contains_key(name) <==> all.contains_key(name) && all[name].len()
                > 0
            &&& with_value(all).contains_key(name) ==> with_value(all)[name] == all[name]
        }),
{
}

} // verus!
