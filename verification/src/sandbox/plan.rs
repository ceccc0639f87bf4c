//! Everything needed to create a project's sandbox, derived from a valid
//! [`Project`].

use vstd::prelude::*;

use crate::config::hostpat::PatternView;
use crate::config::project::Project;
use crate::config::schema::{KitchenConfig, SecretConfig};
use crate::config::staging::StagePlan;
use crate::config::json::{hash_of, write_config};
use crate::digest::short_digest;
use crate::maps::{distinct_keys, lemma_to_map_push, to_map, TextMap};
use crate::mise::render::{guest_document, render_guest_config_with, render_outcome};
use crate::sandbox::labels;
use crate::sandbox::naming::{name_of, sandbox_name};
use crate::text::{concat, views};
use crate::tree::{SyntaxError, SyntaxErrorView};

verus! {

/// A resolved description of the sandbox; secret values included, so never
/// logged.
pub struct SandboxPlan {
    pub name: String,
    pub kitchen_file: String,
    pub config: KitchenConfig,
    pub config_hash: String,
    /// Plain environment variables.
    pub env: TextMap<String>,
    /// Secrets: value and allowed hosts.
    pub secrets: TextMap<SecretValue>,
    /// The kitchen file's text.
    pub kitchen_text: String,
    /// Contents of `/opt/kitchen/mise.toml` in the guest.
    pub guest_config: String,
}

/// A secret's value, and the hosts that receive it.
pub struct SecretValue {
    pub value: String,
    pub secret: SecretConfig,
}

impl View for SecretValue {
    type V = (Seq<char>, Seq<PatternView>);

    open spec fn view(&self) -> (Seq<char>, Seq<PatternView>) {
        (self.value@, self.secret@)
    }
}

/// Why there is no plan.
pub enum PlanError {
    /// The project has errors.
    Invalid,
    /// The kitchen file could not be parsed.
    NoKitchen,
    /// The environment could not be resolved.
    NoEnvironment,
    /// The kitchen file could not be rendered for the guest.
    Render(SyntaxError),
}

impl PlanError {
    pub open spec fn spec_text(self) -> Seq<char> {
        match self {
            PlanError::Invalid =>
                "the configuration is invalid; see the errors above or run `microkitchen validate`"@,
            PlanError::NoKitchen => "the kitchen file could not be parsed"@,
            PlanError::NoEnvironment => "the environment could not be resolved"@,
            PlanError::Render(error) => "parsing the kitchen file: "@ + error.message@,
        }
    }

    pub fn to_text(&self) -> (r: String)
        ensures
            r@ == self.spec_text(),
    {
        match self {
            PlanError::Invalid =>
                "the configuration is invalid; see the errors above or run `microkitchen validate`".to_owned(),
            PlanError::NoKitchen => "the kitchen file could not be parsed".to_owned(),
            PlanError::NoEnvironment => "the environment could not be resolved".to_owned(),
            PlanError::Render(error) => concat(
                "parsing the kitchen file: ",
                error.message.as_str(),
            ),
        }
    }
}

/// The resolved variables that go in as they are: those without a secret.
pub open spec fn plain_env(
    values: Map<Seq<char>, Seq<char>>,
    secrets: Map<Seq<char>, Seq<PatternView>>,
) -> Map<Seq<char>, Seq<char>> {
    Map::new(
        |name: Seq<char>| values.contains_key(name) && !secrets.contains_key(name),
        |name: Seq<char>| values[name],
    )
}

/// The resolved variables that go in as secrets.
pub open spec fn secret_env(
    values: Map<Seq<char>, Seq<char>>,
    secrets: Map<Seq<char>, Seq<PatternView>>,
) -> Map<Seq<char>, (Seq<char>, Seq<PatternView>)> {
    Map::new(
        |name: Seq<char>| values.contains_key(name) && secrets.contains_key(name),
        |name: Seq<char>| (values[name], secrets[name]),
    )
}

/// Part the resolved variables into plain ones and secrets.
pub fn split_env(values: &TextMap<String>, secrets: &TextMap<SecretConfig>) -> (r: (
    TextMap<String>,
    TextMap<SecretValue>,
))
    ensures
        r.0@ == plain_env(values@, secrets@),
        r.1@ == secret_env(values@, secrets@),
{
    let mut env: TextMap<String> = TextMap::new();
    let mut kept: TextMap<SecretValue> = TextMap::new();
    let ghost pairs = values.pairs();
    let n: usize = values.len();
    let mut i: usize = 0;
    assert(pairs.subrange(0, 0) =~= Seq::empty());
    assert(env@ =~= plain_env(to_map(pairs.subrange(0, 0)), secrets@));
    assert(kept@ =~= secret_env(to_map(pairs.subrange(0, 0)), secrets@));
    while i < n
        invariant
            i <= n,
            n == pairs.len(),
            pairs == values.pairs(),
            distinct_keys(pairs),
            env@ == plain_env(to_map(pairs.subrange(0, i as int)), secrets@),
            kept@ == secret_env(to_map(pairs.subrange(0, i as int)), secrets@),
        decreases n - i,
    {
        let (name, value) = values.at(i);
        proof {
            lemma_to_map_push(pairs, i as int);
        }
        match secrets.get(name) {
            Some(secret) => kept.insert(
                name,
                SecretValue { value: value.clone(), secret: secret.clone() },
            ),
            None => env.insert(name, value.clone()),
        }
        assert(env@ =~= plain_env(to_map(pairs.subrange(0, i + 1)), secrets@));
        assert(kept@ =~= secret_env(to_map(pairs.subrange(0, i + 1)), secrets@));
        i += 1;
    }
    assert(pairs.subrange(0, n as int) =~= pairs);
    (env, kept)
}

/// Short stable hash of the normalized configuration.
pub fn config_hash(config: &KitchenConfig) -> (r: String)
    ensures
        r@ == hash_of(config@),
        r@.len() == 16,
{
    short_digest(write_config(config).as_str().as_bytes(), 8)
}

/// Whether a plan is the one of a project that has no errors.
pub open spec fn plans(
    plan: SandboxPlan,
    project: Project,
    text: Seq<char>,
    staging: StagePlan,
) -> bool {
    &&& project.kitchen matches Some(kitchen) && plan.config@ == kitchen.config@ && plan.env@
        == plain_env(project.env->0.values@, kitchen.config@.secrets) && plan.secrets@
        == secret_env(project.env->0.values@, kitchen.config@.secrets)
    &&& plan.name@ == name_of(project.discovery.kitchen_file@, project.discovery.kitchen_dir@)
    &&& plan.kitchen_file@ == project.discovery.kitchen_file@
    &&& plan.config_hash@ == hash_of(plan.config@)
    &&& plan.kitchen_text@ == text
    &&& render_outcome(text, Ok(plan.guest_config), views(staging.rewrites@))
}

impl SandboxPlan {
    /// Build the plan; fails if the project did not validate. `text` is the
    /// kitchen file's text.
    pub fn from_project(
        project: &Project,
        text: &str,
        staging: &StagePlan,
    ) -> (r: Result<Self, PlanError>)
        ensures
            match r {
                Ok(plan) => crate::config::count_errors(project.diagnostics@) == 0
                    && project.kitchen is Some && project.env is Some && plans(
                    plan,
                    *project,
                    text@,
                    *staging,
                ),
                Err(PlanError::Invalid) => crate::config::count_errors(project.diagnostics@) > 0,
                Err(PlanError::NoKitchen) => crate::config::count_errors(project.diagnostics@) == 0
                    && project.kitchen is None,
                Err(PlanError::NoEnvironment) => crate::config::count_errors(
                    project.diagnostics@,
                ) == 0 && project.kitchen is Some && project.env is None,
                Err(PlanError::Render(error)) => crate::config::count_errors(
                    project.diagnostics@,
                ) == 0 && project.kitchen is Some && project.env is Some && guest_document(
                    text@,
                    views(staging.rewrites@),
                ) == Err::<crate::tree::NodeView, SyntaxErrorView>(error@),
            },
    {
        if project.diagnostics.has_errors() {
            return Err(PlanError::Invalid);
        }
        let kitchen = match &project.kitchen {
            Some(kitchen) => kitchen,
            None => {
                return Err(PlanError::NoKitchen);
            },
        };
        let resolved = match &project.env {
            Some(resolved) => resolved,
            None => {
                return Err(PlanError::NoEnvironment);
            },
        };
        let config = kitchen.config.clone();
        let config_hash = config_hash(&config);
        let (env, secrets) = split_env(&resolved.values, &config.secrets);
        let guest_config = match render_guest_config_with(text, staging) {
            Ok(guest_config) => guest_config,
            Err(error) => {
                return Err(PlanError::Render(error));
            },
        };
        let kitchen_file = project.discovery.kitchen_file.as_str();
        Ok(
            SandboxPlan {
                name: sandbox_name(kitchen_file, project.discovery.kitchen_dir.as_str()),
                kitchen_file: kitchen_file.to_owned(),
                config,
                config_hash,
                env,
                secrets,
                kitchen_text: text.to_owned(),
                guest_config,
            },
        )
    }

    /// Labels set at creation by this version of microkitchen.
    pub fn labels(&self, version: &str) -> (r: Vec<(&'static str, String)>)
        ensures
            r@.len() == 5,
            r@[0].0@ == labels::MANAGED@ && r@[0].1@ == "true"@,
            r@[1].0@ == labels::CONFIG@ && r@[1].1@ == self.kitchen_file@,
            r@[2].0@ == labels::CONFIG_HASH@ && r@[2].1@ == self.config_hash@,
            r@[3].0@ == labels::VERSION@ && r@[3].1@ == version@,
            r@[4].0@ == labels::BOOTSTRAPPED@ && r@[4].1@ == "false"@,
    {
        let mut r: Vec<(&'static str, String)> = Vec::new();
        r.push((labels::MANAGED, "true".to_owned()));
        r.push((labels::CONFIG, self.kitchen_file.clone()));
        r.push((labels::CONFIG_HASH, self.config_hash.clone()));
        r.push((labels::VERSION, version.to_owned()));
        r.push((labels::BOOTSTRAPPED, "false".to_owned()));
        r
    }
}

// ---------------------------------------------------------------------------
// Laws
// ---------------------------------------------------------------------------

/// Every resolved variable goes into the sandbox exactly once, as a plain
/// variable or as a secret, with its value; and nothing else does.
pub proof fn law_each_variable_goes_in_once(
    values: Map<Seq<char>, Seq<char>>,
    secrets: Map<Seq<char>, Seq<PatternView>>,
    name: Seq<char>,
)
    ensures
        !(plain_env(values, secrets).contains_key(name) && secret_env(
            values,
            secrets,
        ).contains_key(name)),
        values.contains_key(name) <==> plain_env(values, secrets).contains_key(name) || secret_env(
            values,
            secrets,
        ).contains_key(name),
        plain_env(values, secrets).contains_key(name) ==> plain_env(values, secrets)[name]
            == values[name],
        secret_env(values, secrets).contains_key(name) ==> secret_env(values, secrets)[name].0
            == values[name] && secrets.contains_key(name),
{
}

/// A planned secret keeps its value and the hosts that its configuration lists, and
/// a variable is a secret exactly where it has a value and a configuration; a
/// variable without a configuration keeps its value and goes in as it is.
pub proof fn law_secrets_keep_their_hosts(
    values: Map<Seq<char>, Seq<char>>,
    secrets: Map<Seq<char>, Seq<PatternView>>,
)
    ensures
        secret_env(values, secrets).dom() == values.dom().intersect(secrets.dom()),
        plain_env(values, secrets).dom() == values.dom().difference(secrets.dom()),
        forall|name: Seq<char>| #[trigger]
            secret_env(values, secrets).contains_key(name) ==> secret_env(values, secrets)[name].1
                == secrets[name] && secret_env(values, secrets)[name].0 == values[name],
        forall|name: Seq<char>| #[trigger]
            plain_env(values, secrets).contains_key(name) ==> plain_env(values, secrets)[name]
                == values[name],
{
    assert(secret_env(values, secrets).dom() =~= values.dom().intersect(secrets.dom()));
    assert(plain_env(values, secrets).dom() =~= values.dom().difference(secrets.dom()));
}

} // verus!
