//! `up`, `shell`, `exec`, `start`, `stop`, `restart`, `down`, `status`, `list`.

use vstd::prelude::*;

use crate::broker::bindings::{clone_names, has_name};
use crate::broker::protocol::Mode;
use crate::cli::remodel::{env_names, names_of};
use crate::config::schema::{NetworkPreset, CHEF};
use crate::sandbox::builder::{Egress, ROOT};
use crate::sandbox::plan::SandboxPlan;
use crate::sandbox::staging::StageArchive;
use crate::state::sandbox::SandboxState;
use crate::text::{
    chars, concat3, opt_view, pad, padded, same, split, split_at, trim, trimmed, views,
};
use crate::time::Duration;

verus! {

/// How long `up`/`start` wait for dockerd.
pub const DOCKER_READY_TIMEOUT: Duration = 90_000_000_000;

// ---------------------------------------------------------------------------
// Sessions
// ---------------------------------------------------------------------------

/// Who `shell` and `exec` run as. chef's home and shell come from the guest,
/// since `[bootstrap.users.chef]` may change them.
#[derive(Debug, PartialEq, Eq)]
pub struct Session {
    pub user: &'static str,
    pub home: String,
    pub shell: String,
}

/// The guest user that a command runs as.
pub open spec fn user_of(root: bool) -> Seq<char> {
    if root {
        ROOT@
    } else {
        CHEF@
    }
}

pub fn session_user(root: bool) -> (r: &'static str)
    ensures
        r@ == user_of(root),
{
    if root {
        ROOT
    } else {
        CHEF
    }
}

impl Session {
    /// The session of the user whose `getent passwd` entry this is; `found` says
    /// whether there is one.
    pub fn lookup(entry: &str, found: bool, root: bool) -> (r: Result<Self, String>)
        ensures
            ({
                let fields = split(trim(entry@), ':');
                if !found || fields.len() < 7 {
                    r matches Err(text) && text@ == "the sandbox has no "@ + user_of(root)
                        + " user yet; run `microkitchen bootstrap`"@
                } else {
                    r matches Ok(session) && session.user@ == user_of(root) && session.home@
                        == fields[5] && session.shell@ == fields[6]
                }
            }),
    {
        let user = session_user(root);
        let line = trimmed(entry);
        let fields = split_at(&chars(line.as_str()), ':');
        let ghost fv = views(fields@);
        if !found || fields.len() < 7 {
            return Err(
                concat3(
                    "the sandbox has no ",
                    user,
                    " user yet; run `microkitchen bootstrap`",
                ),
            );
        }
        assert(fv[5] == fields@[5]@ && fv[6] == fields@[6]@);
        Ok(Session { user, home: fields[5].clone(), shell: fields[6].clone() })
    }

    /// The variables of the session; its directory is the home.
    pub fn env(&self) -> (r: Vec<(&'static str, String)>)
        ensures
            r@.len() == 3,
            r@[0].0@ == "HOME"@ && r@[0].1@ == self.home@,
            r@[1].0@ == "USER"@ && r@[1].1@ == self.user@,
            r@[2].0@ == "LOGNAME"@ && r@[2].1@ == self.user@,
    {
        let mut r: Vec<(&'static str, String)> = Vec::new();
        r.push(("HOME", self.home.clone()));
        r.push(("USER", self.user.to_owned()));
        r.push(("LOGNAME", self.user.to_owned()));
        r
    }
}

// ---------------------------------------------------------------------------
// Decisions
// ---------------------------------------------------------------------------

/// How `up` gets a sandbox.
#[derive(Debug, Clone, Copy, PartialEq, Eq, Structural)]
pub enum UpCourse {
    /// There is none yet.
    Create,
    /// The one that is there is replaced.
    Recreate,
    /// The one that is there is started; `outdated` if the configuration changed
    /// since it was created.
    Start { outdated: bool },
}

/// What is said of a sandbox whose configuration changed.
pub const OUTDATED: &'static str =
    "note: the configuration changed since this sandbox was created; run `microkitchen remodel` to apply the changes";

/// Whether a sandbox has the configuration with this hash, by its label.
pub open spec fn is_current(label: Option<Seq<char>>, config_hash: Seq<char>) -> bool {
    label == Some(config_hash)
}

fn current(label: &Option<String>, config_hash: &str) -> (r: bool)
    ensures
        r == is_current(opt_view(*label), config_hash@),
{
    match label {
        Some(hash) => same(hash.as_str(), config_hash),
        None => false,
    }
}

/// How `up` gets a sandbox: `label` is the config hash of the one that exists.
pub fn up_course(exists: bool, label: &Option<String>, config_hash: &str, recreate: bool) -> (r:
    UpCourse)
    ensures
        r == (if !exists {
            UpCourse::Create
        } else if recreate {
            UpCourse::Recreate
        } else {
            UpCourse::Start { outdated: !is_current(opt_view(*label), config_hash@) }
        }),
{
    if !exists {
        UpCourse::Create
    } else if recreate {
        UpCourse::Recreate
    } else {
        UpCourse::Start { outdated: !current(label, config_hash) }
    }
}

/// How a sandbox gets its endpoints at the broker.
#[derive(Debug, Clone, Copy, PartialEq, Eq, Structural)]
pub enum EgressStep {
    /// It has no network.
    NoNetwork,
    /// It was created without the broker.
    Unmediated,
    /// It is registered.
    Register { mode: Mode, resolver_port: Option<u16>, proxy_port: Option<u16> },
}

/// How a sandbox gets its endpoints: a fresh one, which has no state yet, gets
/// new ones; an existing one keeps the ones it was created with. The broker
/// mediates only once the sandbox is bootstrapped.
pub open spec fn egress_of(preset: NetworkPreset, state: Option<&SandboxState>) -> EgressStep {
    if preset == NetworkPreset::Disabled {
        EgressStep::NoNetwork
    } else {
        match state {
            None => EgressStep::Register {
                mode: Mode::Open,
                resolver_port: None,
                proxy_port: None,
            },
            Some(state) => if state.proxy_port is None {
                EgressStep::Unmediated
            } else {
                EgressStep::Register {
                    mode: if state.bootstrapped {
                        Mode::Enforce
                    } else {
                        Mode::Open
                    },
                    resolver_port: state.resolver_port,
                    proxy_port: state.proxy_port,
                }
            },
        }
    }
}

pub fn connect_egress(preset: NetworkPreset, state: Option<&SandboxState>) -> (r: EgressStep)
    ensures
        r == egress_of(preset, state),
{
    if preset == NetworkPreset::Disabled {
        return EgressStep::NoNetwork;
    }
    match state {
        None => EgressStep::Register { mode: Mode::Open, resolver_port: None, proxy_port: None },
        Some(state) => if state.proxy_port.is_none() {
            EgressStep::Unmediated
        } else {
            EgressStep::Register {
                mode: if state.bootstrapped {
                    Mode::Enforce
                } else {
                    Mode::Open
                },
                resolver_port: state.resolver_port,
                proxy_port: state.proxy_port,
            }
        },
    }
}

/// What is said of a sandbox that was created without the broker.
pub fn unmediated_note(name: &str) -> (r: String)
    ensures
        r@ == "note: "@ + name@
            + " was created without the egress broker; recreate it with `microkitchen up --recreate` to mediate its traffic"@,
{
    concat3(
        "note: ",
        name,
        " was created without the egress broker; recreate it with `microkitchen up --recreate` to mediate its traffic",
    )
}

/// Why a project has no sandbox to work with.
pub fn no_sandbox(kitchen_file: &str) -> (r: String)
    ensures
        r@ == "there is no sandbox for "@ + kitchen_file@ + " yet; run `microkitchen up`"@,
{
    concat3("there is no sandbox for ", kitchen_file, " yet; run `microkitchen up`")
}

/// The paths of an earlier stage that the new one does not own.
pub open spec fn stale_of(staged: Seq<Seq<char>>, roots: Seq<Seq<char>>) -> Seq<Seq<char>>
    decreases staged.len(),
{
    if staged.len() == 0 {
        Seq::empty()
    } else if roots.contains(staged.last()) {
        stale_of(staged.drop_last(), roots)
    } else {
        stale_of(staged.drop_last(), roots).push(staged.last())
    }
}

/// The guest paths that an earlier stage left and the new one does not own.
pub fn stale_paths(staged: &Vec<String>, roots: &Vec<String>) -> (r: Vec<String>)
    ensures
        views(r@) == stale_of(views(staged@), views(roots@)),
{
    let ghost sv = views(staged@);
    let mut r: Vec<String> = Vec::new();
    let mut i: usize = 0;
    assert(sv.subrange(0, 0) =~= Seq::empty());
    assert(views(r@) =~= Seq::empty());
    while i < staged.len()
        invariant
            i <= staged@.len(),
            sv == views(staged@),
            views(r@) == stale_of(sv.subrange(0, i as int), views(roots@)),
        decreases staged@.len() - i,
    {
        assert(sv.subrange(0, i + 1).drop_last() =~= sv.subrange(0, i as int));
        assert(sv.subrange(0, i + 1).last() == sv[i as int]);
        let ghost before = views(r@);
        if !has_name(roots, staged[i].as_str()) {
            r.push(staged[i].clone());
            assert(views(r@) =~= before.push(sv[i as int]));
        }
        i += 1;
    }
    assert(sv.subrange(0, sv.len() as int) =~= sv);
    r
}

/// What is recorded of a sandbox that was just created.
pub fn created(plan: &SandboxPlan, stage: &StageArchive, egress: &Option<Egress>) -> (r:
    SandboxState)
    ensures
        r.name@ == plan.name@,
        r.kitchen_file@ == plan.kitchen_file@,
        r.config_hash@ == plan.config_hash@,
        r.applied@ == plan.config@,
        opt_view(r.applied_text) == Some(plan.kitchen_text@),
        views(r.env_keys@) == names_of(plan.env.pairs()),
        !r.guest_config_pending,
        r.staged_digest@ == stage.digest@,
        views(r.staged_paths@) == views(stage.roots@),
        !r.bootstrapped,
        match egress {
            Some(egress) => r.resolver_port == Some(egress.resolver_port) && r.proxy_port == Some(
                egress.proxy_port,
            ),
            None => r.resolver_port is None && r.proxy_port is None,
        },
{
    let (resolver_port, proxy_port) = match egress {
        Some(egress) => (Some(egress.resolver_port), Some(egress.proxy_port)),
        None => (None, None),
    };
    SandboxState {
        name: plan.name.clone(),
        kitchen_file: plan.kitchen_file.clone(),
        config_hash: plan.config_hash.clone(),
        applied: plan.config.clone(),
        applied_text: Some(plan.kitchen_text.clone()),
        env_keys: env_names(&plan.env),
        guest_config_pending: false,
        staged_digest: stage.digest.clone(),
        staged_paths: clone_names(&stage.roots),
        bootstrapped: false,
        resolver_port,
        proxy_port,
    }
}

// ---------------------------------------------------------------------------
// Reports
// ---------------------------------------------------------------------------

/// What `status` reports.
#[derive(Debug, PartialEq, Eq)]
pub struct StatusReport {
    pub name: String,
    pub kitchen_file: String,
    pub exists: bool,
    pub status: Option<String>,
    /// Whether the sandbox was created from the current configuration.
    pub up_to_date: Option<bool>,
}

/// Whether a sandbox is up to date: `None` if there is no sandbox, or no
/// current configuration.
pub fn up_to_date(exists: bool, label: &Option<String>, current_hash: &Option<String>) -> (r: Option<
    bool,
>)
    ensures
        r == (match (exists, *current_hash) {
            (true, Some(hash)) => Some(is_current(opt_view(*label), hash@)),
            _ => None,
        }),
{
    if !exists {
        return None;
    }
    match current_hash {
        Some(hash) => Some(current(label, hash.as_str())),
        None => None,
    }
}

pub open spec fn status_row(label: Seq<char>, value: Seq<char>) -> Seq<char> {
    padded(label, 10) + " "@ + value
}

fn make_row(label: &str, value: &str) -> (r: String)
    ensures
        r@ == status_row(label@, value@),
{
    concat3(pad(label, 10).as_str(), " ", value)
}

impl StatusReport {
    pub fn rows(&self) -> (r: Vec<String>)
        ensures
            views(r@) == seq![
                status_row("sandbox"@, self.name@),
                status_row("kitchen"@, self.kitchen_file@),
                status_row(
                    "status"@,
                    match self.status {
                        Some(status) => status@,
                        None => "not created"@,
                    },
                ),
            ] + (match self.up_to_date {
                Some(true) => seq![status_row("config"@, "up to date"@)],
                Some(false) => seq![
                    status_row(
                        "config"@,
                        "configuration changed; run `microkitchen remodel`"@,
                    ),
                ],
                None => Seq::<Seq<char>>::empty(),
            }),
    {
        let mut r: Vec<String> = Vec::new();
        r.push(make_row("sandbox", self.name.as_str()));
        r.push(make_row("kitchen", self.kitchen_file.as_str()));
        let status = match &self.status {
            Some(status) => status.as_str(),
            None => "not created",
        };
        r.push(make_row("status", status));
        match self.up_to_date {
            Some(true) => {
                r.push(make_row("config", "up to date"));
            },
            Some(false) => {
                r.push(make_row("config", "configuration changed; run `microkitchen remodel`"));
            },
            None => {},
        }
        assert(views(r@) =~= seq![
            status_row("sandbox"@, self.name@),
            status_row("kitchen"@, self.kitchen_file@),
            status_row(
                "status"@,
                match self.status {
                    Some(status) => status@,
                    None => "not created"@,
                },
            ),
        ] + (match self.up_to_date {
            Some(true) => seq![status_row("config"@, "up to date"@)],
            Some(false) => seq![
                status_row("config"@, "configuration changed; run `microkitchen remodel`"@),
            ],
            None => Seq::<Seq<char>>::empty(),
        }));
        r
    }
}

/// The line of a sandbox in `list`.
pub fn list_line(name: &str, status: &str, kitchen_file: Option<&str>) -> (r: String)
    ensures
        r@ == padded(name@, 40) + " "@ + padded(status@, 10) + " "@ + (match kitchen_file {
            Some(file) => file@,
            None => "-"@,
        }),
{
    let mut r = concat3(pad(name, 40).as_str(), " ", pad(status, 10).as_str());
    r.push_str(" ");
    match kitchen_file {
        Some(file) => {
            r.push_str(file);
        },
        None => {
            r.push_str("-");
        },
    }
    r
}

// ---------------------------------------------------------------------------
// Laws
// ---------------------------------------------------------------------------

/// A sandbox's endpoints are fixed: an existing sandbox is registered with the
/// ports that it was created with, and only a bootstrapped one is mediated.
pub proof fn law_endpoints_are_fixed(preset: NetworkPreset, state: SandboxState)
    ensures
        egress_of(preset, Some(&state)) matches EgressStep::Register {
            mode,
            resolver_port,
            proxy_port,
        } ==> resolver_port == state.resolver_port && proxy_port == state.proxy_port && (mode
            == Mode::Enforce <==> state.bootstrapped),
{
}

/// How a sandbox reaches the network: not at all where it has none; through the broker
/// at the ports that it was made with, enforced once it is bootstrapped and open until
/// then; and past it where it was made without a proxy.
pub proof fn law_sandboxes_reach_the_network(preset: NetworkPreset, state: Option<&SandboxState>)
    ensures
        egress_of(preset, state) == EgressStep::NoNetwork <==> preset == NetworkPreset::Disabled,
        preset != NetworkPreset::Disabled ==> match state {
            None => egress_of(preset, state) == (EgressStep::Register {
                mode: Mode::Open,
                resolver_port: None,
                proxy_port: None,
            }),
            Some(state) => {
                &&& egress_of(preset, Some(state)) == EgressStep::Unmediated
                    <==> state.proxy_port is None
                &&& egress_of(preset, Some(state)) matches EgressStep::Register {
                    mode,
                    resolver_port,
                    proxy_port,
                } ==> resolver_port == state.resolver_port && proxy_port == state.proxy_port && (mode
                    == Mode::Enforce <==> state.bootstrapped)
            },
        },
{
}

/// What was staged and is staged no longer is stale; in order.
pub proof fn law_stale_paths(staged: Seq<Seq<char>>, roots: Seq<Seq<char>>)
    ensures
        stale_of(staged, roots) == staged.filter(|path: Seq<char>| !roots.contains(path)),
    decreases staged.len(),
{
    reveal(Seq::filter);
    if staged.len() > 0 {
        law_stale_paths(staged.drop_last(), roots);
    }
}

/// Commands run as root where that is asked for and as chef otherwise; a sandbox is
/// current where its label is the hash of the configuration.
pub proof fn law_users_and_labels(root: bool, label: Seq<char>, config_hash: Seq<char>)
    ensures
        user_of(true) == "root"@,
        user_of(false) == "chef"@,
        is_current(Some(label), config_hash) <==> label == config_hash,
        !is_current(None, config_hash),
        status_row(label, config_hash) == padded(label, 10) + seq![' '] + config_hash,
{
    reveal_strlit(" ");
    assert(" "@ =~= seq![' ']);
}

} // verus!
