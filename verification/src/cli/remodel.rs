//! `microkitchen remodel`: apply kitchen-file changes to the existing sandbox.
//!
//! Every change goes where it can: network rules are live through the
//! broker; resources, the disk, the environment and secrets go through the
//! SDK's `modify()`, live when the runtime allows it and otherwise at the next
//! start; mounts, ports, the network preset and chef's ids need a new sandbox.

use vstd::prelude::*;

use crate::config::hostpat::{same_patterns, PatternView};
use crate::config::json::hash_of;
use crate::config::schema::{GuestUser, SecretConfig};
use crate::maps::{sorted_keys, to_map, TextMap};
use crate::sandbox::builder::{hosts_of, secret_hosts, GUEST_PATH};
use crate::sandbox::plan::{config_hash, SandboxPlan, SecretValue};
use crate::sandbox::remodel::{
    applied_without_recreate, env_patch, kept_until_recreate, pair_texts, to_remove, to_set, Change,
    ChangeView, EnvPatch, Route,
};
use crate::state::sandbox::SandboxState;
use crate::text::{
    concat, concat3, join, join_with, opt_view, pad, padded, same, trim, trimmed, views,
};

verus! {

// ---------------------------------------------------------------------------
// Types
// ---------------------------------------------------------------------------

/// What goes through `modify()`, in groups that apply live or at the next
/// start independently.
pub struct SdkChanges {
    pub cpus: Option<u8>,
    pub memory_mib: Option<u32>,
    pub disk_mib: Option<u32>,
    pub env: EnvPatch,
    pub secrets: Vec<SecretUpdate>,
    pub secrets_remove: Vec<String>,
}

/// A secret to add or update. `value` only when it is new or changed:
/// the SDK treats any value as a rotation.
#[derive(Debug, PartialEq, Eq)]
pub struct SecretUpdate {
    pub name: String,
    pub value: Option<String>,
    pub hosts: Vec<String>,
}

/// A [`SecretUpdate`] by its contents.
#[verifier::ext_equal]
pub struct UpdateView {
    pub name: Seq<char>,
    pub value: Option<Seq<char>>,
    pub hosts: Seq<Seq<char>>,
}

impl View for SecretUpdate {
    type V = UpdateView;

    open spec fn view(&self) -> UpdateView {
        UpdateView { name: self.name@, value: opt_view(self.value), hosts: views(self.hosts@) }
    }
}

#[derive(Debug, Clone, Copy, PartialEq, Eq, Structural)]
pub enum Group {
    Resources,
    Disk,
    Env,
    Secrets,
}

/// When a change takes effect.
#[derive(Debug, Clone, Copy, PartialEq, Eq, Structural)]
pub enum Disposition {
    Live,
    NextStart,
    RequiresRestart,
    Unsupported,
}

/// One change of the SDK's plan.
#[derive(Debug, PartialEq, Eq)]
pub enum PlannedChange {
    Config {
        field: String,
        before: Option<String>,
        after: Option<String>,
        disposition: Disposition,
    },
    Secret { name: String, change: String, disposition: Disposition },
}

/// A [`PlannedChange`] by its contents.
pub enum PlannedView {
    Config {
        field: Seq<char>,
        before: Option<Seq<char>>,
        after: Option<Seq<char>>,
        disposition: Disposition,
    },
    Secret { name: Seq<char>, change: Seq<char>, disposition: Disposition },
}

impl View for PlannedChange {
    type V = PlannedView;

    open spec fn view(&self) -> PlannedView {
        match self {
            PlannedChange::Config { field, before, after, disposition } => PlannedView::Config {
                field: field@,
                before: opt_view(*before),
                after: opt_view(*after),
                disposition: *disposition,
            },
            PlannedChange::Secret { name, change, disposition } => PlannedView::Secret {
                name: name@,
                change: change@,
                disposition: *disposition,
            },
        }
    }
}

impl PlannedView {
    pub open spec fn disposition(self) -> Disposition {
        match self {
            PlannedView::Config { disposition, .. } => disposition,
            PlannedView::Secret { disposition, .. } => disposition,
        }
    }

    /// The group that a change belongs to.
    pub open spec fn group(self) -> Option<Group> {
        match self {
            PlannedView::Config { field, .. } => if field == "cpus"@ || field == "max_cpus"@
                || field == "memory"@ || field == "max_memory"@ {
                Some(Group::Resources)
            } else if field == "root_disk_size"@ {
                Some(Group::Disk)
            } else if field == "env"@ {
                Some(Group::Env)
            } else {
                None
            },
            PlannedView::Secret { .. } => Some(Group::Secrets),
        }
    }
}

// ---------------------------------------------------------------------------
// The changes
// ---------------------------------------------------------------------------

impl SdkChanges {
    /// Whether a group has changes.
    pub open spec fn has(self, group: Group) -> bool {
        match group {
            Group::Resources => self.cpus is Some || self.memory_mib is Some,
            Group::Disk => self.disk_mib is Some,
            Group::Env => self.env.set@.len() > 0 || self.env.remove@.len() > 0,
            Group::Secrets => self.secrets@.len() > 0 || self.secrets_remove@.len() > 0,
        }
    }

    /// The groups with changes, in a fixed order.
    pub open spec fn spec_groups(self) -> Seq<Group> {
        let none = Seq::<Group>::empty();
        let resources = if self.has(Group::Resources) {
            none.push(Group::Resources)
        } else {
            none
        };
        let disk = if self.has(Group::Disk) {
            resources.push(Group::Disk)
        } else {
            resources
        };
        let env = if self.has(Group::Env) {
            disk.push(Group::Env)
        } else {
            disk
        };
        if self.has(Group::Secrets) {
            env.push(Group::Secrets)
        } else {
            env
        }
    }

    pub fn groups(&self) -> (r: Vec<Group>)
        ensures
            r@ == self.spec_groups(),
    {
        let mut groups: Vec<Group> = Vec::new();
        if self.cpus.is_some() || self.memory_mib.is_some() {
            groups.push(Group::Resources);
        }
        if self.disk_mib.is_some() {
            groups.push(Group::Disk);
        }
        if !self.env.is_empty() {
            groups.push(Group::Env);
        }
        if self.secrets.len() > 0 || self.secrets_remove.len() > 0 {
            groups.push(Group::Secrets);
        }
        groups
    }
}

/// The guest's variables as they should be: `PATH` is always set.
pub open spec fn desired_env(env: Map<Seq<char>, Seq<char>>) -> Map<Seq<char>, Seq<char>> {
    if env.contains_key("PATH"@) {
        env
    } else {
        env.insert("PATH"@, GUEST_PATH@)
    }
}

/// The secrets whose value or hosts differ from what the sandbox has.
pub open spec fn updates_of(
    secrets: Seq<(Seq<char>, (Seq<char>, Seq<PatternView>))>,
    stored: Map<Seq<char>, Seq<char>>,
    applied: Map<Seq<char>, Seq<PatternView>>,
) -> Seq<UpdateView>
    decreases secrets.len(),
{
    if secrets.len() == 0 {
        Seq::empty()
    } else {
        let rest = updates_of(secrets.drop_last(), stored, applied);
        let (name, (value, allow)) = secrets.last();
        let value_changed = !(stored.contains_key(name) && stored[name] == value);
        let hosts_changed = !(applied.contains_key(name) && applied[name] == allow);
        if value_changed || hosts_changed {
            rest.push(
                UpdateView {
                    name,
                    value: if value_changed {
                        Some(value)
                    } else {
                        None
                    },
                    hosts: hosts_of(allow),
                },
            )
        } else {
            rest
        }
    }
}

/// The secrets that the sandbox has and should not have.
pub open spec fn gone(
    stored: Seq<(Seq<char>, Seq<char>)>,
    secrets: Map<Seq<char>, (Seq<char>, Seq<PatternView>)>,
) -> Seq<Seq<char>>
    decreases stored.len(),
{
    if stored.len() == 0 {
        Seq::empty()
    } else if secrets.contains_key(stored.last().0) {
        gone(stored.drop_last(), secrets)
    } else {
        gone(stored.drop_last(), secrets).push(stored.last().0)
    }
}

fn secret_updates(
    secrets: &TextMap<SecretValue>,
    stored: &TextMap<String>,
    applied: &TextMap<SecretConfig>,
) -> (r: Vec<SecretUpdate>)
    ensures
        views(r@) == updates_of(secrets.pairs(), stored@, applied@),
        sorted_keys(secrets.pairs()),
{
    let ghost pairs = secrets.pairs();
    let n: usize = secrets.len();
    let mut r: Vec<SecretUpdate> = Vec::new();
    let mut i: usize = 0;
    assert(pairs.subrange(0, 0) =~= Seq::empty());
    assert(views(r@) =~= Seq::empty());
    while i < n
        invariant
            i <= n,
            n == pairs.len(),
            pairs == secrets.pairs(),
            views(r@) == updates_of(pairs.subrange(0, i as int), stored@, applied@),
        decreases n - i,
    {
        assert(pairs.subrange(0, i + 1).drop_last() =~= pairs.subrange(0, i as int));
        assert(pairs.subrange(0, i + 1).last() == pairs[i as int]);
        let (name, secret) = secrets.at(i);
        let value_changed = match stored.get(name) {
            Some(value) => !same(value.as_str(), secret.value.as_str()),
            None => true,
        };
        let hosts_changed = match applied.get(name) {
            Some(config) => !same_patterns(&config.allow, &secret.secret.allow),
            None => true,
        };
        let ghost before = views(r@);
        if value_changed || hosts_changed {
            let update = SecretUpdate {
                name: name.to_owned(),
                value: if value_changed {
                    Some(secret.value.clone())
                } else {
                    None
                },
                hosts: secret_hosts(&secret.secret.allow),
            };
            let ghost added = update@;
            r.push(update);
            assert(views(r@) =~= before.push(added));
        }
        i += 1;
    }
    assert(pairs.subrange(0, n as int) =~= pairs);
    r
}

fn gone_secrets(stored: &TextMap<String>, secrets: &TextMap<SecretValue>) -> (r: Vec<String>)
    ensures
        views(r@) == gone(stored.pairs(), secrets@),
        sorted_keys(stored.pairs()),
{
    let ghost pairs = stored.pairs();
    let n: usize = stored.len();
    let mut r: Vec<String> = Vec::new();
    let mut i: usize = 0;
    assert(pairs.subrange(0, 0) =~= Seq::empty());
    assert(views(r@) =~= Seq::empty());
    while i < n
        invariant
            i <= n,
            n == pairs.len(),
            pairs == stored.pairs(),
            views(r@) == gone(pairs.subrange(0, i as int), secrets@),
        decreases n - i,
    {
        assert(pairs.subrange(0, i + 1).drop_last() =~= pairs.subrange(0, i as int));
        assert(pairs.subrange(0, i + 1).last() == pairs[i as int]);
        let (name, _) = stored.at(i);
        let ghost before = views(r@);
        if !secrets.contains_key(name) {
            r.push(name.to_owned());
            assert(views(r@) =~= before.push(name@));
        }
        i += 1;
    }
    assert(pairs.subrange(0, n as int) =~= pairs);
    r
}

/// Whether a patch makes the guest's variables what they should be.
pub open spec fn patches_env(
    patch: EnvPatch,
    current: Seq<(Seq<char>, Seq<char>)>,
    desired: Map<Seq<char>, Seq<char>>,
    managed: Seq<Seq<char>>,
) -> bool {
    &&& views(patch.remove@) == to_remove(current, desired, managed)
    &&& exists|pairs: Seq<(Seq<char>, Seq<char>)>|
        sorted_keys(pairs) && to_map(pairs) == desired && pair_texts(patch.set@) == #[trigger] to_set(
            pairs,
            current,
        )
}

/// The SDK-managed part of the change. Resources come from the recorded
/// configuration; the environment (`current`) and the secrets' values (`stored`)
/// from the sandbox's own stored configuration, since `state.json` never holds
/// them.
pub fn sdk_changes(
    current: &Vec<(String, String)>,
    stored: &TextMap<String>,
    state: &SandboxState,
    plan: &SandboxPlan,
) -> (r: SdkChanges)
    ensures
        r.cpus == (if plan.config.cpus != state.applied.cpus {
            Some(plan.config.cpus)
        } else {
            None
        }),
        r.memory_mib == (if plan.config.memory_mib != state.applied.memory_mib {
            Some(plan.config.memory_mib)
        } else {
            None
        }),
        r.disk_mib == (if plan.config.disk_mib != state.applied.disk_mib {
            Some(plan.config.disk_mib)
        } else {
            None
        }),
        patches_env(
            r.env,
            pair_texts(current@),
            desired_env(plan.env@),
            views(state.env_keys@),
        ),
        views(r.secrets@) == updates_of(plan.secrets.pairs(), stored@, state.applied.secrets@),
        views(r.secrets_remove@) == gone(stored.pairs(), plan.secrets@),
{
    let applied = &state.applied;
    let desired = &plan.config;
    let mut env = plan.env.copied();
    if !env.contains_key("PATH") {
        env.insert("PATH", GUEST_PATH.to_owned());
    }
    assert(env@ == desired_env(plan.env@));
    let patch = env_patch(current, &env, &state.env_keys);
    let _count: usize = env.len();
    proof {
        env.lemma_pairs();
        assert(pair_texts(patch.set@) == to_set(env.pairs(), pair_texts(current@)));
    }
    SdkChanges {
        cpus: if desired.cpus != applied.cpus {
            Some(desired.cpus)
        } else {
            None
        },
        memory_mib: if desired.memory_mib != applied.memory_mib {
            Some(desired.memory_mib)
        } else {
            None
        },
        disk_mib: if desired.disk_mib != applied.disk_mib {
            Some(desired.disk_mib)
        } else {
            None
        },
        env: patch,
        secrets: secret_updates(&plan.secrets, stored, &applied.secrets),
        secrets_remove: gone_secrets(stored, &plan.secrets),
    }
}

// ---------------------------------------------------------------------------
// When changes take effect
// ---------------------------------------------------------------------------

/// Whether the runtime can only apply something of a group after a restart.
pub open spec fn waits(group: Group, planned: Seq<PlannedView>) -> bool {
    exists|i: int|
        0 <= i < planned.len() && (#[trigger] planned[i]).group() == Some(group)
            && planned[i].disposition() == Disposition::RequiresRestart
}

/// The groups that wait for a restart, or those that do not.
pub open spec fn groups_by(groups: Seq<Group>, planned: Seq<PlannedView>, waiting: bool) -> Seq<
    Group,
>
    decreases groups.len(),
{
    if groups.len() == 0 {
        Seq::empty()
    } else if waits(groups.last(), planned) == waiting {
        groups_by(groups.drop_last(), planned, waiting).push(groups.last())
    } else {
        groups_by(groups.drop_last(), planned, waiting)
    }
}

fn disposition(change: &PlannedChange) -> (r: Disposition)
    ensures
        r == change@.disposition(),
{
    match change {
        PlannedChange::Config { disposition, .. } => *disposition,
        PlannedChange::Secret { disposition, .. } => *disposition,
    }
}

pub fn group_of(change: &PlannedChange) -> (r: Option<Group>)
    ensures
        r == change@.group(),
{
    match change {
        PlannedChange::Config { field, .. } => {
            let field = field.as_str();
            if same(field, "cpus") || same(field, "max_cpus") || same(field, "memory") || same(
                field,
                "max_memory",
            ) {
                Some(Group::Resources)
            } else if same(field, "root_disk_size") {
                Some(Group::Disk)
            } else if same(field, "env") {
                Some(Group::Env)
            } else {
                None
            }
        },
        PlannedChange::Secret { .. } => Some(Group::Secrets),
    }
}

fn must_wait(group: Group, planned: &Vec<PlannedChange>) -> (r: bool)
    ensures
        r == waits(group, views(planned@)),
{
    let ghost pv = views(planned@);
    let mut i: usize = 0;
    while i < planned.len()
        invariant
            i <= planned@.len(),
            pv == views(planned@),
            forall|k: int|
                0 <= k < i ==> !((#[trigger] pv[k]).group() == Some(group) && pv[k].disposition()
                    == Disposition::RequiresRestart),
        decreases planned@.len() - i,
    {
        assert(pv[i as int] == planned@[i as int]@);
        let here = match group_of(&planned[i]) {
            Some(found) => found == group,
            None => false,
        };
        if here && disposition(&planned[i]) == Disposition::RequiresRestart {
            return true;
        }
        i += 1;
    }
    false
}

/// Live where the SDK can, the rest recorded for the next start: the groups to
/// apply now, and those to apply later.
pub fn partition(groups: &Vec<Group>, planned: &Vec<PlannedChange>) -> (r: (
    Vec<Group>,
    Vec<Group>,
))
    ensures
        r.0@ == groups_by(groups@, views(planned@), false),
        r.1@ == groups_by(groups@, views(planned@), true),
{
    let mut now: Vec<Group> = Vec::new();
    let mut later: Vec<Group> = Vec::new();
    let mut i: usize = 0;
    assert(groups@.subrange(0, 0) =~= Seq::empty());
    while i < groups.len()
        invariant
            i <= groups@.len(),
            now@ == groups_by(groups@.subrange(0, i as int), views(planned@), false),
            later@ == groups_by(groups@.subrange(0, i as int), views(planned@), true),
        decreases groups@.len() - i,
    {
        assert(groups@.subrange(0, i + 1).drop_last() =~= groups@.subrange(0, i as int));
        assert(groups@.subrange(0, i + 1).last() == groups@[i as int]);
        if must_wait(groups[i], planned) {
            later.push(groups[i]);
        } else {
            now.push(groups[i]);
        }
        i += 1;
    }
    assert(groups@.subrange(0, groups@.len() as int) =~= groups@);
    (now, later)
}

/// Whether the guest's `mise.toml` differs from the one that is wanted; `stored`
/// is the one that it has, where that is known.
pub fn guest_changed(stored: Option<&str>, wanted: &str) -> (r: bool)
    ensures
        r == match stored {
            Some(text) => text@ != wanted@,
            None => true,
        },
{
    match stored {
        Some(text) => !crate::text::same(text, wanted),
        None => true,
    }
}

/// What is done about the guest's `mise.toml`.
#[derive(Debug, Clone, Copy, PartialEq, Eq, Structural)]
pub enum GuestUpdate {
    /// It is up to date.
    Nothing,
    /// It waits for a new sandbox, since a change to chef's ids does.
    Wait,
    /// It is written, and `mise bootstrap` runs; a stopped sandbox is started
    /// for this and stopped again.
    Now { start: bool },
}

/// What is to be done about the guest's `mise.toml`: `changed` says whether the
/// guest's copy differs.
pub fn guest_update(changed: bool, applied: GuestUser, desired: GuestUser, running: bool) -> (r:
    GuestUpdate)
    ensures
        r == (if !changed {
            GuestUpdate::Nothing
        } else if applied != desired {
            GuestUpdate::Wait
        } else {
            GuestUpdate::Now { start: !running }
        }),
{
    if !changed {
        GuestUpdate::Nothing
    } else if applied.uid != desired.uid || applied.gid != desired.gid {
        GuestUpdate::Wait
    } else {
        GuestUpdate::Now { start: !running }
    }
}

/// What a remodel comes to.
#[derive(Debug, Clone, Copy, PartialEq, Eq, Structural)]
pub enum Course {
    /// The sandbox matches the kitchen file.
    Nothing,
    /// The runtime refuses some of the changes.
    Conflicts,
    /// The sandbox is starting or stopping.
    Busy,
    /// A new sandbox takes all changes.
    Recreate,
    /// What can be changed is.
    Apply,
}

/// Whether the runtime cannot change something right now.
pub open spec fn busy(planned: Seq<PlannedView>) -> bool {
    exists|i: int|
        0 <= i < planned.len() && (#[trigger] planned[i]).disposition() == Disposition::Unsupported
}

/// Whether something needs a new sandbox.
pub open spec fn needs_recreate(changes: Seq<ChangeView>) -> bool {
    exists|i: int| 0 <= i < changes.len() && (#[trigger] changes[i]).route == Route::Recreate
}

fn any_recreate(changes: &Vec<Change>) -> (r: bool)
    ensures
        r == needs_recreate(views(changes@)),
{
    let ghost cv = views(changes@);
    let mut i: usize = 0;
    while i < changes.len()
        invariant
            i <= changes@.len(),
            cv == views(changes@),
            forall|k: int| 0 <= k < i ==> (#[trigger] cv[k]).route != Route::Recreate,
        decreases changes@.len() - i,
    {
        assert(cv[i as int] == changes@[i as int]@);
        if changes[i].route == Route::Recreate {
            return true;
        }
        i += 1;
    }
    false
}

fn any_unsupported(planned: &Vec<PlannedChange>) -> (r: bool)
    ensures
        r == busy(views(planned@)),
{
    let ghost pv = views(planned@);
    let mut i: usize = 0;
    while i < planned.len()
        invariant
            i <= planned@.len(),
            pv == views(planned@),
            forall|k: int|
                0 <= k < i ==> (#[trigger] pv[k]).disposition() != Disposition::Unsupported,
        decreases planned@.len() - i,
    {
        assert(pv[i as int] == planned@[i as int]@);
        if disposition(&planned[i]) == Disposition::Unsupported {
            return true;
        }
        i += 1;
    }
    false
}

/// What a remodel comes to. `planned` is the SDK's plan, if anything goes
/// through `modify()`, and `conflicts` whether that plan has any; `recreate`
/// whether a new sandbox is asked for.
pub fn course(
    changes: &Vec<Change>,
    planned: &Option<Vec<PlannedChange>>,
    conflicts: bool,
    guest_changed: bool,
    recreate: bool,
) -> (r: Course)
    ensures
        r == (if changes@.len() == 0 && planned is None && !guest_changed {
            Course::Nothing
        } else if planned is Some && conflicts {
            Course::Conflicts
        } else if planned is Some && busy(views(planned->0@)) {
            Course::Busy
        } else if recreate && needs_recreate(views(changes@)) {
            Course::Recreate
        } else {
            Course::Apply
        }),
{
    if changes.len() == 0 && planned.is_none() && !guest_changed {
        return Course::Nothing;
    }
    if let Some(planned) = planned {
        if conflicts {
            return Course::Conflicts;
        }
        if any_unsupported(planned) {
            return Course::Busy;
        }
    }
    if recreate && any_recreate(changes) {
        Course::Recreate
    } else {
        Course::Apply
    }
}

// ---------------------------------------------------------------------------
// What is shown
// ---------------------------------------------------------------------------

/// How wide a field is.
pub const FIELD_WIDTH: usize = 22;

pub open spec fn disposition_text(disposition: Disposition) -> Seq<char> {
    match disposition {
        Disposition::Live => "applies now"@,
        Disposition::NextStart => "at the next start"@,
        Disposition::RequiresRestart => "after `microkitchen restart`"@,
        Disposition::Unsupported => "not possible right now"@,
    }
}

pub fn describe(disposition: Disposition) -> (r: &'static str)
    ensures
        r@ == disposition_text(disposition),
{
    match disposition {
        Disposition::Live => "applies now",
        Disposition::NextStart => "at the next start",
        Disposition::RequiresRestart => "after `microkitchen restart`",
        Disposition::Unsupported => "not possible right now",
    }
}

/// `  <field> <what>   <how>` in columns.
pub open spec fn change_line(field: Seq<char>, what: Seq<char>, how: Seq<char>) -> Seq<char> {
    "  "@ + padded(field, FIELD_WIDTH as int) + " "@ + what + "   "@ + how
}

/// The lines of the changes that the SDK does not plan.
pub open spec fn change_lines(changes: Seq<ChangeView>) -> Seq<Seq<char>>
    decreases changes.len(),
{
    if changes.len() == 0 {
        Seq::empty()
    } else {
        let rest = change_lines(changes.drop_last());
        let last = changes.last();
        let what = last.before + " -> "@ + last.after;
        match last.route {
            Route::Broker => rest.push(
                change_line(
                    last.field,
                    what,
                    "applies now (the broker re-reads the kitchen file)"@,
                ),
            ),
            Route::Recreate => rest.push(
                change_line(last.field, what, "needs a new sandbox (`remodel --recreate`)"@),
            ),
            Route::Sdk => rest,
        }
    }
}

pub open spec fn or_none(text: Option<Seq<char>>) -> Seq<char> {
    match text {
        Some(text) => text,
        None => "(none)"@,
    }
}

/// The line of a change that the SDK plans.
pub open spec fn planned_line(change: PlannedView) -> Seq<char> {
    match change {
        PlannedView::Config { field, before, after, disposition } => change_line(
            field,
            or_none(before) + " -> "@ + or_none(after),
            disposition_text(disposition),
        ),
        PlannedView::Secret { name, change, disposition } => change_line(
            "secret "@ + name,
            change,
            disposition_text(disposition),
        ),
    }
}

/// The line of the guest's `mise.toml`.
pub open spec fn guest_lines(update: GuestUpdate) -> Seq<Seq<char>> {
    match update {
        GuestUpdate::Nothing => Seq::empty(),
        GuestUpdate::Wait => seq![
            "  "@ + padded("mise.toml"@, FIELD_WIDTH as int) + " "@
                + "needs a new sandbox (`remodel --recreate`)"@,
        ],
        GuestUpdate::Now { .. } => seq![
            "  "@ + padded("mise.toml"@, FIELD_WIDTH as int) + " "@
                + "updated in the guest, then `mise bootstrap` runs"@,
        ],
    }
}

fn line(field: &str, what: &str, how: &str) -> (r: String)
    ensures
        r@ == change_line(field@, what@, how@),
{
    let mut r = concat3("  ", pad(field, FIELD_WIDTH).as_str(), " ");
    r.push_str(what);
    r.push_str("   ");
    r.push_str(how);
    r
}

/// What changes, and when each change takes effect.
pub fn show(changes: &Vec<Change>, planned: &Vec<PlannedChange>, update: GuestUpdate) -> (r: Vec<
    String,
>)
    ensures
        views(r@) == change_lines(views(changes@)) + Seq::new(
            planned@.len(),
            |i: int| planned_line(views(planned@)[i]),
        ) + guest_lines(update),
{
    let ghost cv = views(changes@);
    let mut r: Vec<String> = Vec::new();
    let mut i: usize = 0;
    assert(cv.subrange(0, 0) =~= Seq::empty());
    assert(views(r@) =~= Seq::empty());
    while i < changes.len()
        invariant
            i <= changes@.len(),
            cv == views(changes@),
            views(r@) == change_lines(cv.subrange(0, i as int)),
        decreases changes@.len() - i,
    {
        assert(cv.subrange(0, i + 1).drop_last() =~= cv.subrange(0, i as int));
        assert(cv.subrange(0, i + 1).last() == changes@[i as int]@);
        let change = &changes[i];
        let what = concat3(change.before.as_str(), " -> ", change.after.as_str());
        let ghost before = views(r@);
        match change.route {
            Route::Broker => {
                let text = line(
                    change.field.as_str(),
                    what.as_str(),
                    "applies now (the broker re-reads the kitchen file)",
                );
                let ghost added = text@;
                r.push(text);
                assert(views(r@) =~= before.push(added));
            },
            Route::Recreate => {
                let text = line(
                    change.field.as_str(),
                    what.as_str(),
                    "needs a new sandbox (`remodel --recreate`)",
                );
                let ghost added = text@;
                r.push(text);
                assert(views(r@) =~= before.push(added));
            },
            Route::Sdk => {},
        }
        i += 1;
    }
    assert(cv.subrange(0, cv.len() as int) =~= cv);
    let ghost head = views(r@);
    let ghost pv = views(planned@);
    let ghost rows = Seq::new(planned@.len(), |i: int| planned_line(views(planned@)[i]));
    let mut j: usize = 0;
    assert(head + rows.subrange(0, 0) =~= head);
    while j < planned.len()
        invariant
            j <= planned@.len(),
            pv == views(planned@),
            rows == Seq::new(planned@.len(), |i: int| planned_line(views(planned@)[i])),
            views(r@) == head + rows.subrange(0, j as int),
        decreases planned@.len() - j,
    {
        let ghost done = views(r@);
        let text = match &planned[j] {
            PlannedChange::Config { field, before, after, disposition } => {
                let from = match before {
                    Some(text) => text.as_str(),
                    None => "(none)",
                };
                let to = match after {
                    Some(text) => text.as_str(),
                    None => "(none)",
                };
                line(
                    field.as_str(),
                    concat3(from, " -> ", to).as_str(),
                    describe(*disposition),
                )
            },
            PlannedChange::Secret { name, change, disposition } => line(
                concat("secret ", name.as_str()).as_str(),
                change.as_str(),
                describe(*disposition),
            ),
        };
        assert(text@ == rows[j as int]);
        r.push(text);
        assert(views(r@) =~= done.push(rows[j as int]));
        assert(views(r@) =~= head + rows.subrange(0, j + 1));
        j += 1;
    }
    assert(rows.subrange(0, rows.len() as int) =~= rows);
    let ghost body = views(r@);
    match update {
        GuestUpdate::Nothing => {},
        GuestUpdate::Wait => {
            let mut text = concat3("  ", pad("mise.toml", FIELD_WIDTH).as_str(), " ");
            text.push_str("needs a new sandbox (`remodel --recreate`)");
            r.push(text);
        },
        GuestUpdate::Now { .. } => {
            let mut text = concat3("  ", pad("mise.toml", FIELD_WIDTH).as_str(), " ");
            text.push_str("updated in the guest, then `mise bootstrap` runs");
            r.push(text);
        },
    }
    assert(views(r@) =~= body + guest_lines(update));
    r
}

pub open spec fn group_name(group: Group) -> Seq<char> {
    match group {
        Group::Resources => "resources"@,
        Group::Disk => "disk"@,
        Group::Env => "env"@,
        Group::Secrets => "secrets"@,
    }
}

/// What is said of the groups that wait for a restart.
pub fn later_message(groups: &Vec<Group>, running: bool) -> (r: String)
    ensures
        ({
            let what = join(Seq::new(groups@.len(), |i: int| group_name(groups@[i])), ", "@);
            r@ == if running {
                "run `microkitchen restart` to apply the "@ + what + " changes"@
            } else {
                "the "@ + what + " changes apply at the next start"@
            }
        }),
{
    let mut names: Vec<String> = Vec::new();
    let mut i: usize = 0;
    while i < groups.len()
        invariant
            i <= groups@.len(),
            names@.len() == i,
            forall|k: int| 0 <= k < i ==> (#[trigger] names@[k])@ == group_name(groups@[k]),
        decreases groups@.len() - i,
    {
        let name = match groups[i] {
            Group::Resources => "resources",
            Group::Disk => "disk",
            Group::Env => "env",
            Group::Secrets => "secrets",
        };
        names.push(name.to_owned());
        i += 1;
    }
    assert(views(names@) =~= Seq::new(groups@.len(), |i: int| group_name(groups@[i])));
    let what = join_with(&names, ", ");
    if running {
        concat3("run `microkitchen restart` to apply the ", what.as_str(), " changes")
    } else {
        concat3("the ", what.as_str(), " changes apply at the next start")
    }
}

/// The fields that need a new sandbox.
pub open spec fn recreate_fields(changes: Seq<ChangeView>) -> Seq<Seq<char>>
    decreases changes.len(),
{
    if changes.len() == 0 {
        Seq::empty()
    } else if changes.last().route == Route::Recreate {
        recreate_fields(changes.drop_last()).push(changes.last().field)
    } else {
        recreate_fields(changes.drop_last())
    }
}

/// What is said of the changes that need a new sandbox; `None` if there are
/// none.
pub fn not_applied(changes: &Vec<Change>) -> (r: Option<String>)
    ensures
        ({
            let fields = recreate_fields(views(changes@));
            if fields.len() == 0 {
                r is None
            } else {
                r matches Some(text) && text@ == "not applied: "@ + join(fields, ", "@)
                    + " need a new sandbox; run `microkitchen remodel --recreate` (only the mise cache is kept)"@
            }
        }),
{
    let ghost cv = views(changes@);
    let mut fields: Vec<String> = Vec::new();
    let mut i: usize = 0;
    assert(cv.subrange(0, 0) =~= Seq::empty());
    assert(views(fields@) =~= Seq::empty());
    while i < changes.len()
        invariant
            i <= changes@.len(),
            cv == views(changes@),
            views(fields@) == recreate_fields(cv.subrange(0, i as int)),
        decreases changes@.len() - i,
    {
        assert(cv.subrange(0, i + 1).drop_last() =~= cv.subrange(0, i as int));
        assert(cv.subrange(0, i + 1).last() == changes@[i as int]@);
        let ghost before = views(fields@);
        if changes[i].route == Route::Recreate {
            fields.push(changes[i].field.clone());
            assert(views(fields@) =~= before.push(cv[i as int].field));
        }
        i += 1;
    }
    assert(cv.subrange(0, cv.len() as int) =~= cv);
    if fields.len() == 0 {
        return None;
    }
    Some(
        concat3(
            "not applied: ",
            join_with(&fields, ", ").as_str(),
            " need a new sandbox; run `microkitchen remodel --recreate` (only the mise cache is kept)",
        ),
    )
}

/// Whether an answer to a question is yes.
pub fn confirms(answer: &str) -> (r: bool)
    ensures
        r == (trim(answer@) == "y"@ || trim(answer@) == "Y"@ || trim(answer@) == "yes"@),
{
    let answer = trimmed(answer);
    same(answer.as_str(), "y") || same(answer.as_str(), "Y") || same(answer.as_str(), "yes")
}

// ---------------------------------------------------------------------------
// What is recorded
// ---------------------------------------------------------------------------

/// The names of a map, in order.
pub open spec fn names_of(pairs: Seq<(Seq<char>, Seq<char>)>) -> Seq<Seq<char>> {
    Seq::new(pairs.len(), |i: int| pairs[i].0)
}

pub fn env_names(env: &TextMap<String>) -> (r: Vec<String>)
    ensures
        views(r@) == names_of(env.pairs()),
        sorted_keys(env.pairs()),
{
    let ghost pairs = env.pairs();
    let n: usize = env.len();
    let mut r: Vec<String> = Vec::new();
    let mut i: usize = 0;
    while i < n
        invariant
            i <= n,
            n == pairs.len(),
            pairs == env.pairs(),
            r@.len() == i,
            forall|k: int| 0 <= k < i ==> (#[trigger] r@[k])@ == pairs[k].0,
        decreases n - i,
    {
        let (name, _) = env.at(i);
        r.push(name.to_owned());
        i += 1;
    }
    assert(views(r@) =~= names_of(pairs));
    r
}

/// What the sandbox runs with after everything that does not need a new one.
/// The kitchen file's text counts as applied unless the guest's copy of it
/// waits.
pub fn remodeled(
    state: &SandboxState,
    plan: &SandboxPlan,
    update: GuestUpdate,
) -> (r: SandboxState)
    ensures
        r.name@ == state.name@,
        r.kitchen_file@ == state.kitchen_file@,
        r.config_hash@ == hash_of(r.applied@),
        r.applied@ == kept_until_recreate(state.applied@, plan.config@),
        opt_view(r.applied_text) == (if update is Wait {
            opt_view(state.applied_text)
        } else {
            Some(plan.kitchen_text@)
        }),
        views(r.env_keys@) == names_of(plan.env.pairs()),
        r.guest_config_pending == state.guest_config_pending,
        r.staged_digest@ == state.staged_digest@,
        views(r.staged_paths@) == views(state.staged_paths@),
        r.bootstrapped == state.bootstrapped,
        r.resolver_port == state.resolver_port,
        r.proxy_port == state.proxy_port,
{
    let waits = matches!(update, GuestUpdate::Wait);
    let applied_text = if waits {
        match &state.applied_text {
            Some(text) => Some(text.clone()),
            None => None,
        }
    } else {
        Some(plan.kitchen_text.clone())
    };
    let applied = applied_without_recreate(&state.applied, &plan.config);
    SandboxState {
        name: state.name.clone(),
        kitchen_file: state.kitchen_file.clone(),
        config_hash: config_hash(&applied),
        applied,
        applied_text,
        env_keys: env_names(&plan.env),
        guest_config_pending: state.guest_config_pending,
        staged_digest: state.staged_digest.clone(),
        staged_paths: crate::broker::bindings::clone_names(&state.staged_paths),
        bootstrapped: state.bootstrapped,
        resolver_port: state.resolver_port,
        proxy_port: state.proxy_port,
    }
}

// ---------------------------------------------------------------------------
// Laws
// ---------------------------------------------------------------------------

/// Every group of changes is applied exactly once, now or later, and a group
/// that the runtime can only apply after a restart is never applied live.
pub proof fn law_groups_apply_once(groups: Seq<Group>, planned: Seq<PlannedView>)
    ensures
        groups_by(groups, planned, true).len() + groups_by(groups, planned, false).len()
            == groups.len(),
        forall|i: int|
            0 <= i < groups_by(groups, planned, false).len() ==> !waits(
                #[trigger] groups_by(groups, planned, false)[i],
                planned,
            ),
        forall|i: int|
            0 <= i < groups_by(groups, planned, true).len() ==> waits(
                #[trigger] groups_by(groups, planned, true)[i],
                planned,
            ),
    decreases groups.len(),
{
    if groups.len() > 0 {
        law_groups_apply_once(groups.drop_last(), planned);
    }
}

/// A secret's value is sent only when it is new or changed.
pub proof fn law_unchanged_secrets_are_not_rotated(
    secrets: Seq<(Seq<char>, (Seq<char>, Seq<PatternView>))>,
    stored: Map<Seq<char>, Seq<char>>,
    applied: Map<Seq<char>, Seq<PatternView>>,
    i: int,
)
    requires
        0 <= i < updates_of(secrets, stored, applied).len(),
    ensures
        ({
            let update = updates_of(secrets, stored, applied)[i];
            update.value matches Some(value) ==> !(stored.contains_key(update.name)
                && stored[update.name] == value)
        }),
    decreases secrets.len(),
{
    let rest = updates_of(secrets.drop_last(), stored, applied);
    if i < rest.len() {
        law_unchanged_secrets_are_not_rotated(secrets.drop_last(), stored, applied, i);
    }
}

/// Which group a planned change belongs to.
pub proof fn law_groups_of_changes(change: PlannedView)
    ensures
        change matches PlannedView::Config { field, .. } ==> {
            &&& change.group() == Some(Group::Resources) <==> (field == "cpus"@ || field
                == "max_cpus"@ || field == "memory"@ || field == "max_memory"@)
            &&& change.group() == Some(Group::Disk) <==> field == "root_disk_size"@
            &&& change.group() == Some(Group::Env) <==> field == "env"@
            &&& change.group() != Some(Group::Secrets)
        },
        change is Secret ==> change.group() == Some(Group::Secrets),
{
    reveal_strlit("cpus");
    reveal_strlit("max_cpus");
    reveal_strlit("memory");
    reveal_strlit("max_memory");
    reveal_strlit("root_disk_size");
    reveal_strlit("env");
    assert("cpus"@.len() == 4 && "max_cpus"@.len() == 8 && "memory"@.len() == 6
        && "max_memory"@.len() == 10 && "root_disk_size"@.len() == 14 && "env"@.len() == 3);
}

/// What is desired of the environment is what the kitchen says, with a `PATH` in any
/// case.
pub proof fn law_there_is_always_a_path(env: Map<Seq<char>, Seq<char>>, name: Seq<char>)
    ensures
        desired_env(env).contains_key("PATH"@),
        env.contains_key(name) ==> desired_env(env).contains_key(name) && desired_env(env)[name]
            == env[name],
        desired_env(env).contains_key(name) && !env.contains_key(name) ==> name == "PATH"@
            && desired_env(env)[name] == GUEST_PATH@,
{
}

/// A secret is updated where its value or its hosts are not those that the sandbox has,
/// with its hosts, and with its value only where that is another; in order.
pub proof fn law_secrets_are_updated_where_they_differ(
    secrets: Seq<(Seq<char>, (Seq<char>, Seq<PatternView>))>,
    stored: Map<Seq<char>, Seq<char>>,
    applied: Map<Seq<char>, Seq<PatternView>>,
)
    ensures
        updates_of(secrets, stored, applied) == secrets.flat_map(
            |secret: (Seq<char>, (Seq<char>, Seq<PatternView>))|
                if stored.contains_key(secret.0) && stored[secret.0] == secret.1.0 {
                    if applied.contains_key(secret.0) && applied[secret.0] == secret.1.1 {
                        Seq::empty()
                    } else {
                        seq![
                            UpdateView {
                                name: secret.0,
                                value: None,
                                hosts: hosts_of(secret.1.1),
                            },
                        ]
                    }
                } else {
                    seq![
                        UpdateView {
                            name: secret.0,
                            value: Some(secret.1.0),
                            hosts: hosts_of(secret.1.1),
                        },
                    ]
                },
        ),
    decreases secrets.len(),
{
    let f = |secret: (Seq<char>, (Seq<char>, Seq<PatternView>))|
        if stored.contains_key(secret.0) && stored[secret.0] == secret.1.0 {
            if applied.contains_key(secret.0) && applied[secret.0] == secret.1.1 {
                Seq::<UpdateView>::empty()
            } else {
                seq![UpdateView { name: secret.0, value: None, hosts: hosts_of(secret.1.1) }]
            }
        } else {
            seq![
                UpdateView {
                    name: secret.0,
                    value: Some(secret.1.0),
                    hosts: hosts_of(secret.1.1),
                },
            ]
        };
    crate::maps::lemma_flat_map_step(secrets, f);
    if secrets.len() > 0 {
        law_secrets_are_updated_where_they_differ(secrets.drop_last(), stored, applied);
        assert(updates_of(secrets, stored, applied) =~= secrets.flat_map(f));
    }
}

/// A secret that the sandbox has and the kitchen has no longer is removed; in order.
pub proof fn law_secrets_are_removed_where_they_are_gone(
    stored: Seq<(Seq<char>, Seq<char>)>,
    secrets: Map<Seq<char>, (Seq<char>, Seq<PatternView>)>,
)
    ensures
        gone(stored, secrets) == stored.filter(
            |pair: (Seq<char>, Seq<char>)| !secrets.contains_key(pair.0),
        ).map_values(|pair: (Seq<char>, Seq<char>)| pair.0),
    decreases stored.len(),
{
    reveal(Seq::filter);
    let keep = |pair: (Seq<char>, Seq<char>)| !secrets.contains_key(pair.0);
    let name = |pair: (Seq<char>, Seq<char>)| pair.0;
    if stored.len() > 0 {
        law_secrets_are_removed_where_they_are_gone(stored.drop_last(), secrets);
    }
    assert(gone(stored, secrets) =~= stored.filter(keep).map_values(name));
}

/// Of the groups those wait of which some planned change needs a restart, and the others
/// do not; in order, each group in one of the two.
pub proof fn law_groups_wait_for_a_restart(
    groups: Seq<Group>,
    planned: Seq<PlannedView>,
    waiting: bool,
)
    ensures
        groups_by(groups, planned, waiting) == groups.filter(
            |group: Group|
                waiting == exists|i: int|
                    0 <= i < planned.len() && (#[trigger] planned[i]).group() == Some(group)
                        && planned[i].disposition() == Disposition::RequiresRestart,
        ),
    decreases groups.len(),
{
    reveal(Seq::filter);
    let keep = |group: Group|
        waiting == exists|i: int|
            0 <= i < planned.len() && (#[trigger] planned[i]).group() == Some(group)
                && planned[i].disposition() == Disposition::RequiresRestart;
    if groups.len() > 0 {
        law_groups_wait_for_a_restart(groups.drop_last(), planned, waiting);
        assert(keep(groups.last()) == (waits(groups.last(), planned) == waiting));
    }
}

/// What is shown of the changes: those of the broker apply now, those that need a new
/// sandbox say so, each with what was and what is to be; the others are the runtime's.
pub proof fn law_changes_are_shown(changes: Seq<ChangeView>)
    ensures
        change_lines(changes) == changes.flat_map(
            |change: ChangeView|
                match change.route {
                    Route::Broker => seq![
                        "  "@ + padded(change.field, 22) + " "@ + (change.before + " -> "@
                            + change.after) + "   "@
                            + "applies now (the broker re-reads the kitchen file)"@,
                    ],
                    Route::Recreate => seq![
                        "  "@ + padded(change.field, 22) + " "@ + (change.before + " -> "@
                            + change.after) + "   "@
                            + "needs a new sandbox (`remodel --recreate`)"@,
                    ],
                    Route::Sdk => Seq::empty(),
                },
        ),
        recreate_fields(changes) == changes.filter(
            |change: ChangeView| change.route == Route::Recreate,
        ).map_values(|change: ChangeView| change.field),
        needs_recreate(changes) <==> recreate_fields(changes).len() > 0,
    decreases changes.len(),
{
    let f = |change: ChangeView|
        match change.route {
            Route::Broker => seq![
                "  "@ + padded(change.field, 22) + " "@ + (change.before + " -> "@ + change.after)
                    + "   "@ + "applies now (the broker re-reads the kitchen file)"@,
            ],
            Route::Recreate => seq![
                "  "@ + padded(change.field, 22) + " "@ + (change.before + " -> "@ + change.after)
                    + "   "@ + "needs a new sandbox (`remodel --recreate`)"@,
            ],
            Route::Sdk => Seq::<Seq<char>>::empty(),
        };
    reveal(Seq::filter);
    let keep = |change: ChangeView| change.route == Route::Recreate;
    let name = |change: ChangeView| change.field;
    crate::maps::lemma_flat_map_step(changes, f);
    if changes.len() > 0 {
        let rest = changes.drop_last();
        law_changes_are_shown(rest);
        assert(change_lines(changes) =~= changes.flat_map(f));
        assert(changes[changes.len() - 1] == changes.last());
        if needs_recreate(rest) {
            let i = choose|i: int|
                0 <= i < rest.len() && (#[trigger] rest[i]).route == Route::Recreate;
            assert(changes[i] == rest[i]);
        }
        if needs_recreate(changes) && changes.last().route != Route::Recreate {
            let i = choose|i: int|
                0 <= i < changes.len() && (#[trigger] changes[i]).route == Route::Recreate;
            assert(rest[i] == changes[i]);
        }
    }
    assert(recreate_fields(changes) =~= changes.filter(keep).map_values(name));
}

/// What is shown of what the runtime plans.
pub proof fn law_planned_changes_are_shown(
    field: Seq<char>,
    before: Option<Seq<char>>,
    after: Option<Seq<char>>,
    change: Seq<char>,
    disposition: Disposition,
)
    ensures
        ({
            let how = match disposition {
                Disposition::Live => "applies now"@,
                Disposition::NextStart => "at the next start"@,
                Disposition::RequiresRestart => "after `microkitchen restart`"@,
                Disposition::Unsupported => "not possible right now"@,
            };
            let was = match before {
                Some(text) => text,
                None => "(none)"@,
            };
            let is = match after {
                Some(text) => text,
                None => "(none)"@,
            };
            &&& planned_line(PlannedView::Config { field, before, after, disposition }) == "  "@
                + padded(field, 22) + " "@ + (was + " -> "@ + is) + "   "@ + how
            &&& planned_line(PlannedView::Secret { name: field, change, disposition }) == "  "@
                + padded("secret "@ + field, 22) + " "@ + change + "   "@ + how
        }),
{
}

} // verus!
