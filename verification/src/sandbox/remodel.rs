//! What `microkitchen remodel` changes, apart from the calls that apply it.
//!
//! Kitchen-level changes are routed three ways: through the runtime's
//! `modify()` (whose dry run decides live, next start or restart), through the
//! broker (network rules, which it re-reads from the kitchen file), or to a new
//! sandbox (what microsandbox fixes at creation).

use vstd::prelude::*;

use crate::broker::bindings::has_name;
use crate::config::hostpat::{HostPattern, PatternView};
use crate::config::schema::{
    clone_mounts, clone_ports, lemma_mapping_text, GuestUser, KitchenConfig, KitchenView, Mount,
    MountView, NetworkPreset, NetworkView, PortMapping,
};
use crate::config::size::mib_text;
use crate::maps::{has_key, to_map, TextMap};
use crate::text::{
    concat, concat3, decimal, decimal_string, join, join_with, lemma_decimal, lemma_split_concat,
    lemma_split_single, same, split, views,
};

verus! {

// ---------------------------------------------------------------------------
// Types
// ---------------------------------------------------------------------------

/// How a change reaches the sandbox.
#[derive(Debug, Clone, Copy, PartialEq, Eq, Structural)]
pub enum Route {
    /// `modify()`; the runtime's dry run says whether it is live.
    Sdk,
    /// The broker re-reads the kitchen file: live.
    Broker,
    /// Only a new sandbox can have it.
    Recreate,
}

/// One changed field of the kitchen configuration.
#[derive(Debug, PartialEq, Eq)]
pub struct Change {
    pub field: String,
    pub before: String,
    pub after: String,
    pub route: Route,
}

/// A [`Change`] by its contents.
#[verifier::ext_equal]
pub struct ChangeView {
    pub field: Seq<char>,
    pub before: Seq<char>,
    pub after: Seq<char>,
    pub route: Route,
}

impl View for Change {
    type V = ChangeView;

    open spec fn view(&self) -> ChangeView {
        ChangeView {
            field: self.field@,
            before: self.before@,
            after: self.after@,
            route: self.route,
        }
    }
}

/// Environment edits for `modify()`.
#[derive(Debug, PartialEq, Eq)]
pub struct EnvPatch {
    pub set: Vec<(String, String)>,
    pub remove: Vec<String>,
}

/// The contents of a list of variables.
pub open spec fn pair_texts(pairs: Seq<(String, String)>) -> Seq<(Seq<char>, Seq<char>)> {
    Seq::new(pairs.len(), |i: int| (pairs[i].0@, pairs[i].1@))
}

impl EnvPatch {
    pub fn is_empty(&self) -> (r: bool)
        ensures
            r == (self.set@.len() == 0 && self.remove@.len() == 0),
    {
        self.set.len() == 0 && self.remove.len() == 0
    }
}

impl Default for EnvPatch {
    fn default() -> (r: Self)
        ensures
            r.set@.len() == 0,
            r.remove@.len() == 0,
    {
        EnvPatch { set: Vec::new(), remove: Vec::new() }
    }
}

// ---------------------------------------------------------------------------
// Texts
// ---------------------------------------------------------------------------

/// A list as it is shown: its texts, or a word that there are none.
pub open spec fn listed(texts: Seq<Seq<char>>) -> Seq<char> {
    if texts.len() == 0 {
        "(none)"@
    } else {
        join(texts, ", "@)
    }
}

pub open spec fn patterns_text(list: Seq<PatternView>) -> Seq<char> {
    listed(Seq::new(list.len(), |i: int| list[i].text()))
}

pub open spec fn ports_text(list: Seq<PortMapping>) -> Seq<char> {
    listed(Seq::new(list.len(), |i: int| list[i].spec_text()))
}

/// A mount as a change shows it.
pub open spec fn mount_text(mount: MountView) -> Seq<char> {
    let paths = mount.host + " -> "@ + mount.guest;
    if mount.readonly {
        paths + " (read-only)"@
    } else {
        paths
    }
}

pub open spec fn mounts_text(list: Seq<MountView>) -> Seq<char> {
    listed(Seq::new(list.len(), |i: int| mount_text(list[i])))
}

/// What a configuration says of a secret.
pub open spec fn secret_text(secrets: Map<Seq<char>, Seq<PatternView>>, name: Seq<char>) -> Seq<
    char,
> {
    if secrets.contains_key(name) {
        "allowed for "@ + patterns_text(secrets[name])
    } else {
        "(none)"@
    }
}

fn show_list(texts: &Vec<String>) -> (r: String)
    ensures
        r@ == listed(views(texts@)),
{
    if texts.len() == 0 {
        return "(none)".to_owned();
    }
    join_with(texts, ", ")
}

fn patterns(list: &Vec<HostPattern>) -> (r: String)
    ensures
        r@ == patterns_text(views(list@)),
{
    let mut texts: Vec<String> = Vec::new();
    let mut i: usize = 0;
    while i < list.len()
        invariant
            i <= list@.len(),
            texts@.len() == i,
            forall|k: int| 0 <= k < i ==> (#[trigger] texts@[k])@ == views(list@)[k].text(),
        decreases list@.len() - i,
    {
        texts.push(list[i].to_text());
        i += 1;
    }
    assert(views(texts@) =~= Seq::new(
        views(list@).len(),
        |i: int| views(list@)[i].text(),
    ));
    show_list(&texts)
}

fn ports(list: &Vec<PortMapping>) -> (r: String)
    ensures
        r@ == ports_text(list@),
{
    let mut texts: Vec<String> = Vec::new();
    let mut i: usize = 0;
    while i < list.len()
        invariant
            i <= list@.len(),
            texts@.len() == i,
            forall|k: int| 0 <= k < i ==> (#[trigger] texts@[k])@ == list@[k].spec_text(),
        decreases list@.len() - i,
    {
        texts.push(list[i].to_text());
        i += 1;
    }
    assert(views(texts@) =~= Seq::new(list@.len(), |i: int| list@[i].spec_text()));
    show_list(&texts)
}

fn mounts(list: &Vec<Mount>) -> (r: String)
    ensures
        r@ == mounts_text(views(list@)),
{
    let mut texts: Vec<String> = Vec::new();
    let mut i: usize = 0;
    while i < list.len()
        invariant
            i <= list@.len(),
            texts@.len() == i,
            forall|k: int| 0 <= k < i ==> (#[trigger] texts@[k])@ == mount_text(views(list@)[k]),
        decreases list@.len() - i,
    {
        let mut text = concat3(list[i].host.as_str(), " -> ", list[i].guest.as_str());
        if list[i].readonly {
            text.push_str(" (read-only)");
        }
        texts.push(text);
        i += 1;
    }
    assert(views(texts@) =~= Seq::new(
        views(list@).len(),
        |i: int| mount_text(views(list@)[i]),
    ));
    show_list(&texts)
}

/// MiB as a change shows them: whole GiB as `4G`, anything else as `1536M`.
pub fn format_mib(mib: u32) -> (r: String)
    ensures
        r@ == mib_text(mib as nat),
{
    crate::config::size::format_mib(mib)
}

// ---------------------------------------------------------------------------
// Changes
// ---------------------------------------------------------------------------

/// A list of changes with one more, if the field differs.
pub open spec fn with_change(
    changes: Seq<ChangeView>,
    field: Seq<char>,
    before: Seq<char>,
    after: Seq<char>,
    route: Route,
) -> Seq<ChangeView> {
    if before == after {
        changes
    } else {
        changes.push(ChangeView { field, before, after, route })
    }
}

/// The changed fields besides the secrets.
pub open spec fn field_changes(applied: KitchenView, desired: KitchenView) -> Seq<ChangeView> {
    let c = with_change(
        Seq::empty(),
        "cpus"@,
        decimal(applied.cpus as nat),
        decimal(desired.cpus as nat),
        Route::Sdk,
    );
    let c = with_change(
        c,
        "memory"@,
        mib_text(applied.memory_mib as nat),
        mib_text(desired.memory_mib as nat),
        Route::Sdk,
    );
    let c = with_change(
        c,
        "disk"@,
        mib_text(applied.disk_mib as nat),
        mib_text(desired.disk_mib as nat),
        Route::Sdk,
    );
    let c = with_change(
        c,
        "network.allow"@,
        patterns_text(applied.network.allow),
        patterns_text(desired.network.allow),
        Route::Broker,
    );
    let c = with_change(
        c,
        "network.deny"@,
        patterns_text(applied.network.deny),
        patterns_text(desired.network.deny),
        Route::Broker,
    );
    let c = with_change(
        c,
        "network"@,
        applied.network.preset.spec_text(),
        desired.network.preset.spec_text(),
        Route::Recreate,
    );
    let c = with_change(
        c,
        "network.ports"@,
        ports_text(applied.network.ports),
        ports_text(desired.network.ports),
        Route::Recreate,
    );
    let c = with_change(
        c,
        "mounts"@,
        mounts_text(applied.mounts),
        mounts_text(desired.mounts),
        Route::Recreate,
    );
    with_change(
        c,
        "user"@,
        applied.user.spec_text(),
        desired.user.spec_text(),
        Route::Recreate,
    )
}

/// The changes with those of some secrets, leaving out names that `seen` has.
pub open spec fn secret_changes(
    changes: Seq<ChangeView>,
    names: Seq<Seq<char>>,
    seen: Map<Seq<char>, Seq<PatternView>>,
    applied: KitchenView,
    desired: KitchenView,
) -> Seq<ChangeView>
    decreases names.len(),
{
    if names.len() == 0 {
        changes
    } else {
        let rest = secret_changes(changes, names.drop_last(), seen, applied, desired);
        let name = names.last();
        if seen.contains_key(name) {
            rest
        } else {
            with_change(
                rest,
                "secret "@ + name,
                secret_text(applied.secrets, name),
                secret_text(desired.secrets, name),
                Route::Sdk,
            )
        }
    }
}

/// The keys of a list of pairs.
pub open spec fn keys_of<V>(pairs: Seq<(Seq<char>, V)>) -> Seq<Seq<char>> {
    Seq::new(pairs.len(), |i: int| pairs[i].0)
}

/// The changed fields: those of the configuration in a fixed order, then the
/// secrets, those applied first.
pub open spec fn all_changes(applied: KitchenConfig, desired: KitchenConfig) -> Seq<ChangeView> {
    let fields = field_changes(applied@, desired@);
    let old_secrets = secret_changes(
        fields,
        keys_of(applied.secrets.pairs()),
        Map::empty(),
        applied@,
        desired@,
    );
    secret_changes(
        old_secrets,
        keys_of(desired.secrets.pairs()),
        applied@.secrets,
        applied@,
        desired@,
    )
}

fn push_change(
    changes: &mut Vec<Change>,
    field: &str,
    before: String,
    after: String,
    route: Route,
)
    ensures
        views(final(changes)@) == with_change(
            views(old(changes)@),
            field@,
            before@,
            after@,
            route,
        ),
{
    if !same(before.as_str(), after.as_str()) {
        let ghost done = views(changes@);
        let ghost change = ChangeView { field: field@, before: before@, after: after@, route };
        changes.push(Change { field: field.to_owned(), before, after, route });
        assert(views(changes@) =~= done.push(change));
    }
}

fn hosts_of(config: &KitchenConfig, name: &str) -> (r: String)
    ensures
        r@ == secret_text(config@.secrets, name@),
{
    match config.secrets.get(name) {
        Some(secret) => {
            let hosts = patterns(&secret.allow);
            concat("allowed for ", hosts.as_str())
        },
        None => "(none)".to_owned(),
    }
}

/// Changes from the configuration the sandbox runs with to the desired one.
/// Secret *values* are not part of the configuration.
pub fn diff(applied: &KitchenConfig, desired: &KitchenConfig) -> (r: Vec<Change>)
    ensures
        views(r@) == all_changes(*applied, *desired),
{
    let mut c: Vec<Change> = Vec::new();
    assert(views(c@) =~= Seq::<ChangeView>::empty());
    push_change(
        &mut c,
        "cpus",
        decimal_string(applied.cpus as u64),
        decimal_string(desired.cpus as u64),
        Route::Sdk,
    );
    push_change(
        &mut c,
        "memory",
        format_mib(applied.memory_mib),
        format_mib(desired.memory_mib),
        Route::Sdk,
    );
    push_change(
        &mut c,
        "disk",
        format_mib(applied.disk_mib),
        format_mib(desired.disk_mib),
        Route::Sdk,
    );
    push_change(
        &mut c,
        "network.allow",
        patterns(&applied.network.allow),
        patterns(&desired.network.allow),
        Route::Broker,
    );
    push_change(
        &mut c,
        "network.deny",
        patterns(&applied.network.deny),
        patterns(&desired.network.deny),
        Route::Broker,
    );
    push_change(
        &mut c,
        "network",
        applied.network.preset.to_text().to_owned(),
        desired.network.preset.to_text().to_owned(),
        Route::Recreate,
    );
    push_change(
        &mut c,
        "network.ports",
        ports(&applied.network.ports),
        ports(&desired.network.ports),
        Route::Recreate,
    );
    push_change(
        &mut c,
        "mounts",
        mounts(&applied.mounts),
        mounts(&desired.mounts),
        Route::Recreate,
    );
    push_change(
        &mut c,
        "user",
        applied.user.to_text(),
        desired.user.to_text(),
        Route::Recreate,
    );
    let ghost fields = views(c@);
    assert(fields == field_changes(applied@, desired@));

    let ghost names = keys_of(applied.secrets.pairs());
    let n: usize = applied.secrets.len();
    let mut i: usize = 0;
    assert(names.subrange(0, 0) =~= Seq::empty());
    while i < n
        invariant
            i <= n,
            n == names.len(),
            names == keys_of(applied.secrets.pairs()),
            views(c@) == secret_changes(
                fields,
                names.subrange(0, i as int),
                Map::empty(),
                applied@,
                desired@,
            ),
        decreases n - i,
    {
        assert(names.subrange(0, i + 1).drop_last() =~= names.subrange(0, i as int));
        let (name, _) = applied.secrets.at(i);
        assert(names.subrange(0, i + 1).last() == name@);
        let field = concat("secret ", name);
        push_change(
            &mut c,
            field.as_str(),
            hosts_of(applied, name),
            hosts_of(desired, name),
            Route::Sdk,
        );
        i += 1;
    }
    assert(names.subrange(0, n as int) =~= names);

    let ghost halfway = views(c@);
    let ghost names = keys_of(desired.secrets.pairs());
    let n: usize = desired.secrets.len();
    let mut i: usize = 0;
    assert(names.subrange(0, 0) =~= Seq::empty());
    while i < n
        invariant
            i <= n,
            n == names.len(),
            names == keys_of(desired.secrets.pairs()),
            views(c@) == secret_changes(
                halfway,
                names.subrange(0, i as int),
                applied@.secrets,
                applied@,
                desired@,
            ),
        decreases n - i,
    {
        assert(names.subrange(0, i + 1).drop_last() =~= names.subrange(0, i as int));
        let (name, _) = desired.secrets.at(i);
        assert(names.subrange(0, i + 1).last() == name@);
        if !applied.secrets.contains_key(name) {
            let field = concat("secret ", name);
            push_change(
                &mut c,
                field.as_str(),
                hosts_of(applied, name),
                hosts_of(desired, name),
                Route::Sdk,
            );
        }
        i += 1;
    }
    assert(names.subrange(0, n as int) =~= names);
    c
}

/// What a sandbox runs with after everything but what needs a new sandbox.
pub open spec fn kept_until_recreate(applied: KitchenView, desired: KitchenView) -> KitchenView {
    KitchenView {
        mounts: applied.mounts,
        network: NetworkView {
            preset: applied.network.preset,
            ports: applied.network.ports,
            ..desired.network
        },
        user: applied.user,
        ..desired
    }
}

/// What the sandbox runs with after applying everything except the changes
/// that need a new sandbox.
pub fn applied_without_recreate(applied: &KitchenConfig, desired: &KitchenConfig) -> (r:
    KitchenConfig)
    ensures
        r@ == kept_until_recreate(applied@, desired@),
{
    let mut result = desired.clone();
    result.mounts = clone_mounts(&applied.mounts);
    result.network.preset = applied.network.preset;
    result.network.ports = clone_ports(&applied.network.ports);
    result.user = applied.user;
    assert(result@ =~= kept_until_recreate(applied@, desired@));
    result
}

// ---------------------------------------------------------------------------
// The environment
// ---------------------------------------------------------------------------

/// The desired variables that the sandbox does not have with that value.
pub open spec fn to_set(
    desired: Seq<(Seq<char>, Seq<char>)>,
    current: Seq<(Seq<char>, Seq<char>)>,
) -> Seq<(Seq<char>, Seq<char>)>
    decreases desired.len(),
{
    if desired.len() == 0 {
        Seq::empty()
    } else {
        let rest = to_set(desired.drop_last(), current);
        if current.contains(desired.last()) {
            rest
        } else {
            rest.push(desired.last())
        }
    }
}

/// The names among the sandbox's variables that are managed and no longer
/// desired, each once.
pub open spec fn to_remove(
    current: Seq<(Seq<char>, Seq<char>)>,
    desired: Map<Seq<char>, Seq<char>>,
    managed: Seq<Seq<char>>,
) -> Seq<Seq<char>>
    decreases current.len(),
{
    if current.len() == 0 {
        Seq::empty()
    } else {
        let rest = to_remove(current.drop_last(), desired, managed);
        let name = current.last().0;
        if managed.contains(name) && !desired.contains_key(name) && !rest.contains(name) {
            rest.push(name)
        } else {
            rest
        }
    }
}

fn has_pair(pairs: &Vec<(String, String)>, key: &str, value: &str) -> (r: bool)
    ensures
        r == pair_texts(pairs@).contains((key@, value@)),
{
    let ghost pv = pair_texts(pairs@);
    let mut i: usize = 0;
    while i < pairs.len()
        invariant
            i <= pairs@.len(),
            pv == pair_texts(pairs@),
            forall|k: int| 0 <= k < i ==> #[trigger] pv[k] != (key@, value@),
        decreases pairs@.len() - i,
    {
        if same(pairs[i].0.as_str(), key) && same(pairs[i].1.as_str(), value) {
            assert(pv[i as int] == (key@, value@));
            return true;
        }
        assert(pv[i as int] == (pairs@[i as int].0@, pairs@[i as int].1@));
        i += 1;
    }
    false
}

/// Environment edits turning `current` into `desired`. Only `managed` keys,
/// the ones microkitchen set from the kitchen file, are ever removed: the
/// sandbox's environment also holds the image's own variables.
pub fn env_patch(
    current: &Vec<(String, String)>,
    desired: &TextMap<String>,
    managed: &Vec<String>,
) -> (r: EnvPatch)
    ensures
        pair_texts(r.set@) == to_set(desired.pairs(), pair_texts(current@)),
        views(r.remove@) == to_remove(pair_texts(current@), desired@, views(managed@)),
{
    let ghost cv = pair_texts(current@);
    let ghost dv = desired.pairs();
    let mut set: Vec<(String, String)> = Vec::new();
    assert(pair_texts(set@) =~= Seq::empty());
    let n: usize = desired.len();
    let mut i: usize = 0;
    assert(dv.subrange(0, 0) =~= Seq::empty());
    while i < n
        invariant
            i <= n,
            n == dv.len(),
            dv == desired.pairs(),
            cv == pair_texts(current@),
            pair_texts(set@) == to_set(dv.subrange(0, i as int), cv),
        decreases n - i,
    {
        assert(dv.subrange(0, i + 1).drop_last() =~= dv.subrange(0, i as int));
        let (key, value) = desired.at(i);
        assert(dv.subrange(0, i + 1).last() == (key@, value@));
        if !has_pair(current, key, value.as_str()) {
            let ghost done = pair_texts(set@);
            set.push((key.to_owned(), value.clone()));
            assert(pair_texts(set@) =~= done.push((key@, value@)));
        }
        i += 1;
    }
    assert(dv.subrange(0, n as int) =~= dv);
    let mut remove: Vec<String> = Vec::new();
    assert(views(remove@) =~= Seq::empty());
    let mut i: usize = 0;
    assert(cv.subrange(0, 0) =~= Seq::empty());
    while i < current.len()
        invariant
            i <= current@.len(),
            cv == pair_texts(current@),
            views(remove@) == to_remove(cv.subrange(0, i as int), desired@, views(managed@)),
        decreases current@.len() - i,
    {
        assert(cv.subrange(0, i + 1).drop_last() =~= cv.subrange(0, i as int));
        let key = current[i].0.as_str();
        assert(cv.subrange(0, i + 1).last().0 == key@);
        if has_name(managed, key) && !desired.contains_key(key) && !has_name(&remove, key) {
            let ghost done = views(remove@);
            remove.push(key.to_owned());
            assert(views(remove@) =~= done.push(key@));
        }
        i += 1;
    }
    assert(cv.subrange(0, current@.len() as int) =~= cv);
    EnvPatch { set, remove }
}

// ---------------------------------------------------------------------------
// Laws
// ---------------------------------------------------------------------------

proof fn lemma_no_secret_changes(
    changes: Seq<ChangeView>,
    names: Seq<Seq<char>>,
    seen: Map<Seq<char>, Seq<PatternView>>,
    applied: KitchenView,
    desired: KitchenView,
)
    requires
        applied.secrets == desired.secrets,
    ensures
        secret_changes(changes, names, seen, applied, desired) == changes,
    decreases names.len(),
{
    if names.len() > 0 {
        lemma_no_secret_changes(changes, names.drop_last(), seen, applied, desired);
    }
}

/// A configuration does not differ from itself.
pub proof fn law_nothing_changes_from_itself(applied: KitchenConfig, desired: KitchenConfig)
    requires
        applied@ == desired@,
    ensures
        all_changes(applied, desired) == Seq::<ChangeView>::empty(),
{
    let fields = field_changes(applied@, desired@);
    lemma_no_secret_changes(
        fields,
        keys_of(applied.secrets.pairs()),
        Map::empty(),
        applied@,
        desired@,
    );
    lemma_no_secret_changes(
        fields,
        keys_of(desired.secrets.pairs()),
        applied@.secrets,
        applied@,
        desired@,
    );
}

/// After everything that needs no new sandbox is applied, only changes that
/// need one are left.
pub proof fn law_only_recreation_is_left(
    applied: KitchenView,
    after: KitchenConfig,
    desired: KitchenConfig,
    i: int,
)
    requires
        after@ == kept_until_recreate(applied, desired@),
        0 <= i < all_changes(after, desired).len(),
    ensures
        all_changes(after, desired)[i].route == Route::Recreate,
{
    let fields = field_changes(after@, desired@);
    lemma_no_secret_changes(
        fields,
        keys_of(after.secrets.pairs()),
        Map::empty(),
        after@,
        desired@,
    );
    lemma_no_secret_changes(
        fields,
        keys_of(desired.secrets.pairs()),
        after@.secrets,
        after@,
        desired@,
    );
}

proof fn lemma_to_set(
    desired: Seq<(Seq<char>, Seq<char>)>,
    current: Seq<(Seq<char>, Seq<char>)>,
    pair: (Seq<char>, Seq<char>),
)
    ensures
        to_set(desired, current).contains(pair) <==> desired.contains(pair) && !current.contains(
            pair,
        ),
    decreases desired.len(),
{
    if desired.len() > 0 {
        let init = desired.drop_last();
        let rest = to_set(init, current);
        let all = to_set(desired, current);
        lemma_to_set(init, current, pair);
        assert(desired[desired.len() - 1] == desired.last());
        if init.contains(pair) {
            let k = choose|k: int| 0 <= k < init.len() && init[k] == pair;
            assert(desired[k] == pair);
        }
        if desired.contains(pair) && pair != desired.last() {
            let k = choose|k: int| 0 <= k < desired.len() && desired[k] == pair;
            assert(init[k] == pair);
        }
        if !current.contains(desired.last()) {
            assert(all[rest.len() as int] == desired.last());
            if rest.contains(pair) {
                let k = choose|k: int| 0 <= k < rest.len() && rest[k] == pair;
                assert(all[k] == pair);
            }
            if all.contains(pair) && pair != desired.last() {
                let k = choose|k: int| 0 <= k < all.len() && all[k] == pair;
                assert(rest[k] == pair);
            }
        }
    }
}

proof fn lemma_to_remove(
    current: Seq<(Seq<char>, Seq<char>)>,
    desired: Map<Seq<char>, Seq<char>>,
    managed: Seq<Seq<char>>,
    name: Seq<char>,
)
    ensures
        to_remove(current, desired, managed).contains(name) <==> managed.contains(name)
            && !desired.contains_key(name) && keys_of(current).contains(name),
    decreases current.len(),
{
    let keys = keys_of(current);
    if current.len() > 0 {
        let init = current.drop_last();
        lemma_to_remove(init, desired, managed, name);
        let rest = to_remove(init, desired, managed);
        let all = to_remove(current, desired, managed);
        assert(keys[keys.len() - 1] == current.last().0);
        if keys_of(init).contains(name) {
            let k = choose|k: int| 0 <= k < init.len() && keys_of(init)[k] == name;
            assert(keys[k] == name);
        }
        if keys.contains(name) && name != current.last().0 {
            let k = choose|k: int| 0 <= k < keys.len() && keys[k] == name;
            assert(keys_of(init)[k] == name);
        }
        if all.len() > rest.len() {
            assert(all[rest.len() as int] == current.last().0);
            if rest.contains(name) {
                let k = choose|k: int| 0 <= k < rest.len() && rest[k] == name;
                assert(all[k] == name);
            }
            if all.contains(name) && name != current.last().0 {
                let k = choose|k: int| 0 <= k < all.len() && all[k] == name;
                assert(rest[k] == name);
            }
        }
    }
}

/// A patch sets exactly the desired variables that are missing or have another
/// value, and removes exactly the managed ones that are no longer desired:
/// never one that microkitchen did not set, never one that is desired.
pub proof fn law_patches_touch_only_what_they_must(
    current: Seq<(Seq<char>, Seq<char>)>,
    desired: Seq<(Seq<char>, Seq<char>)>,
    managed: Seq<Seq<char>>,
    name: Seq<char>,
    value: Seq<char>,
)
    ensures
        to_set(desired, current).contains((name, value)) <==> desired.contains((name, value))
            && !current.contains((name, value)),
        to_remove(current, to_map(desired), managed).contains(name) <==> managed.contains(name)
            && !to_map(desired).contains_key(name) && keys_of(current).contains(name),
{
    lemma_to_set(desired, current, (name, value));
    lemma_to_remove(current, to_map(desired), managed, name);
}

/// The fields besides the secrets, in order, each with its text in both
/// configurations and with how a change of it reaches the sandbox.
pub open spec fn compared(applied: KitchenView, desired: KitchenView) -> Seq<ChangeView> {
    seq![
        ChangeView {
            field: "cpus"@,
            before: decimal(applied.cpus as nat),
            after: decimal(desired.cpus as nat),
            route: Route::Sdk,
        },
        ChangeView {
            field: "memory"@,
            before: mib_text(applied.memory_mib as nat),
            after: mib_text(desired.memory_mib as nat),
            route: Route::Sdk,
        },
        ChangeView {
            field: "disk"@,
            before: mib_text(applied.disk_mib as nat),
            after: mib_text(desired.disk_mib as nat),
            route: Route::Sdk,
        },
        ChangeView {
            field: "network.allow"@,
            before: patterns_text(applied.network.allow),
            after: patterns_text(desired.network.allow),
            route: Route::Broker,
        },
        ChangeView {
            field: "network.deny"@,
            before: patterns_text(applied.network.deny),
            after: patterns_text(desired.network.deny),
            route: Route::Broker,
        },
        ChangeView {
            field: "network"@,
            before: applied.network.preset.spec_text(),
            after: desired.network.preset.spec_text(),
            route: Route::Recreate,
        },
        ChangeView {
            field: "network.ports"@,
            before: ports_text(applied.network.ports),
            after: ports_text(desired.network.ports),
            route: Route::Recreate,
        },
        ChangeView {
            field: "mounts"@,
            before: mounts_text(applied.mounts),
            after: mounts_text(desired.mounts),
            route: Route::Recreate,
        },
        ChangeView {
            field: "user"@,
            before: applied.user.spec_text(),
            after: desired.user.spec_text(),
            route: Route::Recreate,
        },
    ]
}

/// A secret's hosts in both configurations.
pub open spec fn compared_secret(
    applied: KitchenView,
    desired: KitchenView,
    name: Seq<char>,
) -> ChangeView {
    ChangeView {
        field: "secret "@ + name,
        before: secret_text(applied.secrets, name),
        after: secret_text(desired.secrets, name),
        route: Route::Sdk,
    }
}

/// The changes among some fields: those whose texts differ.
pub open spec fn differing(list: Seq<ChangeView>) -> Seq<ChangeView> {
    list.filter(|change: ChangeView| change.before != change.after)
}

proof fn lemma_differing_one(list: Seq<ChangeView>, change: ChangeView)
    ensures
        with_change(differing(list), change.field, change.before, change.after, change.route)
            == differing(list.push(change)),
{
    reveal(Seq::filter);
    assert(list.push(change).drop_last() =~= list);
}

proof fn lemma_fields_compared(applied: KitchenView, desired: KitchenView)
    ensures
        field_changes(applied, desired) == differing(compared(applied, desired)),
{
    let all = compared(applied, desired);
    let none = Seq::<ChangeView>::empty();
    reveal(Seq::filter);
    assert(differing(none) =~= none);
    lemma_differing_one(all.subrange(0, 0), all[0]);
    lemma_differing_one(all.subrange(0, 1), all[1]);
    lemma_differing_one(all.subrange(0, 2), all[2]);
    lemma_differing_one(all.subrange(0, 3), all[3]);
    lemma_differing_one(all.subrange(0, 4), all[4]);
    lemma_differing_one(all.subrange(0, 5), all[5]);
    lemma_differing_one(all.subrange(0, 6), all[6]);
    lemma_differing_one(all.subrange(0, 7), all[7]);
    lemma_differing_one(all.subrange(0, 8), all[8]);
    assert(all.subrange(0, 0) =~= none);
    assert(all.subrange(0, 0).push(all[0]) =~= all.subrange(0, 1));
    assert(all.subrange(0, 1).push(all[1]) =~= all.subrange(0, 2));
    assert(all.subrange(0, 2).push(all[2]) =~= all.subrange(0, 3));
    assert(all.subrange(0, 3).push(all[3]) =~= all.subrange(0, 4));
    assert(all.subrange(0, 4).push(all[4]) =~= all.subrange(0, 5));
    assert(all.subrange(0, 5).push(all[5]) =~= all.subrange(0, 6));
    assert(all.subrange(0, 6).push(all[6]) =~= all.subrange(0, 7));
    assert(all.subrange(0, 7).push(all[7]) =~= all.subrange(0, 8));
    assert(all.subrange(0, 8).push(all[8]) =~= all);
}

proof fn lemma_secrets_compared(
    list: Seq<ChangeView>,
    names: Seq<Seq<char>>,
    seen: Map<Seq<char>, Seq<PatternView>>,
    applied: KitchenView,
    desired: KitchenView,
)
    ensures
        secret_changes(differing(list), names, seen, applied, desired) == differing(
            list + names.filter(|name: Seq<char>| !seen.contains_key(name)).map_values(
                |name: Seq<char>| compared_secret(applied, desired, name),
            ),
        ),
    decreases names.len(),
{
    reveal(Seq::filter);
    let keep = |name: Seq<char>| !seen.contains_key(name);
    let told = |name: Seq<char>| compared_secret(applied, desired, name);
    let more = names.filter(keep).map_values(told);
    if names.len() == 0 {
        assert(list + more =~= list);
    } else {
        let rest = names.drop_last();
        let name = names.last();
        let fewer = rest.filter(keep).map_values(told);
        lemma_secrets_compared(list, rest, seen, applied, desired);
        if !seen.contains_key(name) {
            assert(more =~= fewer.push(told(name)));
            assert(list + more =~= (list + fewer).push(told(name)));
            lemma_differing_one(list + fewer, told(name));
        }
    }
}

/// The changes are exactly the fields whose texts differ, in a fixed order, with
/// the text of each side; behind them the secrets that were applied and then those
/// that were not.
pub proof fn law_changes_are_what_differs(applied: KitchenConfig, desired: KitchenConfig)
    ensures
        all_changes(applied, desired) == differing(
            compared(applied@, desired@) + keys_of(applied.secrets.pairs()).map_values(
                |name: Seq<char>| compared_secret(applied@, desired@, name),
            ) + keys_of(desired.secrets.pairs()).filter(
                |name: Seq<char>| !applied@.secrets.contains_key(name),
            ).map_values(|name: Seq<char>| compared_secret(applied@, desired@, name)),
        ),
{
    let fields = compared(applied@, desired@);
    let told = |name: Seq<char>| compared_secret(applied@, desired@, name);
    let names = keys_of(applied.secrets.pairs());
    lemma_fields_compared(applied@, desired@);
    lemma_secrets_compared(fields, names, Map::empty(), applied@, desired@);
    let all = |name: Seq<char>| !Map::<Seq<char>, Seq<PatternView>>::empty().contains_key(name);
    lemma_filter_all(names, all);
    lemma_secrets_compared(
        fields + names.map_values(told),
        keys_of(desired.secrets.pairs()),
        applied@.secrets,
        applied@,
        desired@,
    );
}

proof fn lemma_filter_all(names: Seq<Seq<char>>, keep: spec_fn(Seq<char>) -> bool)
    requires
        forall|name: Seq<char>| #[trigger] keep(name),
    ensures
        names.filter(keep) == names,
    decreases names.len(),
{
    reveal(Seq::filter);
    if names.len() > 0 {
        lemma_filter_all(names.drop_last(), keep);
        assert(names.drop_last().push(names.last()) =~= names);
    }
}

proof fn lemma_differing_has(list: Seq<ChangeView>, k: int)
    requires
        0 <= k < list.len(),
        list[k].before != list[k].after,
    ensures
        differing(list).contains(list[k]),
{
    list.lemma_filter_contains(|change: ChangeView| change.before != change.after, k);
}

/// Whether a list of changes names a field.
pub open spec fn names_field(changes: Seq<ChangeView>, field: Seq<char>) -> bool {
    exists|i: int| 0 <= i < changes.len() && #[trigger] changes[i].field == field
}

proof fn lemma_differing_from(list: Seq<ChangeView>, i: int)
    requires
        0 <= i < differing(list).len(),
    ensures
        exists|k: int| 0 <= k < list.len() && #[trigger] list[k] == differing(list)[i],
        differing(list)[i].before != differing(list)[i].after,
    decreases list.len(),
{
    reveal(Seq::filter);
    let rest = list.drop_last();
    let few = differing(rest);
    if i < few.len() {
        lemma_differing_from(rest, i);
        let k = choose|k: int| 0 <= k < rest.len() && #[trigger] rest[k] == few[i];
        assert(list[k] == rest[k]);
    } else {
        assert(list[list.len() - 1] == list.last());
    }
}

proof fn lemma_field_names()
    ensures
        forall|i: int, j: int, applied: KitchenView, desired: KitchenView|
            #![trigger compared(applied, desired)[i], compared(applied, desired)[j]]
            0 <= i < 9 && 0 <= j < 9 && compared(applied, desired)[i].field == compared(
                applied,
                desired,
            )[j].field ==> i == j,
        forall|i: int, applied: KitchenView, desired: KitchenView, name: Seq<char>|
            #![trigger compared(applied, desired)[i], compared_secret(applied, desired, name)]
            0 <= i < 9 ==> compared(applied, desired)[i].field != compared_secret(
                applied,
                desired,
                name,
            ).field,
{
    reveal_strlit("cpus");
    reveal_strlit("memory");
    reveal_strlit("disk");
    reveal_strlit("network.allow");
    reveal_strlit("network.deny");
    reveal_strlit("network");
    reveal_strlit("network.ports");
    reveal_strlit("mounts");
    reveal_strlit("user");
    reveal_strlit("secret ");
    assert("network.allow"@[8] == 'a' && "network.deny"@[8] == 'd' && "network.ports"@[8] == 'p');
    assert("cpus"@[0] == 'c' && "memory"@[0] == 'm' && "disk"@[0] == 'd' && "user"@[0] == 'u'
        && "mounts"@[0] == 'm' && "mounts"@[1] == 'o' && "memory"@[1] == 'e' && "network"@[0]
        == 'n');
    assert("network.allow"@[0] == 'n' && "network.deny"@[0] == 'n' && "network.ports"@[0] == 'n');
    assert forall|i: int, j: int, applied: KitchenView, desired: KitchenView|
        #![trigger compared(applied, desired)[i], compared(applied, desired)[j]]
        0 <= i < 9 && 0 <= j < 9 && compared(applied, desired)[i].field == compared(
            applied,
            desired,
        )[j].field implies i == j by {
        let fields = compared(applied, desired);
        assert(fields[i].field[0] == fields[j].field[0]);
        assert(fields[i].field[1] == fields[j].field[1]);
        assert(fields[i].field.len() == fields[j].field.len());
        if i == 0 {
            assert(fields[i].field == "cpus"@);
        }
        if j == 0 {
            assert(fields[j].field == "cpus"@);
        }
        if i == 1 {
            assert(fields[i].field == "memory"@);
        }
        if j == 1 {
            assert(fields[j].field == "memory"@);
        }
        if i == 2 {
            assert(fields[i].field == "disk"@);
        }
        if j == 2 {
            assert(fields[j].field == "disk"@);
        }
        if i == 3 {
            assert(fields[i].field == "network.allow"@);
        }
        if j == 3 {
            assert(fields[j].field == "network.allow"@);
        }
        if i == 4 {
            assert(fields[i].field == "network.deny"@);
        }
        if j == 4 {
            assert(fields[j].field == "network.deny"@);
        }
        if i == 5 {
            assert(fields[i].field == "network"@);
        }
        if j == 5 {
            assert(fields[j].field == "network"@);
        }
        if i == 6 {
            assert(fields[i].field == "network.ports"@);
        }
        if j == 6 {
            assert(fields[j].field == "network.ports"@);
        }
        if i == 7 {
            assert(fields[i].field == "mounts"@);
        }
        if j == 7 {
            assert(fields[j].field == "mounts"@);
        }
        if i == 8 {
            assert(fields[i].field == "user"@);
        }
        if j == 8 {
            assert(fields[j].field == "user"@);
        }
        if fields[i].field.len() == 13 {
            assert(fields[i].field[8] == fields[j].field[8]);
        }
    }
    assert forall|i: int, applied: KitchenView, desired: KitchenView, name: Seq<char>|
        #![trigger compared(applied, desired)[i], compared_secret(applied, desired, name)]
        0 <= i < 9 implies compared(applied, desired)[i].field != compared_secret(
        applied,
        desired,
        name,
    ).field by {
        assert(compared_secret(applied, desired, name).field[0] == 's');
    }
}

proof fn lemma_field_told(applied: KitchenConfig, desired: KitchenConfig, k: int)
    requires
        0 <= k < 9,
    ensures
        ({
            let change = compared(applied@, desired@)[k];
            let changes = all_changes(applied, desired);
            &&& names_field(changes, change.field) <==> change.before != change.after
            &&& change.before != change.after ==> changes.contains(change)
            &&& forall|i: int|
                0 <= i < changes.len() && (#[trigger] changes[i]).field == change.field
                    ==> changes[i] == change
        }),
{
    law_changes_are_what_differs(applied, desired);
    lemma_field_names();
    let told = |name: Seq<char>| compared_secret(applied@, desired@, name);
    let fields = compared(applied@, desired@);
    let names = keys_of(applied.secrets.pairs());
    let others = keys_of(desired.secrets.pairs()).filter(
        |name: Seq<char>| !applied@.secrets.contains_key(name),
    );
    let list = fields + names.map_values(told) + others.map_values(told);
    let changes = all_changes(applied, desired);
    let change = fields[k];
    assert(list[k] == change);
    if change.before != change.after {
        lemma_differing_has(list, k);
        let i = choose|i: int| 0 <= i < changes.len() && changes[i] == change;
        assert(changes[i].field == change.field);
    }
    assert forall|i: int|
        0 <= i < changes.len() && (#[trigger] changes[i]).field == change.field implies changes[i]
        == change && change.before != change.after by {
        lemma_differing_from(list, i);
        let j = choose|j: int| 0 <= j < list.len() && #[trigger] list[j] == changes[i];
        if j < 9 {
            assert(fields[j] == list[j]);
        } else if j < 9 + names.len() {
            let name = names[j - 9];
            assert(list[j] == compared_secret(applied@, desired@, name));
        } else {
            let name = others[j - 9 - names.len()];
            assert(list[j] == compared_secret(applied@, desired@, name));
        }
    }
}

proof fn lemma_decimal_tells(a: nat, b: nat)
    ensures
        decimal(a) == decimal(b) <==> a == b,
{
    lemma_decimal(a);
    lemma_decimal(b);
}

proof fn lemma_mib_tells(a: u32, b: u32)
    ensures
        mib_text(a as nat) == mib_text(b as nat) <==> a == b,
{
    lemma_decimal(a as nat);
    lemma_decimal(b as nat);
    lemma_decimal((a / 1024) as nat);
    lemma_decimal((b / 1024) as nat);
    reveal_strlit("G");
    reveal_strlit("M");
    let s = mib_text(a as nat);
    let t = mib_text(b as nat);
    if s == t {
        assert(s.last() == t.last());
        assert("G"@[0] == 'G' && "M"@[0] == 'M');
        if a % 1024 == 0 {
            assert(s.drop_last() =~= decimal((a / 1024) as nat));
            assert(t.drop_last() =~= decimal((b / 1024) as nat));
        } else {
            assert(s.drop_last() =~= decimal(a as nat));
            assert(t.drop_last() =~= decimal(b as nat));
        }
    }
}

proof fn lemma_user_tells(a: GuestUser, b: GuestUser)
    ensures
        a.spec_text() == b.spec_text() <==> a == b,
{
    reveal_strlit(":");
    lemma_decimal(a.uid as nat);
    lemma_decimal(a.gid as nat);
    lemma_decimal(b.uid as nat);
    lemma_decimal(b.gid as nat);
    let s = a.spec_text();
    let t = b.spec_text();
    if s == t {
        let i = decimal(a.uid as nat).len() as int;
        let j = decimal(b.uid as nat).len() as int;
        assert(s[i] == ':' && t[j] == ':');
        assert(i == j) by {
            if i < j {
                assert(t[i] == decimal(b.uid as nat)[i]);
            }
            if j < i {
                assert(s[j] == decimal(a.uid as nat)[j]);
            }
        }
        assert(s.subrange(0, i) =~= decimal(a.uid as nat));
        assert(t.subrange(0, i) =~= decimal(b.uid as nat));
        assert(s.subrange(i + 1, s.len() as int) =~= decimal(a.gid as nat));
        assert(t.subrange(i + 1, t.len() as int) =~= decimal(b.gid as nat));
    }
}

proof fn lemma_preset_tells(a: NetworkPreset, b: NetworkPreset)
    ensures
        a.spec_text() == b.spec_text() <==> a == b,
{
    reveal_strlit("none");
    reveal_strlit("public");
    reveal_strlit("open");
    assert("none"@[0] == 'n' && "public"@[0] == 'p' && "open"@[0] == 'o');
}

/// A number, the preset and the user are named among the changes exactly where the
/// two configurations have different ones, with the text of each side, and what
/// names them says no more than that.
pub proof fn law_each_value_is_compared(applied: KitchenConfig, desired: KitchenConfig)
    ensures
        names_field(all_changes(applied, desired), "cpus"@) <==> applied@.cpus != desired@.cpus,
        names_field(all_changes(applied, desired), "memory"@) <==> applied@.memory_mib
            != desired@.memory_mib,
        names_field(all_changes(applied, desired), "disk"@) <==> applied@.disk_mib
            != desired@.disk_mib,
        names_field(all_changes(applied, desired), "network"@) <==> applied@.network.preset
            != desired@.network.preset,
        names_field(all_changes(applied, desired), "user"@) <==> applied@.user != desired@.user,
        applied@.cpus != desired@.cpus ==> all_changes(applied, desired).contains(
            ChangeView {
                field: "cpus"@,
                before: decimal(applied@.cpus as nat),
                after: decimal(desired@.cpus as nat),
                route: Route::Sdk,
            },
        ),
        applied@.memory_mib != desired@.memory_mib ==> all_changes(applied, desired).contains(
            ChangeView {
                field: "memory"@,
                before: mib_text(applied@.memory_mib as nat),
                after: mib_text(desired@.memory_mib as nat),
                route: Route::Sdk,
            },
        ),
        applied@.disk_mib != desired@.disk_mib ==> all_changes(applied, desired).contains(
            ChangeView {
                field: "disk"@,
                before: mib_text(applied@.disk_mib as nat),
                after: mib_text(desired@.disk_mib as nat),
                route: Route::Sdk,
            },
        ),
        applied@.network.preset != desired@.network.preset ==> all_changes(
            applied,
            desired,
        ).contains(
            ChangeView {
                field: "network"@,
                before: applied@.network.preset.spec_text(),
                after: desired@.network.preset.spec_text(),
                route: Route::Recreate,
            },
        ),
        applied@.user != desired@.user ==> all_changes(applied, desired).contains(
            ChangeView {
                field: "user"@,
                before: applied@.user.spec_text(),
                after: desired@.user.spec_text(),
                route: Route::Recreate,
            },
        ),
        forall|i: int, k: int|
            #![trigger all_changes(applied, desired)[i], compared(applied@, desired@)[k]]
            0 <= i < all_changes(applied, desired).len() && 0 <= k < 9 && all_changes(
                applied,
                desired,
            )[i].field == compared(applied@, desired@)[k].field ==> all_changes(applied, desired)[i]
                == compared(applied@, desired@)[k],
{
    let fields = compared(applied@, desired@);
    lemma_field_told(applied, desired, 0);
    lemma_field_told(applied, desired, 1);
    lemma_field_told(applied, desired, 2);
    lemma_field_told(applied, desired, 5);
    lemma_field_told(applied, desired, 8);
    assert(fields[0].field == "cpus"@ && fields[1].field == "memory"@ && fields[2].field
        == "disk"@ && fields[5].field == "network"@ && fields[8].field == "user"@);
    lemma_decimal_tells(applied@.cpus as nat, desired@.cpus as nat);
    lemma_mib_tells(applied@.memory_mib, desired@.memory_mib);
    lemma_mib_tells(applied@.disk_mib, desired@.disk_mib);
    lemma_preset_tells(applied@.network.preset, desired@.network.preset);
    lemma_user_tells(applied@.user, desired@.user);
    assert forall|i: int, k: int|
        #![trigger all_changes(applied, desired)[i], fields[k]]
        0 <= i < all_changes(applied, desired).len() && 0 <= k < 9 && all_changes(
            applied,
            desired,
        )[i].field == fields[k].field implies all_changes(applied, desired)[i] == fields[k] by {
        lemma_field_told(applied, desired, k);
    }
}

/// Whether a text stands for itself in a list: it is not empty, holds no comma and
/// is not the word for an empty list.
pub open spec fn lists_plainly(text: Seq<char>) -> bool {
    text.len() > 0 && !text.contains(',') && text != "(none)"@
}

proof fn lemma_join_pieces(texts: Seq<Seq<char>>)
    requires
        texts.len() > 0,
        forall|i: int| 0 <= i < texts.len() ==> lists_plainly(#[trigger] texts[i]),
    ensures
        split(join(texts, ", "@), ',') == Seq::new(
            texts.len(),
            |i: int|
                if i == 0 {
                    texts[0]
                } else {
                    " "@ + texts[i]
                },
        ),
    decreases texts.len(),
{
    reveal_strlit(", ");
    reveal_strlit(" ");
    let all = join(texts, ", "@);
    let pieces = Seq::new(
        texts.len(),
        |i: int|
            if i == 0 {
                texts[0]
            } else {
                " "@ + texts[i]
            },
    );
    assert(lists_plainly(texts[texts.len() - 1]));
    if texts.len() == 1 {
        lemma_split_single(texts[0], ',');
        assert(pieces =~= seq![texts[0]]);
    } else {
        let rest = texts.drop_last();
        let last = " "@ + texts.last();
        assert forall|i: int| 0 <= i < rest.len() implies lists_plainly(#[trigger] rest[i]) by {
            assert(rest[i] == texts[i]);
        }
        lemma_join_pieces(rest);
        assert(all =~= join(rest, ", "@) + seq![','] + last);
        lemma_split_concat(join(rest, ", "@), last, ',');
        assert(!last.contains(',')) by {
            if last.contains(',') {
                let k = choose|k: int| 0 <= k < last.len() && last[k] == ',';
                assert(texts.last()[k - 1] == ',');
            }
        }
        lemma_split_single(last, ',');
        assert(split(all, ',') =~= pieces);
    }
}

proof fn lemma_lists_tell(a: Seq<Seq<char>>, b: Seq<Seq<char>>)
    requires
        forall|i: int| 0 <= i < a.len() ==> lists_plainly(#[trigger] a[i]),
        forall|i: int| 0 <= i < b.len() ==> lists_plainly(#[trigger] b[i]),
        listed(a) == listed(b),
    ensures
        a == b,
{
    reveal_strlit("(none)");
    reveal_strlit(" ");
    lemma_split_single("(none)"@, ',');
    if a.len() > 0 {
        lemma_join_pieces(a);
        assert(lists_plainly(a[0]));
    }
    if b.len() > 0 {
        lemma_join_pieces(b);
        assert(lists_plainly(b[0]));
    }
    if a.len() > 0 && b.len() > 0 {
        let s = split(listed(a), ',');
        assert(a.len() == s.len() && b.len() == s.len());
        assert forall|i: int| 0 <= i < a.len() implies a[i] == b[i] by {
            if i == 0 {
                assert(a[0] == s[0] && b[0] == s[0]);
            } else {
                assert(s[i] == " "@ + a[i] && s[i] == " "@ + b[i]);
                assert(a[i] =~= s[i].subrange(1, s[i].len() as int));
                assert(b[i] =~= s[i].subrange(1, s[i].len() as int));
            }
        }
        assert(a =~= b);
    } else if a.len() > 0 {
        assert(split(listed(a), ',')[0] == a[0]);
        assert(seq!["(none)"@][0] == "(none)"@);
    } else if b.len() > 0 {
        assert(split(listed(b), ',')[0] == b[0]);
        assert(seq!["(none)"@][0] == "(none)"@);
    } else {
        assert(a =~= b);
    }
}

/// Whether the entries of a list read back from their texts and stand for
/// themselves in a list, as those of a kitchen file do.
pub open spec fn plain_rules(list: Seq<PatternView>) -> bool {
    forall|i: int|
        0 <= i < list.len() ==> (#[trigger] list[i]).is_canonical() && lists_plainly(list[i].text())
}

proof fn lemma_rules_tell(a: Seq<PatternView>, b: Seq<PatternView>)
    requires
        plain_rules(a),
        plain_rules(b),
        patterns_text(a) == patterns_text(b),
    ensures
        a == b,
{
    let s = Seq::new(a.len(), |i: int| a[i].text());
    let t = Seq::new(b.len(), |i: int| b[i].text());
    lemma_lists_tell(s, t);
    assert forall|i: int| 0 <= i < a.len() implies a[i] == b[i] by {
        assert(s[i] == t[i]);
        assert(a[i].is_canonical() && b[i].is_canonical());
    }
    assert(a =~= b);
}

/// Whether a mapping has port numbers.
pub open spec fn proper_ports(list: Seq<PortMapping>) -> bool {
    forall|i: int| 0 <= i < list.len() ==> (#[trigger] list[i]).host > 0 && list[i].guest > 0
}

proof fn lemma_port_lists_plainly(port: PortMapping)
    ensures
        lists_plainly(port.spec_text()),
{
    reveal_strlit(":");
    reveal_strlit("/udp");
    reveal_strlit("(none)");
    lemma_decimal(port.host as nat);
    lemma_decimal(port.guest as nat);
    let text = port.spec_text();
    let a = decimal(port.host as nat);
    let b = decimal(port.guest as nat);
    assert(text[0] == a[0]);
    if text.contains(',') {
        let k = choose|k: int| 0 <= k < text.len() && text[k] == ',';
        if k < a.len() {
            assert(text[k] == a[k]);
        } else if a.len() < k && k <= a.len() + b.len() {
            assert(text[k] == b[k - a.len() - 1]);
        }
    }
}

proof fn lemma_ports_tell(a: Seq<PortMapping>, b: Seq<PortMapping>)
    requires
        proper_ports(a),
        proper_ports(b),
        ports_text(a) == ports_text(b),
    ensures
        a == b,
{
    let s = Seq::new(a.len(), |i: int| a[i].spec_text());
    let t = Seq::new(b.len(), |i: int| b[i].spec_text());
    assert forall|i: int| 0 <= i < s.len() implies lists_plainly(#[trigger] s[i]) by {
        lemma_port_lists_plainly(a[i]);
    }
    assert forall|i: int| 0 <= i < t.len() implies lists_plainly(#[trigger] t[i]) by {
        lemma_port_lists_plainly(b[i]);
    }
    lemma_lists_tell(s, t);
    assert forall|i: int| 0 <= i < a.len() implies a[i] == b[i] by {
        assert(s[i] == t[i]);
        assert(a[i].host > 0 && b[i].host > 0);
        lemma_mapping_text(a[i]);
        lemma_mapping_text(b[i]);
    }
    assert(a =~= b);
}

/// Whether the paths of mounts hold no comma, no `>` and no bracket at the end, so
/// that their texts tell them apart.
pub open spec fn plain_mounts(list: Seq<MountView>) -> bool {
    forall|i: int| 0 <= i < list.len() ==> plain_mount(#[trigger] list[i])
}

pub open spec fn plain_mount(mount: MountView) -> bool {
    &&& !mount.host.contains(',') && !mount.guest.contains(',')
    &&& !mount.host.contains('>') && !mount.guest.contains('>')
    &&& mount.guest.len() > 0 && mount.guest.last() != ')'
}

proof fn lemma_mount_parts(mount: MountView)
    requires
        plain_mount(mount),
    ensures
        lists_plainly(mount_text(mount)),
        ({
            let text = mount_text(mount);
            let i = mount.host.len() as int + 2;
            &&& i < text.len() && text[i] == '>' && forall|j: int|
                0 <= j < i ==> (#[trigger] text[j]) != '>'
            &&& text.subrange(0, i - 2) == mount.host
            &&& text.last() == ')' <==> mount.readonly
            &&& text.subrange(
                i + 2,
                text.len() - if mount.readonly {
                    12int
                } else {
                    0
                },
            ) == mount.guest
        }),
{
    reveal_strlit(" -> ");
    reveal_strlit(" (read-only)");
    reveal_strlit("(none)");
    let text = mount_text(mount);
    let h = mount.host.len() as int;
    let g = mount.guest.len() as int;
    let i = h + 2;
    assert(text[i] == '>');
    assert forall|j: int| 0 <= j < i implies (#[trigger] text[j]) != '>' by {
        if j < h {
            assert(text[j] == mount.host[j]);
        }
    }
    assert(text.subrange(0, h) =~= mount.host);
    if mount.readonly {
        assert(text.last() == ')');
        assert(text.subrange(i + 2, text.len() - 12) =~= mount.guest);
    } else {
        assert(text.last() == mount.guest.last());
        assert(text.subrange(i + 2, text.len() as int) =~= mount.guest);
    }
    if text.contains(',') {
        let k = choose|k: int| 0 <= k < text.len() && text[k] == ',';
        if k < h {
            assert(text[k] == mount.host[k]);
        } else if h + 4 <= k && k < h + 4 + g {
            assert(text[k] == mount.guest[k - h - 4]);
        }
    }
    if text == "(none)"@ {
        assert("(none)"@.contains('>')) by {
            assert(text[i] == '>');
        }
    }
}

proof fn lemma_mounts_tell(a: Seq<MountView>, b: Seq<MountView>)
    requires
        plain_mounts(a),
        plain_mounts(b),
        mounts_text(a) == mounts_text(b),
    ensures
        a == b,
{
    let s = Seq::new(a.len(), |i: int| mount_text(a[i]));
    let t = Seq::new(b.len(), |i: int| mount_text(b[i]));
    assert forall|i: int| 0 <= i < s.len() implies lists_plainly(#[trigger] s[i]) by {
        lemma_mount_parts(a[i]);
    }
    assert forall|i: int| 0 <= i < t.len() implies lists_plainly(#[trigger] t[i]) by {
        lemma_mount_parts(b[i]);
    }
    lemma_lists_tell(s, t);
    assert forall|i: int| 0 <= i < a.len() implies a[i] == b[i] by {
        assert(s[i] == t[i]);
        lemma_mount_parts(a[i]);
        lemma_mount_parts(b[i]);
        assert(a[i].host.len() == b[i].host.len());
        assert(a[i] =~= b[i]);
    }
    assert(a =~= b);
}

/// Whether a configuration is one that its texts tell from every other: its sizes,
/// rules, ports and mounts are such as a kitchen file holds.
pub open spec fn told_by_texts(config: KitchenView) -> bool {
    &&& plain_rules(config.network.allow)
    &&& plain_rules(config.network.deny)
    &&& proper_ports(config.network.ports)
    &&& plain_mounts(config.mounts)
    &&& forall|name: Seq<char>| #[trigger]
        config.secrets.contains_key(name) ==> plain_rules(config.secrets[name])
}

/// No change means no difference: the configurations have the same numbers, preset,
/// user, rules, ports, mounts and secrets.
pub proof fn law_no_change_means_no_difference(applied: KitchenConfig, desired: KitchenConfig)
    requires
        all_changes(applied, desired).len() == 0,
        told_by_texts(applied@),
        told_by_texts(desired@),
    ensures
        applied@.cpus == desired@.cpus,
        applied@.memory_mib == desired@.memory_mib,
        applied@.disk_mib == desired@.disk_mib,
        applied@.network == desired@.network,
        applied@.mounts == desired@.mounts,
        applied@.user == desired@.user,
        applied@.secrets == desired@.secrets,
{
    law_each_value_is_compared(applied, desired);
    lemma_field_told(applied, desired, 3);
    lemma_field_told(applied, desired, 4);
    lemma_field_told(applied, desired, 6);
    lemma_field_told(applied, desired, 7);
    lemma_rules_tell(applied@.network.allow, desired@.network.allow);
    lemma_rules_tell(applied@.network.deny, desired@.network.deny);
    lemma_ports_tell(applied@.network.ports, desired@.network.ports);
    lemma_mounts_tell(applied@.mounts, desired@.mounts);
    assert forall|name: Seq<char>|
        applied@.secrets.contains_key(name) || desired@.secrets.contains_key(name) implies (
    #[trigger] applied@.secrets.contains_key(name)) && desired@.secrets.contains_key(name)
        && applied@.secrets[name] == desired@.secrets[name] by {
        lemma_secret_told(applied, desired, name);
        reveal_strlit("(none)");
        reveal_strlit("allowed for ");
        let s = secret_text(applied@.secrets, name);
        let t = secret_text(desired@.secrets, name);
        assert(s == t);
        assert(s[0] == t[0]);
        assert("(none)"@[0] == '(' && "allowed for "@[0] == 'a');
        let a = patterns_text(applied@.secrets[name]);
        let b = patterns_text(desired@.secrets[name]);
        assert(a =~= s.subrange(12, s.len() as int));
        assert(b =~= t.subrange(12, t.len() as int));
        lemma_rules_tell(applied@.secrets[name], desired@.secrets[name]);
    }
    assert(applied@.secrets =~= desired@.secrets) by {
        assert forall|name: Seq<char>| applied@.secrets.contains_key(name)
            == desired@.secrets.contains_key(name) by {
            if desired@.secrets.contains_key(name) {
                assert(applied@.secrets.contains_key(name));
            }
        }
    }
}

proof fn lemma_secret_told(applied: KitchenConfig, desired: KitchenConfig, name: Seq<char>)
    requires
        applied@.secrets.contains_key(name) || desired@.secrets.contains_key(name),
    ensures
        secret_text(applied@.secrets, name) != secret_text(desired@.secrets, name) ==> all_changes(
            applied,
            desired,
        ).contains(compared_secret(applied@, desired@, name)),
{
    law_changes_are_what_differs(applied, desired);
    let told = |name: Seq<char>| compared_secret(applied@, desired@, name);
    let keep = |name: Seq<char>| !applied@.secrets.contains_key(name);
    let fields = compared(applied@, desired@);
    let names = keys_of(applied.secrets.pairs());
    let all = keys_of(desired.secrets.pairs());
    let others = all.filter(keep);
    let list = fields + names.map_values(told) + others.map_values(told);
    let change = compared_secret(applied@, desired@, name);
    if applied@.secrets.contains_key(name) {
        assert(has_key(applied.secrets.pairs(), name));
        let pairs = applied.secrets.pairs();
        let i = choose|i: int| 0 <= i < pairs.len() && (#[trigger] pairs[i]).0 == name;
        assert(names[i] == name);
        assert(list[9 + i] == change);
        if change.before != change.after {
            lemma_differing_has(list, 9 + i);
        }
    } else {
        assert(has_key(desired.secrets.pairs(), name));
        let pairs = desired.secrets.pairs();
        let i = choose|i: int| 0 <= i < pairs.len() && (#[trigger] pairs[i]).0 == name;
        assert(all[i] == name);
        all.lemma_filter_contains(keep, i);
        let j = choose|j: int| 0 <= j < others.len() && others[j] == name;
        assert(list[9 + names.len() + j] == change);
        if change.before != change.after {
            lemma_differing_has(list, 9 + names.len() + j);
        }
    }
}

/// A secret is named among the changes where the two configurations say different
/// things of it, with what each says.
pub proof fn law_each_secret_is_compared(
    applied: KitchenConfig,
    desired: KitchenConfig,
    name: Seq<char>,
)
    requires
        applied@.secrets.contains_key(name) || desired@.secrets.contains_key(name),
    ensures
        secret_text(applied@.secrets, name) != secret_text(desired@.secrets, name) ==> all_changes(
            applied,
            desired,
        ).contains(
            ChangeView {
                field: "secret "@ + name,
                before: secret_text(applied@.secrets, name),
                after: secret_text(desired@.secrets, name),
                route: Route::Sdk,
            },
        ),
        applied@.secrets.contains_key(name) != desired@.secrets.contains_key(name) ==> secret_text(
            applied@.secrets,
            name,
        ) != secret_text(desired@.secrets, name),
{
    lemma_secret_told(applied, desired, name);
    reveal_strlit("(none)");
    reveal_strlit("allowed for ");
    let s = secret_text(applied@.secrets, name);
    let t = secret_text(desired@.secrets, name);
    assert("(none)"@[0] == '(' && "allowed for "@[0] == 'a');
    if applied@.secrets.contains_key(name) != desired@.secrets.contains_key(name) {
        assert(s[0] != t[0]);
    }
}

/// Until a new sandbox is made, it keeps its mounts, preset, ports and user, and has
/// everything else from the desired configuration.
pub proof fn law_some_things_wait_for_a_new_sandbox(applied: KitchenView, desired: KitchenView)
    ensures
        ({
            let kept = kept_until_recreate(applied, desired);
            &&& kept.mounts == applied.mounts && kept.network.preset == applied.network.preset
            &&& kept.network.ports == applied.network.ports && kept.user == applied.user
            &&& kept.cpus == desired.cpus && kept.memory_mib == desired.memory_mib
            &&& kept.disk_mib == desired.disk_mib && kept.network.allow == desired.network.allow
            &&& kept.network.deny == desired.network.deny && kept.secrets == desired.secrets
            &&& kept.dotfiles == desired.dotfiles
        }),
{
}

/// A patch sets the variables in the order in which they are desired, and removes
/// each name once, in the order in which the sandbox has them.
pub proof fn law_patches_keep_the_order(
    current: Seq<(Seq<char>, Seq<char>)>,
    desired: Seq<(Seq<char>, Seq<char>)>,
    managed: Seq<Seq<char>>,
)
    ensures
        to_set(desired, current) == desired.filter(
            |pair: (Seq<char>, Seq<char>)| !current.contains(pair),
        ),
        to_remove(current, to_map(desired), managed).no_duplicates(),
    decreases desired.len() + current.len(),
{
    reveal(Seq::filter);
    if desired.len() > 0 {
        lemma_set_in_order(desired, current);
    }
    lemma_removed_once(current, to_map(desired), managed);
}

proof fn lemma_set_in_order(
    desired: Seq<(Seq<char>, Seq<char>)>,
    current: Seq<(Seq<char>, Seq<char>)>,
)
    ensures
        to_set(desired, current) == desired.filter(
            |pair: (Seq<char>, Seq<char>)| !current.contains(pair),
        ),
    decreases desired.len(),
{
    reveal(Seq::filter);
    if desired.len() > 0 {
        lemma_set_in_order(desired.drop_last(), current);
    }
}

proof fn lemma_removed_once(
    current: Seq<(Seq<char>, Seq<char>)>,
    desired: Map<Seq<char>, Seq<char>>,
    managed: Seq<Seq<char>>,
)
    ensures
        to_remove(current, desired, managed).no_duplicates(),
    decreases current.len(),
{
    if current.len() > 0 {
        lemma_removed_once(current.drop_last(), desired, managed);
    }
}

} // verus!
