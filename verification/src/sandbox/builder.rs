//! What a sandbox is built with: a [`SandboxPlan`] in the terms of the
//! microsandbox SDK's builder.

use vstd::prelude::*;

use crate::config::hostpat::{HostPattern, PatternView};
use crate::config::schema::{clone_mounts, clone_ports, Mount, NetworkPreset, PortMapping};
use crate::ip::{IpAddr, SocketAddr};
use crate::maps::{sorted_keys, TextMap};
use crate::sandbox::labels;
use crate::sandbox::plan::{SandboxPlan, SecretValue};
use crate::text::{concat, decimal, decimal_string, views};

verus! {

// ---------------------------------------------------------------------------
// Constants
// ---------------------------------------------------------------------------

/// Base image.
pub const IMAGE: &'static str = "cruizba/ubuntu-dind:noble-latest";

/// Guest init. `auto` resolves the image's init, which starts dockerd on every
/// boot. A detached sandbox's startup command runs only when it is created, so
/// Docker must not depend on one.
pub const GUEST_INIT: &'static str = "auto";

/// Named volume shared by every kitchen for mise's cache.
pub const MISE_CACHE_VOLUME: &'static str = "microkitchen-mise-cache";

/// mise's cache in the guest (`MISE_CACHE_DIR`), on the shared volume.
pub const MISE_CACHE_GUEST_PATH: &'static str = "/var/cache/mise";

/// Directory holding the guest copy of the kitchen file.
pub const GUEST_KITCHEN_DIR: &'static str = "/opt/kitchen";

/// mise's system config in the guest (`MISE_SYSTEM_CONFIG_FILE`): the kitchen
/// file. Not the global config, which stays chef's own for `mise use -g`.
pub const GUEST_MISE_SYSTEM_CONFIG: &'static str = "/opt/kitchen/mise.toml";

/// mise's installs and shims (`MISE_DATA_DIR`), owned by chef. Outside any
/// home so root and chef see the same tools whatever chef's home is.
pub const GUEST_MISE_DATA_DIR: &'static str = "/opt/mise";

/// Where the bootstrap installs mise itself.
pub const GUEST_MISE_BIN: &'static str = "/usr/local/bin/mise";

/// Guest `PATH`: mise's shims ahead of microsandbox's default, so
/// bootstrapped tools work in `exec` and shells without activation.
pub const GUEST_PATH: &'static str =
    "/opt/mise/shims:/.msb/scripts:/usr/local/sbin:/usr/local/bin:/usr/sbin:/usr/bin:/sbin:/bin";

/// Guest `TMPDIR`: microsandbox mounts `/tmp` as a tmpfs capped at 512 MiB,
/// too small for some tool installs; `/var/tmp` is on the root disk.
pub const GUEST_TMPDIR: &'static str = "/var/tmp";

/// The user microkitchen's own guest commands run as; everything else runs as
/// the sandbox's default user, chef.
pub const ROOT: &'static str = "root";

/// Published ports listen on host loopback only: 127.0.0.1.
pub const PORT_BIND: u32 = 0x7f00_0001;

/// The interactive shell of the sandbox.
pub const GUEST_SHELL: &'static str = "/bin/bash";

// ---------------------------------------------------------------------------
// The environment
// ---------------------------------------------------------------------------

/// Variables microkitchen sets in every guest; the kitchen file's `env` may
/// override them.
pub open spec fn guest_env() -> Seq<(Seq<char>, Seq<char>)> {
    seq![
        ("PATH"@, GUEST_PATH@),
        ("TMPDIR"@, GUEST_TMPDIR@),
        ("MISE_DATA_DIR"@, GUEST_MISE_DATA_DIR@),
        ("MISE_CACHE_DIR"@, MISE_CACHE_GUEST_PATH@),
        ("MISE_SYSTEM_CONFIG_FILE"@, GUEST_MISE_SYSTEM_CONFIG@),
    ]
}

/// The variables of a list that a map does not override.
pub open spec fn not_overridden(
    list: Seq<(Seq<char>, Seq<char>)>,
    env: Map<Seq<char>, Seq<char>>,
) -> Seq<(Seq<char>, Seq<char>)>
    decreases list.len(),
{
    if list.len() == 0 {
        Seq::empty()
    } else if env.contains_key(list.last().0) {
        not_overridden(list.drop_last(), env)
    } else {
        not_overridden(list.drop_last(), env).push(list.last())
    }
}

/// Pairs of texts by their contents.
pub open spec fn pair_texts(s: Seq<(String, String)>) -> Seq<(Seq<char>, Seq<char>)> {
    Seq::new(s.len(), |i: int| (s[i].0@, s[i].1@))
}

fn push_unless_set(
    out: &mut Vec<(String, String)>,
    name: &'static str,
    value: &'static str,
    env: &TextMap<String>,
)
    ensures
        pair_texts(final(out)@) == (if env@.contains_key(name@) {
            pair_texts(old(out)@)
        } else {
            pair_texts(old(out)@).push((name@, value@))
        }),
{
    let ghost before = pair_texts(out@);
    if !env.contains_key(name) {
        out.push((name.to_owned(), value.to_owned()));
        assert(pair_texts(out@) =~= before.push((name@, value@)));
    }
}

/// The guest's variables: microkitchen's own that the kitchen file does not
/// override, then the kitchen file's.
pub fn environment(env: &TextMap<String>) -> (r: Vec<(String, String)>)
    ensures
        pair_texts(r@) == not_overridden(guest_env(), env@) + env.pairs(),
        sorted_keys(env.pairs()),
{
    let mut r: Vec<(String, String)> = Vec::new();
    let ghost list = guest_env();
    proof {
        reveal_with_fuel(not_overridden, 6);
        assert(pair_texts(r@) =~= Seq::empty());
        assert(list.drop_last() =~= list.subrange(0, 4));
        assert(list.subrange(0, 4).drop_last() =~= list.subrange(0, 3));
        assert(list.subrange(0, 3).drop_last() =~= list.subrange(0, 2));
        assert(list.subrange(0, 2).drop_last() =~= list.subrange(0, 1));
        assert(list.subrange(0, 1).drop_last() =~= Seq::empty());
    }
    push_unless_set(&mut r, "PATH", GUEST_PATH, env);
    assert(pair_texts(r@) == not_overridden(list.subrange(0, 1), env@));
    push_unless_set(&mut r, "TMPDIR", GUEST_TMPDIR, env);
    assert(pair_texts(r@) == not_overridden(list.subrange(0, 2), env@));
    push_unless_set(&mut r, "MISE_DATA_DIR", GUEST_MISE_DATA_DIR, env);
    assert(pair_texts(r@) == not_overridden(list.subrange(0, 3), env@));
    push_unless_set(&mut r, "MISE_CACHE_DIR", MISE_CACHE_GUEST_PATH, env);
    assert(pair_texts(r@) == not_overridden(list.subrange(0, 4), env@));
    push_unless_set(&mut r, "MISE_SYSTEM_CONFIG_FILE", GUEST_MISE_SYSTEM_CONFIG, env);
    let ghost own = pair_texts(r@);
    assert(own == not_overridden(list, env@));
    let ghost pairs = env.pairs();
    let n: usize = env.len();
    let mut i: usize = 0;
    assert(own + pairs.subrange(0, 0) =~= own);
    while i < n
        invariant
            i <= n,
            n == pairs.len(),
            pairs == env.pairs(),
            pair_texts(r@) == own + pairs.subrange(0, i as int),
        decreases n - i,
    {
        let ghost before = pair_texts(r@);
        let (name, value) = env.at(i);
        r.push((name.to_owned(), value.clone()));
        assert(pair_texts(r@) =~= before.push(pairs[i as int]));
        assert(pair_texts(r@) =~= own + pairs.subrange(0, i + 1));
        i += 1;
    }
    assert(pairs.subrange(0, n as int) =~= pairs);
    r
}

// ---------------------------------------------------------------------------
// Secrets
// ---------------------------------------------------------------------------

/// The form the sandbox builder gives a secret's allowed host; none for an
/// address.
pub open spec fn host_text(pattern: PatternView) -> Option<Seq<char>> {
    match pattern {
        PatternView::Exact(host) => Some(host),
        PatternView::Suffix(_) => Some(pattern.text()),
        _ => None,
    }
}

/// The hosts that a secret is substituted for.
pub open spec fn hosts_of(allow: Seq<PatternView>) -> Seq<Seq<char>>
    decreases allow.len(),
{
    if allow.len() == 0 {
        Seq::empty()
    } else {
        match host_text(allow.last()) {
            Some(host) => hosts_of(allow.drop_last()).push(host),
            None => hosts_of(allow.drop_last()),
        }
    }
}

/// The form the sandbox builder gives a secret's allowed host.
pub fn secret_host(pattern: &HostPattern) -> (r: Option<String>)
    ensures
        match r {
            Some(host) => host_text(pattern@) == Some(host@),
            None => host_text(pattern@) is None,
        },
{
    match pattern {
        HostPattern::Exact(host) => Some(host.clone()),
        HostPattern::Suffix(_) => Some(pattern.to_text()),
        _ => None,
    }
}

/// The hosts that a secret is substituted for; elsewhere the placeholder passes
/// through unchanged.
pub fn secret_hosts(allow: &Vec<HostPattern>) -> (r: Vec<String>)
    ensures
        views(r@) == hosts_of(views(allow@)),
{
    let ghost av = views(allow@);
    let mut r: Vec<String> = Vec::new();
    let mut i: usize = 0;
    assert(av.subrange(0, 0) =~= Seq::empty());
    assert(views(r@) =~= Seq::empty());
    while i < allow.len()
        invariant
            i <= allow@.len(),
            av == views(allow@),
            views(r@) == hosts_of(av.subrange(0, i as int)),
        decreases allow@.len() - i,
    {
        assert(av.subrange(0, i + 1).drop_last() =~= av.subrange(0, i as int));
        assert(av.subrange(0, i + 1).last() == allow@[i as int]@);
        let ghost done = views(r@);
        if let Some(host) = secret_host(&allow[i]) {
            let ghost text = host@;
            r.push(host);
            assert(views(r@) =~= done.push(text));
        }
        i += 1;
    }
    assert(av.subrange(0, av.len() as int) =~= av);
    r
}

// ---------------------------------------------------------------------------
// Egress
// ---------------------------------------------------------------------------

/// The sandbox's endpoints at the egress broker.
#[derive(Debug, PartialEq, Eq)]
pub struct Egress {
    pub resolver_port: u16,
    pub proxy_port: u16,
    /// The host variable that holds the proxy password.
    pub secret_env: String,
}

/// A structural deny, evaluated by microsandbox before anything reaches the
/// broker.
#[derive(Debug, Clone, Copy, PartialEq, Eq, Structural)]
pub struct DeniedPort {
    pub udp: bool,
    pub tcp: bool,
    pub port: u16,
}

/// How a sandbox's traffic goes through the broker: its resolver, its proxy, and
/// the password for it.
#[derive(Debug, PartialEq, Eq)]
pub struct Mediation {
    pub resolver: SocketAddr,
    /// `host:port` of the SOCKS5 proxy.
    pub proxy: String,
    pub username: String,
    pub secret_env: String,
    /// DNS goes only to the sandbox's own forwarder (and so through the
    /// observer), and DNS over TLS is refused.
    pub denied: [DeniedPort; 2],
}

/// The broker is the sandbox's resolver and outbound proxy, unless the sandbox
/// has no network or no endpoints.
pub fn mediation(name: &str, preset: NetworkPreset, egress: &Option<Egress>) -> (r: Option<
    Mediation,
>)
    ensures
        r is Some <==> preset != NetworkPreset::Disabled && egress is Some,
        r matches Some(m) ==> {
            &&& m.resolver == SocketAddr {
                ip: IpAddr::V4(PORT_BIND),
                port: egress->0.resolver_port,
            }
            &&& m.proxy@ == "127.0.0.1:"@ + decimal(egress->0.proxy_port as nat)
            &&& m.username@ == name@
            &&& m.secret_env@ == egress->0.secret_env@
            &&& m.denied@ == seq![
                DeniedPort { udp: true, tcp: true, port: 53 },
                DeniedPort { udp: false, tcp: true, port: 853 },
            ]
        },
{
    if preset == NetworkPreset::Disabled {
        return None;
    }
    match egress {
        Some(egress) => {
            let m = Mediation {
                resolver: SocketAddr { ip: IpAddr::V4(PORT_BIND), port: egress.resolver_port },
                proxy: concat("127.0.0.1:", decimal_string(egress.proxy_port as u64).as_str()),
                username: name.to_owned(),
                secret_env: egress.secret_env.clone(),
                denied: [
                    DeniedPort { udp: true, tcp: true, port: 53 },
                    DeniedPort { udp: false, tcp: true, port: 853 },
                ],
            };
            assert(m.denied@ =~= seq![
                DeniedPort { udp: true, tcp: true, port: 53 },
                DeniedPort { udp: false, tcp: true, port: 853 },
            ]);
            Some(m)
        },
        None => None,
    }
}

// ---------------------------------------------------------------------------
// The builder
// ---------------------------------------------------------------------------

/// A secret as the builder takes it.
#[derive(Debug, PartialEq, Eq)]
pub struct SecretEntry {
    pub name: String,
    pub value: String,
    pub hosts: Vec<String>,
}

/// A [`SecretEntry`] by its contents.
#[verifier::ext_equal]
pub struct SecretEntryView {
    pub name: Seq<char>,
    pub value: Seq<char>,
    pub hosts: Seq<Seq<char>>,
}

impl View for SecretEntry {
    type V = SecretEntryView;

    open spec fn view(&self) -> SecretEntryView {
        SecretEntryView { name: self.name@, value: self.value@, hosts: views(self.hosts@) }
    }
}

/// What the SDK's builder is told.
///
/// The root disk is flat ext4 so dockerd's overlay storage is not nested on
/// the sandbox's own overlay. The guest `mise.toml` is written after boot
/// (see [`crate::sandbox::lifecycle::guest_config_script`]), not patched in.
pub struct Build {
    /// The sandbox's name, which is also its hostname.
    pub name: String,
    pub cpus: u8,
    pub memory_mib: u32,
    pub disk_mib: u32,
    /// chef, by number: it only exists once bootstrap has run.
    pub user: String,
    pub env: Vec<(String, String)>,
    pub labels: Vec<(&'static str, String)>,
    pub mounts: Vec<Mount>,
    pub preset: NetworkPreset,
    pub mediation: Option<Mediation>,
    pub ports: Vec<PortMapping>,
    pub secrets: Vec<SecretEntry>,
}

/// A secret of a plan as the builder takes it.
pub open spec fn secret_entry_of(
    name: Seq<char>,
    secret: (Seq<char>, Seq<PatternView>),
) -> SecretEntryView {
    SecretEntryView { name, value: secret.0, hosts: hosts_of(secret.1) }
}

fn secret_entries(secrets: &TextMap<SecretValue>) -> (r: Vec<SecretEntry>)
    ensures
        views(r@) == Seq::new(
            secrets.pairs().len(),
            |i: int| secret_entry_of(secrets.pairs()[i].0, secrets.pairs()[i].1),
        ),
        sorted_keys(secrets.pairs()),
{
    let ghost pairs = secrets.pairs();
    let n: usize = secrets.len();
    let mut r: Vec<SecretEntry> = Vec::new();
    let mut i: usize = 0;
    while i < n
        invariant
            i <= n,
            n == pairs.len(),
            pairs == secrets.pairs(),
            r@.len() == i,
            forall|k: int|
                0 <= k < i ==> (#[trigger] r@[k])@ == secret_entry_of(pairs[k].0, pairs[k].1),
        decreases n - i,
    {
        let (name, secret) = secrets.at(i);
        let entry = SecretEntry {
            name: name.to_owned(),
            value: secret.value.clone(),
            hosts: secret_hosts(&secret.secret.allow),
        };
        assert(entry@ =~= secret_entry_of(name@, secret@));
        r.push(entry);
        i += 1;
    }
    assert(views(r@) =~= Seq::new(
        secrets.pairs().len(),
        |i: int| secret_entry_of(secrets.pairs()[i].0, secrets.pairs()[i].1),
    ));
    r
}

/// What the SDK's builder is told to build `plan`, by this version of
/// microkitchen.
pub fn builder(plan: &SandboxPlan, egress: &Option<Egress>, version: &str) -> (r: Build)
    ensures
        r.name@ == plan.name@,
        r.cpus == plan.config.cpus && r.memory_mib == plan.config.memory_mib && r.disk_mib
            == plan.config.disk_mib,
        r.user@ == plan.config.user.spec_text(),
        pair_texts(r.env@) == not_overridden(guest_env(), plan.env@) + plan.env.pairs(),
        r.labels@.len() == 5,
        r.labels@[0].0@ == labels::MANAGED@ && r.labels@[0].1@ == "true"@,
        r.labels@[1].0@ == labels::CONFIG@ && r.labels@[1].1@ == plan.kitchen_file@,
        r.labels@[2].0@ == labels::CONFIG_HASH@ && r.labels@[2].1@ == plan.config_hash@,
        r.labels@[3].0@ == labels::VERSION@ && r.labels@[3].1@ == version@,
        r.labels@[4].0@ == labels::BOOTSTRAPPED@ && r.labels@[4].1@ == "false"@,
        views(r.mounts@) == views(plan.config.mounts@),
        r.preset == plan.config.network.preset,
        r.mediation is Some <==> r.preset != NetworkPreset::Disabled && egress is Some,
        r.mediation matches Some(m) ==> {
            &&& m.resolver == SocketAddr {
                ip: IpAddr::V4(PORT_BIND),
                port: egress->0.resolver_port,
            }
            &&& m.proxy@ == "127.0.0.1:"@ + decimal(egress->0.proxy_port as nat)
            &&& m.username@ == plan.name@
            &&& m.secret_env@ == egress->0.secret_env@
            &&& m.denied@ == seq![
                DeniedPort { udp: true, tcp: true, port: 53 },
                DeniedPort { udp: false, tcp: true, port: 853 },
            ]
        },
        r.ports@ == plan.config.network.ports@,
        views(r.secrets@) == Seq::new(
            plan.secrets.pairs().len(),
            |i: int| secret_entry_of(plan.secrets.pairs()[i].0, plan.secrets.pairs()[i].1),
        ),
{
    let preset = plan.config.network.preset;
    Build {
        name: plan.name.clone(),
        cpus: plan.config.cpus,
        memory_mib: plan.config.memory_mib,
        disk_mib: plan.config.disk_mib,
        user: plan.config.user.to_text(),
        env: environment(&plan.env),
        labels: plan.labels(version),
        mounts: clone_mounts(&plan.config.mounts),
        preset,
        mediation: mediation(plan.name.as_str(), preset, egress),
        ports: clone_ports(&plan.config.network.ports),
        secrets: secret_entries(&plan.secrets),
    }
}

// ---------------------------------------------------------------------------
// Laws
// ---------------------------------------------------------------------------

proof fn lemma_not_overridden(
    list: Seq<(Seq<char>, Seq<char>)>,
    env: Map<Seq<char>, Seq<char>>,
    i: int,
)
    requires
        0 <= i < not_overridden(list, env).len(),
    ensures
        !env.contains_key(not_overridden(list, env)[i].0),
        list.contains(not_overridden(list, env)[i]),
    decreases list.len(),
{
    let rest = not_overridden(list.drop_last(), env);
    if !env.contains_key(list.last().0) && i == rest.len() {
        assert(list[list.len() - 1] == list.last());
    } else {
        lemma_not_overridden(list.drop_last(), env, i);
        let x = rest[i];
        let k = choose|k: int| 0 <= k < list.drop_last().len() && list.drop_last()[k] == x;
        assert(list[k] == x);
    }
}

/// The kitchen file overrides microkitchen's own variables: none of them that it
/// sets is set a second time.
pub proof fn law_the_kitchen_overrides_the_guest_env(env: Map<Seq<char>, Seq<char>>, i: int)
    requires
        0 <= i < not_overridden(guest_env(), env).len(),
    ensures
        !env.contains_key(not_overridden(guest_env(), env)[i].0),
        guest_env().contains(not_overridden(guest_env(), env)[i]),
{
    lemma_not_overridden(guest_env(), env, i);
}

/// microkitchen's own variables go in unless the kitchen sets them, in order; a secret
/// goes to the names that it lists, in order, each as it is written.
pub proof fn law_variables_and_hosts_keep_their_order(
    list: Seq<(Seq<char>, Seq<char>)>,
    env: Map<Seq<char>, Seq<char>>,
    allow: Seq<PatternView>,
)
    ensures
        not_overridden(list, env) == list.filter(
            |pair: (Seq<char>, Seq<char>)| !env.contains_key(pair.0),
        ),
        hosts_of(allow) == allow.flat_map(
            |pattern: PatternView|
                match pattern {
                    PatternView::Exact(host) => seq![host],
                    PatternView::Suffix(host) => seq![seq!['*', '.'] + host],
                    _ => Seq::empty(),
                },
        ),
{
    lemma_own_in_order(list, env);
    lemma_hosts_in_order(allow);
}

proof fn lemma_own_in_order(list: Seq<(Seq<char>, Seq<char>)>, env: Map<Seq<char>, Seq<char>>)
    ensures
        not_overridden(list, env) == list.filter(
            |pair: (Seq<char>, Seq<char>)| !env.contains_key(pair.0),
        ),
    decreases list.len(),
{
    reveal(Seq::filter);
    if list.len() > 0 {
        lemma_own_in_order(list.drop_last(), env);
    }
}

proof fn lemma_hosts_in_order(allow: Seq<PatternView>)
    ensures
        hosts_of(allow) == allow.flat_map(
            |pattern: PatternView|
                match pattern {
                    PatternView::Exact(host) => seq![host],
                    PatternView::Suffix(host) => seq![seq!['*', '.'] + host],
                    _ => Seq::empty(),
                },
        ),
    decreases allow.len(),
{
    let f = |pattern: PatternView|
        match pattern {
            PatternView::Exact(host) => seq![host],
            PatternView::Suffix(host) => seq![seq!['*', '.'] + host],
            _ => Seq::<Seq<char>>::empty(),
        };
    reveal_strlit("*.");
    assert("*."@ =~= seq!['*', '.']);
    crate::maps::lemma_flat_map_step(allow, f);
    if allow.len() > 0 {
        lemma_hosts_in_order(allow.drop_last());
        assert(hosts_of(allow) =~= allow.flat_map(f));
    }
}

/// A secret goes into the sandbox under its name, with its value and the hosts that it
/// lists; microkitchen's own variables are these five.
pub proof fn law_secrets_go_in_with_their_hosts(
    name: Seq<char>,
    value: Seq<char>,
    allow: Seq<PatternView>,
)
    ensures
        secret_entry_of(name, (value, allow)).name == name,
        secret_entry_of(name, (value, allow)).value == value,
        secret_entry_of(name, (value, allow)).hosts == hosts_of(allow),
        guest_env().map_values(|pair: (Seq<char>, Seq<char>)| pair.0) == seq![
            "PATH"@,
            "TMPDIR"@,
            "MISE_DATA_DIR"@,
            "MISE_CACHE_DIR"@,
            "MISE_SYSTEM_CONFIG_FILE"@,
        ],
{
    assert(guest_env().map_values(|pair: (Seq<char>, Seq<char>)| pair.0) =~= seq![
        "PATH"@,
        "TMPDIR"@,
        "MISE_DATA_DIR"@,
        "MISE_CACHE_DIR"@,
        "MISE_SYSTEM_CONFIG_FILE"@,
    ]);
}

} // verus!
