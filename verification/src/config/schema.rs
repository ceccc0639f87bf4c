//! The normalized sandbox configuration, and how its parts are written.

use vstd::prelude::*;

use crate::config::hostpat::{HostPattern, PatternView};
use crate::config::SectionLocation;
use crate::maps::{distinct_keys, lemma_to_map_push, to_map, TextMap};
use crate::paths::{is_absolute, normalize, normalized, path_parts, take_apart, Parts, PathView};
use crate::text::{
    after, before, chars, concat, concat3, decimal, find_first, find_last, first_index,
    has_prefix, is_alphanumeric, is_alphanumeric_char, is_digit, last_index, lemma_split_concat,
    lemma_split_single, opt_view, parse_unsigned, push_decimal, same, split, split_at, starts_with, string_of, unsigned_of, views,
};
use crate::tree::Span;

pub use crate::config::walker::parse;

verus! {

// ---------------------------------------------------------------------------
// Constants
// ---------------------------------------------------------------------------

pub const DEFAULT_CPUS: u8 = 2;

/// Ceiling passed to the SDK as `max_cpus`; also the configurable maximum.
pub const MAX_CPUS: u8 = 64;

pub const DEFAULT_MEMORY_MIB: u32 = 4096;

/// Ceiling passed to the SDK as `max_memory`; also the configurable maximum.
pub const MAX_MEMORY_MIB: u32 = 65536;

pub const DEFAULT_DISK_MIB: u32 = 10240;

/// The sandbox user, declared as `[bootstrap.users.chef]` (a default otherwise).
pub const CHEF: &'static str = "chef";

/// chef's uid and its group's gid unless the kitchen file sets them. The
/// image's own `ubuntu` user holds 1000.
pub const DEFAULT_CHEF_ID: u32 = 1001;

/// Guest paths microkitchen mounts or writes itself; user mounts may not overlap them.
pub open spec fn reserved_paths() -> Seq<Seq<char>> {
    seq![
        "/var/cache/mise"@,
        "/opt/kitchen"@,
        "/opt/mise"@,
        "/.msb"@,
        "/root/.cache/mise"@,
        "/root/kitchen"@,
    ]
}

// ---------------------------------------------------------------------------
// Types
// ---------------------------------------------------------------------------

/// The normalized sandbox configuration. Stored as the "applied" config so
/// `remodel` can diff against it.
#[derive(Debug, PartialEq, Eq)]
pub struct KitchenConfig {
    pub cpus: u8,
    pub memory_mib: u32,
    pub disk_mib: u32,
    pub mounts: Vec<Mount>,
    pub network: NetworkConfig,
    pub secrets: TextMap<SecretConfig>,
    /// The sandbox's default guest user. Sandboxes created before chef run as
    /// root.
    pub user: GuestUser,
    /// Host directory staged into the guest as mise's `dotfiles.root`, so
    /// entries without a `source` resolve (see [`crate::config::staging`]).
    pub dotfiles: Option<String>,
}

/// A [`KitchenConfig`] by its contents.
#[verifier::ext_equal]
pub struct KitchenView {
    pub cpus: u8,
    pub memory_mib: u32,
    pub disk_mib: u32,
    pub mounts: Seq<MountView>,
    pub network: NetworkView,
    pub secrets: Map<Seq<char>, Seq<PatternView>>,
    pub user: GuestUser,
    pub dotfiles: Option<Seq<char>>,
}

/// Numeric identity of the sandbox's default user. microsandbox resolves it
/// at boot, before bootstrap creates chef, and maps bind-mounted host files
/// to it; so it is fixed at creation.
#[derive(Debug, Clone, Copy, PartialEq, Eq, Structural)]
pub struct GuestUser {
    pub uid: u32,
    pub gid: u32,
}

/// A bind mount of a host directory into the guest.
#[derive(Debug, PartialEq, Eq)]
pub struct Mount {
    /// Absolute, lexically normalized host path.
    pub host: String,
    /// Absolute, lexically normalized guest path.
    pub guest: String,
    pub readonly: bool,
}

/// A [`Mount`] by its contents.
#[verifier::ext_equal]
pub struct MountView {
    pub host: Seq<char>,
    pub guest: Seq<char>,
    pub readonly: bool,
}

/// microsandbox network preset.
#[derive(Debug, Clone, Copy, PartialEq, Eq, Structural)]
pub enum NetworkPreset {
    Disabled,
    Public,
    Open,
}

#[derive(Debug, PartialEq, Eq)]
pub struct NetworkConfig {
    pub preset: NetworkPreset,
    pub allow: Vec<HostPattern>,
    pub deny: Vec<HostPattern>,
    pub ports: Vec<PortMapping>,
}

/// A [`NetworkConfig`] by its contents.
#[verifier::ext_equal]
pub struct NetworkView {
    pub preset: NetworkPreset,
    pub allow: Seq<PatternView>,
    pub deny: Seq<PatternView>,
    pub ports: Seq<PortMapping>,
}

/// A published port, bound on host loopback.
#[derive(Debug, Clone, Copy, PartialEq, Eq, Hash, Structural)]
pub struct PortMapping {
    pub host: u16,
    pub guest: u16,
    pub protocol: Protocol,
}

#[derive(Debug, Clone, Copy, PartialEq, Eq, Hash, Structural)]
pub enum Protocol {
    Tcp,
    Udp,
}

/// Hosts a secret may be substituted for. Patterns are handed to microsandbox as written.
#[derive(Debug, PartialEq, Eq)]
pub struct SecretConfig {
    pub allow: Vec<HostPattern>,
}

/// Result of parsing the kitchen file.
#[derive(Debug)]
pub struct ParsedKitchen {
    /// `None` when the file has no microkitchen table; defaults apply.
    pub location: Option<SectionLocation>,
    pub config: KitchenConfig,
    pub spans: Spans,
}

/// Spans kept for checks that need the environment or the filesystem.
#[derive(Debug)]
pub struct Spans {
    /// Parallel to [`KitchenConfig::mounts`].
    pub mounts: Vec<Option<Span>>,
    /// Span of each secret's key.
    pub secrets: TextMap<Place>,
    /// Span of the `dotfiles` value, when set.
    pub dotfiles: Option<Span>,
}

/// [`Spans`] by their contents.
#[verifier::ext_equal]
pub struct SpansView {
    pub mounts: Seq<Option<Span>>,
    pub secrets: Map<Seq<char>, Option<Span>>,
    pub dotfiles: Option<Span>,
}

/// Where something stands, where that is known.
#[derive(Debug, Clone, Copy, PartialEq, Eq)]
pub struct Place {
    pub span: Option<Span>,
}

// ---------------------------------------------------------------------------
// Views
// ---------------------------------------------------------------------------

impl View for Place {
    type V = Option<Span>;

    open spec fn view(&self) -> Option<Span> {
        self.span
    }
}

impl View for Mount {
    type V = MountView;

    open spec fn view(&self) -> MountView {
        MountView { host: self.host@, guest: self.guest@, readonly: self.readonly }
    }
}

impl View for NetworkConfig {
    type V = NetworkView;

    open spec fn view(&self) -> NetworkView {
        NetworkView {
            preset: self.preset,
            allow: views(self.allow@),
            deny: views(self.deny@),
            ports: self.ports@,
        }
    }
}

impl View for SecretConfig {
    type V = Seq<PatternView>;

    open spec fn view(&self) -> Seq<PatternView> {
        views(self.allow@)
    }
}

impl View for KitchenConfig {
    type V = KitchenView;

    open spec fn view(&self) -> KitchenView {
        KitchenView {
            cpus: self.cpus,
            memory_mib: self.memory_mib,
            disk_mib: self.disk_mib,
            mounts: views(self.mounts@),
            network: self.network@,
            secrets: self.secrets@,
            user: self.user,
            dotfiles: opt_view(self.dotfiles),
        }
    }
}

impl View for Spans {
    type V = SpansView;

    open spec fn view(&self) -> SpansView {
        SpansView {
            mounts: self.mounts@,
            secrets: self.secrets@,
            dotfiles: self.dotfiles,
        }
    }
}

// ---------------------------------------------------------------------------
// Defaults and copies
// ---------------------------------------------------------------------------

impl GuestUser {
    pub open spec fn chef() -> GuestUser {
        GuestUser { uid: DEFAULT_CHEF_ID, gid: DEFAULT_CHEF_ID }
    }

    pub fn root() -> (r: Self)
        ensures
            r == (GuestUser { uid: 0, gid: 0 }),
    {
        GuestUser { uid: 0, gid: 0 }
    }

    pub open spec fn spec_text(self) -> Seq<char> {
        decimal(self.uid as nat) + ":"@ + decimal(self.gid as nat)
    }

    pub fn to_text(&self) -> (r: String)
        ensures
            r@ == self.spec_text(),
    {
        let mut r = String::new();
        push_decimal(&mut r, self.uid as u64);
        r.push_str(":");
        push_decimal(&mut r, self.gid as u64);
        assert(r@ =~= self.spec_text());
        r
    }
}

impl Default for GuestUser {
    fn default() -> (r: Self)
        ensures
            r == GuestUser::chef(),
    {
        GuestUser { uid: DEFAULT_CHEF_ID, gid: DEFAULT_CHEF_ID }
    }
}

impl NetworkView {
    pub open spec fn empty() -> NetworkView {
        NetworkView {
            preset: NetworkPreset::Public,
            allow: Seq::empty(),
            deny: Seq::empty(),
            ports: Seq::empty(),
        }
    }
}

impl Default for NetworkConfig {
    fn default() -> (r: Self)
        ensures
            r@ == NetworkView::empty(),
    {
        let r = NetworkConfig {
            preset: NetworkPreset::Public,
            allow: Vec::new(),
            deny: Vec::new(),
            ports: Vec::new(),
        };
        assert(r@ =~= NetworkView::empty());
        r
    }
}

impl KitchenView {
    /// What a kitchen file without a microkitchen table means, for a user.
    pub open spec fn plain(user: GuestUser) -> KitchenView {
        KitchenView {
            cpus: DEFAULT_CPUS,
            memory_mib: DEFAULT_MEMORY_MIB,
            disk_mib: DEFAULT_DISK_MIB,
            mounts: Seq::empty(),
            network: NetworkView::empty(),
            secrets: Map::empty(),
            user,
            dotfiles: None,
        }
    }
}

impl Default for KitchenConfig {
    fn default() -> (r: Self)
        ensures
            r@ == KitchenView::plain(GuestUser::chef()),
    {
        let r = KitchenConfig {
            cpus: DEFAULT_CPUS,
            memory_mib: DEFAULT_MEMORY_MIB,
            disk_mib: DEFAULT_DISK_MIB,
            mounts: Vec::new(),
            network: NetworkConfig::default(),
            secrets: TextMap::new(),
            user: GuestUser::default(),
            dotfiles: None,
        };
        assert(r@ =~= KitchenView::plain(GuestUser::chef()));
        r
    }
}

impl SpansView {
    pub open spec fn none() -> SpansView {
        SpansView { mounts: Seq::empty(), secrets: Map::empty(), dotfiles: None }
    }
}

impl Default for Spans {
    fn default() -> (r: Self)
        ensures
            r@ == SpansView::none(),
    {
        let r = Spans { mounts: Vec::new(), secrets: TextMap::new(), dotfiles: None };
        assert(r@ =~= SpansView::none());
        r
    }
}

/// A copy of a list of rule entries.
pub fn clone_patterns(list: &Vec<HostPattern>) -> (r: Vec<HostPattern>)
    ensures
        views(r@) == views(list@),
{
    let mut r: Vec<HostPattern> = Vec::new();
    let mut i: usize = 0;
    while i < list.len()
        invariant
            i <= list@.len(),
            views(r@) == views(list@).subrange(0, i as int),
        decreases list@.len() - i,
    {
        let ghost done = views(r@);
        r.push(list[i].clone());
        assert(views(r@) =~= done.push(views(list@)[i as int]));
        assert(views(r@) =~= views(list@).subrange(0, i + 1));
        i += 1;
    }
    assert(views(r@) =~= views(list@));
    r
}

impl Clone for Mount {
    fn clone(&self) -> (r: Self)
        ensures
            r@ == self@,
    {
        Mount { host: self.host.clone(), guest: self.guest.clone(), readonly: self.readonly }
    }
}

impl Clone for SecretConfig {
    fn clone(&self) -> (r: Self)
        ensures
            r@ == self@,
    {
        SecretConfig { allow: clone_patterns(&self.allow) }
    }
}

/// A copy of a list of mounts.
pub fn clone_mounts(list: &Vec<Mount>) -> (r: Vec<Mount>)
    ensures
        views(r@) == views(list@),
{
    let mut r: Vec<Mount> = Vec::new();
    let mut i: usize = 0;
    while i < list.len()
        invariant
            i <= list@.len(),
            views(r@) == views(list@).subrange(0, i as int),
        decreases list@.len() - i,
    {
        let ghost done = views(r@);
        r.push(list[i].clone());
        assert(views(r@) =~= done.push(views(list@)[i as int]));
        assert(views(r@) =~= views(list@).subrange(0, i + 1));
        i += 1;
    }
    assert(views(r@) =~= views(list@));
    r
}

/// A copy of a list of ports.
pub fn clone_ports(list: &Vec<PortMapping>) -> (r: Vec<PortMapping>)
    ensures
        r@ == list@,
{
    let mut r: Vec<PortMapping> = Vec::new();
    let mut i: usize = 0;
    while i < list.len()
        invariant
            i <= list@.len(),
            r@ == list@.subrange(0, i as int),
        decreases list@.len() - i,
    {
        r.push(list[i]);
        i += 1;
    }
    assert(r@ =~= list@);
    r
}

impl Clone for NetworkConfig {
    fn clone(&self) -> (r: Self)
        ensures
            r@ == self@,
    {
        NetworkConfig {
            preset: self.preset,
            allow: clone_patterns(&self.allow),
            deny: clone_patterns(&self.deny),
            ports: clone_ports(&self.ports),
        }
    }
}

pub fn clone_secrets(secrets: &TextMap<SecretConfig>) -> (r: TextMap<SecretConfig>)
    ensures
        r@ == secrets@,
{
    let mut r: TextMap<SecretConfig> = TextMap::new();
    let ghost pairs = secrets.pairs();
    let n: usize = secrets.len();
    let mut i: usize = 0;
    assert(pairs.subrange(0, 0) =~= Seq::empty());
    assert(to_map(pairs.subrange(0, 0)) =~= Map::empty());
    while i < n
        invariant
            i <= n,
            n == pairs.len(),
            pairs == secrets.pairs(),
            distinct_keys(pairs),
            r@ == to_map(pairs.subrange(0, i as int)),
        decreases n - i,
    {
        let (name, secret) = secrets.at(i);
        proof {
            lemma_to_map_push(pairs, i as int);
        }
        r.insert(name, secret.clone());
        i += 1;
    }
    assert(pairs.subrange(0, n as int) =~= pairs);
    r
}

impl Clone for KitchenConfig {
    fn clone(&self) -> (r: Self)
        ensures
            r@ == self@,
    {
        let r = KitchenConfig {
            cpus: self.cpus,
            memory_mib: self.memory_mib,
            disk_mib: self.disk_mib,
            mounts: clone_mounts(&self.mounts),
            network: self.network.clone(),
            secrets: clone_secrets(&self.secrets),
            user: self.user,
            dotfiles: match &self.dotfiles {
                Some(path) => Some(path.clone()),
                None => None,
            },
        };
        assert(r@ =~= self@);
        r
    }
}

// ---------------------------------------------------------------------------
// Texts
// ---------------------------------------------------------------------------

impl NetworkPreset {
    pub open spec fn spec_text(self) -> Seq<char> {
        match self {
            NetworkPreset::Disabled => "none"@,
            NetworkPreset::Public => "public"@,
            NetworkPreset::Open => "open"@,
        }
    }

    pub fn to_text(&self) -> (r: &'static str)
        ensures
            r@ == self.spec_text(),
    {
        match *self {
            NetworkPreset::Disabled => "none",
            NetworkPreset::Public => "public",
            NetworkPreset::Open => "open",
        }
    }
}

impl Default for NetworkPreset {
    fn default() -> (r: Self)
        ensures
            r == NetworkPreset::Public,
    {
        NetworkPreset::Public
    }
}

impl Default for Protocol {
    fn default() -> (r: Self)
        ensures
            r == Protocol::Tcp,
    {
        Protocol::Tcp
    }
}

impl PortMapping {
    pub open spec fn spec_text(self) -> Seq<char> {
        let ports = decimal(self.host as nat) + ":"@ + decimal(self.guest as nat);
        if self.protocol == Protocol::Udp {
            ports + "/udp"@
        } else {
            ports
        }
    }

    pub fn to_text(&self) -> (r: String)
        ensures
            r@ == self.spec_text(),
    {
        let mut r = String::new();
        push_decimal(&mut r, self.host as u64);
        r.push_str(":");
        push_decimal(&mut r, self.guest as u64);
        if self.protocol == Protocol::Udp {
            r.push_str("/udp");
        }
        assert(r@ =~= self.spec_text());
        r
    }
}

impl MountView {
    pub open spec fn text(self) -> Seq<char> {
        let paths = self.host + " \u{2192} "@ + self.guest;
        if self.readonly {
            paths + " (ro)"@
        } else {
            paths
        }
    }
}

impl Mount {
    pub fn to_text(&self) -> (r: String)
        ensures
            r@ == self@.text(),
    {
        let mut r = concat3(self.host.as_str(), " \u{2192} ", self.guest.as_str());
        if self.readonly {
            r.push_str(" (ro)");
        }
        r
    }
}

// ---------------------------------------------------------------------------
// Host paths
// ---------------------------------------------------------------------------

/// Whether a path starts in the user's home directory.
pub open spec fn in_home(path: Seq<char>) -> bool {
    path == "~"@ || starts_with(path, "~/"@)
}

/// A host path as written in the kitchen file: `~/` expands to `home`, a
/// relative path resolves against `base`, and the result is normalized.
pub open spec fn host_path(path: Seq<char>, base: Seq<char>, home: Option<Seq<char>>) -> Result<
    Seq<char>,
    Seq<char>,
> {
    if in_home(path) {
        match home {
            None => Err("`~` is used but HOME is not set"@),
            Some(home) => Ok(
                path_parts(base).joined(
                    path_parts(home).joined(
                        PathView { absolute: false, names: path_parts(after(path, 1)).names },
                    ),
                ).normal().text(),
            ),
        }
    } else {
        Ok(path_parts(base).joined(path_parts(path)).normal().text())
    }
}

/// The outcome of an operation that fails with a message.
pub open spec fn message_outcome(r: Result<String, String>) -> Result<Seq<char>, Seq<char>> {
    match r {
        Ok(value) => Ok(value@),
        Err(message) => Err(message@),
    }
}

pub open spec fn opt_str(o: Option<&str>) -> Option<Seq<char>> {
    match o {
        Some(text) => Some(text@),
        None => None,
    }
}

/// A host path as written in the kitchen file: `~/` expands to `home`, a
/// relative path resolves against `base`, and the result is normalized
/// lexically.
///
/// `base` is the directory of the file that declared the path. For staged
/// sources that is the kitchen *file's* directory, not
/// [`crate::config::discover::project_dir`]'s result: mise resolves a relative
/// `source` against the declaring file's directory (see
/// [`crate::config::staging`]).
pub fn resolve_host_path(path: &str, base: &str, home: Option<&str>) -> (r: Result<String, String>)
    ensures
        message_outcome(r) == host_path(path@, base@, opt_str(home)),
{
    if same(path, "~") || has_prefix(path, "~/") {
        match home {
            None => Err("`~` is used but HOME is not set".to_owned()),
            Some(home) => {
                let v = chars(path);
                proof {
                    reveal_strlit("~");
                    reveal_strlit("~/");
                    assert(v@.len() >= 1);
                }
                let rest = string_of(&v, 1, v.len());
                let below = Parts { absolute: false, names: take_apart(rest.as_str()).names };
                let full = take_apart(home).join(&below);
                Ok(take_apart(base).join(&full).normal().text())
            },
        }
    } else {
        Ok(take_apart(base).join(&take_apart(path)).normal().text())
    }
}

/// Resolve `.` and `..` without touching the filesystem.
pub fn normalize_lexically(path: &str) -> (r: String)
    ensures
        r@ == normalized(path@),
{
    normalize(path)
}

// ---------------------------------------------------------------------------
// Mounts
// ---------------------------------------------------------------------------

/// A mount by its three fields.
pub open spec fn mount_fields(
    host: Seq<char>,
    guest: Seq<char>,
    readonly: bool,
    base: Seq<char>,
    home: Option<Seq<char>>,
) -> Result<MountView, Seq<char>> {
    if host.len() == 0 {
        Err("the host path is empty"@)
    } else if !(guest.len() > 0 && guest[0] == '/') {
        Err("the guest path `"@ + guest + "` must be absolute"@)
    } else if normalized(guest) == "/"@ {
        Err("cannot mount over the guest's root directory"@)
    } else {
        match host_path(host, base, home) {
            Err(message) => Err(message),
            Ok(host) => Ok(MountView { host, guest: normalized(guest), readonly }),
        }
    }
}

/// `host:guest[:ro|:rw]`.
pub open spec fn mount_of(spec: Seq<char>, base: Seq<char>, home: Option<Seq<char>>) -> Result<
    MountView,
    Seq<char>,
> {
    let parts = split(spec, ':');
    if parts.len() == 2 {
        mount_fields(parts[0], parts[1], false, base, home)
    } else if parts.len() == 3 && parts[2] == "ro"@ {
        mount_fields(parts[0], parts[1], true, base, home)
    } else if parts.len() == 3 && parts[2] == "rw"@ {
        mount_fields(parts[0], parts[1], false, base, home)
    } else if parts.len() == 3 {
        Err("unknown mount option `"@ + parts[2] + "`; expected `ro` or `rw`"@)
    } else {
        Err("expected `host:guest[:ro]`, got `"@ + spec + "`"@)
    }
}

pub open spec fn mount_outcome(r: Result<Mount, String>) -> Result<MountView, Seq<char>> {
    match r {
        Ok(mount) => Ok(mount@),
        Err(message) => Err(message@),
    }
}

fn read_mount(host: &str, guest: &str, readonly: bool, base: &str, home: Option<&str>) -> (r: Result<
    Mount,
    String,
>)
    ensures
        mount_outcome(r) == mount_fields(host@, guest@, readonly, base@, opt_str(home)),
{
    if host.is_empty() {
        return Err("the host path is empty".to_owned());
    }
    let g = chars(guest);
    if !(g.len() > 0 && g[0] == '/') {
        return Err(concat3("the guest path `", guest, "` must be absolute"));
    }
    let guest = normalize(guest);
    if same(guest.as_str(), "/") {
        return Err("cannot mount over the guest's root directory".to_owned());
    }
    match resolve_host_path(host, base, home) {
        Ok(host) => Ok(Mount { host, guest, readonly }),
        Err(message) => Err(message),
    }
}

/// Parse `host:guest[:ro|:rw]`. A relative or `~/` host path is resolved
/// against `base` or `home`.
pub fn parse_mount(spec: &str, base: &str, home: Option<&str>) -> (r: Result<Mount, String>)
    ensures
        mount_outcome(r) == mount_of(spec@, base@, opt_str(home)),
{
    let v = chars(spec);
    let parts = split_at(&v, ':');
    let ghost pv = views(parts@);
    assert(pv == split(spec@, ':'));
    if parts.len() == 2 {
        assert(parts@[0]@ == pv[0] && parts@[1]@ == pv[1]);
        read_mount(parts[0].as_str(), parts[1].as_str(), false, base, home)
    } else if parts.len() == 3 {
        assert(parts@[0]@ == pv[0] && parts@[1]@ == pv[1] && parts@[2]@ == pv[2]);
        let option = parts[2].as_str();
        if same(option, "ro") {
            read_mount(parts[0].as_str(), parts[1].as_str(), true, base, home)
        } else if same(option, "rw") {
            read_mount(parts[0].as_str(), parts[1].as_str(), false, base, home)
        } else {
            Err(concat3("unknown mount option `", option, "`; expected `ro` or `rw`"))
        }
    } else {
        Err(concat3("expected `host:guest[:ro]`, got `", spec, "`"))
    }
}

/// Whether one path is the other or below it, by their text.
pub open spec fn overlap(guest: Seq<char>, reserved: Seq<char>) -> bool {
    guest == reserved || starts_with(guest, reserved + "/"@) || starts_with(reserved, guest + "/"@)
}

/// The first reserved path that a guest path overlaps.
pub open spec fn reserved_by(guest: Seq<char>) -> Option<Seq<char>> {
    if overlap(guest, "/var/cache/mise"@) {
        Some("/var/cache/mise"@)
    } else if overlap(guest, "/opt/kitchen"@) {
        Some("/opt/kitchen"@)
    } else if overlap(guest, "/opt/mise"@) {
        Some("/opt/mise"@)
    } else if overlap(guest, "/.msb"@) {
        Some("/.msb"@)
    } else if overlap(guest, "/root/.cache/mise"@) {
        Some("/root/.cache/mise"@)
    } else if overlap(guest, "/root/kitchen"@) {
        Some("/root/kitchen"@)
    } else {
        None
    }
}

fn overlaps(guest: &str, reserved: &str) -> (r: bool)
    ensures
        r == overlap(guest@, reserved@),
{
    same(guest, reserved) || has_prefix(guest, concat(reserved, "/").as_str()) || has_prefix(
        reserved,
        concat(guest, "/").as_str(),
    )
}

pub fn reserved_overlap(guest: &str) -> (r: Option<&'static str>)
    ensures
        opt_str(r) == reserved_by(guest@),
        r is Some <==> exists|i: int|
            0 <= i < reserved_paths().len() && overlap(guest@, #[trigger] reserved_paths()[i]),
{
    let ghost all = reserved_paths();
    proof {
        assert(all[0] == "/var/cache/mise"@ && all[1] == "/opt/kitchen"@ && all[2] == "/opt/mise"@
            && all[3] == "/.msb"@ && all[4] == "/root/.cache/mise"@ && all[5] == "/root/kitchen"@);
    }
    if overlaps(guest, "/var/cache/mise") {
        Some("/var/cache/mise")
    } else if overlaps(guest, "/opt/kitchen") {
        Some("/opt/kitchen")
    } else if overlaps(guest, "/opt/mise") {
        Some("/opt/mise")
    } else if overlaps(guest, "/.msb") {
        Some("/.msb")
    } else if overlaps(guest, "/root/.cache/mise") {
        Some("/root/.cache/mise")
    } else if overlaps(guest, "/root/kitchen") {
        Some("/root/kitchen")
    } else {
        None
    }
}

// ---------------------------------------------------------------------------
// Ports
// ---------------------------------------------------------------------------

pub open spec fn port_number(s: Seq<char>) -> Result<u16, Seq<char>> {
    match unsigned_of(s, 65535) {
        Some(n) => if n > 0 {
            Ok(n as u16)
        } else {
            Err("`"@ + s + "` is not a port number (1-65535)"@)
        },
        None => Err("`"@ + s + "` is not a port number (1-65535)"@),
    }
}

pub open spec fn port_fields(spec: Seq<char>, mapping: Seq<char>, protocol: Protocol) -> Result<
    PortMapping,
    Seq<char>,
> {
    match first_index(mapping, ':', 0) {
        None => Err("expected `host:guest[/udp]`, got `"@ + spec + "`"@),
        Some(i) => match port_number(before(mapping, i)) {
            Err(message) => Err(message),
            Ok(host) => match port_number(after(mapping, i + 1)) {
                Err(message) => Err(message),
                Ok(guest) => Ok(PortMapping { host, guest, protocol }),
            },
        },
    }
}

/// `host:guest[/tcp|/udp]`.
pub open spec fn port_of(spec: Seq<char>) -> Result<PortMapping, Seq<char>> {
    match last_index(spec, '/') {
        None => port_fields(spec, spec, Protocol::Tcp),
        Some(i) => if after(spec, i + 1) == "tcp"@ {
            port_fields(spec, before(spec, i), Protocol::Tcp)
        } else if after(spec, i + 1) == "udp"@ {
            port_fields(spec, before(spec, i), Protocol::Udp)
        } else {
            Err("unknown protocol `"@ + after(spec, i + 1) + "`; expected `tcp` or `udp`"@)
        },
    }
}

pub open spec fn port_outcome(r: Result<PortMapping, String>) -> Result<PortMapping, Seq<char>> {
    match r {
        Ok(port) => Ok(port),
        Err(message) => Err(message@),
    }
}

fn parse_port_number(s: &str) -> (r: Result<u16, String>)
    ensures
        match r {
            Ok(port) => port_number(s@) == Ok::<u16, Seq<char>>(port),
            Err(message) => port_number(s@) == Err::<u16, Seq<char>>(message@),
        },
{
    match parse_unsigned(s, 65535) {
        Some(n) => if n > 0 {
            Ok(n as u16)
        } else {
            Err(concat3("`", s, "` is not a port number (1-65535)"))
        },
        None => Err(concat3("`", s, "` is not a port number (1-65535)")),
    }
}

fn read_port(spec: &str, mapping: &str, protocol: Protocol) -> (r: Result<PortMapping, String>)
    ensures
        port_outcome(r) == port_fields(spec@, mapping@, protocol),
{
    let v = chars(mapping);
    let i: usize = match find_first(&v, ':') {
        Some(i) => i,
        None => {
            return Err(concat3("expected `host:guest[/udp]`, got `", spec, "`"));
        },
    };
    let host = match parse_port_number(string_of(&v, 0, i).as_str()) {
        Ok(port) => port,
        Err(message) => {
            return Err(message);
        },
    };
    match parse_port_number(string_of(&v, i + 1, v.len()).as_str()) {
        Ok(guest) => Ok(PortMapping { host, guest, protocol }),
        Err(message) => Err(message),
    }
}

/// Parse `host:guest[/tcp|/udp]`.
pub fn parse_port(spec: &str) -> (r: Result<PortMapping, String>)
    ensures
        port_outcome(r) == port_of(spec@),
{
    let v = chars(spec);
    match find_last(&v, '/') {
        None => read_port(spec, spec, Protocol::Tcp),
        Some(i) => {
            let mapping = string_of(&v, 0, i);
            let protocol = string_of(&v, i + 1, v.len());
            if same(protocol.as_str(), "tcp") {
                read_port(spec, mapping.as_str(), Protocol::Tcp)
            } else if same(protocol.as_str(), "udp") {
                read_port(spec, mapping.as_str(), Protocol::Udp)
            } else {
                Err(
                    concat3(
                        "unknown protocol `",
                        protocol.as_str(),
                        "`; expected `tcp` or `udp`",
                    ),
                )
            }
        },
    }
}

// ---------------------------------------------------------------------------
// Environment variables
// ---------------------------------------------------------------------------

/// A POSIX-style environment variable name.
pub open spec fn env_name(name: Seq<char>) -> bool {
    &&& name.len() > 0
    &&& !is_digit(name[0])
    &&& forall|i: int|
        0 <= i < name.len() ==> is_alphanumeric(#[trigger] name[i]) || name[i] == '_'
}

/// Whether `name` is a POSIX-style environment variable name.
pub fn is_env_name(name: &str) -> (r: bool)
    ensures
        r == env_name(name@),
{
    let v = chars(name);
    if v.len() == 0 || crate::text::is_digit_char(v[0]) {
        return false;
    }
    let mut i: usize = 0;
    while i < v.len()
        invariant
            i <= v@.len(),
            v@ == name@,
            forall|j: int| 0 <= j < i ==> is_alphanumeric(#[trigger] v@[j]) || v@[j] == '_',
        decreases v@.len() - i,
    {
        if !(is_alphanumeric_char(v[i]) || v[i] == '_') {
            return false;
        }
        i += 1;
    }
    true
}

// ---------------------------------------------------------------------------
// Laws
// ---------------------------------------------------------------------------

/// A number's text reads back as the port.
proof fn lemma_port_text(port: u16)
    requires
        port > 0,
    ensures
        port_number(decimal(port as nat)) == Ok::<u16, Seq<char>>(port),
        forall|i: int|
            0 <= i < decimal(port as nat).len() ==> (#[trigger] decimal(port as nat)[i]) != ':'
                && decimal(port as nat)[i] != '/',
{
    crate::text::lemma_decimal(port as nat);
    let text = decimal(port as nat);
    assert forall|i: int| 0 <= i < text.len() implies (#[trigger] text[i]) != ':' && text[i] != '/' by {
        assert(crate::text::is_digit(text[i]));
    }
    assert(crate::text::is_digit(text[0]));
}

proof fn lemma_first_colon(a: Seq<char>, b: Seq<char>, from: int)
    requires
        0 <= from <= a.len(),
        forall|i: int| 0 <= i < a.len() ==> (#[trigger] a[i]) != ':',
    ensures
        first_index(a + ":"@ + b, ':', from) == Some(a.len() as int),
    decreases a.len() - from,
{
    reveal_strlit(":");
    let text = a + ":"@ + b;
    if from < a.len() {
        assert(text[from] == a[from]);
        lemma_first_colon(a, b, from + 1);
    } else {
        assert(text[from] == ':');
    }
}

proof fn lemma_no_last(text: Seq<char>, c: char)
    requires
        forall|i: int| 0 <= i < text.len() ==> (#[trigger] text[i]) != c,
    ensures
        last_index(text, c) is None,
    decreases text.len(),
{
    if text.len() > 0 {
        assert(text.last() == text[text.len() - 1]);
        assert forall|i: int| 0 <= i < text.drop_last().len() implies (#[trigger] text.drop_last()[i])
            != c by {
            assert(text.drop_last()[i] == text[i]);
        }
        lemma_no_last(text.drop_last(), c);
    }
}

proof fn lemma_last_index(text: Seq<char>, c: char)
    ensures
        last_index(text, c) matches Some(i) ==> 0 <= i < text.len() && text[i] == c && forall|j: int|
            i < j < text.len() ==> (#[trigger] text[j]) != c,
    decreases text.len(),
{
    if text.len() > 0 && text.last() != c {
        let rest = text.drop_last();
        lemma_last_index(rest, c);
        if let Some(i) = last_index(text, c) {
            assert forall|j: int| i < j < text.len() implies (#[trigger] text[j]) != c by {
                if j < rest.len() {
                    assert(rest[j] == text[j]);
                }
            }
        }
    }
}

/// The text of a mapping with port numbers reads back.
pub proof fn lemma_mapping_text(port: PortMapping)
    requires
        port.host > 0,
        port.guest > 0,
    ensures
        port_of(port.spec_text()) == Ok::<PortMapping, Seq<char>>(port),
{
    reveal_strlit(":");
    reveal_strlit("/udp");
    reveal_strlit("udp");
    reveal_strlit("tcp");
    lemma_port_text(port.host);
    lemma_port_text(port.guest);
    let host = decimal(port.host as nat);
    let guest = decimal(port.guest as nat);
    let ports = host + ":"@ + guest;
    lemma_first_colon(host, guest, 0);
    assert(before(ports, host.len() as int) =~= host);
    assert(after(ports, host.len() as int + 1) =~= guest);
    assert forall|i: int| 0 <= i < ports.len() implies (#[trigger] ports[i]) != '/' by {
        if i < host.len() {
            assert(ports[i] == host[i]);
        } else if i > host.len() {
            assert(ports[i] == guest[i - host.len() - 1]);
        }
    }
    lemma_no_last(ports, '/');
    let text = port.spec_text();
    if port.protocol == Protocol::Udp {
        let n = ports.len() as int;
        assert(text[n] == '/' && text[n + 1] == 'u' && text[n + 2] == 'd' && text[n + 3] == 'p');
        assert(text.drop_last().last() == 'd');
        assert(text.drop_last().drop_last().last() == 'u');
        assert(text.drop_last().drop_last().drop_last().last() == '/');
        reveal_with_fuel(last_index, 5);
        assert(last_index(text, '/') == Some(n));
        assert(after(text, n + 1) =~= "udp"@);
        assert(before(text, n) =~= ports);
        assert("udp"@[0] != "tcp"@[0]);
    } else {
        assert(text =~= ports);
    }
    assert(port_fields(text, ports, port.protocol) == Ok::<PortMapping, Seq<char>>(port));
}

/// What stands behind the last slash is `udp` exactly where the text ends in
/// `/udp`.
proof fn lemma_udp_ending(spec: Seq<char>)
    ensures
        (last_index(spec, '/') matches Some(i) && after(spec, i + 1) == "udp"@)
            <==> crate::text::ends_with(spec, "/udp"@),
{
    reveal_strlit("/udp");
    reveal_strlit("udp");
    lemma_last_index(spec, '/');
    let m = spec.len() as int;
    match last_index(spec, '/') {
        None => {
            lemma_none_means_none(spec, '/');
            if crate::text::ends_with(spec, "/udp"@) {
                assert(spec.subrange(m - 4, m)[0] == '/');
                assert(spec[m - 4] == '/');
            }
        },
        Some(i) => {
            assert(after(spec, i + 1).len() == m - i - 1);
            if after(spec, i + 1) == "udp"@ {
                assert("udp"@.len() == 3);
                assert(m == i + 4);
                assert(after(spec, i + 1)[0] == 'u' && after(spec, i + 1)[1] == 'd' && after(
                    spec,
                    i + 1,
                )[2] == 'p');
                assert(spec.subrange(m - 4, m) =~= "/udp"@);
            } else if crate::text::ends_with(spec, "/udp"@) {
                let end = spec.subrange(m - 4, m);
                assert(end == "/udp"@);
                assert(end[0] == '/' && end[1] == 'u' && end[2] == 'd' && end[3] == 'p');
                assert(spec[m - 4] == '/' && spec[m - 3] == 'u' && spec[m - 2] == 'd' && spec[m - 1]
                    == 'p');
                assert(i == m - 4);
                assert(after(spec, i + 1) =~= "udp"@);
            }
        },
    }
}

/// A mapping's text reads back as the mapping; a mapping that is read has port
/// numbers, and is for UDP exactly where its text ends in `/udp`.
pub proof fn law_port_mappings_round_trip(spec: Seq<char>)
    requires
        port_of(spec) is Ok,
    ensures
        ({
            let port = port_of(spec)->Ok_0;
            &&& port.host >= 1 && port.guest >= 1
            &&& port_of(port.spec_text()) == Ok::<PortMapping, Seq<char>>(port)
            &&& port.protocol == Protocol::Udp <==> crate::text::ends_with(spec, "/udp"@)
        }),
{
    reveal_strlit("udp");
    reveal_strlit("tcp");
    assert("udp"@[0] != "tcp"@[0]);
    lemma_mapping_text(port_of(spec)->Ok_0);
    lemma_udp_ending(spec);
}

proof fn lemma_none_means_none(text: Seq<char>, c: char)
    requires
        last_index(text, c) is None,
    ensures
        forall|i: int| 0 <= i < text.len() ==> (#[trigger] text[i]) != c,
    decreases text.len(),
{
    if text.len() > 0 {
        lemma_none_means_none(text.drop_last(), c);
        assert forall|i: int| 0 <= i < text.len() implies (#[trigger] text[i]) != c by {
            if i < text.len() - 1 {
                assert(text.drop_last()[i] == text[i]);
            }
        }
    }
}

/// Every mapping of ports reads back as it is written, with the protocol or without.
pub proof fn law_every_mapping_reads_back(port: PortMapping)
    requires
        port.host > 0,
        port.guest > 0,
    ensures
        port_of(
            decimal(port.host as nat) + seq![':'] + decimal(port.guest as nat)
                + if port.protocol == Protocol::Udp {
                seq!['/', 'u', 'd', 'p']
            } else {
                Seq::empty()
            },
        ) == Ok::<PortMapping, Seq<char>>(port),
{
    lemma_mapping_text(port);
    reveal_strlit(":");
    reveal_strlit("/udp");
    assert(":"@ =~= seq![':']);
    assert("/udp"@ =~= seq!['/', 'u', 'd', 'p']);
    assert(decimal(port.host as nat) + seq![':'] + decimal(port.guest as nat)
        + Seq::<char>::empty() =~= decimal(port.host as nat) + seq![':'] + decimal(
        port.guest as nat,
    ));
}

/// The port without a number, and the number zero, are refused.
pub proof fn law_ports_are_from_1_to_65535(n: nat)
    ensures
        port_number(decimal(n)) is Ok <==> 1 <= n <= 65535,
        1 <= n <= 65535 ==> port_number(decimal(n)) == Ok::<u16, Seq<char>>(n as u16),
        port_number(Seq::empty()) is Err,
{
    crate::text::law_unsigned_numbers_read_back(n, 65535, Seq::empty());
}

/// A mount is a path on the host and one in the guest, and for reading only exactly
/// where `ro` stands behind them.
pub proof fn law_mounts_are_two_paths(
    host: Seq<char>,
    guest: Seq<char>,
    option: Seq<char>,
    base: Seq<char>,
    home: Option<Seq<char>>,
)
    requires
        !host.contains(':'),
        !guest.contains(':'),
        !option.contains(':'),
    ensures
        ({
            let plain = mount_of(host + seq![':'] + guest, base, home);
            let read_only = mount_of(
                host + seq![':'] + guest + seq![':'] + seq!['r', 'o'],
                base,
                home,
            );
            let writable = mount_of(
                host + seq![':'] + guest + seq![':'] + seq!['r', 'w'],
                base,
                home,
            );
            let other = mount_of(host + seq![':'] + guest + seq![':'] + option, base, home);
            &&& plain is Ok <==> host.len() > 0 && guest.len() > 0 && guest[0] == '/' && normalized(
                guest,
            ) != seq!['/'] && host_path(host, base, home) is Ok
            &&& plain matches Ok(mount) ==> {
                &&& mount.host == host_path(host, base, home)->Ok_0
                &&& mount.guest == normalized(guest)
                &&& !mount.readonly
                &&& read_only == Ok::<MountView, Seq<char>>(MountView { readonly: true, ..mount })
            }
            &&& writable == plain
            &&& plain is Err ==> read_only == plain
            &&& option != seq!['r', 'o'] && option != seq!['r', 'w'] ==> other is Err
        }),
        mount_of(host, base, home) is Err,
{
    reveal_strlit("ro");
    reveal_strlit("rw");
    reveal_strlit("/");
    assert("ro"@ =~= seq!['r', 'o']);
    assert("rw"@ =~= seq!['r', 'w']);
    assert("/"@ =~= seq!['/']);
    assert("ro"@[1] != "rw"@[1]);
    let two = host + seq![':'] + guest;
    lemma_split_single(host, ':');
    lemma_split_single(guest, ':');
    lemma_split_single(option, ':');
    lemma_split_single(seq!['r', 'o'], ':');
    lemma_split_single(seq!['r', 'w'], ':');
    lemma_split_concat(host, guest, ':');
    assert(split(two, ':') =~= seq![host, guest]);
    lemma_split_concat(two, option, ':');
    lemma_split_concat(two, seq!['r', 'o'], ':');
    lemma_split_concat(two, seq!['r', 'w'], ':');
    assert(split(two + seq![':'] + option, ':') =~= seq![host, guest, option]);
    assert(split(two + seq![':'] + seq!['r', 'o'], ':') =~= seq![host, guest, seq!['r', 'o']]);
    assert(split(two + seq![':'] + seq!['r', 'w'], ':') =~= seq![host, guest, seq!['r', 'w']]);
}

/// A host path that is absolute is itself, without dots; one that is not stands
/// behind the base; and behind `~` one stands in the home directory, which must be
/// known.
pub proof fn law_host_paths_are_resolved(
    path: Seq<char>,
    base: Seq<char>,
    home: Option<Seq<char>>,
)
    ensures
        path.len() > 0 && path[0] == '/' ==> host_path(path, base, home) == Ok::<
            Seq<char>,
            Seq<char>,
        >(normalized(path)),
        (path.len() == 0 || path[0] != '/' && path[0] != '~') ==> host_path(path, base, home) == Ok::<
            Seq<char>,
            Seq<char>,
        >(
            (PathView {
                absolute: path_parts(base).absolute,
                names: path_parts(base).names + path_parts(path).names,
            }).normal().text(),
        ),
        path.len() > 0 && path[0] == '~' && (path.len() == 1 || path[1] == '/') ==> match home {
            None => host_path(path, base, home) is Err,
            Some(home) => is_absolute(home) ==> host_path(path, base, Some(home)) == Ok::<
                Seq<char>,
                Seq<char>,
            >(
                (PathView {
                    absolute: true,
                    names: path_parts(home).names + path_parts(after(path, 1)).names,
                }).normal().text(),
            ),
        },
        path.len() > 1 && path[0] == '~' && path[1] != '/' ==> host_path(path, base, home) == Ok::<
            Seq<char>,
            Seq<char>,
        >(
            (PathView {
                absolute: path_parts(base).absolute,
                names: path_parts(base).names + path_parts(path).names,
            }).normal().text(),
        ),
{
    reveal_strlit("~");
    reveal_strlit("~/");
    assert("~"@ =~= seq!['~']);
    if path.len() > 0 {
        if path[0] == '~' && path.len() == 1 {
            assert(path =~= "~"@);
        }
        if path[0] == '~' && path.len() > 1 && path[1] == '/' {
            assert(path.subrange(0, 2) =~= "~/"@);
        }
        if starts_with(path, "~/"@) {
            assert(path.subrange(0, 2)[0] == '~' && path.subrange(0, 2)[1] == '/');
        }
    }
}

/// The guest paths that microkitchen keeps for itself are six, with all that is above
/// and below them.
pub proof fn law_managed_paths_are_kept(guest: Seq<char>)
    ensures
        reserved_by(guest) is Some <==> stands_over(guest, "/var/cache/mise"@) || stands_over(
            guest,
            "/opt/kitchen"@,
        ) || stands_over(guest, "/opt/mise"@) || stands_over(guest, "/.msb"@) || stands_over(
            guest,
            "/root/.cache/mise"@,
        ) || stands_over(guest, "/root/kitchen"@),
        reserved_by(guest) matches Some(path) ==> stands_over(guest, path),
{
    lemma_overlap(guest, "/var/cache/mise"@);
    lemma_overlap(guest, "/opt/kitchen"@);
    lemma_overlap(guest, "/opt/mise"@);
    lemma_overlap(guest, "/.msb"@);
    lemma_overlap(guest, "/root/.cache/mise"@);
    lemma_overlap(guest, "/root/kitchen"@);
}

/// Whether one of two paths is the other or has it below itself.
pub open spec fn stands_over(a: Seq<char>, b: Seq<char>) -> bool {
    a == b || (exists|rest: Seq<char>| a == #[trigger] (b + seq!['/'] + rest)) || exists|
        rest: Seq<char>,
    |
        b == #[trigger] (a + seq!['/'] + rest)
}

proof fn lemma_overlap(a: Seq<char>, b: Seq<char>)
    ensures
        overlap(a, b) <==> stands_over(a, b),
{
    reveal_strlit("/");
    assert("/"@ =~= seq!['/']);
    crate::text::law_prefixes_and_suffixes(a, b + "/"@);
    crate::text::law_prefixes_and_suffixes(b, a + "/"@);
}

/// The name of an environment variable is letters, digits and underscores, and does
/// not start with a digit.
pub proof fn law_names_of_variables(name: Seq<char>)
    ensures
        env_name(name) <==> name.len() > 0 && !('0' <= name[0] <= '9') && forall|i: int|
            0 <= i < name.len() ==> ('0' <= #[trigger] name[i] <= '9' || 'a' <= name[i] <= 'z'
                || 'A' <= name[i] <= 'Z' || name[i] == '_'),
{
}

/// What a configuration is where nothing is written.
pub proof fn law_defaults(user: GuestUser)
    ensures
        GuestUser::chef() == (GuestUser { uid: 1001, gid: 1001 }),
        ({
            let plain = KitchenView::plain(user);
            &&& plain.cpus == 2 && plain.memory_mib == 4096 && plain.disk_mib == 10240
            &&& plain.mounts.len() == 0 && plain.secrets.dom() == Set::<Seq<char>>::empty()
            &&& plain.network.preset == NetworkPreset::Public && plain.network.allow.len() == 0
            &&& plain.network.deny.len() == 0 && plain.network.ports.len() == 0
            &&& plain.user == user && plain.dotfiles is None
        }),
{
}

/// A mount is shown as its two paths, and marked exactly where it is for reading only.
pub proof fn law_mounts_are_shown(mount: MountView)
    ensures
        !mount.readonly ==> mount.text() == mount.host + seq![' ', '\u{2192}', ' '] + mount.guest,
        mount.readonly ==> mount.text() == mount.host + seq![' ', '\u{2192}', ' '] + mount.guest
            + seq![' ', '(', 'r', 'o', ')'],
{
    reveal_strlit(" \u{2192} ");
    reveal_strlit(" (ro)");
    assert(" \u{2192} "@ =~= seq![' ', '\u{2192}', ' ']);
    assert(" (ro)"@ =~= seq![' ', '(', 'r', 'o', ')']);
}

} // verus!
