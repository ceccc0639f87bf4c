//! Machine setup inside the guest: install mise and create chef as root,
//! then `mise bootstrap` as chef.
//!
//! The guest copy of the kitchen file is mise's system config (see
//! [`crate::sandbox::lifecycle::guest_config_script`] and
//! [`crate::sandbox::builder::environment`]), so installed tools work from any
//! directory, including mounts. Tools live in
//! [`crate::sandbox::builder::GUEST_MISE_DATA_DIR`], owned by chef, who may add
//! more with `mise use`.

use vstd::prelude::*;

use crate::config::schema::CHEF;
use crate::sandbox::builder::ROOT;
use crate::state::settings::{strip_v, without_v};
use crate::text::{concat3, push_signed, signed_decimal};

verus! {

/// One script of the bootstrap and the guest user it runs as.
pub struct Step {
    pub user: &'static str,
    pub script: String,
}

/// What pins the installed mise, in front of the installer.
pub open spec fn version_text(mise_version: Option<Seq<char>>) -> Seq<char> {
    match mise_version {
        Some(version) => "MISE_VERSION=v"@ + without_v(version) + " "@,
        None => Seq::empty(),
    }
}

/// The script's text before the version of mise.
pub const ROOT_START: &'static str =
    "set -eu\nexport MISE_YES=1\nif ! command -v mise >/dev/null 2>&1; then\n    echo \"microkitchen: installing mise\"\n    curl -fsSL https://mise.run | ";

/// The script's text behind the version of mise.
pub const ROOT_REST: &'static str =
    "MISE_INSTALL_PATH=/usr/local/bin/mise sh\nfi\nif ! command -v sudo >/dev/null 2>&1; then\n    echo \"microkitchen: installing sudo\"\n    apt-get update -qq && apt-get install -y -qq sudo >/dev/null\nfi\necho '%sudo ALL=(ALL:ALL) NOPASSWD: ALL' > /etc/sudoers.d/microkitchen\nchmod 0440 /etc/sudoers.d/microkitchen\ncd /root\nmise --version\nmise bootstrap accounts apply --yes\nif ! id chef >/dev/null 2>&1; then\n    echo \"microkitchen: mise bootstrap did not create the chef user\" >&2\n    exit 1\nfi\nmkdir -p /opt/mise /var/cache/mise\nchown -R chef: /opt/mise /var/cache/mise\n";

/// What chef runs.
pub const CHEF_SCRIPT: &'static str =
    "set -eu\nexport MISE_YES=1 USER=chef LOGNAME=chef\nHOME=\"$(getent passwd chef | cut -d: -f6)\"\nexport HOME\ncd \"$HOME\"\nmise bootstrap --yes\n";

/// The guest scripts. `mise_version` pins the installed mise (`2026.9.6`);
/// it must already be validated (see [`crate::state::settings`]).
///
/// Root installs mise and sudo, lets the `sudo` group use it without a
/// password, and applies the accounts, which creates chef; chef then runs the
/// whole bootstrap (the accounts step again, a no-op unless something changed,
/// when mise elevates through sudo).
pub fn steps(mise_version: Option<&str>) -> (r: Vec<Step>)
    ensures
        r@.len() == 2,
        r@[0].user@ == ROOT@,
        r@[0].script@ == ROOT_START@ + version_text(crate::config::schema::opt_str(mise_version))
            + ROOT_REST@,
        r@[1].user@ == CHEF@,
        r@[1].script@ == CHEF_SCRIPT@,
{
    let mut root = ROOT_START.to_owned();
    if let Some(version) = mise_version {
        root.push_str(concat3("MISE_VERSION=v", strip_v(version).as_str(), " ").as_str());
    }
    root.push_str(ROOT_REST);
    assert(root@ =~= ROOT_START@ + version_text(crate::config::schema::opt_str(mise_version))
        + ROOT_REST@);
    let mut steps: Vec<Step> = Vec::new();
    steps.push(Step { user: ROOT, script: root });
    steps.push(Step { user: CHEF, script: CHEF_SCRIPT.to_owned() });
    steps
}

/// What came of a step: the exit status of its script, if it gave one. The
/// bootstrap stops at the first failure.
pub fn step_result(exit: Option<i32>, log: &str) -> (r: Result<(), String>)
    ensures
        match exit {
            Some(code) => if code == 0 {
                r is Ok
            } else {
                r matches Err(text) && text@ == "mise bootstrap failed with exit code "@
                    + signed_decimal(code as int) + "; see "@ + log@
                    + " and retry with `microkitchen bootstrap`"@
            },
            None => r matches Err(text) && text@ == "mise bootstrap ended without an exit status"@,
        },
{
    match exit {
        Some(code) => {
            if code == 0 {
                return Ok(());
            }
            let mut text = "mise bootstrap failed with exit code ".to_owned();
            push_signed(&mut text, code as i64);
            text.push_str("; see ");
            text.push_str(log);
            text.push_str(" and retry with `microkitchen bootstrap`");
            Err(text)
        },
        None => Err("mise bootstrap ended without an exit status".to_owned()),
    }
}

/// The label value of the outcome.
pub fn mark(bootstrapped: bool) -> (r: &'static str)
    ensures
        r@ == (if bootstrapped {
            "true"@
        } else {
            "false"@
        }),
{
    if bootstrapped {
        "true"
    } else {
        "false"
    }
}

// ---------------------------------------------------------------------------
// Laws
// ---------------------------------------------------------------------------

/// A leading `v` of the version changes nothing, and without a version the
/// installer is told of none.
pub proof fn law_versions_are_pinned_alike(version: Seq<char>)
    ensures
        version_text(Some("v"@ + version)) == version_text(Some(version)),
        version_text(None) == Seq::<char>::empty(),
{
    reveal_strlit("v");
    let longer = "v"@ + version;
    assert(longer[0] == 'v');
    assert(crate::text::after(longer, 1) =~= version);
}

/// Neither the script of a root without a version nor chef's holds a `V`, so
/// neither names `MISE_VERSION`.
pub proof fn law_no_version_is_named_unasked()
    ensures
        !(ROOT_START@ + version_text(None) + ROOT_REST@).contains('V'),
        !CHEF_SCRIPT@.contains('V'),
        "MISE_VERSION"@.contains('V'),
{
    reveal_strlit(
        "set -eu\nexport MISE_YES=1\nif ! command -v mise >/dev/null 2>&1; then\n    echo \"microkitchen: installing mise\"\n    curl -fsSL https://mise.run | ",
    );
    reveal_strlit(
        "set -eu\nexport MISE_YES=1 USER=chef LOGNAME=chef\nHOME=\"$(getent passwd chef | cut -d: -f6)\"\nexport HOME\ncd \"$HOME\"\nmise bootstrap --yes\n",
    );
    reveal_strlit(
        "MISE_INSTALL_PATH=/usr/local/bin/mise sh\nfi\nif ! command -v sudo >/dev/null 2>&1; then\n    echo \"microkitchen: installing sudo\"\n    apt-get update -qq && apt-get install -y -qq sudo >/dev/null\nfi\necho '%sudo ALL=(ALL:ALL) NOPASSWD: ALL' > /etc/sudoers.d/microkitchen\nchmod 0440 /etc/sudoers.d/microkitchen\ncd /root\nmise --version\nmise bootstrap accounts apply --yes\nif ! id chef >/dev/null 2>&1; then\n    echo \"microkitchen: mise bootstrap did not create the chef user\" >&2\n    exit 1\nfi\nmkdir -p /opt/mise /var/cache/mise\nchown -R chef: /opt/mise /var/cache/mise\n",
    );
    reveal_strlit("MISE_VERSION");
    assert("MISE_VERSION"@[5] == 'V');
    assert(forall|i: int| 0 <= i < CHEF_SCRIPT@.len() ==> CHEF_SCRIPT@[i] != 'V');
    assert(forall|i: int| 0 <= i < ROOT_START@.len() ==> ROOT_START@[i] != 'V');
    assert(forall|i: int| 0 <= i < ROOT_REST@.len() ==> ROOT_REST@[i] != 'V');
}

/// A version is told to the installer behind a `v`, without those that it starts with.
pub proof fn law_the_version_is_told(version: Seq<char>)
    requires
        version.len() == 0 || version[0] != 'v',
    ensures
        version_text(Some(version)) == "MISE_VERSION=v"@ + version + seq![' '],
        version_text(None).len() == 0,
{
    reveal_strlit(" ");
    assert(" "@ =~= seq![' ']);
}

} // verus!
