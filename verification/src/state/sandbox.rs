//! Per-sandbox state: `~/.microkitchen/sandboxes/<name>/state.json`.

use vstd::prelude::*;

use crate::config::schema::KitchenConfig;
use crate::paths::{join_paths, path_join};
use crate::state::Home;

verus! {

/// What is recorded of a sandbox.
#[derive(Debug, PartialEq, Eq)]
pub struct SandboxState {
    pub name: String,
    pub kitchen_file: String,
    pub config_hash: String,
    /// The configuration the sandbox currently runs with; `remodel` diffs
    /// against it.
    pub applied: KitchenConfig,
    /// The kitchen file's text as last applied, for `remodel`'s text diff.
    /// Absent for sandboxes created before it was recorded.
    pub applied_text: Option<String>,
    /// Environment variables microkitchen set from the kitchen file. Only
    /// these may be removed by `remodel`: the image sets its own.
    pub env_keys: Vec<String>,
    /// The guest's `mise.toml` is out of date (changed while the sandbox was
    /// stopped); written at the next start.
    pub guest_config_pending: bool,
    /// Digest of the files copied into the guest.
    pub staged_digest: String,
    /// Guest paths of the files copied into the guest.
    pub staged_paths: Vec<String>,
    pub bootstrapped: bool,
    /// Broker endpoints, fixed for the sandbox's lifetime.
    pub resolver_port: Option<u16>,
    pub proxy_port: Option<u16>,
}

impl SandboxState {
    pub fn path(home: &Home, name: &str) -> (r: String)
        ensures
            r@ == path_join(path_join(path_join(home@, "sandboxes"@), name@), "state.json"@),
    {
        let dir = home.sandbox_dir(name);
        join_paths(dir.as_str(), "state.json")
    }
}

} // verus!
