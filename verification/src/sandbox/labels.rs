//! Labels put on every sandbox microkitchen creates.

use vstd::prelude::*;

verus! {

/// Always `"true"`; marks the sandbox as managed by microkitchen.
pub const MANAGED: &'static str = "microkitchen.managed";

/// Absolute path of the kitchen file; used to find a project's sandbox.
pub const CONFIG: &'static str = "microkitchen.config";

/// Hash of the applied normalized configuration.
pub const CONFIG_HASH: &'static str = "microkitchen.config-hash";

/// microkitchen version that created the sandbox.
pub const VERSION: &'static str = "microkitchen.version";

/// `"true"` once `mise bootstrap` succeeded.
pub const BOOTSTRAPPED: &'static str = "microkitchen.bootstrapped";

} // verus!
