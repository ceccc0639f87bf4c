//! Finding, creating, starting and removing microkitchen sandboxes.

use vstd::prelude::*;

use crate::text::{concat, concat3, decimal, decimal_string, lowercase, to_lowercase};
use crate::time::{Duration, SECOND};

verus! {

/// How many sandboxes are listed at a time.
pub const LIST_PAGE_SIZE: u32 = 100;

/// What a sandbox's VM is doing.
#[derive(Debug, Clone, Copy, PartialEq, Eq, Structural)]
pub enum SandboxStatus {
    Starting,
    Running,
    Draining,
    Paused,
    /// It is not up.
    Down,
}

/// Whether the VM is up (or coming up).
pub fn is_active(status: SandboxStatus) -> (r: bool)
    ensures
        r == (status != SandboxStatus::Down),
{
    match status {
        SandboxStatus::Starting | SandboxStatus::Running | SandboxStatus::Draining
        | SandboxStatus::Paused => true,
        SandboxStatus::Down => false,
    }
}

/// Lowercase status name for display, from the name of a status.
pub fn status_name(status: &str) -> (r: String)
    ensures
        r@ == lowercase(status@),
{
    to_lowercase(status)
}

/// Writes the guest copy of the kitchen file from standard input, as root.
pub const GUEST_CONFIG_SCRIPT: &'static str =
    "mkdir -p /opt/kitchen && cat > /opt/kitchen/mise.toml";

/// What to run to write `/opt/kitchen/mise.toml`, mise's system config, in the
/// guest.
pub fn guest_config_script() -> (r: &'static str)
    ensures
        r@ == GUEST_CONFIG_SCRIPT@,
{
    GUEST_CONFIG_SCRIPT
}

/// Whole seconds, at least one.
pub open spec fn wait_seconds(timeout: Duration) -> nat {
    if timeout < SECOND {
        1
    } else {
        (timeout / SECOND) as nat
    }
}

fn whole_seconds(timeout: Duration) -> (r: u64)
    ensures
        r == wait_seconds(timeout),
{
    if timeout < SECOND {
        1
    } else {
        timeout / SECOND
    }
}

/// What to run to wait until dockerd answers inside the guest.
pub fn docker_wait_script(timeout: Duration) -> (r: String)
    ensures
        r@ == "timeout "@ + decimal(wait_seconds(timeout))
            + " sh -c 'until docker info >/dev/null 2>&1; do sleep 1; done'"@,
{
    concat3(
        "timeout ",
        decimal_string(whole_seconds(timeout)).as_str(),
        " sh -c 'until docker info >/dev/null 2>&1; do sleep 1; done'",
    )
}

/// What to run to get dockerd's log.
pub const DOCKER_LOG_SCRIPT: &'static str =
    "{ journalctl -u docker -n 40 --no-pager || tail -n 40 /var/log/dockerd.err.log; } 2>&1";

/// Why Docker is given up on.
pub fn docker_timed_out(timeout: Duration, log: &str) -> (r: String)
    ensures
        r@ == "Docker did not become ready within "@ + decimal(wait_seconds(timeout))
            + "s; dockerd log:\n"@ + log@,
{
    let start = concat3(
        "Docker did not become ready within ",
        decimal_string(whole_seconds(timeout)).as_str(),
        "s; dockerd log:\n",
    );
    concat(start.as_str(), log)
}

} // verus!
