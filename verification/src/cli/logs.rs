//! `microkitchen logs [--bootstrap | --broker | --sandbox]`.

use vstd::prelude::*;

use crate::paths::{join_paths, path_join};
use crate::state::Home;
use crate::text::{concat, concat3};

verus! {

/// Which log is shown.
#[derive(Debug, Clone, Copy, PartialEq, Eq, Structural)]
pub enum Source {
    Bootstrap,
    Broker,
    Sandbox,
}

/// The bootstrap log of the project's sandbox by default.
pub fn source(broker: bool, sandbox: bool) -> (r: Source)
    ensures
        r == (if broker {
            Source::Broker
        } else if sandbox {
            Source::Sandbox
        } else {
            Source::Bootstrap
        }),
{
    if broker {
        Source::Broker
    } else if sandbox {
        Source::Sandbox
    } else {
        Source::Bootstrap
    }
}

/// What is said where the broker has written nothing yet.
pub const NO_BROKER_LOG: &'static str = "the egress broker has not written a log yet";

/// The bootstrap log of a sandbox.
pub fn bootstrap_log(home: &Home, name: &str) -> (r: String)
    ensures
        r@ == path_join(path_join(path_join(home@, "logs"@), name@), "bootstrap.log"@),
{
    let logs = home.logs_dir();
    join_paths(join_paths(logs.as_str(), name).as_str(), "bootstrap.log")
}

/// The broker's log.
pub fn broker_log(home: &Home) -> (r: String)
    ensures
        r@ == path_join(path_join(home@, "logs"@), "broker.log"@),
{
    join_paths(home.logs_dir().as_str(), "broker.log")
}

/// What is said where a sandbox has no bootstrap log yet.
pub fn not_bootstrapped(name: &str) -> (r: String)
    ensures
        r@ == name@ + " has not been bootstrapped yet; run `microkitchen up`"@,
{
    concat(name, " has not been bootstrapped yet; run `microkitchen up`")
}

/// Where else the broker writes.
pub fn audit_note(home: &Home) -> (r: String)
    ensures
        r@ == "(every verdict is also in "@ + path_join(
            path_join(home@, "broker"@),
            "audit.log"@,
        ) + ")"@,
{
    let path = join_paths(home.broker_dir().as_str(), "audit.log");
    concat3("(every verdict is also in ", path.as_str(), ")")
}

} // verus!
