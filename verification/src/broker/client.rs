//! Talking to the broker from the CLI, and starting it on demand.

use vstd::prelude::*;

use crate::broker::daemon::socket_path;
use crate::paths::{join_paths, path_join};
use crate::state::Home;
use crate::text::{concat, views};
use crate::time::{Duration, Instant};

verus! {

/// How long a broker may take to start.
pub const START_TIMEOUT: Duration = 10_000_000_000;

/// How long to wait between two looks at a broker that starts.
pub const START_POLL: Duration = 100_000_000;

/// Why a request cannot be sent.
pub const NOT_RUNNING: &'static str =
    "the egress broker is not running (start it with `microkitchen broker start`)";

pub struct BrokerClient {
    home: Home,
    socket: String,
}

/// A [`BrokerClient`] by its contents.
#[verifier::ext_equal]
pub struct ClientView {
    pub home: Seq<char>,
    pub socket: Seq<char>,
}

impl View for BrokerClient {
    type V = ClientView;

    closed spec fn view(&self) -> ClientView {
        ClientView { home: self.home@, socket: self.socket@ }
    }
}

/// What to do about a broker that is needed.
#[derive(Debug, Clone, Copy, PartialEq, Eq, Structural)]
pub enum StartStep {
    /// It runs.
    Ready,
    /// Start it.
    Spawn,
    /// Look again in a moment.
    Wait,
    /// It did not start in time.
    GiveUp,
}

impl BrokerClient {
    pub fn new(home: &Home) -> (r: Self)
        ensures
            r@ == (ClientView {
                home: home@,
                socket: path_join(path_join(home@, "broker"@), "admin.sock"@),
            }),
    {
        BrokerClient { home: home.clone(), socket: socket_path(home) }
    }

    /// The admin socket.
    pub fn socket(&self) -> (r: &str)
        ensures
            r@ == self@.socket,
    {
        self.socket.as_str()
    }

    pub fn log_file(&self) -> (r: String)
        ensures
            r@ == path_join(path_join(self@.home, "logs"@), "broker.log"@),
    {
        join_paths(self.home.logs_dir().as_str(), "broker.log")
    }

    /// The arguments that start `microkitchen broker run`.
    pub fn spawn_args(&self) -> (r: Vec<String>)
        ensures
            views(r@) == seq!["--home"@, self@.home, "broker"@, "run"@],
    {
        let mut args: Vec<String> = Vec::new();
        args.push("--home".to_owned());
        args.push(self.home.root().to_owned());
        args.push("broker".to_owned());
        args.push("run".to_owned());
        assert(views(args@) =~= seq!["--home"@, self@.home, "broker"@, "run"@]);
        args
    }

    /// Why the broker is given up on.
    pub fn gave_up(&self) -> (r: String)
        ensures
            r@ == "the egress broker did not start; see "@ + path_join(
                path_join(self@.home, "logs"@),
                "broker.log"@,
            ),
    {
        concat("the egress broker did not start; see ", self.log_file().as_str())
    }
}

/// What to do next about a broker that is needed: `deadline` is `None` until it
/// was started.
pub fn start_step(running: bool, deadline: Option<Instant>, now: Instant) -> (r: StartStep)
    ensures
        r == (if running {
            StartStep::Ready
        } else {
            match deadline {
                None => StartStep::Spawn,
                Some(deadline) => if now < deadline {
                    StartStep::Wait
                } else {
                    StartStep::GiveUp
                },
            }
        }),
{
    if running {
        return StartStep::Ready;
    }
    match deadline {
        None => StartStep::Spawn,
        Some(deadline) => if now < deadline {
            StartStep::Wait
        } else {
            StartStep::GiveUp
        },
    }
}

} // verus!
