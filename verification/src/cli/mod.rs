//! Command-line interface. One module per subcommand.

pub mod broker;
pub mod lifecycle;
pub mod logs;
pub mod net;
pub mod remodel;
pub mod ui;
pub mod validate;

use vstd::prelude::*;

use crate::broker::protocol::{Answer, Mode};

verus! {

// ---------------------------------------------------------------------------
// Types
// ---------------------------------------------------------------------------

/// Launch microsandbox VMs from a mise.toml.
#[derive(Debug, PartialEq, Eq)]
pub struct Cli {
    /// Run as if started in DIR.
    pub dir: Option<String>,
    /// State directory [default: ~/.microkitchen].
    pub home: Option<String>,
    /// More log output (repeatable).
    pub verbose: u8,
    /// Only print errors.
    pub quiet: bool,
    /// Machine-readable output where supported.
    pub json: bool,
    pub command: Option<Command>,
}

#[derive(Debug, PartialEq, Eq)]
pub enum Command {
    /// Create or start the sandbox, bootstrap it and attach a shell (the default).
    Up(UpArgs),
    /// Attach an interactive shell.
    Shell { root: bool },
    /// Run a command in the sandbox.
    Exec { root: bool, command: Vec<String> },
    /// Stop the sandbox.
    Stop,
    /// Start a stopped sandbox.
    Start,
    /// Stop and start the sandbox.
    Restart,
    /// Stop and remove the sandbox.
    Down {
        /// Also delete state and logs (never the shared mise cache).
        purge: bool,
    },
    /// Show the sandbox and broker state.
    Status,
    /// List sandboxes created by microkitchen.
    List,
    /// Show logs.
    Logs { bootstrap: bool, broker: bool, sandbox: bool },
    /// Run `mise bootstrap` in the sandbox again.
    Bootstrap,
    /// Validate the configuration and resolve the environment without creating anything.
    Validate,
    /// Apply configuration changes to the existing sandbox.
    Remodel {
        /// Do not ask for confirmation.
        yes: bool,
        /// Recreate the sandbox when a change requires it.
        recreate: bool,
    },
    /// Network approvals and rules.
    Net(NetCommand),
    /// Control the egress broker daemon.
    Broker(BrokerCommand),
}

#[derive(Debug, Clone, Copy, PartialEq, Eq, Structural)]
pub struct UpArgs {
    /// Do not attach a shell.
    pub no_shell: bool,
    /// Remove and recreate the sandbox (the mise cache is kept).
    pub recreate: bool,
}

#[derive(Debug, PartialEq, Eq)]
pub enum NetCommand {
    /// List approvals waiting for a decision.
    Pending,
    /// Answer a pending approval.
    Decide { id: u64, verdict: Verdict },
    /// Add a rule to the kitchen file's allow list.
    Allow {
        /// Host, `*.suffix`, IP address or CIDR range.
        rule: String,
        /// Write to ~/.microkitchen/rules.toml instead, for every sandbox.
        global: bool,
    },
    /// Add a rule to the kitchen file's deny list.
    Deny {
        /// Host, `*.suffix`, IP address or CIDR range.
        rule: String,
        /// Write to ~/.microkitchen/rules.toml instead, for every sandbox.
        global: bool,
    },
    /// Allow a host for five minutes.
    Temp { host: String },
    /// Show the rules in effect.
    Rules,
    /// Remove a rule from both lists.
    Revoke {
        rule: String,
        /// Remove it from ~/.microkitchen/rules.toml instead.
        global: bool,
    },
    /// Switch the sandbox between open and enforce mode.
    Mode { mode: BrokerMode },
    /// Leave deny-all after the approval rate limit tripped.
    Resume,
    /// Show the names the sandbox resolved.
    Bindings,
}

#[derive(Debug, Clone, Copy, PartialEq, Eq, Structural)]
pub enum Verdict {
    Allow,
    Deny,
    Temp,
}

#[derive(Debug, Clone, Copy, PartialEq, Eq, Structural)]
pub enum BrokerMode {
    Open,
    Enforce,
}

#[derive(Debug, Clone, Copy, PartialEq, Eq, Structural)]
pub enum BrokerCommand {
    Start,
    Stop,
    Status,
    /// Run the daemon in the foreground.
    Run,
}

// ---------------------------------------------------------------------------
// Methods
// ---------------------------------------------------------------------------

impl Default for UpArgs {
    fn default() -> (r: Self)
        ensures
            r == (UpArgs { no_shell: false, recreate: false }),
    {
        UpArgs { no_shell: false, recreate: false }
    }
}

impl Cli {
    /// `microkitchen broker run`.
    pub fn is_broker_daemon(&self) -> (r: bool)
        ensures
            r == (self.command == Some(Command::Broker(BrokerCommand::Run))),
    {
        match &self.command {
            Some(Command::Broker(BrokerCommand::Run)) => true,
            _ => false,
        }
    }

    /// Whether the command may start a sandbox, which needs the proxy password.
    pub fn may_start_sandbox(&self) -> (r: bool)
        ensures
            r == (match self.command {
                None => true,
                Some(command) => command is Up || command is Start || command is Restart
                    || command is Shell || command is Exec || command is Bootstrap || command is Remodel,
            }),
    {
        match &self.command {
            None => true,
            Some(
                Command::Up(_) | Command::Start | Command::Restart | Command::Shell { .. }
                | Command::Exec { .. } | Command::Bootstrap | Command::Remodel { .. },
            ) => true,
            _ => false,
        }
    }

    /// How much is logged unless `MICROKITCHEN_LOG` says otherwise. The broker
    /// daemon logs its activity by default; commands only warnings.
    pub fn log_level(&self) -> (r: &'static str)
        ensures
            r@ == (if self.quiet {
                "error"@
            } else {
                let daemon = self.command == Some(Command::Broker(BrokerCommand::Run));
                if self.verbose == 0 && !daemon {
                    "warn"@
                } else if self.verbose <= 1 {
                    "info"@
                } else if self.verbose == 2 {
                    "debug"@
                } else {
                    "trace"@
                }
            }),
    {
        if self.quiet {
            "error"
        } else if self.verbose == 0 && !self.is_broker_daemon() {
            "warn"
        } else if self.verbose <= 1 {
            "info"
        } else if self.verbose == 2 {
            "debug"
        } else {
            "trace"
        }
    }
}

impl Command {
    pub open spec fn spec_name(self) -> Seq<char> {
        match self {
            Command::Up(_) => "up"@,
            Command::Shell { .. } => "shell"@,
            Command::Exec { .. } => "exec"@,
            Command::Stop => "stop"@,
            Command::Start => "start"@,
            Command::Restart => "restart"@,
            Command::Down { .. } => "down"@,
            Command::Status => "status"@,
            Command::List => "list"@,
            Command::Logs { .. } => "logs"@,
            Command::Bootstrap => "bootstrap"@,
            Command::Validate => "validate"@,
            Command::Remodel { .. } => "remodel"@,
            Command::Net(_) => "net"@,
            Command::Broker(_) => "broker"@,
        }
    }

    pub fn name(&self) -> (r: &'static str)
        ensures
            r@ == self.spec_name(),
    {
        match self {
            Command::Up(_) => "up",
            Command::Shell { .. } => "shell",
            Command::Exec { .. } => "exec",
            Command::Stop => "stop",
            Command::Start => "start",
            Command::Restart => "restart",
            Command::Down { .. } => "down",
            Command::Status => "status",
            Command::List => "list",
            Command::Logs { .. } => "logs",
            Command::Bootstrap => "bootstrap",
            Command::Validate => "validate",
            Command::Remodel { .. } => "remodel",
            Command::Net(_) => "net",
            Command::Broker(_) => "broker",
        }
    }
}

impl From<Verdict> for Answer {
    fn from(verdict: Verdict) -> (r: Self) {
        match verdict {
            Verdict::Allow => Answer::Allow,
            Verdict::Deny => Answer::Deny,
            Verdict::Temp => Answer::Temp,
        }
    }
}

impl vstd::std_specs::convert::FromSpecImpl<Verdict> for Answer {
    open spec fn obeys_from_spec() -> bool {
        true
    }

    open spec fn from_spec(verdict: Verdict) -> Answer {
        match verdict {
            Verdict::Allow => Answer::Allow,
            Verdict::Deny => Answer::Deny,
            Verdict::Temp => Answer::Temp,
        }
    }
}

impl From<BrokerMode> for Mode {
    fn from(mode: BrokerMode) -> (r: Self) {
        match mode {
            BrokerMode::Open => Mode::Open,
            BrokerMode::Enforce => Mode::Enforce,
        }
    }
}

impl vstd::std_specs::convert::FromSpecImpl<BrokerMode> for Mode {
    open spec fn obeys_from_spec() -> bool {
        true
    }

    open spec fn from_spec(mode: BrokerMode) -> Mode {
        match mode {
            BrokerMode::Open => Mode::Open,
            BrokerMode::Enforce => Mode::Enforce,
        }
    }
}

/// The exit status that stands for a guest's: those a process cannot have count
/// as a failure.
pub fn exit_code(code: i32) -> (r: u8)
    ensures
        r == (if 0 <= code <= 255 {
            code as u8
        } else {
            1
        }),
{
    if 0 <= code && code <= 255 {
        code as u8
    } else {
        1
    }
}

} // verus!
