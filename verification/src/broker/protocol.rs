//! The values that the broker's admin interface exchanges.

use vstd::prelude::*;

use crate::broker::attribution::{Origin, OriginView};
use crate::ip::IpAddr;
use crate::text::{opt_view, views};

verus! {

/// Whether the broker mediates a sandbox's egress.
#[derive(Debug, Clone, Copy, PartialEq, Eq, Structural)]
pub enum Mode {
    /// Everything not hard-denied is allowed (used while bootstrapping).
    Open,
    /// Rules, then a human.
    Enforce,
}

#[derive(Debug, Clone, Copy, PartialEq, Eq, Hash, Structural)]
pub enum Transport {
    Tcp,
    Udp,
}

/// An operator's answer to a pending approval.
#[derive(Debug, Clone, Copy, PartialEq, Eq, Structural)]
pub enum Answer {
    /// Persist to the kitchen file's `allow`.
    Allow,
    /// Persist to the kitchen file's `deny`.
    Deny,
    /// Allow for a few minutes, this sandbox only, not persisted.
    Temp,
}

/// One request of the admin interface.
#[derive(Debug, PartialEq, Eq)]
pub enum Request {
    Ping,
    Register {
        name: String,
        kitchen_file: String,
        mode: Mode,
        /// Ports assigned earlier; a sandbox's endpoints cannot change.
        resolver_port: Option<u16>,
        proxy_port: Option<u16>,
    },
    Retire { name: String },
    SetMode { name: String, mode: Mode },
    /// Allow a host or address for this sandbox, temporarily.
    Grant { name: String, subject: String },
    /// Leave deny-all after the approval rate limit tripped.
    Resume { name: String },
    List,
    Pending,
    Decide { id: u64, answer: Answer },
    Bindings { name: String },
    Shutdown,
}

/// What a response carries.
#[derive(Debug, PartialEq, Eq)]
pub enum Data {
    Nothing,
    Pid(u32),
    Flag(bool),
    Endpoints(Registration),
    Sandboxes(Vec<SandboxInfo>),
    Approvals(Vec<PendingApproval>),
    Bindings(Vec<BindingInfo>),
}

#[derive(Debug, PartialEq, Eq)]
pub struct Response {
    pub ok: bool,
    pub error: Option<String>,
    pub data: Data,
}

impl Response {
    pub open spec fn succeeds(self, data: Data) -> bool {
        self.ok && self.error is None && self.data == data
    }

    pub open spec fn fails(self, text: Seq<char>) -> bool {
        !self.ok && (self.error matches Some(error) && error@ == text) && self.data is Nothing
    }

    pub fn success(data: Data) -> (r: Self)
        ensures
            r.succeeds(data),
    {
        Response { ok: true, error: None, data }
    }

    pub fn failure(error: String) -> (r: Self)
        ensures
            r.fails(error@),
    {
        Response { ok: false, error: Some(error), data: Data::Nothing }
    }

    /// What a client makes of a response.
    pub fn into_result(self) -> (r: Result<Data, String>)
        ensures
            match r {
                Ok(data) => self.ok && data == self.data,
                Err(text) => !self.ok && text@ == (match self.error {
                    Some(error) => error@,
                    None => "the broker reported an error"@,
                }),
            },
    {
        if self.ok {
            Ok(self.data)
        } else {
            match self.error {
                Some(error) => Err(error),
                None => Err("the broker reported an error".to_owned()),
            }
        }
    }
}

/// Endpoints handed to the sandbox at creation.
#[derive(Debug, Clone, Copy, PartialEq, Eq, Structural)]
pub struct Registration {
    pub resolver_port: u16,
    pub proxy_port: u16,
}

#[derive(Debug, PartialEq, Eq)]
pub struct SandboxInfo {
    pub name: String,
    pub kitchen_file: String,
    pub mode: Mode,
    pub resolver_port: u16,
    pub proxy_port: u16,
    pub bindings: usize,
}

/// A [`SandboxInfo`] by its contents.
#[verifier::ext_equal]
pub struct InfoView {
    pub name: Seq<char>,
    pub kitchen_file: Seq<char>,
    pub mode: Mode,
    pub resolver_port: u16,
    pub proxy_port: u16,
    pub bindings: nat,
}

impl View for SandboxInfo {
    type V = InfoView;

    open spec fn view(&self) -> InfoView {
        InfoView {
            name: self.name@,
            kitchen_file: self.kitchen_file@,
            mode: self.mode,
            resolver_port: self.resolver_port,
            proxy_port: self.proxy_port,
            bindings: self.bindings as nat,
        }
    }
}

/// An approval that waits for an answer.
#[derive(Debug, PartialEq, Eq)]
pub struct PendingApproval {
    pub id: u64,
    pub sandbox: String,
    pub transport: Transport,
    pub address: IpAddr,
    pub port: u16,
    /// Names this sandbox resolved to the address; empty when it never did.
    pub names: Vec<String>,
    /// The sandbox never resolved this address.
    pub unresolved: bool,
    pub age_secs: u64,
    /// The process that opened the flow, once it is known. Display only.
    pub origin: Option<Origin>,
}

/// A [`PendingApproval`] by its contents.
#[verifier::ext_equal]
pub struct ApprovalView {
    pub id: u64,
    pub sandbox: Seq<char>,
    pub transport: Transport,
    pub address: IpAddr,
    pub port: u16,
    pub names: Seq<Seq<char>>,
    pub unresolved: bool,
    pub age_secs: u64,
    pub origin: Option<OriginView>,
}

impl View for PendingApproval {
    type V = ApprovalView;

    open spec fn view(&self) -> ApprovalView {
        ApprovalView {
            id: self.id,
            sandbox: self.sandbox@,
            transport: self.transport,
            address: self.address,
            port: self.port,
            names: views(self.names@),
            unresolved: self.unresolved,
            age_secs: self.age_secs,
            origin: opt_view(self.origin),
        }
    }
}

#[derive(Debug, PartialEq, Eq)]
pub struct BindingInfo {
    pub address: IpAddr,
    pub names: Vec<String>,
    pub expires_in_secs: u64,
}

} // verus!
