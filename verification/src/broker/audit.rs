//! The audit log: one event per verdict, `~/.microkitchen/broker/audit.log`.

use vstd::prelude::*;

use crate::broker::attribution::{Origin, OriginView};
use crate::broker::protocol::Transport;
use crate::ip::IpAddr;
use crate::text::{opt_view, views};

verus! {

#[derive(Debug, PartialEq, Eq)]
pub struct AuditEvent {
    pub sandbox: String,
    pub transport: Transport,
    pub address: IpAddr,
    pub port: u16,
    pub names: Vec<String>,
    pub allowed: bool,
    /// Why: the matching rule, `open-mode`, `session`, `prompt:<answer>`, …
    pub source: String,
    /// Several candidate names were bound to the address.
    pub ambiguous: bool,
    /// The guest process behind a prompted flow. Display only: supplied by
    /// the guest, never used to decide.
    pub origin: Option<Origin>,
}

/// An [`AuditEvent`] by its contents.
#[verifier::ext_equal]
pub struct AuditView {
    pub sandbox: Seq<char>,
    pub transport: Transport,
    pub address: IpAddr,
    pub port: u16,
    pub names: Seq<Seq<char>>,
    pub allowed: bool,
    pub source: Seq<char>,
    pub ambiguous: bool,
    pub origin: Option<OriginView>,
}

impl View for AuditEvent {
    type V = AuditView;

    open spec fn view(&self) -> AuditView {
        AuditView {
            sandbox: self.sandbox@,
            transport: self.transport,
            address: self.address,
            port: self.port,
            names: views(self.names@),
            allowed: self.allowed,
            source: self.source@,
            ambiguous: self.ambiguous,
            origin: opt_view(self.origin),
        }
    }
}

} // verus!
