//! `microkitchen broker start|stop|status|run`.

use vstd::prelude::*;

use crate::broker::protocol::{InfoView, SandboxInfo};
use crate::cli::net::{mode_name, mode_text};
use crate::text::{
    concat3, decimal, decimal_string, pad, padded, push_decimal, views,
};

verus! {

/// How often a broker that stops is looked at.
pub const STOP_ATTEMPTS: usize = 50;

/// What is said where the broker does not run.
pub const NOT_RUNNING: &'static str = "the egress broker is not running";

/// The line of a sandbox in `broker status`.
pub open spec fn status_line(info: InfoView) -> Seq<char> {
    "  "@ + padded(info.name, 40) + " "@ + padded(mode_text(info.mode), 8) + " dns 127.0.0.1:"@
        + padded(decimal(info.resolver_port as nat), 6) + " proxy 127.0.0.1:"@ + padded(
        decimal(info.proxy_port as nat),
        6,
    ) + " "@ + decimal(info.bindings) + " bindings"@
}

fn line(info: &SandboxInfo) -> (r: String)
    ensures
        r@ == status_line(info@),
{
    let mut r = concat3("  ", pad(info.name.as_str(), 40).as_str(), " ");
    r.push_str(pad(mode_name(info.mode), 8).as_str());
    r.push_str(" dns 127.0.0.1:");
    r.push_str(pad(decimal_string(info.resolver_port as u64).as_str(), 6).as_str());
    r.push_str(" proxy 127.0.0.1:");
    r.push_str(pad(decimal_string(info.proxy_port as u64).as_str(), 6).as_str());
    r.push_str(" ");
    push_decimal(&mut r, info.bindings as u64);
    r.push_str(" bindings");
    assert(r@ =~= status_line(info@));
    r
}

/// What `broker status` prints while the broker runs.
pub fn status(log_file: &str, sandboxes: &Vec<SandboxInfo>) -> (r: Vec<String>)
    ensures
        views(r@) == seq!["the egress broker is running (log: "@ + log_file@ + ")"@] + Seq::new(
            sandboxes@.len(),
            |i: int| status_line(views(sandboxes@)[i]),
        ),
{
    let mut r: Vec<String> = Vec::new();
    r.push(concat3("the egress broker is running (log: ", log_file, ")"));
    let ghost head = seq!["the egress broker is running (log: "@ + log_file@ + ")"@];
    let ghost rows = Seq::new(sandboxes@.len(), |i: int| status_line(views(sandboxes@)[i]));
    let mut i: usize = 0;
    assert(views(r@) =~= head + rows.subrange(0, 0));
    while i < sandboxes.len()
        invariant
            i <= sandboxes@.len(),
            rows == Seq::new(sandboxes@.len(), |i: int| status_line(views(sandboxes@)[i])),
            views(r@) == head + rows.subrange(0, i as int),
        decreases sandboxes@.len() - i,
    {
        let ghost done = views(r@);
        let text = line(&sandboxes[i]);
        assert(text@ == rows[i as int]);
        r.push(text);
        assert(views(r@) =~= done.push(rows[i as int]));
        assert(views(r@) =~= head + rows.subrange(0, i + 1));
        i += 1;
    }
    assert(rows.subrange(0, rows.len() as int) =~= rows);
    r
}

} // verus!
