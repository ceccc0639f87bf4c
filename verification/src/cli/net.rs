//! `microkitchen net …`: rule edits and the headless approval surface.

use vstd::prelude::*;

use crate::broker::decision::{Rules, RulesView};
use crate::broker::protocol::{ApprovalView, BindingInfo, Mode, PendingApproval, Transport};
use crate::config::edit::{RuleChange, RuleList};
use crate::config::hostpat::{pattern_text, HostPattern, PatternView};
use crate::ip::ip_text;
use crate::text::{
    align_right, concat, concat3, concat4, decimal, decimal_string, join, join_with, pad, padded,
    push_decimal, quoted, quoted_text, right_aligned, views,
};

verus! {

/// A rule as it is given to a command.
pub fn read_rule(text: &str) -> (r: Result<HostPattern, String>)
    ensures
        match (r, pattern_text(text@)) {
            (Ok(rule), Ok(expected)) => rule@ == expected,
            (Err(message), Err(error)) => message@ == "invalid rule "@ + quoted_text(text@) + ": "@
                + error.text(),
            _ => false,
        },
{
    match HostPattern::from_str(text) {
        Ok(rule) => Ok(rule),
        Err(error) => Err(
            concat4("invalid rule ", quoted(text).as_str(), ": ", error.to_text().as_str()),
        ),
    }
}

/// What is said of a rule that was put into a list.
pub open spec fn set_lines(
    rule: Seq<char>,
    list: RuleList,
    file: Seq<char>,
    change: RuleChange,
) -> Seq<Seq<char>> {
    let removed = if change.removed_from_other {
        seq![
            "removed `"@ + rule + "` from `"@ + list.spec_other().spec_key() + "` in "@ + file,
        ]
    } else {
        Seq::empty()
    };
    let added = if change.added {
        "added `"@ + rule + "` to `"@ + list.spec_key() + "` in "@ + file
    } else {
        "`"@ + rule + "` is already in `"@ + list.spec_key() + "` in "@ + file
    };
    removed.push(added)
}

fn rule_line(start: &str, rule: &str, middle: &str, list: RuleList, file: &str) -> (r: String)
    ensures
        r@ == start@ + rule@ + middle@ + list.spec_key() + "` in "@ + file@,
{
    let mut r = concat3(start, rule, middle);
    r.push_str(list.key());
    r.push_str("` in ");
    r.push_str(file);
    r
}

/// What is said of a rule that was put into a list of a file.
pub fn set_rule(rule: &HostPattern, list: RuleList, file: &str, change: RuleChange) -> (r: Vec<
    String,
>)
    ensures
        views(r@) == set_lines(rule@.text(), list, file@, change),
{
    let text = rule.to_text();
    let mut r: Vec<String> = Vec::new();
    if change.removed_from_other {
        r.push(rule_line("removed `", text.as_str(), "` from `", list.other(), file));
    }
    if change.added {
        r.push(rule_line("added `", text.as_str(), "` to `", list, file));
    } else {
        r.push(rule_line("`", text.as_str(), "` is already in `", list, file));
    }
    assert(views(r@) =~= set_lines(rule@.text(), list, file@, change));
    r
}

/// What is said of a rule that was taken out of a file.
pub fn revoke_rule(rule: &HostPattern, file: &str, removed: bool) -> (r: String)
    ensures
        r@ == (if removed {
            "removed `"@ + rule@.text() + "` from "@ + file@
        } else {
            "`"@ + rule@.text() + "` is not in "@ + file@
        }),
{
    let text = rule.to_text();
    if removed {
        concat4("removed `", text.as_str(), "` from ", file)
    } else {
        concat4("`", text.as_str(), "` is not in ", file)
    }
}

pub open spec fn mode_text(mode: Mode) -> Seq<char> {
    match mode {
        Mode::Open => "open"@,
        Mode::Enforce => "enforce"@,
    }
}

pub fn mode_name(mode: Mode) -> (r: &'static str)
    ensures
        r@ == mode_text(mode),
{
    match mode {
        Mode::Open => "open",
        Mode::Enforce => "enforce",
    }
}

/// What is said of a changed mode.
pub fn mode_message(name: &str, mode: Mode) -> (r: String)
    ensures
        r@ == name@ + " is now in "@ + mode_text(mode) + " mode"@,
{
    concat4(name, " is now in ", mode_name(mode), " mode")
}

/// What is said of a temporary allow.
pub fn temp_message(name: &str, host: &str) -> (r: String)
    ensures
        r@ == "allowed "@ + host@ + " temporarily for "@ + name@,
{
    concat4("allowed ", host, " temporarily for ", name)
}

/// What is said of a lifted rate limit.
pub fn resume_message(name: &str, was_limited: bool) -> (r: String)
    ensures
        r@ == (if was_limited {
            name@ + " may ask for network approvals again"@
        } else {
            name@ + " was not rate limited"@
        }),
{
    if was_limited {
        concat(name, " may ask for network approvals again")
    } else {
        concat(name, " was not rate limited")
    }
}

/// What is said of an answered approval.
pub fn decided_message(id: u64) -> (r: String)
    ensures
        r@ == "answered approval "@ + decimal(id as nat),
{
    concat("answered approval ", decimal_string(id).as_str())
}

/// What the operator is told when the rate limit of a sandbox trips.
pub fn limit_message(name: &str) -> (r: String)
    ensures
        r@ == name@
            + " asked for too many network approvals; all its traffic is denied until `microkitchen net resume`"@,
{
    concat(
        name,
        " asked for too many network approvals; all its traffic is denied until `microkitchen net resume`",
    )
}

pub open spec fn transport_text(transport: Transport) -> Seq<char> {
    match transport {
        Transport::Tcp => "tcp"@,
        Transport::Udp => "udp"@,
    }
}

/// The line of an approval that waits for an answer.
pub open spec fn pending_line(approval: ApprovalView) -> Seq<char> {
    let names = if approval.unresolved {
        "this sandbox never resolved this address"@
    } else {
        join(approval.names, ", "@)
    };
    let origin = match approval.origin {
        Some(origin) => "  "@ + origin.text(),
        None => Seq::empty(),
    };
    right_aligned(decimal(approval.id as nat), 4) + "  "@ + approval.sandbox + "  "@ + ip_text(
        approval.address,
    ) + ":"@ + decimal(approval.port as nat) + " ("@ + transport_text(approval.transport) + ")  "@
        + names + origin + "  ["@ + decimal(approval.age_secs as nat) + "s]"@
}

pub fn print_pending(approval: &PendingApproval) -> (r: String)
    ensures
        r@ == pending_line(approval@),
{
    let mut r = align_right(decimal_string(approval.id).as_str(), 4);
    r.push_str("  ");
    r.push_str(approval.sandbox.as_str());
    r.push_str("  ");
    r.push_str(approval.address.text().as_str());
    r.push_str(":");
    push_decimal(&mut r, approval.port as u64);
    r.push_str(" (");
    match approval.transport {
        Transport::Tcp => {
            r.push_str("tcp");
        },
        Transport::Udp => {
            r.push_str("udp");
        },
    }
    r.push_str(")  ");
    if approval.unresolved {
        r.push_str("this sandbox never resolved this address");
    } else {
        r.push_str(join_with(&approval.names, ", ").as_str());
    }
    match &approval.origin {
        Some(origin) => {
            r.push_str("  ");
            r.push_str(origin.to_text().as_str());
        },
        None => {},
    }
    r.push_str("  [");
    push_decimal(&mut r, approval.age_secs);
    r.push_str("s]");
    assert(r@ =~= pending_line(approval@));
    r
}

/// The line of an address and the names that resolved to it.
pub fn print_binding(binding: &BindingInfo) -> (r: String)
    ensures
        r@ == padded(ip_text(binding.address), 40) + " "@ + join(views(binding.names@), ", "@)
            + "  (expires in "@ + decimal(binding.expires_in_secs as nat) + "s)"@,
{
    let mut r = pad(binding.address.text().as_str(), 40);
    r.push_str(" ");
    r.push_str(join_with(&binding.names, ", ").as_str());
    r.push_str("  (expires in ");
    push_decimal(&mut r, binding.expires_in_secs);
    r.push_str("s)");
    r
}

// ---------------------------------------------------------------------------
// The rules in effect
// ---------------------------------------------------------------------------

/// The lines of a list of rules: the list, the rule, and where it comes from.
pub open spec fn rule_lines(list: Seq<char>, rules: Seq<PatternView>, from: Seq<char>) -> Seq<
    Seq<char>,
> {
    Seq::new(
        rules.len(),
        |i: int| padded(list, 6) + padded(rules[i].text(), 40) + " "@ + from,
    )
}

/// The rules in effect, in the order in which they are looked at: those of the
/// kitchen file, the built-in ones, those for every sandbox; `deny` before
/// `allow`. The last rule of the kitchen file's `allow` is the built-in one.
pub open spec fn effective_lines(
    kitchen: RulesView,
    kitchen_file: Seq<char>,
    global: RulesView,
    global_file: Seq<char>,
) -> Seq<Seq<char>> {
    let own = kitchen.allow.len() as int - 1;
    rule_lines("deny"@, kitchen.deny, kitchen_file) + rule_lines(
        "allow"@,
        kitchen.allow.subrange(0, own),
        kitchen_file,
    ) + rule_lines(
        "allow"@,
        kitchen.allow.subrange(own, kitchen.allow.len() as int),
        "(built in)"@,
    ) + rule_lines("deny"@, global.deny, global_file) + rule_lines(
        "allow"@,
        global.allow,
        global_file,
    )
}

fn push_rules(
    out: &mut Vec<String>,
    list: &str,
    rules: &Vec<HostPattern>,
    start: usize,
    end: usize,
    source: &str,
)
    requires
        start <= end <= rules@.len(),
    ensures
        views(final(out)@) == views(old(out)@) + rule_lines(
            list@,
            views(rules@).subrange(start as int, end as int),
            source@,
        ),
{
    let ghost some = views(rules@).subrange(start as int, end as int);
    let ghost rows = rule_lines(list@, some, source@);
    let ghost before = views(out@);
    let mut i: usize = start;
    assert(before + rows.subrange(0, 0) =~= before);
    while i < end
        invariant
            start <= i <= end <= rules@.len(),
            some == views(rules@).subrange(start as int, end as int),
            rows == rule_lines(list@, some, source@),
            views(out@) == before + rows.subrange(0, i - start),
        decreases end - i,
    {
        let ghost done = views(out@);
        let line = concat4(
            pad(list, 6).as_str(),
            pad(rules[i].to_text().as_str(), 40).as_str(),
            " ",
            source,
        );
        assert(some[i - start] == rules@[i as int]@);
        assert(line@ == rows[i - start]);
        out.push(line);
        assert(views(out@) =~= done.push(rows[i - start]));
        assert(views(out@) =~= before + rows.subrange(0, i + 1 - start));
        i += 1;
    }
    assert(rows.subrange(0, rows.len() as int) =~= rows);
}

/// The rules in effect; `kitchen` holds the built-in rule last.
pub fn print_rules(kitchen: &Rules, kitchen_file: &str, global: &Rules, global_file: &str) -> (r:
    Vec<String>)
    requires
        kitchen.allow@.len() > 0,
    ensures
        views(r@) == effective_lines(kitchen@, kitchen_file@, global@, global_file@),
{
    let mut r: Vec<String> = Vec::new();
    assert(views(r@) =~= Seq::empty());
    let all: usize = kitchen.allow.len();
    proof {
        assert(kitchen@.deny.subrange(0, kitchen@.deny.len() as int) =~= kitchen@.deny);
        assert(global@.deny.subrange(0, global@.deny.len() as int) =~= global@.deny);
        assert(global@.allow.subrange(0, global@.allow.len() as int) =~= global@.allow);
    }
    push_rules(&mut r, "deny", &kitchen.deny, 0, kitchen.deny.len(), kitchen_file);
    push_rules(&mut r, "allow", &kitchen.allow, 0, all - 1, kitchen_file);
    push_rules(&mut r, "allow", &kitchen.allow, all - 1, all, "(built in)");
    push_rules(&mut r, "deny", &global.deny, 0, global.deny.len(), global_file);
    push_rules(&mut r, "allow", &global.allow, 0, global.allow.len(), global_file);
    assert(views(r@) =~= effective_lines(kitchen@, kitchen_file@, global@, global_file@));
    r
}

// ---------------------------------------------------------------------------
// Laws
// ---------------------------------------------------------------------------

/// Setting a rule says what was done: that it was taken from the other list, where it
/// was, and that it was added or was there.
pub proof fn law_setting_a_rule_is_told(rule: Seq<char>, file: Seq<char>, change: RuleChange)
    ensures
        set_lines(rule, RuleList::Allow, file, change).len() == if change.removed_from_other {
            2int
        } else {
            1
        },
        set_lines(rule, RuleList::Allow, file, change).last() == if change.added {
            "added `"@ + rule + "` to `"@ + "allow"@ + "` in "@ + file
        } else {
            "`"@ + rule + "` is already in `"@ + "allow"@ + "` in "@ + file
        },
        set_lines(rule, RuleList::Deny, file, change).last() == if change.added {
            "added `"@ + rule + "` to `"@ + "deny"@ + "` in "@ + file
        } else {
            "`"@ + rule + "` is already in `"@ + "deny"@ + "` in "@ + file
        },
        change.removed_from_other ==> set_lines(rule, RuleList::Allow, file, change)[0]
            == "removed `"@ + rule + "` from `"@ + "deny"@ + "` in "@ + file,
        change.removed_from_other ==> set_lines(rule, RuleList::Deny, file, change)[0]
            == "removed `"@ + rule + "` from `"@ + "allow"@ + "` in "@ + file,
{
}

/// The rules in effect are shown in the order in which they decide: the kitchen's denied
/// and allowed ones, the built-in one, then the global ones; each with where it is from.
pub proof fn law_rules_are_shown_in_order(
    kitchen: RulesView,
    kitchen_file: Seq<char>,
    global: RulesView,
    global_file: Seq<char>,
    i: int,
)
    requires
        kitchen.allow.len() > 0,
    ensures
        ({
            let lines = effective_lines(kitchen, kitchen_file, global, global_file);
            let d = kitchen.deny.len();
            let a = kitchen.allow.len();
            let g = global.deny.len();
            let line = |list: Seq<char>, rule: PatternView, from: Seq<char>|
                padded(list, 6) + padded(rule.text(), 40) + " "@ + from;
            &&& lines.len() == d + a + g + global.allow.len()
            &&& 0 <= i < d ==> lines[i] == line("deny"@, kitchen.deny[i], kitchen_file)
            &&& 0 <= i < a - 1 ==> lines[d + i] == line("allow"@, kitchen.allow[i], kitchen_file)
            &&& lines[d + a - 1] == line("allow"@, kitchen.allow[a - 1], "(built in)"@)
            &&& 0 <= i < g ==> lines[d + a + i] == line("deny"@, global.deny[i], global_file)
            &&& 0 <= i < global.allow.len() ==> lines[d + a + g + i] == line(
                "allow"@,
                global.allow[i],
                global_file,
            )
        }),
{
}

/// What is shown of a request that waits.
pub proof fn law_requests_are_listed(approval: ApprovalView)
    ensures
        pending_line(approval) == right_aligned(decimal(approval.id as nat), 4) + "  "@
            + approval.sandbox + "  "@ + ip_text(approval.address) + ":"@ + decimal(
            approval.port as nat,
        ) + " ("@ + (if approval.transport == Transport::Udp {
            "udp"@
        } else {
            "tcp"@
        }) + ")  "@ + (if approval.unresolved {
            "this sandbox never resolved this address"@
        } else {
            join(approval.names, ", "@)
        }) + (match approval.origin {
            Some(origin) => "  "@ + origin.text(),
            None => Seq::empty(),
        }) + "  ["@ + decimal(approval.age_secs as nat) + "s]"@,
        mode_text(Mode::Open) == "open"@,
        mode_text(Mode::Enforce) == "enforce"@,
{
}

} // verus!
