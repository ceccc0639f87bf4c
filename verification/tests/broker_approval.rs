//! The approval queue.

use microkitchen::broker::approval::{
    dialog_step, event_outcome, follow, ApprovalQueue, Asked, CoalesceKey, DialogStep, Event,
    OriginSlot, Outcome, PromptInfo,
};
use microkitchen::broker::attribution::Origin;
use microkitchen::broker::dialog::{Backend, Desktop};
use microkitchen::broker::protocol::{Answer, Transport};
use microkitchen::ip::IpAddr;
use microkitchen::state::settings::{ApprovalSettings, HeadlessFallback};

const MILLIS: u64 = 1_000_000;
const SECS: u64 = 1_000 * MILLIS;

fn settings(headless: HeadlessFallback, timeout_secs: u64) -> ApprovalSettings {
    ApprovalSettings { headless, timeout_secs, ..ApprovalSettings::default() }
}

fn queue(headless: HeadlessFallback, timeout_secs: u64) -> ApprovalQueue {
    ApprovalQueue::new(settings(headless, timeout_secs), false)
}

fn with_surface(settings: ApprovalSettings) -> ApprovalQueue {
    ApprovalQueue::new(settings, true)
}

fn key(subject: &str) -> CoalesceKey {
    CoalesceKey { sandbox: "mk-a".into(), subject: subject.into(), port: 443 }
}

fn info() -> PromptInfo {
    PromptInfo {
        sandbox: "mk-a".into(),
        transport: Transport::Tcp,
        address: IpAddr::parse("203.0.113.1").unwrap(),
        port: 443,
        names: vec!["example.com".into()],
        origin: OriginSlot::default(),
    }
}

fn prompted(asked: Asked) -> (u64, u64) {
    match asked {
        Asked::Prompt { id, deadline } => (id, deadline),
        other => panic!("expected a prompt, have {other:?}"),
    }
}

#[test]
fn headless_deny_answers_immediately() {
    let mut q = queue(HeadlessFallback::Deny, 60);
    assert_eq!(q.ask(&key("example.com"), info(), 0), Asked::Settled(Outcome::Dismissed));
    assert!(q.list(0).is_empty());
}

#[test]
fn queued_requests_are_answered() {
    let mut q = queue(HeadlessFallback::Queue, 60);
    let (id, _) = prompted(q.ask(&key("example.com"), info(), 0));
    let pending = q.list(3 * SECS);
    assert_eq!(pending.len(), 1);
    assert_eq!(pending[0].names, vec!["example.com".to_string()]);
    assert_eq!(pending[0].age_secs, 3);
    assert_eq!(pending[0].id, id);
    assert_eq!(q.decide(id, Answer::Temp), Some(Outcome::Temp));
    q.settle(&key("example.com"), id);
    assert!(q.list(0).is_empty());
    assert_eq!(q.decide(id, Answer::Allow), None, "answered requests are gone");
}

#[test]
fn concurrent_requests_coalesce() {
    let mut q = queue(HeadlessFallback::Queue, 60);
    let (id, _) = prompted(q.ask(&key("example.com"), info(), 0));
    for _ in 0..4 {
        assert_eq!(q.ask(&key("example.com"), info(), 0), Asked::Follow);
    }
    assert_eq!(q.list(0).len(), 1, "one prompt for five flows");
    let outcome = q.decide(id, Answer::Allow);
    assert_eq!(outcome, Some(Outcome::Allow));
    // The four that follow take the same outcome.
    assert_eq!(follow(outcome), Some(Outcome::Allow));
    // Another port is another destination.
    let other = CoalesceKey { port: 80, ..key("example.com") };
    assert!(matches!(q.ask(&other, info(), 0), Asked::Prompt { .. }));
}

#[test]
fn dead_flows_are_dropped_unshown() {
    let mut q = queue(HeadlessFallback::Queue, 60);
    let (id, _) = prompted(q.ask(&key("example.com"), info(), 0));
    assert_eq!(event_outcome(Event::FlowGone), Outcome::Cancelled);
    q.settle(&key("example.com"), id);
    assert!(q.list(0).is_empty());
}

#[test]
fn a_follower_takes_over_when_the_leader_dies() {
    let mut q = queue(HeadlessFallback::Queue, 60);
    let (leader, _) = prompted(q.ask(&key("example.com"), info(), 0));
    assert_eq!(q.ask(&key("example.com"), info(), 0), Asked::Follow);
    let outcome = event_outcome(Event::FlowGone);
    assert_eq!(outcome, Outcome::Cancelled);
    q.settle(&key("example.com"), leader);
    // The follower asks on its own behalf.
    assert_eq!(follow(Some(outcome)), None);
    assert_eq!(follow(None), None);
    let (follower, _) = prompted(q.ask(&key("example.com"), info(), 0));
    assert_eq!(q.list(0).len(), 1);
    assert_eq!(q.decide(follower, Answer::Deny), Some(Outcome::Deny));
}

#[test]
fn timeouts_dismiss() {
    let mut q = queue(HeadlessFallback::Queue, 1);
    let (id, deadline) = prompted(q.ask(&key("example.com"), info(), 5 * SECS));
    assert_eq!(deadline, 6 * SECS);
    assert_eq!(event_outcome(Event::Deadline), Outcome::Dismissed);
    q.settle(&key("example.com"), id);
    assert!(q.list(0).is_empty());
}

#[test]
fn retiring_a_sandbox_cancels_its_requests() {
    let mut q = queue(HeadlessFallback::Queue, 60);
    let (id, _) = prompted(q.ask(&key("example.com"), info(), 0));
    let other = PromptInfo { sandbox: "mk-b".into(), ..info() };
    let other_key = CoalesceKey { sandbox: "mk-b".into(), ..key("example.com") };
    let (kept, _) = prompted(q.ask(&other_key, other, 0));
    assert_eq!(q.cancel_sandbox("mk-a"), vec![id]);
    assert_eq!(event_outcome(Event::Dropped), Outcome::Cancelled);
    let left: Vec<u64> = q.list(0).iter().map(|p| p.id).collect();
    assert_eq!(left, vec![kept]);
}

#[test]
fn dialogs_are_shown_one_at_a_time() {
    let mut q = with_surface(settings(HeadlessFallback::Deny, 60));
    let mut ids = Vec::new();
    for subject in ["a.com", "b.com", "c.com"] {
        ids.push(prompted(q.ask(&key(subject), info(), 0)).0);
    }
    for (subject, id) in ["a.com", "b.com", "c.com"].into_iter().zip(&ids) {
        assert!(q.take_screen(*id));
        for other in &ids {
            assert!(!q.take_screen(*other), "one dialog at a time");
        }
        assert_eq!(event_outcome(Event::Dialog(Outcome::Allow)), Outcome::Allow);
        q.settle(&key(subject), *id);
    }
    assert!(q.list(0).is_empty());
}

#[test]
fn the_cli_can_answer_while_a_dialog_is_up() {
    let mut q = with_surface(settings(HeadlessFallback::Deny, 60));
    let (id, _) = prompted(q.ask(&key("example.com"), info(), 0));
    assert!(q.take_screen(id));
    let pending = q.list(0);
    assert_eq!(pending.len(), 1);
    assert_eq!(q.decide(pending[0].id, Answer::Temp), Some(Outcome::Temp));
    assert_eq!(event_outcome(Event::Answered(Answer::Temp)), Outcome::Temp);
}

#[test]
fn dialogs_wait_briefly_for_the_origin() {
    let mut q = with_surface(settings(HeadlessFallback::Deny, 60));
    let (id, deadline) = prompted(q.ask(&key("example.com"), info(), 0));
    assert_eq!(dialog_step(false, 0, deadline, 100 * MILLIS), DialogStep::AwaitOrigin);
    q.set_origin(id, Origin { pid: 412, name: "node".into() });
    let pending = q.list(0);
    assert_eq!(pending[0].origin.as_ref().map(|o| o.pid), Some(412));
    assert_eq!(
        dialog_step(true, 0, deadline, 200 * MILLIS),
        DialogStep::Show { remaining: 60 * SECS - 200 * MILLIS }
    );
    // Without an origin the dialog waits no longer than a second.
    assert_eq!(
        dialog_step(false, 0, deadline, SECS),
        DialogStep::Show { remaining: 59 * SECS }
    );
    assert_eq!(dialog_step(true, 0, deadline, 60 * SECS), DialogStep::Dismissed);
}

#[test]
fn the_rate_limit_trips_at_the_threshold() {
    let mut q = with_surface(ApprovalSettings {
        max_prompts: 2,
        ..settings(HeadlessFallback::Deny, 60)
    });
    for subject in ["a.com", "b.com"] {
        let (id, _) = prompted(q.ask(&key(subject), info(), 0));
        assert_eq!(event_outcome(Event::Dialog(Outcome::Deny)), Outcome::Deny);
        q.settle(&key(subject), id);
    }
    assert_eq!(q.ask(&key("c.com"), info(), SECS), Asked::Settled(Outcome::RateLimited));
    q.reset("mk-a");
    assert!(
        matches!(q.ask(&key("d.com"), info(), SECS), Asked::Prompt { .. }),
        "resume starts over"
    );
}

#[test]
fn the_rate_limit_has_a_window() {
    let mut q = with_surface(ApprovalSettings {
        max_prompts: 1,
        window_secs: 10,
        ..settings(HeadlessFallback::Deny, 60)
    });
    let (id, _) = prompted(q.ask(&key("a.com"), info(), 0));
    q.settle(&key("a.com"), id);
    assert_eq!(
        q.ask(&key("b.com"), info(), 10 * SECS - 1),
        Asked::Settled(Outcome::RateLimited)
    );
    assert!(matches!(q.ask(&key("b.com"), info(), 10 * SECS), Asked::Prompt { .. }));
    // Other sandboxes have a limit of their own.
    let other = PromptInfo { sandbox: "mk-b".into(), ..info() };
    let other_key = CoalesceKey { sandbox: "mk-b".into(), ..key("b.com") };
    assert!(matches!(q.ask(&other_key, other, 10 * SECS), Asked::Prompt { .. }));
}

#[test]
fn headless_deny_is_not_rate_limited() {
    let mut q = ApprovalQueue::new(
        ApprovalSettings { max_prompts: 1, ..settings(HeadlessFallback::Deny, 60) },
        false,
    );
    for subject in ["a.com", "b.com", "c.com"] {
        assert_eq!(q.ask(&key(subject), info(), 0), Asked::Settled(Outcome::Dismissed));
    }
}

#[test]
fn notices_reach_the_surface() {
    let (program, args) = Desktop::new(Backend::Zenity).notice("too many approvals", true);
    assert_eq!(program, "notify-send");
    assert_eq!(args, vec!["microkitchen".to_string(), "too many approvals".to_string()]);
    let (program, args) = Desktop::new(Backend::Zenity).notice("too many approvals", false);
    assert_eq!(program, "zenity");
    assert!(args.contains(&"too many approvals".to_string()));
    let (program, args) = Desktop::new(Backend::Kdialog).notice("too many approvals", false);
    assert_eq!(program, "kdialog");
    assert_eq!(args[0], "--passivepopup");
    let (program, args) = Desktop::new(Backend::Osascript).notice("say \"hi\"", true);
    assert_eq!(program, "osascript");
    assert_eq!(args[1], "display notification \"say \\\"hi\\\"\" with title \"microkitchen\"");
}

#[test]
fn answers_are_outcomes() {
    assert_eq!(Outcome::from(Answer::Allow), Outcome::Allow);
    assert_eq!(Outcome::from(Answer::Deny), Outcome::Deny);
    assert_eq!(Outcome::from(Answer::Temp), Outcome::Temp);
}

#[test]
fn origins_outlive_the_answer() {
    let mut q = queue(HeadlessFallback::Queue, 60);
    let (id, _) = prompted(q.ask(&key("example.com"), info(), 0));
    assert_eq!(q.origin_of(id), None);
    q.set_origin(id, Origin { pid: 7, name: "curl".to_string() });
    assert_eq!(q.decide(id, Answer::Allow), Some(Outcome::Allow));
    assert!(q.list(0).is_empty());
    assert_eq!(q.origin_of(id), Some(Origin { pid: 7, name: "curl".to_string() }));
    q.settle(&key("example.com"), id);
    assert_eq!(q.origin_of(id), None);
    q.set_origin(id, Origin { pid: 8, name: "late".to_string() });
    assert_eq!(q.origin_of(id), None);
}
