//! The approval queue.
//!
//! Concurrent flows to the same destination share one approval. A request
//! whose flow died is dropped without being shown. Timeouts, dismissed dialogs
//! and missing approval surfaces deny once and are never remembered.
//!
//! Requests are listed through the admin interface (`microkitchen net
//! pending`) and can always be answered with `microkitchen net decide`. With a
//! desktop they are also shown as dialogs, strictly one at a time across all
//! sandboxes. Prompts that reach a human are rate limited per sandbox: a guest
//! must not be able to bury one real request in noise.
//!
//! The queue is a state and the steps on it. What waits for an answer, for the
//! clock or for a flow to end does so elsewhere, and hands the event back.

use vstd::prelude::*;

use crate::broker::attribution::{Origin, OriginView, DEADLINE};
use crate::broker::bindings::clone_names;
use crate::broker::protocol::{Answer, ApprovalView, PendingApproval, Transport};
use crate::ids::{ascending_ids, id_views, in_order, IdMap};
use crate::ip::IpAddr;
use crate::maps::{distinct_keys, has_key, lemma_to_map_at, to_map, TextMap};
use crate::state::settings::{seconds, ApprovalSettings, HeadlessFallback};
use crate::text::{opt_view, same, views};
use crate::time::{after, age, later, since, Duration, Instant, SECOND};

verus! {

/// How often a dialog waiting for attribution checks for it.
pub const ORIGIN_POLL: Duration = 50_000_000;

// ---------------------------------------------------------------------------
// Types
// ---------------------------------------------------------------------------

#[derive(Debug, Clone, Copy, PartialEq, Eq, Structural)]
pub enum Outcome {
    Allow,
    Deny,
    Temp,
    /// Timed out, dismissed, or no approval surface: deny this flow, remember nothing.
    Dismissed,
    /// The flow went away first.
    Cancelled,
    /// Too many prompts for this sandbox recently: deny, and deny everything
    /// else until `net resume`.
    RateLimited,
}

/// Coalescing key: `(sandbox, name-or-address, port)`.
#[derive(Debug, PartialEq, Eq)]
pub struct CoalesceKey {
    pub sandbox: String,
    pub subject: String,
    pub port: u16,
}

/// A [`CoalesceKey`] by its contents.
#[verifier::ext_equal]
pub struct KeyView {
    pub sandbox: Seq<char>,
    pub subject: Seq<char>,
    pub port: u16,
}

/// The flow's origin, filled in by attribution while the request waits.
#[derive(Debug, PartialEq, Eq)]
pub struct OriginSlot {
    origin: Option<Origin>,
}

/// What an operator sees.
#[derive(Debug, PartialEq, Eq)]
pub struct PromptInfo {
    pub sandbox: String,
    pub transport: Transport,
    pub address: IpAddr,
    pub port: u16,
    pub names: Vec<String>,
    pub origin: OriginSlot,
}

/// A [`PromptInfo`] by its contents.
#[verifier::ext_equal]
pub struct PromptView {
    pub sandbox: Seq<char>,
    pub transport: Transport,
    pub address: IpAddr,
    pub port: u16,
    pub names: Seq<Seq<char>>,
    pub origin: Option<OriginView>,
}

/// A request that waits for an answer.
#[derive(Debug, PartialEq, Eq)]
pub struct Pending {
    pub info: PromptInfo,
    pub created: Instant,
}

/// A [`Pending`] by its contents.
#[verifier::ext_equal]
pub struct PendingView {
    pub info: PromptView,
    pub created: Instant,
}

impl View for CoalesceKey {
    type V = KeyView;

    open spec fn view(&self) -> KeyView {
        KeyView { sandbox: self.sandbox@, subject: self.subject@, port: self.port }
    }
}

impl View for OriginSlot {
    type V = Option<OriginView>;

    closed spec fn view(&self) -> Option<OriginView> {
        opt_view(self.origin)
    }
}

impl View for PromptInfo {
    type V = PromptView;

    open spec fn view(&self) -> PromptView {
        PromptView {
            sandbox: self.sandbox@,
            transport: self.transport,
            address: self.address,
            port: self.port,
            names: views(self.names@),
            origin: self.origin@,
        }
    }
}

impl View for Pending {
    type V = PendingView;

    open spec fn view(&self) -> PendingView {
        PendingView { info: self.info@, created: self.created }
    }
}

impl CoalesceKey {
    fn equals(&self, other: &CoalesceKey) -> (r: bool)
        ensures
            r == (self@ == other@),
    {
        self.port == other.port && same(self.sandbox.as_str(), other.sandbox.as_str()) && same(
            self.subject.as_str(),
            other.subject.as_str(),
        )
    }
}

impl Clone for CoalesceKey {
    fn clone(&self) -> (r: Self)
        ensures
            r@ == self@,
    {
        CoalesceKey {
            sandbox: self.sandbox.clone(),
            subject: self.subject.clone(),
            port: self.port,
        }
    }
}

impl Default for OriginSlot {
    fn default() -> (r: Self)
        ensures
            r@ == None::<OriginView>,
    {
        OriginSlot { origin: None }
    }
}

impl OriginSlot {
    pub fn set(&mut self, origin: Origin)
        ensures
            final(self)@ == Some(origin@),
    {
        self.origin = Some(origin);
    }

    pub fn get(&self) -> (r: Option<Origin>)
        ensures
            opt_view(r) == self@,
    {
        match &self.origin {
            Some(origin) => Some(origin.clone()),
            None => None,
        }
    }
}

impl Clone for PromptInfo {
    fn clone(&self) -> (r: Self)
        ensures
            r@ == self@,
    {
        PromptInfo {
            sandbox: self.sandbox.clone(),
            transport: self.transport,
            address: self.address,
            port: self.port,
            names: clone_names(&self.names),
            origin: OriginSlot { origin: self.origin.get() },
        }
    }
}

impl Outcome {
    /// What an answer comes to.
    pub open spec fn of(answer: Answer) -> Outcome {
        match answer {
            Answer::Allow => Outcome::Allow,
            Answer::Deny => Outcome::Deny,
            Answer::Temp => Outcome::Temp,
        }
    }
}

impl From<Answer> for Outcome {
    fn from(answer: Answer) -> (r: Self) {
        match answer {
            Answer::Allow => Outcome::Allow,
            Answer::Deny => Outcome::Deny,
            Answer::Temp => Outcome::Temp,
        }
    }
}

impl vstd::std_specs::convert::FromSpecImpl<Answer> for Outcome {
    open spec fn obeys_from_spec() -> bool {
        true
    }

    open spec fn from_spec(answer: Answer) -> Outcome {
        Outcome::of(answer)
    }
}

// ---------------------------------------------------------------------------
// The rate limit
// ---------------------------------------------------------------------------

/// The times of prompts without the leading ones that have left the window.
pub open spec fn recent_times(times: Seq<Instant>, now: Instant, window: Duration) -> Seq<Instant>
    decreases times.len(),
{
    if times.len() > 0 && age(now, times[0]) >= window {
        recent_times(times.subrange(1, times.len() as int), now, window)
    } else {
        times
    }
}

/// The times of a sandbox's prompts with one more, and whether it is within the
/// limit. One beyond the limit is not counted.
pub open spec fn counted(times: Seq<Instant>, now: Instant, window: Duration, max: u32) -> (
    Seq<Instant>,
    bool,
) {
    let kept = recent_times(times, now, window);
    if kept.len() >= max {
        (kept, false)
    } else {
        (kept.push(now), true)
    }
}

fn count(times: &Vec<Instant>, now: Instant, window: Duration, max: u32) -> (r: (
    Vec<Instant>,
    bool,
))
    ensures
        (r.0@, r.1) == counted(times@, now, window, max),
{
    let mut from: usize = 0;
    assert(times@.subrange(0, times@.len() as int) =~= times@);
    while from < times.len() && since(now, times[from]) >= window
        invariant
            from <= times@.len(),
            recent_times(times@, now, window) == recent_times(
                times@.subrange(from as int, times@.len() as int),
                now,
                window,
            ),
        decreases times@.len() - from,
    {
        assert(times@.subrange(from as int, times@.len() as int).subrange(
            1,
            times@.len() - from,
        ) =~= times@.subrange(from + 1, times@.len() as int));
        from += 1;
    }
    let ghost kept_times = times@.subrange(from as int, times@.len() as int);
    assert(recent_times(times@, now, window) == kept_times);
    let mut kept: Vec<Instant> = Vec::new();
    let mut i: usize = from;
    while i < times.len()
        invariant
            from <= i <= times@.len(),
            kept@ == times@.subrange(from as int, i as int),
        decreases times@.len() - i,
    {
        kept.push(times[i]);
        assert(kept@ =~= times@.subrange(from as int, i + 1));
        i += 1;
    }
    if kept.len() >= max as usize {
        (kept, false)
    } else {
        kept.push(now);
        (kept, true)
    }
}

// ---------------------------------------------------------------------------
// The queue
// ---------------------------------------------------------------------------

pub struct ApprovalQueue {
    settings: ApprovalSettings,
    /// Whether there is a desktop to show dialogs on.
    surface: bool,
    last_id: u64,
    pending: IdMap<Pending>,
    /// The origin of each request that is not over, also once it is answered.
    slots: IdMap<OriginSlot>,
    inflight: Vec<CoalesceKey>,
    /// When each sandbox's recent prompts started, for the rate limit.
    recent: TextMap<Times>,
    /// The request whose dialog is on screen: one at a time, across sandboxes.
    showing: Option<u64>,
}

/// When a sandbox's recent prompts started.
#[derive(Debug, PartialEq, Eq)]
pub struct Times {
    times: Vec<Instant>,
}

impl View for Times {
    type V = Seq<Instant>;

    closed spec fn view(&self) -> Seq<Instant> {
        self.times@
    }
}

/// An [`ApprovalQueue`] by its contents.
#[verifier::ext_equal]
pub struct QueueView {
    pub settings: ApprovalSettings,
    pub surface: bool,
    pub last_id: u64,
    pub pending: Map<u64, PendingView>,
    pub slots: Map<u64, Option<OriginView>>,
    pub inflight: Set<KeyView>,
    pub recent: Map<Seq<char>, Seq<Instant>>,
    pub showing: Option<u64>,
}

impl View for ApprovalQueue {
    type V = QueueView;

    closed spec fn view(&self) -> QueueView {
        QueueView {
            settings: self.settings,
            surface: self.surface,
            last_id: self.last_id,
            pending: self.pending@,
            slots: self.slots@,
            inflight: key_set(self.inflight@),
            recent: self.recent@,
            showing: self.showing,
        }
    }
}

/// The keys of a list.
pub open spec fn key_set(keys: Seq<CoalesceKey>) -> Set<KeyView> {
    Set::new(|key: KeyView| views(keys).contains(key))
}

/// What comes of asking.
#[derive(Debug, Clone, Copy, PartialEq, Eq, Structural)]
pub enum Asked {
    /// An identical request is in flight: wait for its outcome.
    Follow,
    /// Nobody is asked.
    Settled(Outcome),
    /// A human is asked, until the deadline.
    Prompt { id: u64, deadline: Instant },
}

/// Something that ends the wait for an answer.
#[derive(Debug, Clone, Copy, PartialEq, Eq, Structural)]
pub enum Event {
    /// `net decide` answered.
    Answered(Answer),
    /// The request was dropped from the queue.
    Dropped,
    /// The dialog closed.
    Dialog(Outcome),
    /// The deadline passed.
    Deadline,
    /// The flow went away.
    FlowGone,
}

/// What a dialog does next.
#[derive(Debug, Clone, Copy, PartialEq, Eq, Structural)]
pub enum DialogStep {
    /// Wait a little for the origin.
    AwaitOrigin,
    /// Show it for the time that is left.
    Show { remaining: Duration },
    /// There is no time left.
    Dismissed,
}

impl QueueView {
    /// Whether a prompt reaches a human: a dialog, or the `net decide` queue.
    pub open spec fn reaches_human(self) -> bool {
        self.surface || self.settings.headless == HeadlessFallback::Queue
    }

    /// When a sandbox's recent prompts started.
    pub open spec fn times(self, sandbox: Seq<char>) -> Seq<Instant> {
        if self.recent.contains_key(sandbox) {
            self.recent[sandbox]
        } else {
            Seq::empty()
        }
    }

    /// The number of the next request.
    pub open spec fn next_id(self) -> u64 {
        if self.last_id == u64::MAX {
            0
        } else {
            (self.last_id + 1) as u64
        }
    }

    /// The queue after a request, and what comes of it.
    pub open spec fn asked(self, key: KeyView, info: PromptView, now: Instant) -> (
        QueueView,
        Asked,
    ) {
        if self.inflight.contains(key) {
            (self, Asked::Follow)
        } else if !self.reaches_human() {
            (self, Asked::Settled(Outcome::Dismissed))
        } else {
            let (times, within) = counted(
                self.times(info.sandbox),
                now,
                seconds(self.settings.window_secs),
                self.settings.max_prompts,
            );
            let after = QueueView { recent: self.recent.insert(info.sandbox, times), ..self };
            if !within {
                (after, Asked::Settled(Outcome::RateLimited))
            } else {
                let id = self.next_id();
                (
                    QueueView {
                        last_id: id,
                        pending: self.pending.insert(id, PendingView { info, created: now }),
                        slots: self.slots.insert(id, info.origin),
                        inflight: self.inflight.insert(key),
                        ..after
                    },
                    Asked::Prompt {
                        id,
                        deadline: later(now, seconds(self.settings.timeout_secs)),
                    },
                )
            }
        }
    }

    /// The queue after a request is over.
    pub open spec fn settled(self, key: KeyView, id: u64) -> QueueView {
        QueueView {
            pending: self.pending.remove(id),
            slots: self.slots.remove(id),
            inflight: self.inflight.remove(key),
            showing: if self.showing == Some(id) {
                None
            } else {
                self.showing
            },
            ..self
        }
    }

    /// The origin of a request that is not over, where attribution found it.
    pub open spec fn origin(self, id: u64) -> Option<OriginView> {
        if self.slots.contains_key(id) {
            self.slots[id]
        } else {
            None
        }
    }

    /// The requests of the other sandboxes.
    pub open spec fn without_sandbox(self, sandbox: Seq<char>) -> Map<u64, PendingView> {
        Map::new(
            |id: u64| self.pending.contains_key(id) && self.pending[id].info.sandbox != sandbox,
            |id: u64| self.pending[id],
        )
    }
}

/// A request as it is listed.
pub open spec fn shown(id: u64, pending: PendingView, now: Instant) -> ApprovalView {
    ApprovalView {
        id,
        sandbox: pending.info.sandbox,
        transport: pending.info.transport,
        address: pending.info.address,
        port: pending.info.port,
        names: pending.info.names,
        unresolved: pending.info.names.len() == 0,
        age_secs: age(now, pending.created) / SECOND,
        origin: pending.info.origin,
    }
}

/// The numbers of a sandbox's requests.
pub open spec fn ids_of(pairs: Seq<(u64, PendingView)>, sandbox: Seq<char>) -> Seq<u64>
    decreases pairs.len(),
{
    if pairs.len() == 0 {
        Seq::empty()
    } else {
        let rest = ids_of(pairs.drop_last(), sandbox);
        if pairs.last().1.info.sandbox == sandbox {
            rest.push(pairs.last().0)
        } else {
            rest
        }
    }
}

/// What an event means for the flow that waits.
pub open spec fn outcome_of(event: Event) -> Outcome {
    match event {
        Event::Answered(answer) => Outcome::of(answer),
        Event::Dropped => Outcome::Cancelled,
        Event::Dialog(outcome) => outcome,
        Event::Deadline => Outcome::Dismissed,
        Event::FlowGone => Outcome::Cancelled,
    }
}

/// What a follower does with the outcome of the request that it waited for:
/// when that request's flow died, or its outcome is lost, it asks again on its
/// own behalf.
pub open spec fn follows(outcome: Option<Outcome>) -> Option<Outcome> {
    match outcome {
        None => None,
        Some(outcome) => if outcome == Outcome::Cancelled {
            None
        } else {
            Some(outcome)
        },
    }
}

/// What a dialog does next: it gives attribution until its deadline, then is
/// shown for whatever time the request has left.
pub open spec fn dialog_next(
    has_origin: bool,
    created: Instant,
    deadline: Instant,
    now: Instant,
) -> DialogStep {
    if !has_origin && now < later(created, DEADLINE) {
        DialogStep::AwaitOrigin
    } else if now >= deadline {
        DialogStep::Dismissed
    } else {
        DialogStep::Show { remaining: (deadline - now) as u64 }
    }
}

/// The outcome that an event gives.
pub fn event_outcome(event: Event) -> (r: Outcome)
    ensures
        r == outcome_of(event),
{
    match event {
        Event::Answered(answer) => Outcome::from(answer),
        Event::Dropped => Outcome::Cancelled,
        Event::Dialog(outcome) => outcome,
        Event::Deadline => Outcome::Dismissed,
        Event::FlowGone => Outcome::Cancelled,
    }
}

/// What a follower takes from the request that it waited for; `None` to ask
/// again.
pub fn follow(outcome: Option<Outcome>) -> (r: Option<Outcome>)
    ensures
        r == follows(outcome),
{
    match outcome {
        None => None,
        Some(Outcome::Cancelled) => None,
        Some(outcome) => Some(outcome),
    }
}

/// What a dialog that has the screen does next.
pub fn dialog_step(has_origin: bool, created: Instant, deadline: Instant, now: Instant) -> (r:
    DialogStep)
    ensures
        r == dialog_next(has_origin, created, deadline, now),
{
    if !has_origin && now < after(created, DEADLINE) {
        DialogStep::AwaitOrigin
    } else if now >= deadline {
        DialogStep::Dismissed
    } else {
        DialogStep::Show { remaining: deadline - now }
    }
}

impl ApprovalQueue {
    /// The requests in the order of their numbers.
    pub open spec fn listed(&self) -> Seq<(u64, PendingView)> {
        in_order(self@.pending)
    }

    pub fn new(settings: ApprovalSettings, surface: bool) -> (r: Self)
        ensures
            r@ == (QueueView {
                settings,
                surface,
                last_id: 0,
                pending: Map::empty(),
                slots: Map::empty(),
                inflight: Set::empty(),
                recent: Map::empty(),
                showing: None,
            }),
    {
        let r = ApprovalQueue {
            settings,
            surface,
            last_id: 0,
            pending: IdMap::new(),
            slots: IdMap::new(),
            inflight: Vec::new(),
            recent: TextMap::new(),
            showing: None,
        };
        assert(key_set(r.inflight@) =~= Set::empty());
        r
    }

    /// Whether a prompt reaches a human: a dialog, or the `net decide` queue.
    pub fn reaches_human(&self) -> (r: bool)
        ensures
            r == self@.reaches_human(),
    {
        self.surface || self.settings.headless == HeadlessFallback::Queue
    }

    /// Whether an identical request is already waiting for an answer.
    pub fn is_inflight(&self, key: &CoalesceKey) -> (r: bool)
        ensures
            r == self@.inflight.contains(key@),
    {
        let ghost kv = views(self.inflight@);
        let mut i: usize = 0;
        while i < self.inflight.len()
            invariant
                i <= self.inflight@.len(),
                kv == views(self.inflight@),
                forall|k: int| 0 <= k < i ==> #[trigger] kv[k] != key@,
            decreases self.inflight@.len() - i,
        {
            if self.inflight[i].equals(key) {
                assert(kv[i as int] == key@);
                return true;
            }
            i += 1;
        }
        false
    }

    /// Ask for a decision at a point in time; an identical request that is
    /// already in flight is followed.
    pub fn ask(&mut self, key: &CoalesceKey, info: PromptInfo, now: Instant) -> (r: Asked)
        ensures
            (final(self)@, r) == old(self)@.asked(key@, info@, now),
    {
        if self.is_inflight(key) {
            return Asked::Follow;
        }
        if !self.reaches_human() {
            return Asked::Settled(Outcome::Dismissed);
        }
        let window = self.settings.window();
        let max = self.settings.max_prompts;
        let sandbox = info.sandbox.as_str();
        let (times, within) = match self.recent.get(sandbox) {
            Some(times) => count(&times.times, now, window, max),
            None => {
                let none: Vec<Instant> = Vec::new();
                assert(none@ =~= Seq::empty());
                count(&none, now, window, max)
            },
        };
        self.recent.insert(sandbox, Times { times });
        if !within {
            return Asked::Settled(Outcome::RateLimited);
        }
        let id: u64 = if self.last_id == u64::MAX {
            0
        } else {
            self.last_id + 1
        };
        self.last_id = id;
        let deadline = after(now, self.settings.timeout());
        let ghost before = views(self.inflight@);
        self.inflight.push(key.clone());
        proof {
            let now_keys = views(self.inflight@);
            assert(now_keys =~= before.push(key@));
            assert forall|k: KeyView| now_keys.contains(k) <==> before.contains(k) || k == key@ by {
                if before.contains(k) {
                    let i = choose|i: int| 0 <= i < before.len() && before[i] == k;
                    assert(now_keys[i] == k);
                }
                assert(now_keys[before.len() as int] == key@);
                if now_keys.contains(k) && k != key@ {
                    let i = choose|i: int| 0 <= i < now_keys.len() && now_keys[i] == k;
                    assert(before[i] == k);
                }
            }
            assert(key_set(self.inflight@) =~= old(self)@.inflight.insert(key@));
        }
        self.slots.insert(id, OriginSlot { origin: info.origin.get() });
        self.pending.insert(id, Pending { info, created: now });
        Asked::Prompt { id, deadline }
    }

    /// A request is over: it is no longer listed or followed, its dialog is
    /// closed, and its origin is gone.
    pub fn settle(&mut self, key: &CoalesceKey, id: u64)
        ensures
            final(self)@ == old(self)@.settled(key@, id),
    {
        self.pending.remove(id);
        self.slots.remove(id);
        self.forget(key);
        if self.showing == Some(id) {
            self.showing = None;
        }
    }

    fn forget(&mut self, key: &CoalesceKey)
        ensures
            final(self)@ == (QueueView {
                inflight: old(self)@.inflight.remove(key@),
                ..old(self)@
            }),
    {
        let ghost all = views(self.inflight@);
        let mut left: Vec<CoalesceKey> = Vec::new();
        let mut i: usize = 0;
        while i < self.inflight.len()
            invariant
                i <= self.inflight@.len(),
                all == views(self.inflight@),
                self@ == old(self)@,
                forall|k: KeyView|
                    #![trigger views(left@).contains(k)]
                    views(left@).contains(k) <==> k != key@ && all.subrange(0, i as int).contains(k),
            decreases self.inflight@.len() - i,
        {
            let ghost before = views(left@);
            let ghost head = all.subrange(0, i as int);
            let ghost next = all.subrange(0, i + 1);
            let ghost here = all[i as int];
            let keeps = !self.inflight[i].equals(key);
            if keeps {
                left.push(self.inflight[i].clone());
                assert(views(left@) =~= before.push(here));
            }
            proof {
                let kept = views(left@);
                assert forall|k: KeyView|
                    #![trigger kept.contains(k)]
                    kept.contains(k) <==> k != key@ && next.contains(k) by {
                    assert(before.contains(k) <==> k != key@ && head.contains(k));
                    assert(next[i as int] == here);
                    if head.contains(k) {
                        let j = choose|j: int| 0 <= j < head.len() && head[j] == k;
                        assert(next[j] == k);
                    }
                    if next.contains(k) && k != here {
                        let j = choose|j: int| 0 <= j < next.len() && next[j] == k;
                        assert(head[j] == k);
                    }
                    if keeps {
                        assert(kept[before.len() as int] == here);
                        if before.contains(k) {
                            let j = choose|j: int| 0 <= j < before.len() && before[j] == k;
                            assert(kept[j] == k);
                        }
                        if kept.contains(k) && k != here {
                            let j = choose|j: int| 0 <= j < kept.len() && kept[j] == k;
                            assert(before[j] == k);
                        }
                    }
                }
            }
            i += 1;
        }
        assert(all.subrange(0, all.len() as int) =~= all);
        self.inflight = left;
        assert(key_set(self.inflight@) =~= old(self)@.inflight.remove(key@));
    }

    /// Answer a pending request: the outcome for the flow that waits for it, or
    /// `None` if it no longer exists.
    pub fn decide(&mut self, id: u64, answer: Answer) -> (r: Option<Outcome>)
        ensures
            r == (if old(self)@.pending.contains_key(id) {
                Some(Outcome::of(answer))
            } else {
                None
            }),
            final(self)@ == (QueueView {
                pending: old(self)@.pending.remove(id),
                ..old(self)@
            }),
    {
        let found = self.pending.get(id).is_some();
        self.pending.remove(id);
        if found {
            Some(Outcome::from(answer))
        } else {
            None
        }
    }

    /// Drop a retired sandbox's requests and prompt history; the flows that
    /// wait for these requests are told that they are dropped.
    pub fn cancel_sandbox(&mut self, sandbox: &str) -> (r: Vec<u64>)
        ensures
            r@ == ids_of(old(self).listed(), sandbox@),
            final(self)@ == (QueueView {
                pending: old(self)@.without_sandbox(sandbox@),
                recent: old(self)@.recent.remove(sandbox@),
                ..old(self)@
            }),
    {
        let requests = self.pending.list();
        let ghost pairs = id_views(requests@);
        let ghost all = self.pending@;
        let mut ids: Vec<u64> = Vec::new();
        let n: usize = requests.len();
        let mut i: usize = 0;
        assert(pairs.subrange(0, 0) =~= Seq::empty());
        while i < n
            invariant
                i <= n,
                n == requests@.len(),
                pairs == id_views(requests@),
                all == self.pending@,
                all == to_map(pairs),
                distinct_keys(pairs),
                *self == *old(self),
                ids@ == ids_of(pairs.subrange(0, i as int), sandbox@),
                forall|k: int|
                    0 <= k < ids@.len() ==> all.contains_key(#[trigger] ids@[k])
                        && all[ids@[k]].info.sandbox == sandbox@,
                forall|k: int|
                    0 <= k < i && (#[trigger] pairs[k]).1.info.sandbox == sandbox@
                        ==> ids@.contains(pairs[k].0),
            decreases n - i,
        {
            assert(pairs.subrange(0, i + 1).drop_last() =~= pairs.subrange(0, i as int));
            let (id, pending) = requests[i];
            assert(pairs.subrange(0, i + 1).last() == (id, pending@));
            proof {
                lemma_to_map_at(pairs, i as int);
            }
            let ghost before = ids@;
            if same(pending.info.sandbox.as_str(), sandbox) {
                ids.push(id);
                assert(ids@[before.len() as int] == id);
                assert forall|k: int|
                    0 <= k < i + 1 && (#[trigger] pairs[k]).1.info.sandbox == sandbox@ implies ids@.contains(
                pairs[k].0) by {
                    if k < i {
                        let j = choose|j: int| 0 <= j < before.len() && before[j] == pairs[k].0;
                        assert(ids@[j] == pairs[k].0);
                    }
                }
            }
            i += 1;
        }
        assert(pairs.subrange(0, n as int) =~= pairs);
        let mut j: usize = 0;
        while j < ids.len()
            invariant
                j <= ids@.len(),
                self@ == (QueueView { pending: self.pending@, ..old(self)@ }),
                forall|id: u64| #[trigger]
                    self.pending@.contains_key(id) <==> all.contains_key(id)
                        && !ids@.subrange(0, j as int).contains(id),
                forall|id: u64| #[trigger]
                    self.pending@.contains_key(id) ==> self.pending@[id] == all[id],
            decreases ids@.len() - j,
        {
            let id = ids[j];
            let ghost head = ids@.subrange(0, j as int);
            let ghost next = ids@.subrange(0, j + 1);
            self.pending.remove(id);
            assert forall|k: u64| next.contains(k) <==> head.contains(k) || k == id by {
                assert(next[j as int] == id);
                if head.contains(k) {
                    let l = choose|l: int| 0 <= l < head.len() && head[l] == k;
                    assert(next[l] == k);
                }
                if next.contains(k) && k != id {
                    let l = choose|l: int| 0 <= l < next.len() && next[l] == k;
                    assert(head[l] == k);
                }
            }
            j += 1;
        }
        assert(ids@.subrange(0, ids@.len() as int) =~= ids@);
        proof {
            let expected = old(self)@.without_sandbox(sandbox@);
            assert forall|id: u64| all.contains_key(id) implies (ids@.contains(id)
                <==> all[id].info.sandbox == sandbox@) by {
                if ids@.contains(id) {
                    let k = choose|k: int| 0 <= k < ids@.len() && ids@[k] == id;
                    assert(all[ids@[k]].info.sandbox == sandbox@);
                }
                assert(has_key(pairs, id));
                let k = crate::maps::key_index(pairs, id);
                assert(pairs[k].0 == id);
                assert(all[id] == pairs[k].1);
            }
            assert(self.pending@ =~= expected);
        }
        self.reset(sandbox);
        ids
    }

    /// Forget a sandbox's prompt history (`net resume`).
    pub fn reset(&mut self, sandbox: &str)
        ensures
            final(self)@ == (QueueView {
                recent: old(self)@.recent.remove(sandbox@),
                ..old(self)@
            }),
    {
        self.recent.remove(sandbox);
    }

    /// The origin of a request that is not over, where attribution found it:
    /// answered or not.
    pub fn origin_of(&self, id: u64) -> (r: Option<Origin>)
        ensures
            opt_view(r) == self@.origin(id),
    {
        match self.slots.get(id) {
            Some(slot) => slot.get(),
            None => None,
        }
    }

    /// Attribution found the origin of a request's flow.
    pub fn set_origin(&mut self, id: u64, origin: Origin)
        ensures
            final(self)@ == (QueueView {
                pending: if old(self)@.pending.contains_key(id) {
                    let pending = old(self)@.pending[id];
                    old(self)@.pending.insert(
                        id,
                        PendingView {
                            info: PromptView { origin: Some(origin@), ..pending.info },
                            ..pending
                        },
                    )
                } else {
                    old(self)@.pending
                },
                slots: if old(self)@.slots.contains_key(id) {
                    old(self)@.slots.insert(id, Some(origin@))
                } else {
                    old(self)@.slots
                },
                ..old(self)@
            }),
    {
        if self.slots.get(id).is_some() {
            self.slots.insert(id, OriginSlot { origin: Some(origin.clone()) });
        }
        let found = match self.pending.get(id) {
            Some(pending) => Some(Pending { info: pending.info.clone(), created: pending.created }),
            None => None,
        };
        if let Some(mut pending) = found {
            pending.info.origin.set(origin);
            self.pending.insert(id, pending);
        }
    }

    /// Take the screen for a request's dialog; false while another dialog is up.
    pub fn take_screen(&mut self, id: u64) -> (r: bool)
        ensures
            r == (old(self)@.showing is None),
            final(self)@ == (QueueView {
                showing: if old(self)@.showing is None {
                    Some(id)
                } else {
                    old(self)@.showing
                },
                ..old(self)@
            }),
    {
        if self.showing.is_none() {
            self.showing = Some(id);
            true
        } else {
            false
        }
    }

    /// The requests that wait for an answer.
    pub fn list(&self, now: Instant) -> (r: Vec<PendingApproval>)
        ensures
            views(r@) == Seq::new(
                self.listed().len(),
                |i: int| shown(self.listed()[i].0, self.listed()[i].1, now),
            ),
            self@.pending == to_map(self.listed()),
            ascending_ids(self.listed()),
    {
        let requests = self.pending.list();
        let ghost pairs = id_views(requests@);
        let mut r: Vec<PendingApproval> = Vec::new();
        let n: usize = requests.len();
        let mut i: usize = 0;
        while i < n
            invariant
                i <= n,
                n == requests@.len(),
                pairs == id_views(requests@),
                r@.len() == i,
                forall|k: int| 0 <= k < i ==> (#[trigger] r@[k])@ == shown(pairs[k].0, pairs[k].1, now),
            decreases n - i,
        {
            let (id, pending) = requests[i];
            let approval = PendingApproval {
                id,
                sandbox: pending.info.sandbox.clone(),
                transport: pending.info.transport,
                address: pending.info.address,
                port: pending.info.port,
                names: clone_names(&pending.info.names),
                unresolved: pending.info.names.len() == 0,
                age_secs: since(now, pending.created) / SECOND,
                origin: pending.info.origin.get(),
            };
            assert(approval@ =~= shown(id, pending@, now));
            r.push(approval);
            i += 1;
        }
        assert(views(r@) =~= Seq::new(
            self.listed().len(),
            |i: int| shown(self.listed()[i].0, self.listed()[i].1, now),
        ));
        r
    }
}

// ---------------------------------------------------------------------------
// Laws
// ---------------------------------------------------------------------------

/// While a request is in flight, identical ones follow it: they add no prompt
/// and change nothing.
pub proof fn law_identical_requests_share_one_prompt(
    queue: QueueView,
    key: KeyView,
    first: PromptView,
    second: PromptView,
    now: Instant,
    then: Instant,
)
    requires
        queue.asked(key, first, now).1 is Prompt,
    ensures
        ({
            let after = queue.asked(key, first, now).0;
            after.asked(key, second, then) == (after, Asked::Follow)
        }),
{
}

/// When a request is over, the queue holds what it held before it was asked; of
/// the request only its place in the prompt history is left.
pub proof fn law_settling_undoes_asking(
    queue: QueueView,
    key: KeyView,
    info: PromptView,
    now: Instant,
)
    requires
        queue.asked(key, info, now).1 is Prompt,
        !queue.pending.contains_key(queue.next_id()),
        !queue.slots.contains_key(queue.next_id()),
        queue.showing != Some(queue.next_id()),
    ensures
        ({
            let (after, asked) = queue.asked(key, info, now);
            let over = after.settled(key, asked->id);
            over.pending == queue.pending && over.slots == queue.slots && over.inflight
                == queue.inflight && over.showing == queue.showing
        }),
{
    let (after, asked) = queue.asked(key, info, now);
    let over = after.settled(key, asked->id);
    assert(over.pending =~= queue.pending);
    assert(over.slots =~= queue.slots);
    assert(over.inflight =~= queue.inflight);
}

/// What attribution found of a request is known until the request is over, also
/// when it is answered, or its sandbox is retired, in between.
pub proof fn law_origins_are_known_until_the_end(
    queue: QueueView,
    id: u64,
    key: KeyView,
    sandbox: Seq<char>,
)
    ensures
        (QueueView { pending: queue.pending.remove(id), ..queue }).origin(id) == queue.origin(id),
        (QueueView {
            pending: queue.without_sandbox(sandbox),
            recent: queue.recent.remove(sandbox),
            ..queue
        }).origin(id) == queue.origin(id),
        queue.settled(key, id).origin(id) is None,
{
}

/// Without a dialog and without the queue nobody is asked: the flow is denied
/// this once, nothing is remembered, and nothing counts toward the rate limit.
pub proof fn law_headless_deny_remembers_nothing(
    queue: QueueView,
    key: KeyView,
    info: PromptView,
    now: Instant,
)
    requires
        !queue.reaches_human(),
        !queue.inflight.contains(key),
    ensures
        queue.asked(key, info, now) == (queue, Asked::Settled(Outcome::Dismissed)),
{
}

proof fn lemma_recent_times(times: Seq<Instant>, now: Instant, window: Duration)
    requires
        forall|i: int, j: int| 0 <= i <= j < times.len() ==> times[i] <= times[j],
    ensures
        recent_times(times, now, window).len() <= times.len(),
        forall|i: int|
            0 <= i < recent_times(times, now, window).len() ==> age(
                now,
                #[trigger] recent_times(times, now, window)[i],
            ) < window,
        (forall|i: int| 0 <= i < times.len() ==> age(now, #[trigger] times[i]) < window)
            ==> recent_times(times, now, window) == times,
    decreases times.len(),
{
    if times.len() > 0 {
        if age(now, times[0]) >= window {
            let rest = times.subrange(1, times.len() as int);
            assert forall|i: int, j: int| 0 <= i <= j < rest.len() implies rest[i] <= rest[j] by {
                assert(rest[i] == times[i + 1] && rest[j] == times[j + 1]);
            }
            lemma_recent_times(rest, now, window);
        } else {
            assert forall|i: int| 0 <= i < times.len() implies age(now, #[trigger] times[i])
                < window by {
                assert(times[0] <= times[i]);
            }
        }
    }
}

/// Never are more prompts counted than the limit within one window: when a
/// sandbox has had that many, each less than a window ago, the next request is
/// refused and asks nobody; and as long as there were fewer, it is let through.
pub proof fn law_prompts_are_rate_limited(
    queue: QueueView,
    key: KeyView,
    info: PromptView,
    now: Instant,
)
    requires
        queue.reaches_human(),
        !queue.inflight.contains(key),
        forall|i: int, j: int|
            0 <= i <= j < queue.times(info.sandbox).len() ==> queue.times(info.sandbox)[i]
                <= queue.times(info.sandbox)[j],
        forall|i: int|
            0 <= i < queue.times(info.sandbox).len() ==> age(
                now,
                #[trigger] queue.times(info.sandbox)[i],
            ) < seconds(queue.settings.window_secs),
    ensures
        queue.times(info.sandbox).len() >= queue.settings.max_prompts ==> queue.asked(
            key,
            info,
            now,
        ).1 == Asked::Settled(Outcome::RateLimited) && queue.asked(key, info, now).0.pending
            == queue.pending,
        queue.times(info.sandbox).len() < queue.settings.max_prompts ==> queue.asked(
            key,
            info,
            now,
        ).1 is Prompt && queue.asked(key, info, now).0.times(info.sandbox) == queue.times(
            info.sandbox,
        ).push(now),
{
    lemma_recent_times(queue.times(info.sandbox), now, seconds(queue.settings.window_secs));
}

/// The prompt history of a sandbox stays within the limit and the window.
pub proof fn law_prompt_history_stays_within_the_limit(
    times: Seq<Instant>,
    now: Instant,
    window: Duration,
    max: u32,
)
    requires
        times.len() <= max,
        forall|i: int, j: int| 0 <= i <= j < times.len() ==> times[i] <= times[j],
        0 < window,
    ensures
        counted(times, now, window, max).0.len() <= max,
        forall|i: int|
            0 <= i < counted(times, now, window, max).0.len() ==> age(
                now,
                #[trigger] counted(times, now, window, max).0[i],
            ) < window,
{
    lemma_recent_times(times, now, window);
    let kept = recent_times(times, now, window);
    let now_times = counted(times, now, window, max).0;
    assert forall|i: int| 0 <= i < now_times.len() implies age(now, #[trigger] now_times[i])
        < window by {
        if i < kept.len() {
            assert(now_times[i] == kept[i]);
        }
    }
}

/// Only an answer lets a flow through. Everything else that ends the wait
/// denies it, and is never remembered as a rule.
pub proof fn law_only_answers_allow(event: Event)
    requires
        !(event is Answered),
        !(event is Dialog),
    ensures
        outcome_of(event) == Outcome::Dismissed || outcome_of(event) == Outcome::Cancelled,
{
}

/// Of the times of earlier prompts those count that are less than a window ago.
pub proof fn law_old_prompts_do_not_count(times: Seq<Instant>, now: Instant, window: Duration)
    requires
        forall|i: int, j: int| 0 <= i <= j < times.len() ==> times[i] <= times[j],
    ensures
        recent_times(times, now, window) == times.filter(
            |then: Instant| window > 0 && now - then < window,
        ),
    decreases times.len(),
{
    let recent = |then: Instant| window > 0 && now - then < window;
    if times.len() > 0 {
        let first = seq![times[0]];
        let rest = times.subrange(1, times.len() as int);
        assert forall|i: int, j: int| 0 <= i <= j < rest.len() implies rest[i] <= rest[j] by {
            assert(rest[i] == times[i + 1] && rest[j] == times[j + 1]);
        }
        law_old_prompts_do_not_count(rest, now, window);
        assert(times =~= first + rest);
        Seq::filter_distributes_over_add(first, rest, recent);
        lemma_filter_one(times[0], recent);
        if now - times[0] < window && window > 0 {
            lemma_recent_times(times, now, window);
            lemma_recent_times(rest, now, window);
            assert forall|i: int| 0 <= i < rest.len() implies age(now, #[trigger] rest[i]) < window by {
                assert(rest[i] == times[i + 1] && times[0] <= times[i + 1]);
            }
            assert(first + rest =~= times);
        } else if window > 0 {
            assert(Seq::<Instant>::empty() + rest.filter(recent) =~= rest.filter(recent));
        } else {
            lemma_nothing_recent(times, now);
            lemma_nothing_recent(rest, now);
            assert(recent_times(times, now, window) =~= Seq::empty());
            assert(times.filter(recent) =~= Seq::empty());
        }
    } else {
        reveal(Seq::filter);
    }
}

proof fn lemma_nothing_recent(times: Seq<Instant>, now: Instant)
    ensures
        recent_times(times, now, 0).len() == 0,
    decreases times.len(),
{
    if times.len() > 0 {
        lemma_nothing_recent(times.subrange(1, times.len() as int), now);
    }
}

proof fn lemma_filter_one(then: Instant, keep: spec_fn(Instant) -> bool)
    ensures
        seq![then].filter(keep) == if keep(then) {
            seq![then]
        } else {
            Seq::empty()
        },
{
    reveal(Seq::filter);
    let none = Seq::<Instant>::empty();
    assert(seq![then].drop_last() =~= none);
    assert(none.filter(keep) =~= none);
    assert(seq![then].filter(keep) =~= if keep(then) {
        seq![then]
    } else {
        Seq::empty()
    });
}

/// A request that asks someone gets the next number and waits under it with its
/// contents, from now until its time is over; and of the other requests and sandboxes
/// nothing changes.
pub proof fn law_a_prompt_adds_one_request(
    queue: QueueView,
    key: KeyView,
    info: PromptView,
    now: Instant,
)
    ensures
        queue.asked(key, info, now).1 matches Asked::Prompt { id, deadline } ==> {
            let after = queue.asked(key, info, now).0;
            &&& id == (queue.last_id + 1) % 0x1_0000_0000_0000_0000
            &&& after.last_id == id
            &&& after.pending == queue.pending.insert(id, PendingView { info, created: now })
            &&& after.slots == queue.slots.insert(id, info.origin)
            &&& after.inflight == queue.inflight.insert(key)
            &&& !queue.inflight.contains(key)
            &&& queue.surface || queue.settings.headless == HeadlessFallback::Queue
            &&& now + seconds(queue.settings.timeout_secs) <= u64::MAX ==> deadline == now + seconds(
                queue.settings.timeout_secs,
            )
        },
        !(queue.asked(key, info, now).1 is Prompt) ==> {
            let after = queue.asked(key, info, now).0;
            &&& after.last_id == queue.last_id && after.pending == queue.pending
            &&& after.slots == queue.slots && after.inflight == queue.inflight
        },
        ({
            let after = queue.asked(key, info, now).0;
            &&& after.settings == queue.settings && after.surface == queue.surface
            &&& after.showing == queue.showing
            &&& forall|other: Seq<char>| #[trigger]
                after.times(other) != queue.times(other) ==> other == info.sandbox
        }),
        queue.asked(key, info, now).1 == Asked::Follow <==> queue.inflight.contains(key),
        queue.asked(key, info, now).1 == Asked::Settled(Outcome::Dismissed)
            <==> !queue.inflight.contains(key) && !queue.surface && queue.settings.headless
            != HeadlessFallback::Queue,
{
    let after = queue.asked(key, info, now).0;
    assert forall|other: Seq<char>| #[trigger]
        after.times(other) != queue.times(other) implies other == info.sandbox by {
        if other != info.sandbox {
            assert(after.recent.contains_key(other) == queue.recent.contains_key(other));
        }
    }
}

/// Settling a request takes out that request and no other.
pub proof fn law_settling_takes_out_one_request(
    queue: QueueView,
    key: KeyView,
    id: u64,
    other: u64,
    other_key: KeyView,
)
    requires
        other != id,
        other_key != key,
    ensures
        ({
            let after = queue.settled(key, id);
            &&& !after.pending.contains_key(id) && !after.slots.contains_key(id)
            &&& !after.inflight.contains(key) && after.showing != Some(id)
            &&& after.pending.contains_key(other) == queue.pending.contains_key(other)
            &&& queue.pending.contains_key(other) ==> after.pending[other] == queue.pending[other]
            &&& after.origin(other) == queue.origin(other)
            &&& after.inflight.contains(other_key) == queue.inflight.contains(other_key)
            &&& queue.showing == Some(other) ==> after.showing == Some(other)
            &&& queue.showing is None ==> after.showing is None
            &&& after.recent == queue.recent && after.last_id == queue.last_id
            &&& after.settings == queue.settings && after.surface == queue.surface
        }),
{
}

/// The requests of a sandbox are those that name it, in the order of the list.
pub proof fn law_requests_of_a_sandbox(pairs: Seq<(u64, PendingView)>, sandbox: Seq<char>)
    ensures
        ids_of(pairs, sandbox) == pairs.filter(
            |pair: (u64, PendingView)| pair.1.info.sandbox == sandbox,
        ).map_values(|pair: (u64, PendingView)| pair.0),
    decreases pairs.len(),
{
    reveal(Seq::filter);
    let keep = |pair: (u64, PendingView)| pair.1.info.sandbox == sandbox;
    let id = |pair: (u64, PendingView)| pair.0;
    if pairs.len() > 0 {
        law_requests_of_a_sandbox(pairs.drop_last(), sandbox);
    }
    assert(ids_of(pairs, sandbox) =~= pairs.filter(keep).map_values(id));
}

/// A request is shown with its number, what it asks, and its age in whole seconds.
pub proof fn law_requests_are_shown_as_they_are(id: u64, pending: PendingView, now: Instant)
    ensures
        ({
            let view = shown(id, pending, now);
            &&& view.id == id && view.sandbox == pending.info.sandbox
            &&& view.transport == pending.info.transport && view.address == pending.info.address
            &&& view.port == pending.info.port && view.names == pending.info.names
            &&& view.origin == pending.info.origin
            &&& view.unresolved <==> view.names.len() == 0
            &&& now >= pending.created ==> view.age_secs * 1_000_000_000 <= now - pending.created
                < (view.age_secs + 1) * 1_000_000_000
            &&& now < pending.created ==> view.age_secs == 0
        }),
{
}

/// What ends the wait for an answer: the answer as it was given, the dialog's, or
/// none; one that timed out was dismissed, and one that was dropped or whose flow is
/// gone is cancelled. Only what was not cancelled holds for those that follow.
pub proof fn law_outcomes(event: Event, outcome: Outcome)
    ensures
        outcome_of(Event::Answered(Answer::Allow)) == Outcome::Allow,
        outcome_of(Event::Answered(Answer::Deny)) == Outcome::Deny,
        outcome_of(Event::Answered(Answer::Temp)) == Outcome::Temp,
        outcome_of(Event::Dialog(outcome)) == outcome,
        outcome_of(Event::Deadline) == Outcome::Dismissed,
        outcome_of(Event::Dropped) == Outcome::Cancelled,
        outcome_of(Event::FlowGone) == Outcome::Cancelled,
        follows(Some(outcome)) == if outcome == Outcome::Cancelled {
            None
        } else {
            Some(outcome)
        },
        follows(None) is None,
{
}

/// A dialog waits a second at most for the origin of its flow, is not shown once its
/// time is over, and otherwise is shown for what is left of it.
pub proof fn law_dialogs_wait_for_the_origin(
    has_origin: bool,
    created: Instant,
    deadline: Instant,
    now: Instant,
)
    requires
        created + 1_000_000_000 <= u64::MAX,
    ensures
        dialog_next(has_origin, created, deadline, now) == DialogStep::AwaitOrigin <==> !has_origin
            && now < created + 1_000_000_000,
        has_origin || now >= created + 1_000_000_000 ==> (dialog_next(
            has_origin,
            created,
            deadline,
            now,
        ) == DialogStep::Dismissed <==> now >= deadline),
        dialog_next(has_origin, created, deadline, now) matches DialogStep::Show { remaining }
            ==> now + remaining == deadline && remaining > 0,
{
}

/// The requests of a sandbox leave the queue with it, and those of the others stay.
pub proof fn law_requests_leave_with_their_sandbox(queue: QueueView, sandbox: Seq<char>, id: u64)
    ensures
        queue.without_sandbox(sandbox).contains_key(id) <==> queue.pending.contains_key(id)
            && queue.pending[id].info.sandbox != sandbox,
        queue.without_sandbox(sandbox).contains_key(id) ==> queue.without_sandbox(sandbox)[id]
            == queue.pending[id],
{
}

} // verus!
