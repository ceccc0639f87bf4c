//! Registered sandboxes, their endpoints, and the admission path shared by
//! the TCP and UDP mediators.
//!
//! Which listener a request arrives on *is* the sandbox identity; the SOCKS5
//! username and password only confirm it.
//!
//! The broker is a state and the steps on it. Listeners, files and the clock
//! are elsewhere, and hand in what they know.

use vstd::prelude::*;
use vstd::utf8::encode_utf8;

use crate::broker::approval::{
    ids_of, shown, ApprovalQueue, CoalesceKey, KeyView, OriginSlot, Outcome, PendingView,
    PromptInfo, PromptView, QueueView,
};
use crate::broker::attribution::{Origin, OriginView};
use crate::broker::audit::{AuditEvent, AuditView};
use crate::broker::bindings::{
    chain_views, clone_names, entry_of, flat_names, ip_lt, later as latest, records_as,
    BindingStore, Chain, EntryView, DEFAULT_CAPACITY, TTL_CAP, TTL_FLOOR,
};
use crate::broker::decision::{
    all_say, all_unknown, chain_granted, decide_layered, decision, granted, lemma_named_lookups,
    lemma_rules_never_ask, named_lookups, query_names, readable, verdicts, Admission, Decision, DecisionView, Rules,
    RulesView, Session,
};
use crate::broker::observer::{
    bad_upstream, extract_bindings, learned_from, nameservers, upstream_of, upstreams, LearnedView,
    Upstream, UpstreamError,
};
use crate::broker::protocol::{
    Answer, BindingInfo, InfoView, Mode, PendingApproval, Registration, SandboxInfo, Transport,
};
use crate::broker::rules::{
    builtin_rule, GlobalRules, GlobalView, RuleSource, RuleSourceView, Stamp,
};
use crate::config::edit::RuleList;
use crate::config::hostpat::{
    pattern_text, HostPattern, PatternError, PatternErrorView, PatternView,
};
use crate::config::schema::opt_str;
use crate::ids::ascending_ids;
use crate::ip::{ip_text, IpAddr};
use crate::maps::{sorted_keys, to_map, TextMap};
use crate::paths::{join_paths, path_join, path_parts, take_apart};
use crate::state::settings::{from_secs, seconds, Settings};
use crate::state::Home;
use crate::text::{
    concat, concat3, concat4, decimal, decimal_string, join, join_with, lines, opt_view, parse_unsigned, quoted, quoted_text,
    unsigned_of, views,
};
use crate::time::{after, later, Duration, Instant, SECOND};

verus! {

/// How long "Allow 5 min" lasts.
pub const TEMP_ALLOW: Duration = 300_000_000_000;

/// Overrides [`TEMP_ALLOW`] in seconds (for tests).
pub const TEMP_ALLOW_ENV: &'static str = "MICROKITCHEN_TEMP_ALLOW_SECS";

// ---------------------------------------------------------------------------
// One sandbox
// ---------------------------------------------------------------------------

pub struct SandboxEntry {
    pub name: String,
    pub kitchen_file: String,
    pub resolver_port: u16,
    pub proxy_port: u16,
    secret: Vec<u8>,
    mode: Mode,
    bindings: BindingStore,
    session: Session,
    rules: RuleSource,
    /// The approval rate limit tripped: everything is denied.
    limited: bool,
}

/// A [`SandboxEntry`] by its contents.
#[verifier::ext_equal]
pub struct SandboxView {
    pub name: Seq<char>,
    pub kitchen_file: Seq<char>,
    pub resolver_port: u16,
    pub proxy_port: u16,
    pub secret: Seq<u8>,
    pub mode: Mode,
    pub bindings: Map<IpAddr, EntryView>,
    /// How many addresses the bindings hold at most.
    pub capacity: nat,
    pub session: Map<Seq<char>, u64>,
    pub rules: RuleSourceView,
    pub limited: bool,
}

impl View for SandboxEntry {
    type V = SandboxView;

    closed spec fn view(&self) -> SandboxView {
        SandboxView {
            name: self.name@,
            kitchen_file: self.kitchen_file@,
            resolver_port: self.resolver_port,
            proxy_port: self.proxy_port,
            secret: self.secret@,
            mode: self.mode,
            bindings: self.bindings@,
            capacity: self.bindings.limit(),
            session: self.session@,
            rules: self.rules@,
            limited: self.limited,
        }
    }
}

/// `<[u8] as subtle::ConstantTimeEq>::ct_eq`: whether the two are the same
/// bytes. That it takes the same time whatever the bytes are is not stated.
#[verifier::external_body]
fn same_bytes(a: &[u8], b: &[u8]) -> (r: bool)
    ensures
        r == (a@ == b@),
{
    subtle::ConstantTimeEq::ct_eq(a, b).into()
}

/// What is known of the lookups that gave an address, and the bindings after
/// they are asked for.
pub open spec fn looked_up(
    bindings: Map<IpAddr, EntryView>,
    address: IpAddr,
    now: Instant,
) -> (Map<IpAddr, EntryView>, Seq<Seq<Seq<char>>>) {
    let key = address.canonical();
    match entry_of(bindings, key) {
        None => (bindings, Seq::empty()),
        Some(entry) => if entry.expires_at <= now {
            (bindings.remove(key), Seq::empty())
        } else {
            (
                bindings.insert(
                    key,
                    EntryView {
                        chains: entry.chains,
                        expires_at: latest(entry.expires_at, (now + TTL_FLOOR) as u64),
                        last_seen: now,
                    },
                ),
                entry.chains,
            )
        },
    }
}

/// Whether recording the last binding of a list makes `after` of `before`.
pub open spec fn recorded_last(
    before: Map<IpAddr, EntryView>,
    limit: nat,
    learned: Seq<LearnedView>,
    now: Instant,
    after: Map<IpAddr, EntryView>,
) -> bool {
    records_as(
        before,
        limit,
        learned.last().address,
        learned.last().names,
        (learned.last().ttl * SECOND) as u64,
        now,
        after,
    )
}

/// Whether recording bindings one by one makes `after` of `before`.
pub open spec fn records_all(
    before: Map<IpAddr, EntryView>,
    limit: nat,
    learned: Seq<LearnedView>,
    now: Instant,
    after: Map<IpAddr, EntryView>,
) -> bool
    decreases learned.len(),
{
    if learned.len() == 0 {
        after == before
    } else {
        exists|mid: Map<IpAddr, EntryView>|
            records_all(before, limit, learned.drop_last(), now, mid) && #[trigger] recorded_last(
                mid,
                limit,
                learned,
                now,
                after,
            )
    }
}

impl SandboxView {
    /// Whether a list shows the live bindings, by address.
    pub open spec fn shows(self, found: Seq<BindingInfo>, now: Instant) -> bool {
        &&& forall|i: int, j: int|
            0 <= i < j < found.len() ==> ip_lt(
                (#[trigger] found[i]).address,
                (#[trigger] found[j]).address,
            )
        &&& forall|i: int|
            0 <= i < found.len() ==> {
                let info = #[trigger] found[i];
                let entry = self.bindings[info.address];
                &&& self.bindings.contains_key(info.address)
                &&& entry.expires_at > now
                &&& views(info.names@) == flat_names(entry.chains)
                &&& info.expires_in_secs == (entry.expires_at - now) as int / SECOND as int
            }
        &&& forall|address: IpAddr| #[trigger]
            self.bindings.contains_key(address) && self.bindings[address].expires_at > now
                ==> exists|i: int| 0 <= i < found.len() && (#[trigger] found[i]).address == address
    }
}

// ---------------------------------------------------------------------------
// Admission
// ---------------------------------------------------------------------------

/// What a human is asked about.
#[derive(Debug, PartialEq, Eq)]
pub struct Question {
    pub key: CoalesceKey,
    pub info: PromptInfo,
    /// What an answer is about.
    pub subjects: Vec<HostPattern>,
    pub ambiguous: bool,
}

/// A [`Question`] by its contents.
#[verifier::ext_equal]
pub struct QuestionView {
    pub key: KeyView,
    pub info: PromptView,
    pub subjects: Seq<PatternView>,
    pub ambiguous: bool,
}

impl View for Question {
    type V = QuestionView;

    open spec fn view(&self) -> QuestionView {
        QuestionView {
            key: self.key@,
            info: self.info@,
            subjects: views(self.subjects@),
            ambiguous: self.ambiguous,
        }
    }
}

/// What becomes of a flow.
#[derive(Debug, PartialEq, Eq)]
pub enum Admitted {
    /// It is decided; the event says how.
    Decided(AuditEvent),
    /// A human has to decide.
    Ask(Question),
}

/// An [`Admitted`] by its contents.
pub enum AdmittedView {
    Decided(AuditView),
    Ask(QuestionView),
}

impl View for Admitted {
    type V = AdmittedView;

    open spec fn view(&self) -> AdmittedView {
        match self {
            Admitted::Decided(event) => AdmittedView::Decided(event@),
            Admitted::Ask(question) => AdmittedView::Ask(question@),
        }
    }
}

/// A flow's destination.
#[derive(Debug, Clone, Copy, PartialEq, Eq, Structural)]
pub struct Flow {
    pub transport: Transport,
    pub address: IpAddr,
    pub port: u16,
}

/// Why a flow of a sandbox whose rate limit tripped is denied.
pub const RATE_LIMITED: &'static str = "rate-limited";

/// What identical requests have in common: the query names, or the address if
/// there are none.
pub open spec fn subject_of(address: IpAddr, candidates: Seq<Seq<Seq<char>>>) -> Seq<char> {
    if candidates.len() == 0 {
        ip_text(address)
    } else {
        join(query_names(candidates), ","@)
    }
}

impl SandboxView {
    /// The lookups that a flow is judged by: the name from a SOCKS domain
    /// request, resolved by the broker itself, or else what the sandbox
    /// resolved to the address.
    pub open spec fn candidates(
        self,
        address: IpAddr,
        claimed: Option<Seq<char>>,
        now: Instant,
    ) -> Seq<Seq<Seq<char>>> {
        match claimed {
            Some(name) => seq![seq![name]],
            None => looked_up(self.bindings, address, now).1,
        }
    }

    /// The entry after a flow was judged.
    pub open spec fn refreshed(
        self,
        address: IpAddr,
        claimed: Option<Seq<char>>,
        now: Instant,
    ) -> SandboxView {
        match claimed {
            Some(_) => self,
            None => SandboxView { bindings: looked_up(self.bindings, address, now).0, ..self },
        }
    }

    /// The event of a verdict on a flow.
    pub open spec fn event(
        self,
        flow: Flow,
        candidates: Seq<Seq<Seq<char>>>,
        allowed: bool,
        source: Seq<char>,
        ambiguous: bool,
    ) -> AuditView {
        AuditView {
            sandbox: self.name,
            transport: flow.transport,
            address: flow.address.canonical(),
            port: flow.port,
            names: flat_names(candidates),
            allowed,
            source,
            ambiguous,
            origin: None,
        }
    }

    /// What is asked about a flow.
    pub open spec fn question(
        self,
        flow: Flow,
        candidates: Seq<Seq<Seq<char>>>,
        kind: crate::broker::decision::PromptView,
    ) -> QuestionView {
        let address = flow.address.canonical();
        QuestionView {
            key: KeyView {
                sandbox: self.name,
                subject: subject_of(address, candidates),
                port: flow.port,
            },
            info: PromptView {
                sandbox: self.name,
                transport: flow.transport,
                address,
                port: flow.port,
                names: flat_names(candidates),
                origin: None,
            },
            subjects: kind.subjects(address, candidates),
            ambiguous: candidates.len() > 1,
        }
    }

    /// What becomes of a flow: everything is denied once the rate limit
    /// tripped; otherwise the stored rules decide, or a human is asked.
    pub open spec fn admitted(
        self,
        flow: Flow,
        claimed: Option<Seq<char>>,
        global: RulesView,
        now: Instant,
    ) -> AdmittedView {
        let candidates = self.candidates(flow.address, claimed, now);
        if self.limited {
            AdmittedView::Decided(
                self.event(flow, candidates, false, RATE_LIMITED@, candidates.len() > 1),
            )
        } else {
            match decision(
                false,
                flow.address.canonical(),
                candidates,
                self.mode,
                seq![self.rules.rules, global],
                self.session,
                now,
            ) {
                DecisionView::Allow { reason, ambiguous } => AdmittedView::Decided(
                    self.event(flow, candidates, true, reason.text(), ambiguous),
                ),
                DecisionView::Deny { reason, ambiguous } => AdmittedView::Decided(
                    self.event(flow, candidates, false, reason.text(), ambiguous),
                ),
                DecisionView::Prompt(kind) => AdmittedView::Ask(
                    self.question(flow, candidates, kind),
                ),
            }
        }
    }
}

// ---------------------------------------------------------------------------
// Answers
// ---------------------------------------------------------------------------

/// What a temporary allow is filed under: a name or an address, no more.
pub open spec fn key_of(pattern: PatternView) -> Option<Seq<char>> {
    match pattern {
        PatternView::Exact(name) => Some(name),
        PatternView::Address(address) => Some(ip_text(address.canonical())),
        _ => None,
    }
}

/// A session with temporary allows for what can have one.
pub open spec fn granted_all(
    session: Map<Seq<char>, u64>,
    subjects: Seq<PatternView>,
    until: Instant,
) -> Map<Seq<char>, u64>
    decreases subjects.len(),
{
    if subjects.len() == 0 {
        session
    } else {
        let rest = granted_all(session, subjects.drop_last(), until);
        match key_of(subjects.last()) {
            Some(key) => rest.insert(key, until),
            None => rest,
        }
    }
}

/// How an outcome is called in the audit log.
pub open spec fn outcome_text(outcome: Outcome) -> Seq<char> {
    match outcome {
        Outcome::Allow => "allow"@,
        Outcome::Deny => "deny"@,
        Outcome::Temp => "temp"@,
        Outcome::Dismissed => "dismissed"@,
        Outcome::Cancelled => "cancelled"@,
        Outcome::RateLimited => RATE_LIMITED@,
    }
}

/// Whether an outcome lets the flow through.
pub open spec fn lets_through(outcome: Outcome) -> bool {
    outcome == Outcome::Allow || outcome == Outcome::Temp
}

/// The list of the kitchen file that an outcome is saved in, if it is.
pub open spec fn saved_in(outcome: Outcome) -> Option<RuleList> {
    match outcome {
        Outcome::Allow => Some(RuleList::Allow),
        Outcome::Deny => Some(RuleList::Deny),
        _ => None,
    }
}

/// What is left to do after an outcome.
#[derive(Debug, PartialEq, Eq)]
pub struct Applied {
    pub allowed: bool,
    /// The list that the question's subjects go into. Saving is best effort:
    /// the current flow gets its verdict either way.
    pub save: Option<RuleList>,
    /// The operator is told that the rate limit tripped.
    pub notify: bool,
    pub event: AuditEvent,
}

impl SandboxView {
    /// The entry after an outcome.
    pub open spec fn applied(
        self,
        subjects: Seq<PatternView>,
        outcome: Outcome,
        until: Instant,
    ) -> SandboxView {
        match outcome {
            Outcome::Temp => SandboxView {
                session: granted_all(self.session, subjects, until),
                ..self
            },
            Outcome::RateLimited => SandboxView { limited: true, ..self },
            _ => self,
        }
    }
}

/// The event of an outcome.
pub open spec fn answer_event(
    question: QuestionView,
    outcome: Outcome,
    origin: Option<OriginView>,
) -> AuditView {
    AuditView {
        sandbox: question.info.sandbox,
        transport: question.info.transport,
        address: question.info.address,
        port: question.info.port,
        names: question.info.names,
        allowed: lets_through(outcome),
        source: "prompt:"@ + outcome_text(outcome),
        ambiguous: question.ambiguous,
        origin,
    }
}

fn session_key(pattern: &HostPattern) -> (r: Option<String>)
    ensures
        opt_view(r) == key_of(pattern@),
{
    match pattern {
        HostPattern::Exact(name) => Some(name.clone()),
        HostPattern::Address(address) => Some(address.to_canonical().text()),
        _ => None,
    }
}

fn outcome_name(outcome: Outcome) -> (r: &'static str)
    ensures
        r@ == outcome_text(outcome),
{
    match outcome {
        Outcome::Allow => "allow",
        Outcome::Deny => "deny",
        Outcome::Temp => "temp",
        Outcome::Dismissed => "dismissed",
        Outcome::Cancelled => "cancelled",
        Outcome::RateLimited => RATE_LIMITED,
    }
}

impl SandboxEntry {
    /// A new registration: nothing resolved, nothing granted.
    pub fn new(
        name: &str,
        kitchen_file: &str,
        mode: Mode,
        endpoints: Registration,
        secret: &str,
        limited: bool,
    ) -> (r: Self)
        ensures
            r@ == (SandboxView {
                name: name@,
                kitchen_file: kitchen_file@,
                resolver_port: endpoints.resolver_port,
                proxy_port: endpoints.proxy_port,
                secret: encode_utf8(secret@),
                mode,
                bindings: Map::empty(),
                capacity: DEFAULT_CAPACITY as nat,
                session: Map::empty(),
                rules: RuleSourceView {
                    file: kitchen_file@,
                    stamp: None,
                    rules: RulesView { allow: seq![builtin_rule()], deny: Seq::empty() },
                },
                limited,
            }),
    {
        SandboxEntry {
            name: name.to_owned(),
            kitchen_file: kitchen_file.to_owned(),
            resolver_port: endpoints.resolver_port,
            proxy_port: endpoints.proxy_port,
            secret: vstd::slice::slice_to_vec(secret.as_bytes()),
            mode,
            bindings: BindingStore::default(),
            session: Session::default(),
            rules: RuleSource::new(kitchen_file),
            limited,
        }
    }

    /// Username must be the sandbox name; the password is compared in constant time.
    pub fn authenticate(&self, username: &[u8], password: &[u8]) -> (r: bool)
        ensures
            r == (username@ == encode_utf8(self@.name) && password@ == self@.secret),
    {
        let username_ok = same_bytes(username, self.name.as_str().as_bytes());
        let password_ok = same_bytes(password, self.secret.as_slice());
        username_ok && password_ok
    }

    pub fn mode(&self) -> (r: Mode)
        ensures
            r == self@.mode,
    {
        self.mode
    }

    /// Whether the approval rate limit tripped.
    pub fn is_limited(&self) -> (r: bool)
        ensures
            r == self@.limited,
    {
        self.limited
    }

    /// Learn the bindings of a DNS response that the sandbox received.
    pub fn record_dns(&mut self, response: &[u8], now: Instant)
        requires
            now + TTL_CAP <= u64::MAX,
        ensures
            final(self)@ == (SandboxView { bindings: final(self)@.bindings, ..old(self)@ }),
            records_all(
                old(self)@.bindings,
                old(self)@.capacity,
                learned_from(response@),
                now,
                final(self)@.bindings,
            ),
    {
        let learned = extract_bindings(response);
        let ghost lv = views(learned@);
        let mut i: usize = 0;
        assert(lv.subrange(0, 0) =~= Seq::empty());
        while i < learned.len()
            invariant
                i <= learned@.len(),
                lv == views(learned@),
                now + TTL_CAP <= u64::MAX,
                self@ == (SandboxView { bindings: self@.bindings, ..old(self)@ }),
                records_all(
                    old(self)@.bindings,
                    old(self)@.capacity,
                    lv.subrange(0, i as int),
                    now,
                    self@.bindings,
                ),
            decreases learned@.len() - i,
        {
            let ghost mid = self.bindings@;
            assert(lv.subrange(0, i + 1).drop_last() =~= lv.subrange(0, i as int));
            assert(lv.subrange(0, i + 1).last() == learned@[i as int]@);
            let ttl: u64 = learned[i].ttl as u64 * SECOND;
            self.bindings.record(
                learned[i].address,
                clone_names(&learned[i].names),
                ttl,
                now,
            );
            assert(recorded_last(
                mid,
                old(self)@.capacity,
                lv.subrange(0, i + 1),
                now,
                self@.bindings,
            ));
            i += 1;
        }
        assert(lv.subrange(0, lv.len() as int) =~= lv);
    }

    pub fn registration(&self) -> (r: Registration)
        ensures
            r == (Registration {
                resolver_port: self@.resolver_port,
                proxy_port: self@.proxy_port,
            }),
    {
        Registration { resolver_port: self.resolver_port, proxy_port: self.proxy_port }
    }

    /// Decide whether a flow may proceed, or what a human is to be asked if
    /// nothing stored applies. `claimed` is the name from a SOCKS domain
    /// request, resolved by the broker itself.
    pub fn judge(
        &mut self,
        flow: Flow,
        claimed: Option<&str>,
        global: &Rules,
        now: Instant,
    ) -> (r: Admitted)
        requires
            now + TTL_FLOOR <= u64::MAX,
        ensures
            r@ == old(self)@.admitted(flow, opt_str(claimed), global@, now),
            final(self)@ == old(self)@.refreshed(flow.address, opt_str(claimed), now),
    {
        let address = flow.address.to_canonical();
        let ghost all = self@.candidates(flow.address, opt_str(claimed), now);
        proof {
            crate::ip::lemma_canonical_idempotent(flow.address);
        }
        let candidates: Vec<Chain> = match claimed {
            Some(name) => {
                let mut chain: Chain = Vec::new();
                chain.push(name.to_owned());
                assert(views(chain@) =~= seq![name@]);
                let mut chains: Vec<Chain> = Vec::new();
                chains.push(chain);
                assert(chain_views(chains@) =~= seq![seq![name@]]);
                chains
            },
            None => {
                let chains = self.bindings.lookup(flow.address, now);
                assert(chain_views(chains@) =~= all);
                chains
            },
        };
        let admission = Admission {
            transport: flow.transport,
            address,
            port: flow.port,
            candidates,
            malformed: false,
        };
        let several = admission.candidates.len() > 1;
        if self.limited {
            let event = self.event_of(&admission, false, RATE_LIMITED.to_owned(), several);
            return Admitted::Decided(event);
        }
        match decide_layered(
            &admission,
            self.mode,
            self.rules.current(),
            global,
            &self.session,
            now,
        ) {
            Decision::Allow { reason, ambiguous } => Admitted::Decided(
                self.event_of(&admission, true, reason.to_text(), ambiguous),
            ),
            Decision::Deny { reason, ambiguous } => Admitted::Decided(
                self.event_of(&admission, false, reason.to_text(), ambiguous),
            ),
            Decision::Prompt(kind) => {
                let subject = if admission.candidates.len() == 0 {
                    address.text()
                } else {
                    join_with(&admission.queries(), ",")
                };
                let question = Question {
                    key: CoalesceKey { sandbox: self.name.clone(), subject, port: flow.port },
                    info: PromptInfo {
                        sandbox: self.name.clone(),
                        transport: flow.transport,
                        address,
                        port: flow.port,
                        names: admission.names(),
                        origin: OriginSlot::default(),
                    },
                    subjects: kind.subjects(&admission),
                    ambiguous: several,
                };
                assert(question@ =~= old(self)@.question(flow, all, kind@));
                Admitted::Ask(question)
            },
        }
    }

    fn event_of(&self, admission: &Admission, allowed: bool, source: String, ambiguous: bool) -> (r:
        AuditEvent)
        ensures
            r@ == (AuditView {
                sandbox: self@.name,
                transport: admission.transport,
                address: admission.address,
                port: admission.port,
                names: flat_names(chain_views(admission.candidates@)),
                allowed,
                source: source@,
                ambiguous,
                origin: None,
            }),
    {
        AuditEvent {
            sandbox: self.name.clone(),
            transport: admission.transport,
            address: admission.address,
            port: admission.port,
            names: admission.names(),
            allowed,
            source,
            ambiguous,
            origin: None,
        }
    }

    /// The event of a request refused before admission (e.g. a malformed domain).
    pub fn deny_malformed(&self, transport: Transport, detail: &str) -> (r: AuditEvent)
        ensures
            r@ == (AuditView {
                sandbox: self@.name,
                transport,
                address: IpAddr::V4(0),
                port: 0,
                names: Seq::empty(),
                allowed: false,
                source: "malformed:"@ + detail@,
                ambiguous: false,
                origin: None,
            }),
    {
        let event = AuditEvent {
            sandbox: self.name.clone(),
            transport,
            address: IpAddr::V4(0),
            port: 0,
            names: Vec::new(),
            allowed: false,
            source: concat("malformed:", detail),
            ambiguous: false,
            origin: None,
        };
        assert(event@.names =~= Seq::empty());
        event
    }

    /// Allow what a text names until `until`, for this sandbox only.
    fn grant_all(&mut self, subjects: &Vec<HostPattern>, until: Instant)
        ensures
            final(self)@ == (SandboxView {
                session: granted_all(old(self)@.session, views(subjects@), until),
                ..old(self)@
            }),
    {
        let ghost sv = views(subjects@);
        let mut i: usize = 0;
        assert(sv.subrange(0, 0) =~= Seq::empty());
        while i < subjects.len()
            invariant
                i <= subjects@.len(),
                sv == views(subjects@),
                self@ == (SandboxView {
                    session: granted_all(old(self)@.session, sv.subrange(0, i as int), until),
                    ..old(self)@
                }),
            decreases subjects@.len() - i,
        {
            assert(sv.subrange(0, i + 1).drop_last() =~= sv.subrange(0, i as int));
            assert(sv.subrange(0, i + 1).last() == subjects@[i as int]@);
            if let Some(key) = session_key(&subjects[i]) {
                self.session.grant(key.as_str(), until);
            }
            i += 1;
        }
        assert(sv.subrange(0, sv.len() as int) =~= sv);
    }

    /// Apply an outcome to the flow that was asked about; `origin` is the
    /// process behind it, where that is known.
    pub fn apply(
        &mut self,
        question: &Question,
        outcome: Outcome,
        origin: Option<Origin>,
        temp_allow: Duration,
        now: Instant,
    ) -> (r: Applied)
        ensures
            final(self)@ == old(self)@.applied(
                question@.subjects,
                outcome,
                later(now, temp_allow),
            ),
            r.allowed == lets_through(outcome),
            r.save == saved_in(outcome),
            r.notify == (outcome == Outcome::RateLimited && !old(self)@.limited),
            r.event@ == answer_event(question@, outcome, opt_view(origin)),
    {
        let tripped = matches!(outcome, Outcome::RateLimited);
        let notify = tripped && !self.limited;
        let (allowed, save) = match outcome {
            Outcome::Allow => (true, Some(RuleList::Allow)),
            Outcome::Deny => (false, Some(RuleList::Deny)),
            Outcome::Temp => {
                self.grant_all(&question.subjects, after(now, temp_allow));
                (true, None)
            },
            Outcome::RateLimited => {
                self.limited = true;
                (false, None)
            },
            Outcome::Dismissed | Outcome::Cancelled => (false, None),
        };
        let event = AuditEvent {
            sandbox: question.info.sandbox.clone(),
            transport: question.info.transport,
            address: question.info.address,
            port: question.info.port,
            names: clone_names(&question.info.names),
            allowed,
            source: concat("prompt:", outcome_name(outcome)),
            ambiguous: question.ambiguous,
            origin,
        };
        Applied { allowed, save, notify, event }
    }
}

// ---------------------------------------------------------------------------
// The broker
// ---------------------------------------------------------------------------

pub struct Broker {
    home: Home,
    port_range: (u16, u16),
    upstreams: Vec<Upstream>,
    sandboxes: TextMap<SandboxEntry>,
    approvals: ApprovalQueue,
    global: GlobalRules,
    temp_allow: Duration,
}

/// A [`Broker`] by its contents.
#[verifier::ext_equal]
pub struct BrokerView {
    pub home: Seq<char>,
    pub port_range: (u16, u16),
    pub upstreams: Seq<Upstream>,
    pub sandboxes: Map<Seq<char>, SandboxView>,
    pub queue: QueueView,
    pub global: GlobalView,
    pub temp_allow: Duration,
}

impl View for Broker {
    type V = BrokerView;

    closed spec fn view(&self) -> BrokerView {
        BrokerView {
            home: self.home@,
            port_range: self.port_range,
            upstreams: self.upstreams@,
            sandboxes: self.sandboxes@,
            queue: self.approvals@,
            global: self.global@,
            temp_allow: self.temp_allow,
        }
    }
}

/// `broker/registry.json`: registrations survive a broker restart, and so does
/// a tripped rate limit.
#[derive(Debug, PartialEq, Eq)]
pub struct Persisted {
    pub name: String,
    pub kitchen_file: String,
    pub mode: Mode,
    pub resolver_port: u16,
    pub proxy_port: u16,
    pub limited: bool,
}

/// A [`Persisted`] by its contents.
#[verifier::ext_equal]
pub struct PersistedView {
    pub name: Seq<char>,
    pub kitchen_file: Seq<char>,
    pub mode: Mode,
    pub resolver_port: u16,
    pub proxy_port: u16,
    pub limited: bool,
}

impl View for Persisted {
    type V = PersistedView;

    open spec fn view(&self) -> PersistedView {
        PersistedView {
            name: self.name@,
            kitchen_file: self.kitchen_file@,
            mode: self.mode,
            resolver_port: self.resolver_port,
            proxy_port: self.proxy_port,
            limited: self.limited,
        }
    }
}

/// What a registration comes to.
#[derive(Debug, PartialEq, Eq)]
pub enum Registering {
    /// A compatible registration was kept.
    Kept(Registration),
    /// The endpoints are to be bound. Where an incompatible registration had to
    /// go first, its listeners and flows end, and the given requests are
    /// dropped; if its rate limit had tripped, so has the new one's.
    Bind { dropped: Option<Vec<u64>>, limited: bool },
}

/// Why the broker refused.
#[derive(Debug, PartialEq, Eq)]
pub enum BrokerError {
    NotRegistered(String),
    InvalidHost(String, PatternError),
    NotAHost,
}

/// A [`BrokerError`] by its contents.
pub enum BrokerErrorView {
    NotRegistered(Seq<char>),
    InvalidHost(Seq<char>, PatternErrorView),
    NotAHost,
}

impl View for BrokerError {
    type V = BrokerErrorView;

    open spec fn view(&self) -> BrokerErrorView {
        match self {
            BrokerError::NotRegistered(name) => BrokerErrorView::NotRegistered(name@),
            BrokerError::InvalidHost(subject, error) => BrokerErrorView::InvalidHost(
                subject@,
                error@,
            ),
            BrokerError::NotAHost => BrokerErrorView::NotAHost,
        }
    }
}

impl BrokerErrorView {
    pub open spec fn text(self) -> Seq<char> {
        match self {
            BrokerErrorView::NotRegistered(name) => name + " is not registered"@,
            BrokerErrorView::InvalidHost(subject, error) => "invalid host "@ + quoted_text(subject)
                + ": "@ + error.text(),
            BrokerErrorView::NotAHost => "temporary allows take a host name or an address"@,
        }
    }
}

impl BrokerError {
    pub fn to_text(&self) -> (r: String)
        ensures
            r@ == self@.text(),
    {
        match self {
            BrokerError::NotRegistered(name) => concat(name.as_str(), " is not registered"),
            BrokerError::InvalidHost(subject, error) => concat4(
                "invalid host ",
                quoted(subject.as_str()).as_str(),
                ": ",
                error.to_text().as_str(),
            ),
            BrokerError::NotAHost => "temporary allows take a host name or an address".to_owned(),
        }
    }
}

/// How long a temporary allow lasts, given what overrides it.
pub open spec fn temp_allow_of(variable: Option<Seq<char>>) -> Duration {
    match variable {
        Some(text) => match unsigned_of(text, u64::MAX) {
            Some(secs) => seconds(secs),
            None => TEMP_ALLOW,
        },
        None => TEMP_ALLOW,
    }
}

/// Whether a registration can be kept.
pub open spec fn compatible(
    entry: SandboxView,
    kitchen_file: Seq<char>,
    resolver_port: Option<u16>,
    proxy_port: Option<u16>,
) -> bool {
    &&& path_parts(entry.kitchen_file) == path_parts(kitchen_file)
    &&& resolver_port matches Some(port) ==> port == entry.resolver_port
    &&& proxy_port matches Some(port) ==> port == entry.proxy_port
}

/// A sandbox as it is listed.
pub open spec fn info_of(name: Seq<char>, entry: SandboxView) -> InfoView {
    InfoView {
        name,
        kitchen_file: entry.kitchen_file,
        mode: entry.mode,
        resolver_port: entry.resolver_port,
        proxy_port: entry.proxy_port,
        bindings: entry.bindings.len(),
    }
}

/// A sandbox as it is saved.
pub open spec fn saved_of(name: Seq<char>, entry: SandboxView) -> PersistedView {
    PersistedView {
        name,
        kitchen_file: entry.kitchen_file,
        mode: entry.mode,
        resolver_port: entry.resolver_port,
        proxy_port: entry.proxy_port,
        limited: entry.limited,
    }
}

impl BrokerView {
    /// The broker with another entry for a sandbox.
    pub open spec fn with(self, name: Seq<char>, entry: SandboxView) -> BrokerView {
        BrokerView { sandboxes: self.sandboxes.insert(name, entry), ..self }
    }

    /// The broker after a sandbox was retired: its endpoints, bindings and
    /// temporary allows are gone, and so are its requests.
    pub open spec fn retired(self, name: Seq<char>) -> BrokerView {
        if self.sandboxes.contains_key(name) {
            BrokerView {
                sandboxes: self.sandboxes.remove(name),
                queue: QueueView {
                    pending: self.queue.without_sandbox(name),
                    recent: self.queue.recent.remove(name),
                    ..self.queue
                },
                ..self
            }
        } else {
            self
        }
    }

    /// The broker after a name or address was allowed temporarily, or why it
    /// was not.
    pub open spec fn granting(self, name: Seq<char>, subject: Seq<char>, now: Instant) -> Result<
        BrokerView,
        BrokerErrorView,
    > {
        if !self.sandboxes.contains_key(name) {
            Err(BrokerErrorView::NotRegistered(name))
        } else {
            match pattern_text(subject) {
                Err(why) => Err(BrokerErrorView::InvalidHost(subject, why)),
                Ok(pattern) => match key_of(pattern) {
                    None => Err(BrokerErrorView::NotAHost),
                    Some(key) => {
                        let entry = self.sandboxes[name];
                        let session = entry.session.insert(key, later(now, self.temp_allow));
                        Ok(self.with(name, SandboxView { session, ..entry }))
                    },
                },
            }
        }
    }

    /// The broker after `net resume`: the limit is lifted, and the prompt
    /// history starts over.
    pub open spec fn resumed(self, name: Seq<char>) -> BrokerView {
        let entry = self.sandboxes[name];
        BrokerView {
            queue: QueueView { recent: self.queue.recent.remove(name), ..self.queue },
            ..self.with(name, SandboxView { limited: false, ..entry })
        }
    }

    /// Whether a sandbox is registered whose rate limit has tripped.
    pub open spec fn is_limited(self, name: Seq<char>) -> bool {
        self.sandboxes.contains_key(name) && self.sandboxes[name].limited
    }

    /// The broker after a request was answered.
    pub open spec fn answered(self, id: u64) -> BrokerView {
        BrokerView {
            queue: QueueView { pending: self.queue.pending.remove(id), ..self.queue },
            ..self
        }
    }

    /// Whether a registration of this sandbox is kept.
    pub open spec fn keeps(
        self,
        name: Seq<char>,
        kitchen_file: Seq<char>,
        resolver_port: Option<u16>,
        proxy_port: Option<u16>,
    ) -> bool {
        self.sandboxes.contains_key(name) && compatible(
            self.sandboxes[name],
            kitchen_file,
            resolver_port,
            proxy_port,
        )
    }
}

impl Broker {
    /// The requests that wait for an answer, in the order of their numbers.
    pub closed spec fn requests(&self) -> Seq<(u64, PendingView)> {
        self.approvals.listed()
    }

    /// The sandboxes, by name.
    pub closed spec fn listed(&self) -> Seq<(Seq<char>, SandboxView)> {
        self.sandboxes.pairs()
    }

    /// `resolv_conf` is the text of the host's `/etc/resolv.conf`, `temp_allow`
    /// the value of [`TEMP_ALLOW_ENV`], and `surface` whether there is a desktop
    /// to show dialogs on.
    pub fn new(
        home: Home,
        settings: &Settings,
        resolv_conf: &str,
        temp_allow: Option<&str>,
        surface: bool,
    ) -> (r: Result<Self, UpstreamError>)
        ensures
            r is Err <==> (if settings@.upstream_dns.len() == 0 {
                nameservers(lines(resolv_conf@)).len() == 0
            } else {
                bad_upstream(settings@.upstream_dns) is Some
            }),
            r matches Ok(broker) ==> broker@ == (BrokerView {
                home: home@,
                port_range: settings@.port_range,
                upstreams: broker@.upstreams,
                sandboxes: Map::empty(),
                queue: QueueView {
                    settings: settings@.approval,
                    surface,
                    last_id: 0,
                    pending: Map::empty(),
                    slots: Map::empty(),
                    inflight: Set::empty(),
                    recent: Map::empty(),
                    showing: None,
                },
                global: GlobalView {
                    stamp: None,
                    rules: RulesView { allow: Seq::empty(), deny: Seq::empty() },
                },
                temp_allow: temp_allow_of(opt_str(temp_allow)),
            }) && (if settings@.upstream_dns.len() == 0 {
                broker@.upstreams == nameservers(lines(resolv_conf@))
            } else {
                broker@.upstreams.len() == settings@.upstream_dns.len() && forall|i: int|
                    0 <= i < broker@.upstreams.len() ==> upstream_of(settings@.upstream_dns[i])
                        == Some(#[trigger] broker@.upstreams[i])
            }),
    {
        let found = upstreams(&settings.broker.upstream_dns, resolv_conf);
        let upstreams = match found {
            Ok(upstreams) => upstreams,
            Err(error) => {
                return Err(error);
            },
        };
        let temp_allow = match temp_allow {
            Some(text) => match parse_unsigned(text, u64::MAX) {
                Some(secs) => from_secs(secs),
                None => TEMP_ALLOW,
            },
            None => TEMP_ALLOW,
        };
        Ok(
            Broker {
                home,
                port_range: settings.broker.port_range,
                upstreams,
                sandboxes: TextMap::new(),
                approvals: ApprovalQueue::new(settings.approval, surface),
                global: GlobalRules::default(),
                temp_allow,
            },
        )
    }

    pub fn port_range(&self) -> (r: (u16, u16))
        ensures
            r == self@.port_range,
    {
        self.port_range
    }

    pub fn upstreams(&self) -> (r: &Vec<Upstream>)
        ensures
            r@ == self@.upstreams,
    {
        &self.upstreams
    }

    /// The queue of approvals.
    pub fn approvals(&mut self) -> (r: &mut ApprovalQueue)
        ensures
            r@ == old(self)@.queue,
            final(self)@ == (BrokerView { queue: final(r)@, ..old(self)@ }),
    {
        &mut self.approvals
    }

    /// What is registered under a name.
    pub fn get(&self, name: &str) -> (r: Option<&SandboxEntry>)
        ensures
            match r {
                Some(entry) => self@.sandboxes.contains_key(name@) && entry@
                    == self@.sandboxes[name@],
                None => !self@.sandboxes.contains_key(name@),
            },
    {
        self.sandboxes.get(name)
    }

    /// Register a sandbox. A compatible existing registration is kept (only the
    /// mode changes); otherwise its endpoints are to be bound, and
    /// [`Broker::install`] completes the registration.
    pub fn register(
        &mut self,
        name: &str,
        kitchen_file: &str,
        mode: Mode,
        resolver_port: Option<u16>,
        proxy_port: Option<u16>,
    ) -> (r: Registering)
        ensures
            ({
                let before = old(self)@;
                if before.keeps(name@, kitchen_file@, resolver_port, proxy_port) {
                    let entry = before.sandboxes[name@];
                    &&& r == Registering::Kept(
                        Registration {
                            resolver_port: entry.resolver_port,
                            proxy_port: entry.proxy_port,
                        },
                    )
                    &&& final(self)@ == before.with(name@, SandboxView { mode, ..entry })
                } else {
                    &&& final(self)@ == before.retired(name@)
                    &&& r matches Registering::Bind { dropped, limited }
                    &&& limited == before.is_limited(name@)
                    &&& dropped is Some <==> before.sandboxes.contains_key(name@)
                    &&& dropped matches Some(ids) ==> ids@ == ids_of(
                        old(self).requests(),
                        name@,
                    )
                }
            }),
    {
        match self.sandboxes.take(name) {
            None => {
                assert(self.sandboxes@ =~= old(self).sandboxes@);
                Registering::Bind { dropped: None, limited: false }
            },
            Some(mut entry) => {
                let same_file = take_apart(entry.kitchen_file.as_str()).equals(
                    &take_apart(kitchen_file),
                );
                let same_resolver = match resolver_port {
                    Some(port) => port == entry.resolver_port,
                    None => true,
                };
                let same_proxy = match proxy_port {
                    Some(port) => port == entry.proxy_port,
                    None => true,
                };
                if same_file && same_resolver && same_proxy {
                    let registration = entry.registration();
                    entry.mode = mode;
                    self.sandboxes.insert(name, entry);
                    assert(self.sandboxes@ =~= old(self)@.with(
                        name@,
                        SandboxView { mode, ..old(self)@.sandboxes[name@] },
                    ).sandboxes);
                    return Registering::Kept(registration);
                }
                let limited = entry.limited;
                let dropped = self.approvals.cancel_sandbox(name);
                Registering::Bind { dropped: Some(dropped), limited }
            },
        }
    }

    /// Complete a registration whose endpoints are bound. `limited` is false
    /// unless a registration with a tripped rate limit is restored or replaced.
    pub fn install(
        &mut self,
        name: &str,
        kitchen_file: &str,
        mode: Mode,
        endpoints: Registration,
        secret: &str,
        limited: bool,
    ) -> (r: Registration)
        ensures
            r == endpoints,
            final(self)@ == old(self)@.with(
                name@,
                SandboxView {
                    name: name@,
                    kitchen_file: kitchen_file@,
                    resolver_port: endpoints.resolver_port,
                    proxy_port: endpoints.proxy_port,
                    secret: encode_utf8(secret@),
                    mode,
                    bindings: Map::empty(),
                    capacity: DEFAULT_CAPACITY as nat,
                    session: Map::empty(),
                    rules: RuleSourceView {
                        file: kitchen_file@,
                        stamp: None,
                        rules: RulesView { allow: seq![builtin_rule()], deny: Seq::empty() },
                    },
                    limited,
                },
            ),
    {
        let entry = SandboxEntry::new(name, kitchen_file, mode, endpoints, secret, limited);
        self.sandboxes.insert(name, entry);
        endpoints
    }

    /// Drop the endpoints, the bindings and the temporary allows of a sandbox,
    /// and its requests, whose numbers are handed out. `None` if it is not
    /// registered.
    pub fn retire(&mut self, name: &str) -> (r: Option<Vec<u64>>)
        ensures
            final(self)@ == old(self)@.retired(name@),
            r is Some <==> old(self)@.sandboxes.contains_key(name@),
            r matches Some(ids) ==> ids@ == ids_of(old(self).requests(), name@),
    {
        match self.sandboxes.take(name) {
            None => {
                assert(self.sandboxes@ =~= old(self).sandboxes@);
                None
            },
            Some(_) => Some(self.approvals.cancel_sandbox(name)),
        }
    }

    pub fn set_mode(&mut self, name: &str, mode: Mode) -> (r: Result<(), BrokerError>)
        ensures
            if old(self)@.sandboxes.contains_key(name@) {
                &&& r is Ok
                &&& final(self)@ == old(self)@.with(
                    name@,
                    SandboxView { mode, ..old(self)@.sandboxes[name@] },
                )
            } else {
                &&& r matches Err(error) && error@ == BrokerErrorView::NotRegistered(name@)
                &&& final(self)@ == old(self)@
            },
    {
        match self.sandboxes.take(name) {
            None => {
                assert(self.sandboxes@ =~= old(self).sandboxes@);
                Err(BrokerError::NotRegistered(name.to_owned()))
            },
            Some(mut entry) => {
                entry.mode = mode;
                self.sandboxes.insert(name, entry);
                assert(self.sandboxes@ =~= old(self)@.with(
                    name@,
                    SandboxView { mode, ..old(self)@.sandboxes[name@] },
                ).sandboxes);
                Ok(())
            },
        }
    }

    /// Temporarily allow a name or address for one sandbox.
    pub fn grant(&mut self, name: &str, subject: &str, now: Instant) -> (r: Result<(), BrokerError>)
        ensures
            match old(self)@.granting(name@, subject@, now) {
                Ok(after) => r is Ok && final(self)@ == after,
                Err(why) => (r matches Err(error) && error@ == why) && final(self)@ == old(self)@,
            },
    {
        if !self.sandboxes.contains_key(name) {
            return Err(BrokerError::NotRegistered(name.to_owned()));
        }
        let pattern = match HostPattern::from_str(subject) {
            Ok(pattern) => pattern,
            Err(error) => {
                return Err(BrokerError::InvalidHost(subject.to_owned(), error));
            },
        };
        let key = match session_key(&pattern) {
            Some(key) => key,
            None => {
                return Err(BrokerError::NotAHost);
            },
        };
        if let Some(mut entry) = self.sandboxes.take(name) {
            entry.session.grant(key.as_str(), after(now, self.temp_allow));
            let ghost granted = entry@;
            self.sandboxes.insert(name, entry);
            assert(self.sandboxes@ =~= old(self)@.with(name@, granted).sandboxes);
        }
        Ok(())
    }

    /// Lift a tripped approval rate limit. True if the sandbox was limited.
    pub fn resume(&mut self, name: &str) -> (r: Result<bool, BrokerError>)
        ensures
            if old(self)@.sandboxes.contains_key(name@) {
                &&& r matches Ok(was_limited) && was_limited
                    == old(self)@.sandboxes[name@].limited
                &&& final(self)@ == old(self)@.resumed(name@)
            } else {
                &&& r matches Err(error) && error@ == BrokerErrorView::NotRegistered(name@)
                &&& final(self)@ == old(self)@
            },
    {
        match self.sandboxes.take(name) {
            None => {
                assert(self.sandboxes@ =~= old(self).sandboxes@);
                Err(BrokerError::NotRegistered(name.to_owned()))
            },
            Some(mut entry) => {
                let was_limited = entry.limited;
                entry.limited = false;
                let ghost resumed = entry@;
                self.sandboxes.insert(name, entry);
                assert(self.sandboxes@ =~= old(self)@.with(name@, resumed).sandboxes);
                self.approvals.reset(name);
                Ok(was_limited)
            },
        }
    }

    /// The registered sandboxes, by name.
    pub fn list(&self) -> (r: Vec<SandboxInfo>)
        ensures
            views(r@) == Seq::new(
                self.listed().len(),
                |i: int| info_of(self.listed()[i].0, self.listed()[i].1),
            ),
            sorted_keys(self.listed()),
            self@.sandboxes == to_map(self.listed()),
    {
        let ghost pairs = self.sandboxes.pairs();
        let mut r: Vec<SandboxInfo> = Vec::new();
        let n: usize = self.sandboxes.len();
        let mut i: usize = 0;
        while i < n
            invariant
                i <= n,
                n == pairs.len(),
                pairs == self.sandboxes.pairs(),
                r@.len() == i,
                forall|k: int| 0 <= k < i ==> (#[trigger] r@[k])@ == info_of(pairs[k].0, pairs[k].1),
            decreases n - i,
        {
            let (name, entry) = self.sandboxes.at(i);
            let info = SandboxInfo {
                name: name.to_owned(),
                kitchen_file: entry.kitchen_file.clone(),
                mode: entry.mode,
                resolver_port: entry.resolver_port,
                proxy_port: entry.proxy_port,
                bindings: entry.bindings.len(),
            };
            assert(info@ =~= info_of(name@, entry@));
            r.push(info);
            i += 1;
        }
        assert(views(r@) =~= Seq::new(
            self.listed().len(),
            |i: int| info_of(self.listed()[i].0, self.listed()[i].1),
        ));
        r
    }

    /// What `broker/registry.json` is to hold.
    pub fn persisted(&self) -> (r: Vec<Persisted>)
        ensures
            views(r@) == Seq::new(
                self.listed().len(),
                |i: int| saved_of(self.listed()[i].0, self.listed()[i].1),
            ),
            sorted_keys(self.listed()),
            self@.sandboxes == to_map(self.listed()),
    {
        let ghost pairs = self.sandboxes.pairs();
        let mut r: Vec<Persisted> = Vec::new();
        let n: usize = self.sandboxes.len();
        let mut i: usize = 0;
        while i < n
            invariant
                i <= n,
                n == pairs.len(),
                pairs == self.sandboxes.pairs(),
                r@.len() == i,
                forall|k: int| 0 <= k < i ==> (#[trigger] r@[k])@ == saved_of(pairs[k].0, pairs[k].1),
            decreases n - i,
        {
            let (name, entry) = self.sandboxes.at(i);
            let saved = Persisted {
                name: name.to_owned(),
                kitchen_file: entry.kitchen_file.clone(),
                mode: entry.mode,
                resolver_port: entry.resolver_port,
                proxy_port: entry.proxy_port,
                limited: entry.limited,
            };
            assert(saved@ =~= saved_of(name@, entry@));
            r.push(saved);
            i += 1;
        }
        assert(views(r@) =~= Seq::new(
            self.listed().len(),
            |i: int| saved_of(self.listed()[i].0, self.listed()[i].1),
        ));
        r
    }

    /// The file of [`Broker::persisted`].
    pub fn registry_file(&self) -> (r: String)
        ensures
            r@ == path_join(path_join(self@.home, "broker"@), "registry.json"@),
    {
        join_paths(self.home.broker_dir().as_str(), "registry.json")
    }

    /// The audit log.
    pub fn audit_file(&self) -> (r: String)
        ensures
            r@ == path_join(path_join(self@.home, "broker"@), "audit.log"@),
    {
        join_paths(self.home.broker_dir().as_str(), "audit.log")
    }

    /// What a sandbox resolved, by address.
    pub fn bindings(&self, name: &str, now: Instant) -> (r: Result<Vec<BindingInfo>, BrokerError>)
        ensures
            match r {
                Err(error) => !self@.sandboxes.contains_key(name@) && error@
                    == BrokerErrorView::NotRegistered(name@),
                Ok(found) => {
                    &&& self@.sandboxes.contains_key(name@)
                    &&& self@.sandboxes[name@].shows(found@, now)
                },
            },
    {
        let entry = match self.sandboxes.get(name) {
            Some(entry) => entry,
            None => {
                return Err(BrokerError::NotRegistered(name.to_owned()));
            },
        };
        let snapshot = entry.bindings.snapshot(now);
        let ghost bindings = entry.bindings@;
        let mut r: Vec<BindingInfo> = Vec::new();
        let mut i: usize = 0;
        while i < snapshot.len()
            invariant
                i <= snapshot@.len(),
                r@.len() == i,
                forall|k: int|
                    0 <= k < i ==> (#[trigger] r@[k]).address == snapshot@[k].0 && views(
                        r@[k].names@,
                    ) == views(snapshot@[k].1@) && r@[k].expires_in_secs == snapshot@[k].2 / SECOND,
            decreases snapshot@.len() - i,
        {
            r.push(
                BindingInfo {
                    address: snapshot[i].0,
                    names: clone_names(&snapshot[i].1),
                    expires_in_secs: snapshot[i].2 / SECOND,
                },
            );
            i += 1;
        }
        proof {
            assert forall|a: int, b: int| 0 <= a < b < r@.len() implies ip_lt(
                (#[trigger] r@[a]).address,
                (#[trigger] r@[b]).address,
            ) by {
                assert(ip_lt(snapshot@[a].0, snapshot@[b].0));
            }
            assert forall|address: IpAddr| #[trigger]
                bindings.contains_key(address) && bindings[address].expires_at > now implies exists|
                i: int,
            |
                0 <= i < r@.len() && (#[trigger] r@[i]).address == address by {
                let k = choose|k: int| 0 <= k < snapshot@.len() && (#[trigger] snapshot@[k]).0
                    == address;
                assert(r@[k].address == address);
            }
        }
        Ok(r)
    }

    pub fn pending(&self, now: Instant) -> (r: Vec<PendingApproval>)
        ensures
            views(r@) == Seq::new(
                self.requests().len(),
                |i: int| shown(self.requests()[i].0, self.requests()[i].1, now),
            ),
            self@.queue.pending == to_map(self.requests()),
            ascending_ids(self.requests()),
    {
        self.approvals.list(now)
    }

    /// Answer a pending request: the outcome for the flow that waits for it, or
    /// `None` if it no longer exists.
    pub fn decide(&mut self, id: u64, answer: Answer) -> (r: Option<Outcome>)
        ensures
            r == (if old(self)@.queue.pending.contains_key(id) {
                Some(Outcome::of(answer))
            } else {
                None
            }),
            final(self)@ == old(self)@.answered(id),
    {
        self.approvals.decide(id, answer)
    }

    /// Whether the file with the rules for every sandbox need not be read again.
    pub fn global_is_fresh(&self, stamp: Option<Stamp>) -> (r: bool)
        ensures
            r == self@.global.is_fresh(stamp),
    {
        self.global.is_fresh(stamp)
    }

    /// Take over the rules for every sandbox.
    pub fn refresh_global(&mut self, stamp: Option<Stamp>, text: Option<&str>)
        ensures
            final(self)@ == (BrokerView {
                global: old(self)@.global.refreshed(stamp, opt_str(text)),
                ..old(self)@
            }),
    {
        self.global.refresh(stamp, text);
    }

    /// Take over what a sandbox's kitchen file holds now.
    pub fn refresh_rules(
        &mut self,
        name: &str,
        stamp: Option<Stamp>,
        text: Option<&str>,
        home: Option<&str>,
    )
        ensures
            final(self)@ == (if old(self)@.sandboxes.contains_key(name@) {
                let entry = old(self)@.sandboxes[name@];
                old(self)@.with(
                    name@,
                    SandboxView {
                        rules: entry.rules.refreshed(stamp, opt_str(text), opt_str(home)),
                        ..entry
                    },
                )
            } else {
                old(self)@
            }),
    {
        match self.sandboxes.take(name) {
            None => {
                assert(self.sandboxes@ =~= old(self).sandboxes@);
            },
            Some(mut entry) => {
                entry.rules.refresh(stamp, text, home);
                let ghost refreshed = entry@;
                self.sandboxes.insert(name, entry);
                assert(self.sandboxes@ =~= old(self)@.with(name@, refreshed).sandboxes);
            },
        }
    }

    /// Learn the bindings of a DNS response that a sandbox received.
    pub fn record_dns(&mut self, name: &str, response: &[u8], now: Instant)
        requires
            now + TTL_CAP <= u64::MAX,
        ensures
            if old(self)@.sandboxes.contains_key(name@) {
                let entry = old(self)@.sandboxes[name@];
                exists|bindings: Map<IpAddr, EntryView>|
                    final(self)@ == old(self)@.with(name@, SandboxView { bindings, ..entry })
                        && #[trigger] records_all(
                        entry.bindings,
                        entry.capacity,
                        learned_from(response@),
                        now,
                        bindings,
                    )
            } else {
                final(self)@ == old(self)@
            },
    {
        match self.sandboxes.take(name) {
            None => {
                assert(self.sandboxes@ =~= old(self).sandboxes@);
            },
            Some(mut entry) => {
                entry.record_dns(response, now);
                let ghost recorded = entry@;
                self.sandboxes.insert(name, entry);
                assert(self@ =~= old(self)@.with(
                    name@,
                    SandboxView {
                        bindings: recorded.bindings,
                        ..old(self)@.sandboxes[name@]
                    },
                ));
            },
        }
    }

    /// Decide whether a sandbox's flow may proceed, or what a human is to be
    /// asked; see [`SandboxEntry::judge`]. `None` if it is not registered.
    pub fn judge(&mut self, name: &str, flow: Flow, claimed: Option<&str>, now: Instant) -> (r:
        Option<Admitted>)
        requires
            now + TTL_FLOOR <= u64::MAX,
        ensures
            if old(self)@.sandboxes.contains_key(name@) {
                let entry = old(self)@.sandboxes[name@];
                &&& r matches Some(admitted) && admitted@ == entry.admitted(
                    flow,
                    opt_str(claimed),
                    old(self)@.global.rules,
                    now,
                )
                &&& final(self)@ == old(self)@.with(
                    name@,
                    entry.refreshed(flow.address, opt_str(claimed), now),
                )
            } else {
                r is None && final(self)@ == old(self)@
            },
    {
        match self.sandboxes.take(name) {
            None => {
                assert(self.sandboxes@ =~= old(self).sandboxes@);
                None
            },
            Some(mut entry) => {
                let admitted = entry.judge(flow, claimed, self.global.current(), now);
                let ghost refreshed = entry@;
                self.sandboxes.insert(name, entry);
                assert(self.sandboxes@ =~= old(self)@.with(name@, refreshed).sandboxes);
                Some(admitted)
            },
        }
    }

    /// Apply an outcome to a sandbox's flow that was asked about; see
    /// [`SandboxEntry::apply`]. `None` if it is not registered.
    pub fn apply(
        &mut self,
        name: &str,
        question: &Question,
        outcome: Outcome,
        origin: Option<Origin>,
        now: Instant,
    ) -> (r: Option<Applied>)
        ensures
            if old(self)@.sandboxes.contains_key(name@) {
                let entry = old(self)@.sandboxes[name@];
                &&& final(self)@ == old(self)@.with(
                    name@,
                    entry.applied(
                        question@.subjects,
                        outcome,
                        later(now, old(self)@.temp_allow),
                    ),
                )
                &&& r matches Some(applied)
                &&& applied.allowed == lets_through(outcome)
                &&& applied.save == saved_in(outcome)
                &&& applied.notify == (outcome == Outcome::RateLimited && !entry.limited)
                &&& applied.event@ == answer_event(question@, outcome, opt_view(origin))
            } else {
                r is None && final(self)@ == old(self)@
            },
    {
        match self.sandboxes.take(name) {
            None => {
                assert(self.sandboxes@ =~= old(self).sandboxes@);
                None
            },
            Some(mut entry) => {
                let applied = entry.apply(question, outcome, origin, self.temp_allow, now);
                let ghost after = entry@;
                self.sandboxes.insert(name, entry);
                assert(self.sandboxes@ =~= old(self)@.with(name@, after).sandboxes);
                Some(applied)
            },
        }
    }
}

// ---------------------------------------------------------------------------
// Ports
// ---------------------------------------------------------------------------

/// How often a free port is looked for.
pub const RANDOM_PORT_ATTEMPTS: usize = 64;

/// `getrandom::u32`: a random number, or `None` if the system gave none. Which
/// one it is is chance.
#[verifier::external_body]
fn random_number() -> (r: Option<u32>) {
    getrandom::u32().ok()
}

/// The port of a range that a number picks.
pub fn port_in(range: (u16, u16), number: u32) -> (r: u16)
    requires
        range.0 <= range.1,
    ensures
        r == range.0 + number as int % (range.1 - range.0 + 1),
        range.0 <= r <= range.1,
{
    let span: u32 = range.1 as u32 - range.0 as u32 + 1;
    let offset: u32 = number % span;
    (range.0 as u32 + offset) as u16
}

/// The ports to try: the one that was asked for, or random ones of the range.
pub fn candidate_ports(requested: Option<u16>, range: (u16, u16)) -> (r: Vec<u16>)
    requires
        range.0 <= range.1,
    ensures
        match requested {
            Some(port) => r@ == seq![port],
            None => r@.len() == RANDOM_PORT_ATTEMPTS && forall|i: int|
                0 <= i < r@.len() ==> range.0 <= #[trigger] r@[i] <= range.1,
        },
{
    let mut ports: Vec<u16> = Vec::new();
    if let Some(port) = requested {
        ports.push(port);
        assert(ports@ =~= seq![port]);
        return ports;
    }
    let mut i: usize = 0;
    while i < RANDOM_PORT_ATTEMPTS
        invariant
            i <= RANDOM_PORT_ATTEMPTS,
            range.0 <= range.1,
            ports@.len() == i,
            forall|k: int| 0 <= k < i ==> range.0 <= #[trigger] ports@[k] <= range.1,
        decreases RANDOM_PORT_ATTEMPTS - i,
    {
        let number: u32 = match random_number() {
            Some(number) => number,
            None => 0,
        };
        ports.push(port_in(range, number));
        i += 1;
    }
    ports
}

/// Why no endpoint could be bound.
pub open spec fn unavailable_text(requested: Option<u16>) -> Seq<char> {
    match requested {
        Some(port) => "port "@ + decimal(port as nat)
            + " is in use; a sandbox's broker endpoints are fixed when it is created, so free the port or recreate the sandbox with `microkitchen up --recreate`"@,
        None => "no free port in broker.port_range"@,
    }
}

pub fn unavailable(requested: Option<u16>) -> (r: String)
    ensures
        r@ == unavailable_text(requested),
{
    match requested {
        Some(port) => concat3(
            "port ",
            decimal_string(port as u64).as_str(),
            " is in use; a sandbox's broker endpoints are fixed when it is created, so free the port or recreate the sandbox with `microkitchen up --recreate`",
        ),
        None => "no free port in broker.port_range".to_owned(),
    }
}

// ---------------------------------------------------------------------------
// Laws
// ---------------------------------------------------------------------------

/// Once the rate limit tripped, every flow is denied, whatever the rules, the
/// mode or earlier allows say, and nobody is asked.
pub proof fn law_a_tripped_limit_denies_everything(
    entry: SandboxView,
    flow: Flow,
    claimed: Option<Seq<char>>,
    global: RulesView,
    now: Instant,
)
    requires
        entry.limited,
    ensures
        entry.admitted(flow, claimed, global, now) matches AdmittedView::Decided(event)
            && !event.allowed,
{
}

/// The limit stays tripped through everything but `net resume`: flows, answers
/// and registering again, also with other endpoints or another kitchen file; it
/// is saved, so it also survives a restart.
pub proof fn law_a_tripped_limit_stays(
    broker: BrokerView,
    name: Seq<char>,
    flow: Flow,
    claimed: Option<Seq<char>>,
    subjects: Seq<PatternView>,
    outcome: Outcome,
    mode: Mode,
    now: Instant,
)
    requires
        broker.sandboxes.contains_key(name),
        broker.sandboxes[name].limited,
    ensures
        ({
            let entry = broker.sandboxes[name];
            &&& entry.refreshed(flow.address, claimed, now).limited
            &&& entry.applied(subjects, outcome, now).limited
            &&& saved_of(name, entry).limited
            &&& broker.is_limited(name)
            &&& broker.with(name, SandboxView { mode, ..entry }).sandboxes[name].limited
        }),
{
}

/// Only `Allow` and `Deny` are saved as rules. A dismissed, timed out or
/// cancelled request denies its flow and leaves no trace in the sandbox's
/// state.
pub proof fn law_unanswered_requests_leave_no_trace(
    entry: SandboxView,
    subjects: Seq<PatternView>,
    outcome: Outcome,
    until: Instant,
)
    requires
        outcome == Outcome::Dismissed || outcome == Outcome::Cancelled,
    ensures
        entry.applied(subjects, outcome, until) == entry,
        saved_in(outcome) is None,
        !lets_through(outcome),
{
}

/// What holds of a retired sandbox: it is not registered, no request of it
/// waits, and every other sandbox and its requests are as they were.
pub proof fn law_retiring_touches_one_sandbox(
    broker: BrokerView,
    name: Seq<char>,
    other: Seq<char>,
    id: u64,
)
    requires
        broker.sandboxes.contains_key(name),
        other != name,
    ensures
        ({
            let after = broker.retired(name);
            &&& !after.sandboxes.contains_key(name)
            &&& after.queue.pending.contains_key(id) ==> after.queue.pending[id].info.sandbox
                != name
            &&& after.sandboxes.contains_key(other) == broker.sandboxes.contains_key(other)
            &&& broker.sandboxes.contains_key(other) ==> after.sandboxes[other]
                == broker.sandboxes[other]
            &&& broker.queue.pending.contains_key(id) && broker.queue.pending[id].info.sandbox
                != name ==> after.queue.pending.contains_key(id) && after.queue.pending[id]
                == broker.queue.pending[id]
            &&& after.queue.times(other) == broker.queue.times(other)
        }),
{
}

proof fn lemma_granted_all(
    session: Map<Seq<char>, u64>,
    subjects: Seq<PatternView>,
    until: Instant,
    i: int,
)
    requires
        0 <= i < subjects.len(),
        key_of(subjects[i]) is Some,
    ensures
        granted_all(session, subjects, until).contains_key(key_of(subjects[i])->0),
        granted_all(session, subjects, until)[key_of(subjects[i])->0] == until,
    decreases subjects.len(),
{
    if i < subjects.len() - 1 {
        assert(subjects.drop_last()[i] == subjects[i]);
        lemma_granted_all(session, subjects.drop_last(), until, i);
    }
}

proof fn lemma_readable_exact(names: Seq<Seq<char>>)
    requires
        forall|i: int|
            0 <= i < names.len() ==> pattern_text(#[trigger] names[i]) == Ok::<
                PatternView,
                PatternErrorView,
            >(PatternView::Exact(names[i])),
    ensures
        readable(names).len() == names.len(),
        forall|i: int|
            0 <= i < names.len() ==> #[trigger] readable(names)[i] == PatternView::Exact(names[i]),
    decreases names.len(),
{
    if names.len() > 0 {
        let init = names.drop_last();
        assert forall|i: int| 0 <= i < init.len() implies pattern_text(#[trigger] init[i]) == Ok::<
            PatternView,
            PatternErrorView,
        >(PatternView::Exact(init[i])) by {
            assert(init[i] == names[i]);
        }
        lemma_readable_exact(init);
        assert(pattern_text(names[names.len() - 1]) == Ok::<PatternView, PatternErrorView>(
            PatternView::Exact(names.last()),
        ));
        assert forall|i: int| 0 <= i < names.len() implies #[trigger] readable(names)[i]
            == PatternView::Exact(names[i]) by {
            if i < init.len() {
                assert(readable(init)[i] == PatternView::Exact(init[i]));
            }
        }
    }
}

/// "Allow 5 min" answers the question it was given to: until the time is up,
/// the same destination, with the same lookups, is allowed without asking.
///
/// The query names are those that a rule can name.
pub proof fn law_temporary_allows_answer_the_question(
    address: IpAddr,
    candidates: Seq<Seq<Seq<char>>>,
    mode: Mode,
    files: Seq<RulesView>,
    session: Map<Seq<char>, u64>,
    until: Instant,
    now: Instant,
    then: Instant,
)
    requires
        then < until,
        ({
            let asked = decision(false, address, candidates, mode, files, session, now);
            ||| asked == DecisionView::Prompt(crate::broker::decision::PromptView::Unresolved)
            ||| asked == DecisionView::Prompt(crate::broker::decision::PromptView::Unknown)
        }),
        forall|i: int|
            0 <= i < query_names(candidates).len() ==> pattern_text(
                #[trigger] query_names(candidates)[i],
            ) == Ok::<PatternView, PatternErrorView>(
                PatternView::Exact(query_names(candidates)[i]),
            ),
    ensures
        ({
            let kind = decision(
                false,
                address,
                candidates,
                mode,
                files,
                session,
                now,
            )->Prompt_0;
            let granted = granted_all(session, kind.subjects(address, candidates), until);
            decision(false, address, candidates, mode, files, granted, then) is Allow
        }),
{
    let kind = decision(false, address, candidates, mode, files, session, now)->Prompt_0;
    let subjects = kind.subjects(address, candidates);
    let grants = granted_all(session, subjects, until);
    let target = address.canonical();
    let lookups = named_lookups(candidates);
    crate::ip::lemma_canonical_idempotent(address);
    lemma_rules_never_ask(files, lookups, target);
    if kind == crate::broker::decision::PromptView::Unresolved {
        lemma_granted_all(session, subjects, until, 0);
        assert(granted(grants, ip_text(target), then));
    } else {
        let names = query_names(candidates);
        lemma_readable_exact(names);
        lemma_named_lookups(candidates);
        let all = verdicts(files, grants, lookups, then);
        let before = verdicts(files, session, lookups, now);
        assert(all_unknown(before));
        assert forall|i: int| 0 <= i < all.len() implies (#[trigger] all[i]) is Some && (all[i]->0).0 by {
            assert(before[i] is None);
            assert(subjects[i] == PatternView::Exact(names[i]));
            lemma_granted_all(session, subjects, until, i);
            assert(lookups[i].len() > 0);
            assert(granted(grants, lookups[i][0], then));
            assert(chain_granted(grants, lookups[i], then));
        }
        assert(all_say(all, true));
    }
}

/// A lookup finds the chains of an address that has not run out, and keeps it for at
/// least an hour more; one that has run out is forgotten; and of every other address
/// nothing changes. A mapped address counts as the one that it maps.
pub proof fn law_lookups_find_what_has_not_run_out(
    bindings: Map<IpAddr, EntryView>,
    address: IpAddr,
    now: Instant,
    other: IpAddr,
)
    requires
        now + 3_600_000_000_000 <= u64::MAX,
        other != address.canonical(),
    ensures
        ({
            let (after, found) = looked_up(bindings, address, now);
            let key = address.canonical();
            &&& after.contains_key(other) == bindings.contains_key(other)
            &&& bindings.contains_key(other) ==> after[other] == bindings[other]
            &&& !bindings.contains_key(key) ==> found.len() == 0 && !after.contains_key(key)
            &&& bindings.contains_key(key) && bindings[key].expires_at <= now ==> found.len() == 0
                && !after.contains_key(key)
            &&& bindings.contains_key(key) && bindings[key].expires_at > now ==> {
                &&& found == bindings[key].chains
                &&& after.contains_key(key) && after[key].chains == bindings[key].chains
                &&& after[key].last_seen == now
                &&& after[key].expires_at >= bindings[key].expires_at
                &&& after[key].expires_at >= now + 3_600_000_000_000
                &&& after[key].expires_at == bindings[key].expires_at || after[key].expires_at == now
                    + 3_600_000_000_000
            }
        }),
{
}

/// A flow that claims a name is judged by that name alone, and changes nothing; one that
/// claims none is judged by the lookups of its address.
pub proof fn law_claims_are_taken_at_their_word(
    entry: SandboxView,
    address: IpAddr,
    name: Seq<char>,
    now: Instant,
)
    ensures
        entry.candidates(address, Some(name), now) == seq![seq![name]],
        entry.refreshed(address, Some(name), now) == entry,
        entry.candidates(address, None, now) == looked_up(entry.bindings, address, now).1,
        entry.refreshed(address, None, now) == (SandboxView {
            bindings: looked_up(entry.bindings, address, now).0,
            ..entry
        }),
{
}

/// What becomes of a flow: where the sandbox's limit has not tripped it is what is
/// decided of its address and its lookups by the rules of the kitchen, then the global
/// ones, and the sandbox's temporary allows. What is decided is told as it is, and what
/// is not is asked.
pub proof fn law_flows_are_judged_by_the_decision(
    entry: SandboxView,
    flow: Flow,
    claimed: Option<Seq<char>>,
    global: RulesView,
    now: Instant,
)
    ensures
        ({
            let lookups = entry.candidates(flow.address, claimed, now);
            let decided = decision(
                false,
                flow.address.canonical(),
                lookups,
                entry.mode,
                seq![entry.rules.rules, global],
                entry.session,
                now,
            );
            match entry.admitted(flow, claimed, global, now) {
                AdmittedView::Decided(event) => {
                    &&& event.sandbox == entry.name && event.transport == flow.transport
                    &&& event.address == flow.address.canonical() && event.port == flow.port
                    &&& event.names == flat_names(lookups) && event.origin is None
                    &&& if entry.limited {
                        !event.allowed && event.source == "rate-limited"@ && (event.ambiguous
                            <==> lookups.len() > 1)
                    } else {
                        match decided {
                            DecisionView::Allow { reason, ambiguous } => event.allowed
                                && event.source == reason.text() && event.ambiguous == ambiguous,
                            DecisionView::Deny { reason, ambiguous } => !event.allowed
                                && event.source == reason.text() && event.ambiguous == ambiguous,
                            DecisionView::Prompt(_) => false,
                        }
                    }
                },
                AdmittedView::Ask(question) => {
                    &&& !entry.limited && decided is Prompt
                    &&& question.subjects == (decided->Prompt_0).subjects(
                        flow.address.canonical(),
                        lookups,
                    )
                    &&& question.ambiguous <==> lookups.len() > 1
                    &&& question.key.sandbox == entry.name && question.key.port == flow.port
                    &&& question.key.subject == if lookups.len() == 0 {
                        ip_text(flow.address.canonical())
                    } else {
                        join(query_names(lookups), seq![','])
                    }
                    &&& question.info.sandbox == entry.name && question.info.transport
                        == flow.transport
                    &&& question.info.address == flow.address.canonical() && question.info.port
                        == flow.port
                    &&& question.info.names == flat_names(lookups) && question.info.origin is None
                },
            }
        }),
{
    reveal_strlit(",");
    assert(","@ =~= seq![',']);
}

/// A temporary allow is given to every subject that is a host, under its name or its
/// address, and to nothing else; those that were given before stay.
pub proof fn law_temporary_allows_go_to_hosts(
    session: Map<Seq<char>, u64>,
    subjects: Seq<PatternView>,
    until: Instant,
    key: Seq<char>,
)
    ensures
        granted_all(session, subjects, until).contains_key(key) <==> session.contains_key(key)
            || subjects_have(subjects, key),
        subjects_have(subjects, key) ==> granted_all(session, subjects, until)[key] == until,
        !subjects_have(subjects, key) && session.contains_key(key) ==> granted_all(
            session,
            subjects,
            until,
        )[key] == session[key],
    decreases subjects.len(),
{
    if subjects.len() > 0 {
        let rest = subjects.drop_last();
        law_temporary_allows_go_to_hosts(session, rest, until, key);
        assert(subjects[subjects.len() - 1] == subjects.last());
        if subjects_have(rest, key) {
            let i = choose|i: int| 0 <= i < rest.len() && is_host(#[trigger] rest[i], key);
            assert(subjects[i] == rest[i]);
        }
        if subjects_have(subjects, key) {
            let i = choose|i: int| 0 <= i < subjects.len() && is_host(#[trigger] subjects[i], key);
            if i < rest.len() {
                assert(rest[i] == subjects[i]);
            }
        }
    }
}

/// Whether an entry is the host of a key: the name itself, or the address.
pub open spec fn is_host(pattern: PatternView, key: Seq<char>) -> bool {
    ||| pattern == PatternView::Exact(key)
    ||| pattern matches PatternView::Address(address) && ip_text(address.canonical()) == key
}

pub open spec fn subjects_have(subjects: Seq<PatternView>, key: Seq<char>) -> bool {
    exists|i: int| 0 <= i < subjects.len() && is_host(#[trigger] subjects[i], key)
}

/// What an answer does: "allow" and "temp" let the flow through and nothing else does;
/// "allow" and "deny" are saved as rules of that list; a temporary allow goes into the
/// session; a tripped limit stays; and nothing else changes in any of these.
pub proof fn law_answers_do_what_they_say(
    entry: SandboxView,
    question: QuestionView,
    outcome: Outcome,
    until: Instant,
    origin: Option<OriginView>,
)
    ensures
        lets_through(outcome) <==> outcome == Outcome::Allow || outcome == Outcome::Temp,
        saved_in(Outcome::Allow) == Some(RuleList::Allow),
        saved_in(Outcome::Deny) == Some(RuleList::Deny),
        saved_in(outcome) is Some ==> outcome == Outcome::Allow || outcome == Outcome::Deny,
        ({
            let after = entry.applied(question.subjects, outcome, until);
            &&& after.session == if outcome == Outcome::Temp {
                granted_all(entry.session, question.subjects, until)
            } else {
                entry.session
            }
            &&& after.limited <==> entry.limited || outcome == Outcome::RateLimited
            &&& after == (SandboxView { session: after.session, limited: after.limited, ..entry })
        }),
        ({
            let event = answer_event(question, outcome, origin);
            &&& event.allowed <==> outcome == Outcome::Allow || outcome == Outcome::Temp
            &&& event.sandbox == question.info.sandbox && event.transport
                == question.info.transport
            &&& event.address == question.info.address && event.port == question.info.port
            &&& event.names == question.info.names && event.ambiguous == question.ambiguous
            &&& event.origin == origin
            &&& event.source == "prompt:"@ + match outcome {
                Outcome::Allow => "allow"@,
                Outcome::Deny => "deny"@,
                Outcome::Temp => "temp"@,
                Outcome::Dismissed => "dismissed"@,
                Outcome::Cancelled => "cancelled"@,
                Outcome::RateLimited => "rate-limited"@,
            }
        }),
{
}

/// A temporary allow lasts five minutes, or as many seconds as the variable says.
pub proof fn law_temporary_allows_last_five_minutes(secs: u64, text: Seq<char>)
    ensures
        temp_allow_of(None) == 300_000_000_000,
        temp_allow_of(Some(decimal(secs as nat))) == seconds(secs),
        unsigned_of(text, u64::MAX) is None ==> temp_allow_of(Some(text)) == 300_000_000_000,
{
    crate::text::law_unsigned_numbers_read_back(secs as nat, u64::MAX, text);
}

/// A registered sandbox keeps its endpoints exactly where it is registered for the same
/// file and for no other ports.
pub proof fn law_registrations_are_kept_where_they_agree(
    broker: BrokerView,
    name: Seq<char>,
    kitchen_file: Seq<char>,
    resolver_port: Option<u16>,
    proxy_port: Option<u16>,
)
    ensures
        broker.keeps(name, kitchen_file, resolver_port, proxy_port) <==> {
            &&& broker.sandboxes.contains_key(name)
            &&& path_parts(broker.sandboxes[name].kitchen_file) == path_parts(kitchen_file)
            &&& resolver_port is None || resolver_port == Some(
                broker.sandboxes[name].resolver_port,
            )
            &&& proxy_port is None || proxy_port == Some(broker.sandboxes[name].proxy_port)
        },
{
}

/// A sandbox is listed and saved as it is.
pub proof fn law_sandboxes_are_listed_and_saved_as_they_are(name: Seq<char>, entry: SandboxView)
    ensures
        ({
            let info = info_of(name, entry);
            &&& info.name == name && info.kitchen_file == entry.kitchen_file
            &&& info.mode == entry.mode && info.resolver_port == entry.resolver_port
            &&& info.proxy_port == entry.proxy_port && info.bindings == entry.bindings.dom().len()
        }),
        ({
            let saved = saved_of(name, entry);
            &&& saved.name == name && saved.kitchen_file == entry.kitchen_file
            &&& saved.mode == entry.mode && saved.resolver_port == entry.resolver_port
            &&& saved.proxy_port == entry.proxy_port && saved.limited == entry.limited
        }),
{
}

/// A temporary allow of an operator is for one registered sandbox and one host, from now
/// until its time is over; anything else is refused, and nothing else changes.
pub proof fn law_operators_grant_one_host(
    broker: BrokerView,
    name: Seq<char>,
    subject: Seq<char>,
    now: Instant,
    other: Seq<char>,
)
    requires
        other != name,
        now + broker.temp_allow <= u64::MAX,
    ensures
        !broker.sandboxes.contains_key(name) ==> broker.granting(name, subject, now) == Err::<
            BrokerView,
            BrokerErrorView,
        >(BrokerErrorView::NotRegistered(name)),
        broker.sandboxes.contains_key(name) ==> match pattern_text(subject) {
            Err(why) => broker.granting(name, subject, now) == Err::<BrokerView, BrokerErrorView>(
                BrokerErrorView::InvalidHost(subject, why),
            ),
            Ok(PatternView::Exact(host)) => broker.granting(name, subject, now) matches Ok(after)
                && after.sandboxes[name].session == broker.sandboxes[name].session.insert(
                host,
                (now + broker.temp_allow) as u64,
            ),
            Ok(PatternView::Address(address)) => broker.granting(name, subject, now) matches Ok(
                after,
            ) && after.sandboxes[name].session == broker.sandboxes[name].session.insert(
                ip_text(address.canonical()),
                (now + broker.temp_allow) as u64,
            ),
            Ok(_) => broker.granting(name, subject, now) == Err::<BrokerView, BrokerErrorView>(
                BrokerErrorView::NotAHost,
            ),
        },
        broker.granting(name, subject, now) matches Ok(after) ==> {
            &&& after.sandboxes.dom() == broker.sandboxes.dom()
            &&& broker.sandboxes.contains_key(other) ==> after.sandboxes[other]
                == broker.sandboxes[other]
            &&& after.sandboxes[name] == (SandboxView {
                session: after.sandboxes[name].session,
                ..broker.sandboxes[name]
            })
            &&& after == (BrokerView { sandboxes: after.sandboxes, ..broker })
        },
{
    if let Ok(after) = broker.granting(name, subject, now) {
        assert(after.sandboxes.dom() =~= broker.sandboxes.dom());
    }
}

/// Resuming lifts the limit of one sandbox and forgets its prompts; answering takes one
/// request out; neither touches anything else.
pub proof fn law_resuming_and_answering_touch_one_thing(
    broker: BrokerView,
    name: Seq<char>,
    other: Seq<char>,
    id: u64,
    other_id: u64,
)
    requires
        broker.sandboxes.contains_key(name),
        other != name,
        other_id != id,
    ensures
        ({
            let after = broker.resumed(name);
            &&& !after.is_limited(name) && after.queue.times(name).len() == 0
            &&& after.sandboxes[name] == (SandboxView { limited: false, ..broker.sandboxes[name] })
            &&& after.is_limited(other) == broker.is_limited(other)
            &&& broker.sandboxes.contains_key(other) ==> after.sandboxes[other]
                == broker.sandboxes[other]
            &&& after.queue.times(other) == broker.queue.times(other)
            &&& after.queue.pending == broker.queue.pending && after.global == broker.global
        }),
        broker.is_limited(name) <==> broker.sandboxes[name].limited,
        ({
            let after = broker.answered(id);
            &&& !after.queue.pending.contains_key(id)
            &&& after.queue.pending.contains_key(other_id) == broker.queue.pending.contains_key(
                other_id,
            )
            &&& broker.queue.pending.contains_key(other_id) ==> after.queue.pending[other_id]
                == broker.queue.pending[other_id]
            &&& after.sandboxes == broker.sandboxes && after.queue.recent == broker.queue.recent
            &&& after.queue.slots == broker.queue.slots && after.queue.inflight
                == broker.queue.inflight
        }),
{
}

/// Retiring a sandbox that is not registered changes nothing; one that is leaves the
/// origins of its requests and those that follow them.
pub proof fn law_retiring_keeps_the_rest(broker: BrokerView, name: Seq<char>)
    ensures
        !broker.sandboxes.contains_key(name) ==> broker.retired(name) == broker,
        ({
            let after = broker.retired(name);
            &&& after.queue.slots == broker.queue.slots && after.queue.inflight
                == broker.queue.inflight
            &&& after.queue.last_id == broker.queue.last_id && after.queue.showing
                == broker.queue.showing
            &&& after.global == broker.global && after.temp_allow == broker.temp_allow
            &&& after.home == broker.home && after.upstreams == broker.upstreams
            &&& after.port_range == broker.port_range
            &&& broker.sandboxes.contains_key(name) ==> after.queue.times(name).len() == 0
        }),
{
}

/// Everything that is learned is recorded, one answer after the other: with one more
/// the store is what recording that one makes of what it was.
pub proof fn law_everything_learned_is_recorded(
    before: Map<IpAddr, EntryView>,
    limit: nat,
    learned: Seq<LearnedView>,
    one: LearnedView,
    now: Instant,
    after: Map<IpAddr, EntryView>,
)
    ensures
        records_all(before, limit, Seq::empty(), now, after) <==> after == before,
        records_all(before, limit, learned.push(one), now, after) <==> exists|
            mid: Map<IpAddr, EntryView>,
        |
            records_all(before, limit, learned, now, mid) && #[trigger] records_as(
                mid,
                limit,
                one.address,
                one.names,
                (one.ttl * 1_000_000_000) as u64,
                now,
                after,
            ),
{
    let all = learned.push(one);
    assert(all.drop_last() =~= learned);
    assert(all.last() == one);
    if records_all(before, limit, all, now, after) {
        let mid = choose|mid: Map<IpAddr, EntryView>|
            records_all(before, limit, all.drop_last(), now, mid) && #[trigger] recorded_last(
                mid,
                limit,
                all,
                now,
                after,
            );
        assert(records_as(
            mid,
            limit,
            one.address,
            one.names,
            (one.ttl * 1_000_000_000) as u64,
            now,
            after,
        ));
    }
    if exists|mid: Map<IpAddr, EntryView>|
        records_all(before, limit, learned, now, mid) && #[trigger] records_as(
            mid,
            limit,
            one.address,
            one.names,
            (one.ttl * 1_000_000_000) as u64,
            now,
            after,
        ) {
        let mid = choose|mid: Map<IpAddr, EntryView>|
            records_all(before, limit, learned, now, mid) && #[trigger] records_as(
                mid,
                limit,
                one.address,
                one.names,
                (one.ttl * 1_000_000_000) as u64,
                now,
                after,
            );
        assert(recorded_last(mid, limit, all, now, after));
    }
}

} // verus!
