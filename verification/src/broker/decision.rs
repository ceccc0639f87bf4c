//! The decision engine: stored rules first, a human only when nothing stored
//! applies.
//!
//! Attribution is structurally excluded: [`Admission`] has no field for the
//! guest process, so a guest cannot write its own evidence into a verdict.

use vstd::prelude::*;
use vstd::arithmetic::power2::pow2;

use crate::broker::bindings::{chain_views, flat_names, flatten, Chain};
use crate::broker::protocol::{Mode, Transport};
use crate::config::hostpat::{pattern_text, HostPattern, PatternErrorView, PatternView};
use crate::ip::{ip_text, IpAddr};
use crate::maps::TextMap;
use crate::text::{concat, lowercase, views};
use crate::time::Instant;

verus! {

// ---------------------------------------------------------------------------
// Types
// ---------------------------------------------------------------------------

/// What the mediator knows about a flow before deciding.
#[derive(Debug, PartialEq, Eq)]
pub struct Admission {
    pub transport: Transport,
    pub address: IpAddr,
    pub port: u16,
    /// Lookups by this sandbox that returned `address`, each a query name
    /// followed by its CNAME chain (from the binding store).
    pub candidates: Vec<Chain>,
    /// The request failed validation (e.g. a domain name outside the grammar).
    pub malformed: bool,
}

/// Persistent rules of one file: a kitchen file's `[_.microkitchen.network]`,
/// or the rules for every sandbox.
#[derive(Debug, PartialEq, Eq)]
pub struct Rules {
    pub allow: Vec<HostPattern>,
    pub deny: Vec<HostPattern>,
}

/// [`Rules`] by their contents.
#[verifier::ext_equal]
pub struct RulesView {
    pub allow: Seq<PatternView>,
    pub deny: Seq<PatternView>,
}

/// Temporary allows for one sandbox, keyed by name or address.
#[derive(Debug)]
pub struct Session {
    grants: TextMap<u64>,
}

#[derive(Debug, PartialEq, Eq)]
pub enum Reason {
    Malformed,
    HardDeny,
    OpenMode,
    DenyRule(HostPattern),
    AllowRule(HostPattern),
    Session,
}

/// A [`Reason`] by its contents.
pub enum ReasonView {
    Malformed,
    HardDeny,
    OpenMode,
    DenyRule(PatternView),
    AllowRule(PatternView),
    Session,
}

/// Why a human has to decide.
#[derive(Debug, PartialEq, Eq)]
pub enum PromptKind {
    /// The sandbox never resolved this address.
    Unresolved,
    /// No candidate has a stored verdict.
    Unknown,
    /// Candidates' stored verdicts disagree (or only some have one), keyed
    /// by each candidate's query name.
    Disagreement(Vec<(String, Option<bool>)>),
}

/// A [`PromptKind`] by its contents.
pub enum PromptView {
    Unresolved,
    Unknown,
    Disagreement(Seq<(Seq<char>, Option<bool>)>),
}

#[derive(Debug, PartialEq, Eq)]
pub enum Decision {
    Allow { reason: Reason, ambiguous: bool },
    Deny { reason: Reason, ambiguous: bool },
    Prompt(PromptKind),
}

/// A [`Decision`] by its contents.
pub enum DecisionView {
    Allow { reason: ReasonView, ambiguous: bool },
    Deny { reason: ReasonView, ambiguous: bool },
    Prompt(PromptView),
}

// ---------------------------------------------------------------------------
// Views
// ---------------------------------------------------------------------------

impl View for Rules {
    type V = RulesView;

    open spec fn view(&self) -> RulesView {
        RulesView { allow: views(self.allow@), deny: views(self.deny@) }
    }
}

impl View for Session {
    type V = Map<Seq<char>, u64>;

    closed spec fn view(&self) -> Map<Seq<char>, u64> {
        self.grants@
    }
}

impl View for Reason {
    type V = ReasonView;

    open spec fn view(&self) -> ReasonView {
        match self {
            Reason::Malformed => ReasonView::Malformed,
            Reason::HardDeny => ReasonView::HardDeny,
            Reason::OpenMode => ReasonView::OpenMode,
            Reason::DenyRule(rule) => ReasonView::DenyRule(rule@),
            Reason::AllowRule(rule) => ReasonView::AllowRule(rule@),
            Reason::Session => ReasonView::Session,
        }
    }
}

/// Named verdicts by their contents.
pub open spec fn named_verdicts(s: Seq<(String, Option<bool>)>) -> Seq<(Seq<char>, Option<bool>)> {
    Seq::new(s.len(), |i: int| (s[i].0@, s[i].1))
}

impl View for PromptKind {
    type V = PromptView;

    open spec fn view(&self) -> PromptView {
        match self {
            PromptKind::Unresolved => PromptView::Unresolved,
            PromptKind::Unknown => PromptView::Unknown,
            PromptKind::Disagreement(verdicts) => PromptView::Disagreement(
                named_verdicts(verdicts@),
            ),
        }
    }
}

impl View for Decision {
    type V = DecisionView;

    open spec fn view(&self) -> DecisionView {
        match self {
            Decision::Allow { reason, ambiguous } => DecisionView::Allow {
                reason: reason@,
                ambiguous: *ambiguous,
            },
            Decision::Deny { reason, ambiguous } => DecisionView::Deny {
                reason: reason@,
                ambiguous: *ambiguous,
            },
            Decision::Prompt(kind) => DecisionView::Prompt(kind@),
        }
    }
}

impl Clone for Reason {
    fn clone(&self) -> (r: Self)
        ensures
            r@ == self@,
    {
        match self {
            Reason::Malformed => Reason::Malformed,
            Reason::HardDeny => Reason::HardDeny,
            Reason::OpenMode => Reason::OpenMode,
            Reason::DenyRule(rule) => Reason::DenyRule(rule.clone()),
            Reason::AllowRule(rule) => Reason::AllowRule(rule.clone()),
            Reason::Session => Reason::Session,
        }
    }
}

// ---------------------------------------------------------------------------
// The model
// ---------------------------------------------------------------------------

/// The first rule of a list that matches an address.
pub open spec fn address_rule(rules: Seq<PatternView>, address: IpAddr) -> Option<PatternView>
    decreases rules.len(),
{
    if rules.len() == 0 {
        None
    } else if address_rule(rules.drop_last(), address) is Some {
        address_rule(rules.drop_last(), address)
    } else if rules.last().matches_address(address) {
        Some(rules.last())
    } else {
        None
    }
}

/// The first rule of a list that matches a name.
pub open spec fn name_rule(rules: Seq<PatternView>, name: Seq<char>) -> Option<PatternView>
    decreases rules.len(),
{
    if rules.len() == 0 {
        None
    } else if name_rule(rules.drop_last(), name) is Some {
        name_rule(rules.drop_last(), name)
    } else if rules.last().matches_name(name) {
        Some(rules.last())
    } else {
        None
    }
}

/// The rule for the first name of a chain that has one.
pub open spec fn chain_rule(rules: Seq<PatternView>, chain: Seq<Seq<char>>) -> Option<PatternView>
    decreases chain.len(),
{
    if chain.len() == 0 {
        None
    } else if chain_rule(rules, chain.drop_last()) is Some {
        chain_rule(rules, chain.drop_last())
    } else {
        name_rule(rules, chain.last())
    }
}

/// What is stored on a lookup, if anything is: allowed or denied, and why.
pub type VerdictView = Option<(bool, ReasonView)>;

/// One file's verdict on a lookup: denied if any of its names is denied, else
/// allowed if any is allowed.
pub open spec fn file_verdict(rules: RulesView, chain: Seq<Seq<char>>) -> VerdictView {
    match chain_rule(rules.deny, chain) {
        Some(rule) => Some((false, ReasonView::DenyRule(rule))),
        None => match chain_rule(rules.allow, chain) {
            Some(rule) => Some((true, ReasonView::AllowRule(rule))),
            None => None,
        },
    }
}

/// The verdict of the first file that has one.
pub open spec fn rules_verdict(files: Seq<RulesView>, chain: Seq<Seq<char>>) -> VerdictView
    decreases files.len(),
{
    if files.len() == 0 {
        None
    } else if rules_verdict(files.drop_last(), chain) is Some {
        rules_verdict(files.drop_last(), chain)
    } else {
        file_verdict(files.last(), chain)
    }
}

pub open spec fn granted(grants: Map<Seq<char>, u64>, key: Seq<char>, now: Instant) -> bool {
    grants.contains_key(key) && grants[key] > now
}

pub open spec fn chain_granted(
    grants: Map<Seq<char>, u64>,
    chain: Seq<Seq<char>>,
    now: Instant,
) -> bool {
    exists|i: int| 0 <= i < chain.len() && granted(grants, #[trigger] chain[i], now)
}

/// What one lookup comes to by rule, then by session; unknown otherwise.
pub open spec fn lookup_verdict(
    files: Seq<RulesView>,
    grants: Map<Seq<char>, u64>,
    chain: Seq<Seq<char>>,
    now: Instant,
) -> VerdictView {
    if rules_verdict(files, chain) is Some {
        rules_verdict(files, chain)
    } else if chain_granted(grants, chain, now) {
        Some((true, ReasonView::Session))
    } else {
        None
    }
}

/// The lookups that have a name.
pub open spec fn named_lookups(candidates: Seq<Seq<Seq<char>>>) -> Seq<Seq<Seq<char>>>
    decreases candidates.len(),
{
    if candidates.len() == 0 {
        Seq::empty()
    } else if candidates.last().len() == 0 {
        named_lookups(candidates.drop_last())
    } else {
        named_lookups(candidates.drop_last()).push(candidates.last())
    }
}

/// Each lookup that has a name has a query name.
pub proof fn lemma_named_lookups(candidates: Seq<Seq<Seq<char>>>)
    ensures
        forall|i: int|
            0 <= i < named_lookups(candidates).len() ==> (#[trigger] named_lookups(
                candidates,
            )[i]).len() > 0,
    decreases candidates.len(),
{
    if candidates.len() > 0 {
        let rest = named_lookups(candidates.drop_last());
        let all = named_lookups(candidates);
        lemma_named_lookups(candidates.drop_last());
        assert forall|i: int| 0 <= i < all.len() implies (#[trigger] all[i]).len() > 0 by {
            if i < rest.len() {
                assert(all[i] == rest[i]);
            }
        }
    }
}

pub open spec fn verdicts(
    files: Seq<RulesView>,
    grants: Map<Seq<char>, u64>,
    lookups: Seq<Seq<Seq<char>>>,
    now: Instant,
) -> Seq<VerdictView> {
    Seq::new(lookups.len(), |i: int| lookup_verdict(files, grants, lookups[i], now))
}

/// Whether every verdict is known and says `allow`.
pub open spec fn all_say(verdicts: Seq<VerdictView>, allow: bool) -> bool {
    forall|i: int|
        0 <= i < verdicts.len() ==> (#[trigger] verdicts[i]) is Some && (verdicts[i]->0).0 == allow
}

pub open spec fn all_unknown(verdicts: Seq<VerdictView>) -> bool {
    forall|i: int| 0 <= i < verdicts.len() ==> (#[trigger] verdicts[i]) is None
}

/// The decision on which all verdicts agree, for the first one's reason.
pub open spec fn agreed(verdicts: Seq<VerdictView>) -> Option<DecisionView> {
    if verdicts.len() == 0 {
        None
    } else if all_say(verdicts, true) {
        Some(
            DecisionView::Allow { reason: (verdicts[0]->0).1, ambiguous: verdicts.len() > 1 },
        )
    } else if all_say(verdicts, false) {
        Some(
            DecisionView::Deny { reason: (verdicts[0]->0).1, ambiguous: verdicts.len() > 1 },
        )
    } else {
        None
    }
}

pub open spec fn sayings(
    lookups: Seq<Seq<Seq<char>>>,
    verdicts: Seq<VerdictView>,
) -> Seq<(Seq<char>, Option<bool>)> {
    Seq::new(
        lookups.len(),
        |i: int|
            (
                lookups[i][0],
                match verdicts[i] {
                    Some((allow, _)) => Some(allow),
                    None => None::<bool>,
                },
            ),
    )
}

/// The rule for the first lookup that has one.
pub open spec fn lookups_rule(rules: Seq<PatternView>, lookups: Seq<Seq<Seq<char>>>) -> Option<
    PatternView,
>
    decreases lookups.len(),
{
    if lookups.len() == 0 {
        None
    } else if lookups_rule(rules, lookups.drop_last()) is Some {
        lookups_rule(rules, lookups.drop_last())
    } else {
        chain_rule(rules, lookups.last())
    }
}

/// What one file decides about an address that its rules name: denied if the
/// address is, else allowed, unless a name that was looked up for it is denied.
pub open spec fn address_decision(
    rules: RulesView,
    lookups: Seq<Seq<Seq<char>>>,
    address: IpAddr,
) -> Option<DecisionView> {
    match address_rule(rules.deny, address) {
        Some(rule) => Some(
            DecisionView::Deny { reason: ReasonView::DenyRule(rule), ambiguous: false },
        ),
        None => match address_rule(rules.allow, address) {
            Some(rule) => match lookups_rule(rules.deny, lookups) {
                Some(denied) => Some(
                    DecisionView::Deny {
                        reason: ReasonView::DenyRule(denied),
                        ambiguous: lookups.len() > 1,
                    },
                ),
                None => Some(
                    DecisionView::Allow { reason: ReasonView::AllowRule(rule), ambiguous: false },
                ),
            },
            None => None,
        },
    }
}

/// What stored rules decide, file by file: by the address where a rule names
/// it, else by the names where all lookups agree.
pub open spec fn rules_decision(
    files: Seq<RulesView>,
    lookups: Seq<Seq<Seq<char>>>,
    address: IpAddr,
) -> Option<DecisionView>
    decreases files.len(),
{
    if files.len() == 0 {
        None
    } else if rules_decision(files.drop_last(), lookups, address) is Some {
        rules_decision(files.drop_last(), lookups, address)
    } else if address_decision(files.last(), lookups, address) is Some {
        address_decision(files.last(), lookups, address)
    } else {
        agreed(verdicts(files, Map::empty(), lookups, 0))
    }
}

/// Rules allow or deny; they never ask.
pub proof fn lemma_rules_never_ask(
    files: Seq<RulesView>,
    lookups: Seq<Seq<Seq<char>>>,
    address: IpAddr,
)
    ensures
        rules_decision(files, lookups, address) matches Some(decision) ==> !(decision is Prompt),
    decreases files.len(),
{
    if files.len() > 0 {
        lemma_rules_never_ask(files.drop_last(), lookups, address);
    }
}

/// What is decided where no rule settles it: temporary allows, then a human.
pub open spec fn open_decision(
    files: Seq<RulesView>,
    grants: Map<Seq<char>, u64>,
    lookups: Seq<Seq<Seq<char>>>,
    address: IpAddr,
    now: Instant,
) -> DecisionView {
    if lookups.len() == 0 {
        if granted(grants, ip_text(address), now) {
            DecisionView::Allow { reason: ReasonView::Session, ambiguous: false }
        } else {
            DecisionView::Prompt(PromptView::Unresolved)
        }
    } else {
        let all = verdicts(files, grants, lookups, now);
        match agreed(all) {
            Some(decision) => decision,
            None => if all_unknown(all) {
                DecisionView::Prompt(PromptView::Unknown)
            } else {
                DecisionView::Prompt(PromptView::Disagreement(sayings(lookups, all)))
            },
        }
    }
}

/// The cloud's metadata service over IPv6, `fd00:ec2::254`.
pub const METADATA_V6: u128 = 0xfd00_0ec2_0000_0000_0000_0000_0000_0254;

/// Addresses that are never reachable and never promptable: metadata,
/// link-local, multicast, unspecified, broadcast.
pub open spec fn hard_denied(address: IpAddr) -> bool {
    match address.canonical() {
        // 169.254.0.0/16, 224.0.0.0/4, 0.0.0.0, 255.255.255.255
        IpAddr::V4(n) => n / 0x1_0000 == 0xa9fe || n / 0x1000_0000 == 14 || n == 0 || n
            == 0xffff_ffff,
        // ff00::/8, ::, fe80::/10
        IpAddr::V6(n) => n / 0x1_000000_00000000_00000000_00000000 == 0xff || n == 0 || n
            / 0x40_0000_0000_0000_0000_0000_0000_0000 == 0x3fa || n == METADATA_V6,
    }
}

/// The decision on a flow. Precedence, first match wins: malformed, hard
/// denies, open mode, rules, temporary allows, a human.
pub open spec fn decision(
    malformed: bool,
    address: IpAddr,
    candidates: Seq<Seq<Seq<char>>>,
    mode: Mode,
    files: Seq<RulesView>,
    grants: Map<Seq<char>, u64>,
    now: Instant,
) -> DecisionView {
    let target = address.canonical();
    let lookups = named_lookups(candidates);
    if malformed {
        DecisionView::Deny { reason: ReasonView::Malformed, ambiguous: false }
    } else if hard_denied(target) {
        DecisionView::Deny { reason: ReasonView::HardDeny, ambiguous: false }
    } else if mode == Mode::Open {
        DecisionView::Allow { reason: ReasonView::OpenMode, ambiguous: false }
    } else {
        match rules_decision(files, lookups, target) {
            Some(decision) => decision,
            None => open_decision(files, grants, lookups, target, now),
        }
    }
}

// ---------------------------------------------------------------------------
// Methods
// ---------------------------------------------------------------------------

impl Admission {
    /// Every candidate name once, query names and aliases alike.
    pub fn names(&self) -> (r: Vec<String>)
        ensures
            views(r@) == flat_names(chain_views(self.candidates@)),
    {
        flatten(&self.candidates)
    }

    /// The query names of the candidates that have one.
    pub fn queries(&self) -> (r: Vec<String>)
        ensures
            views(r@) == query_names(chain_views(self.candidates@)),
    {
        let ghost cv = chain_views(self.candidates@);
        let mut names: Vec<String> = Vec::new();
        let mut i: usize = 0;
        assert(cv.subrange(0, 0) =~= Seq::empty());
        assert(views(names@) =~= query_names(cv.subrange(0, 0)));
        while i < self.candidates.len()
            invariant
                i <= self.candidates@.len(),
                cv == chain_views(self.candidates@),
                views(names@) == query_names(cv.subrange(0, i as int)),
            decreases self.candidates@.len() - i,
        {
            assert(cv.subrange(0, i + 1).drop_last() =~= cv.subrange(0, i as int));
            let chain = &self.candidates[i];
            assert(cv[i as int] == views(chain@));
            let ghost done = views(names@);
            if chain.len() > 0 {
                names.push(chain[0].clone());
                assert(views(names@) =~= done.push(cv[i as int][0]));
            }
            assert(views(names@) =~= query_names(cv.subrange(0, i + 1)));
            i += 1;
        }
        assert(cv.subrange(0, cv.len() as int) =~= cv);
        names
    }
}

impl Default for Rules {
    fn default() -> (r: Self)
        ensures
            r@ == (RulesView { allow: Seq::empty(), deny: Seq::empty() }),
    {
        let r = Rules { allow: Vec::new(), deny: Vec::new() };
        assert(r@ =~= (RulesView { allow: Seq::empty(), deny: Seq::empty() }));
        r
    }
}

impl Default for Session {
    fn default() -> (r: Self)
        ensures
            r@ == Map::<Seq<char>, u64>::empty(),
    {
        Session { grants: TextMap::new() }
    }
}

impl Session {
    /// Allow `key` until `until`, whatever was granted before.
    pub fn grant(&mut self, key: &str, until: Instant)
        ensures
            final(self)@ == old(self)@.insert(key@, until),
    {
        self.grants.insert(key, until);
    }

    pub fn allows(&self, key: &str, now: Instant) -> (r: bool)
        ensures
            r == granted(self@, key@, now),
    {
        match self.grants.get(key) {
            Some(until) => *until > now,
            None => false,
        }
    }
}

/// The entries that texts write, where they write one.
pub open spec fn readable(names: Seq<Seq<char>>) -> Seq<PatternView>
    decreases names.len(),
{
    if names.len() == 0 {
        Seq::empty()
    } else {
        match pattern_text(names.last()) {
            Ok(pattern) => readable(names.drop_last()).push(pattern),
            Err(_) => readable(names.drop_last()),
        }
    }
}

/// The query names of the lookups that have one.
pub open spec fn query_names(candidates: Seq<Seq<Seq<char>>>) -> Seq<Seq<char>> {
    Seq::new(named_lookups(candidates).len(), |i: int| named_lookups(candidates)[i][0])
}

/// The names without a stored verdict.
pub open spec fn undecided(sayings: Seq<(Seq<char>, Option<bool>)>) -> Seq<Seq<char>>
    decreases sayings.len(),
{
    if sayings.len() == 0 {
        Seq::empty()
    } else if sayings.last().1 is None {
        undecided(sayings.drop_last()).push(sayings.last().0)
    } else {
        undecided(sayings.drop_last())
    }
}

impl PromptView {
    /// What an operator's answer is about.
    pub open spec fn subjects(self, address: IpAddr, candidates: Seq<Seq<Seq<char>>>) -> Seq<
        PatternView,
    > {
        match self {
            PromptView::Unresolved => seq![PatternView::Address(address.canonical())],
            PromptView::Unknown => readable(query_names(candidates)),
            PromptView::Disagreement(verdicts) => readable(undecided(verdicts)),
        }
    }
}

/// The entries that `names` write, where they write one.
pub(crate) fn read_names(names: &Vec<String>) -> (r: Vec<HostPattern>)
    ensures
        views(r@) == readable(views(names@)),
{
    let ghost nv = views(names@);
    let mut r: Vec<HostPattern> = Vec::new();
    let mut i: usize = 0;
    assert(nv.subrange(0, 0) =~= Seq::empty());
    assert(views(r@) =~= Seq::empty());
    while i < names.len()
        invariant
            i <= names@.len(),
            nv == views(names@),
            views(r@) == readable(nv.subrange(0, i as int)),
        decreases names@.len() - i,
    {
        assert(nv.subrange(0, i + 1).drop_last() =~= nv.subrange(0, i as int));
        let ghost done = views(r@);
        if let Ok(pattern) = HostPattern::from_str(names[i].as_str()) {
            r.push(pattern);
            assert(views(r@) =~= done.push(pattern@));
        }
        i += 1;
    }
    assert(nv.subrange(0, names@.len() as int) =~= nv);
    r
}

impl PromptKind {
    /// What an operator's answer is about: the address when unresolved,
    /// otherwise the query name of every candidate without a stored verdict.
    pub fn subjects(&self, admission: &Admission) -> (r: Vec<HostPattern>)
        ensures
            views(r@) == self@.subjects(admission.address, chain_views(admission.candidates@)),
    {
        match self {
            PromptKind::Unresolved => {
                let mut r: Vec<HostPattern> = Vec::new();
                r.push(HostPattern::Address(admission.address.to_canonical()));
                assert(views(r@) =~= self@.subjects(
                    admission.address,
                    chain_views(admission.candidates@),
                ));
                r
            },
            PromptKind::Unknown => {
                let names = admission.queries();
                read_names(&names)
            },
            PromptKind::Disagreement(verdicts) => {
                let ghost vv = named_verdicts(verdicts@);
                let mut names: Vec<String> = Vec::new();
                let mut i: usize = 0;
                assert(vv.subrange(0, 0) =~= Seq::empty());
                assert(views(names@) =~= undecided(vv.subrange(0, 0)));
                while i < verdicts.len()
                    invariant
                        i <= verdicts@.len(),
                        vv == named_verdicts(verdicts@),
                        views(names@) == undecided(vv.subrange(0, i as int)),
                    decreases verdicts@.len() - i,
                {
                    assert(vv.subrange(0, i + 1).drop_last() =~= vv.subrange(0, i as int));
                    let ghost done = views(names@);
                    if verdicts[i].1.is_none() {
                        names.push(verdicts[i].0.clone());
                        assert(views(names@) =~= done.push(vv[i as int].0));
                    }
                    i += 1;
                }
                assert(vv.subrange(0, vv.len() as int) =~= vv);
                read_names(&names)
            },
        }
    }
}

impl ReasonView {
    pub open spec fn text(self) -> Seq<char> {
        match self {
            ReasonView::Malformed => "malformed"@,
            ReasonView::HardDeny => "hard-deny"@,
            ReasonView::OpenMode => "open-mode"@,
            ReasonView::DenyRule(rule) => "deny-rule:"@ + rule.text(),
            ReasonView::AllowRule(rule) => "allow-rule:"@ + rule.text(),
            ReasonView::Session => "session"@,
        }
    }
}

impl Reason {
    pub fn to_text(&self) -> (r: String)
        ensures
            r@ == self@.text(),
    {
        match self {
            Reason::Malformed => "malformed".to_owned(),
            Reason::HardDeny => "hard-deny".to_owned(),
            Reason::OpenMode => "open-mode".to_owned(),
            Reason::DenyRule(rule) => concat("deny-rule:", rule.to_text().as_str()),
            Reason::AllowRule(rule) => concat("allow-rule:", rule.to_text().as_str()),
            Reason::Session => "session".to_owned(),
        }
    }
}

// ---------------------------------------------------------------------------
// Functions
// ---------------------------------------------------------------------------

/// Addresses that are never reachable and never promptable: metadata,
/// link-local, multicast, unspecified, broadcast.
pub fn is_hard_denied(address: IpAddr) -> (r: bool)
    ensures
        r == hard_denied(address),
{
    match address.to_canonical() {
        IpAddr::V4(n) => n / 0x1_0000 == 0xa9fe || n / 0x1000_0000 == 14 || n == 0 || n
            == 0xffff_ffff,
        IpAddr::V6(n) => n / 0x1_000000_00000000_00000000_00000000 == 0xff || n == 0 || n
            / 0x40_0000_0000_0000_0000_0000_0000_0000 == 0x3fa || n == METADATA_V6,
    }
}

fn find_address_rule(rules: &Vec<HostPattern>, address: IpAddr) -> (r: Option<&HostPattern>)
    ensures
        match r {
            Some(rule) => address_rule(views(rules@), address) == Some(rule@),
            None => address_rule(views(rules@), address) is None,
        },
{
    let ghost rv = views(rules@);
    let mut i: usize = 0;
    assert(rv.subrange(0, 0) =~= Seq::empty());
    while i < rules.len()
        invariant
            i <= rules@.len(),
            rv == views(rules@),
            address_rule(rv.subrange(0, i as int), address) is None,
        decreases rules@.len() - i,
    {
        assert(rv.subrange(0, i + 1).drop_last() =~= rv.subrange(0, i as int));
        if rules[i].matches_address(address) {
            proof {
                lemma_address_rule_extends(rv, i + 1, address);
            }
            return Some(&rules[i]);
        }
        i += 1;
    }
    assert(rv.subrange(0, rv.len() as int) =~= rv);
    None
}

proof fn lemma_address_rule_extends(rules: Seq<PatternView>, n: int, address: IpAddr)
    requires
        0 <= n <= rules.len(),
        address_rule(rules.subrange(0, n), address) is Some,
    ensures
        address_rule(rules, address) == address_rule(rules.subrange(0, n), address),
    decreases rules.len() - n,
{
    if n < rules.len() {
        assert(rules.subrange(0, n + 1).drop_last() =~= rules.subrange(0, n));
        lemma_address_rule_extends(rules, n + 1, address);
    } else {
        assert(rules.subrange(0, n) =~= rules);
    }
}

fn find_name_rule<'a>(rules: &'a Vec<HostPattern>, name: &str) -> (r: Option<&'a HostPattern>)
    ensures
        match r {
            Some(rule) => name_rule(views(rules@), name@) == Some(rule@),
            None => name_rule(views(rules@), name@) is None,
        },
{
    let ghost rv = views(rules@);
    let mut i: usize = 0;
    assert(rv.subrange(0, 0) =~= Seq::empty());
    while i < rules.len()
        invariant
            i <= rules@.len(),
            rv == views(rules@),
            name_rule(rv.subrange(0, i as int), name@) is None,
        decreases rules@.len() - i,
    {
        assert(rv.subrange(0, i + 1).drop_last() =~= rv.subrange(0, i as int));
        if rules[i].matches_name(name) {
            proof {
                lemma_name_rule_extends(rv, i + 1, name@);
            }
            return Some(&rules[i]);
        }
        i += 1;
    }
    assert(rv.subrange(0, rv.len() as int) =~= rv);
    None
}

proof fn lemma_name_rule_extends(rules: Seq<PatternView>, n: int, name: Seq<char>)
    requires
        0 <= n <= rules.len(),
        name_rule(rules.subrange(0, n), name) is Some,
    ensures
        name_rule(rules, name) == name_rule(rules.subrange(0, n), name),
    decreases rules.len() - n,
{
    if n < rules.len() {
        assert(rules.subrange(0, n + 1).drop_last() =~= rules.subrange(0, n));
        lemma_name_rule_extends(rules, n + 1, name);
    } else {
        assert(rules.subrange(0, n) =~= rules);
    }
}

fn find_chain_rule<'a>(rules: &'a Vec<HostPattern>, chain: &Chain) -> (r: Option<&'a HostPattern>)
    ensures
        match r {
            Some(rule) => chain_rule(views(rules@), views(chain@)) == Some(rule@),
            None => chain_rule(views(rules@), views(chain@)) is None,
        },
{
    let ghost cv = views(chain@);
    let mut i: usize = 0;
    assert(cv.subrange(0, 0) =~= Seq::empty());
    while i < chain.len()
        invariant
            i <= chain@.len(),
            cv == views(chain@),
            chain_rule(views(rules@), cv.subrange(0, i as int)) is None,
        decreases chain@.len() - i,
    {
        assert(cv.subrange(0, i + 1).drop_last() =~= cv.subrange(0, i as int));
        if let Some(rule) = find_name_rule(rules, chain[i].as_str()) {
            proof {
                lemma_chain_rule_extends(views(rules@), cv, i + 1);
            }
            return Some(rule);
        }
        i += 1;
    }
    assert(cv.subrange(0, cv.len() as int) =~= cv);
    None
}

proof fn lemma_chain_rule_extends(rules: Seq<PatternView>, chain: Seq<Seq<char>>, n: int)
    requires
        0 <= n <= chain.len(),
        chain_rule(rules, chain.subrange(0, n)) is Some,
    ensures
        chain_rule(rules, chain) == chain_rule(rules, chain.subrange(0, n)),
    decreases chain.len() - n,
{
    if n < chain.len() {
        assert(chain.subrange(0, n + 1).drop_last() =~= chain.subrange(0, n));
        lemma_chain_rule_extends(rules, chain, n + 1);
    } else {
        assert(chain.subrange(0, n) =~= chain);
    }
}

/// A verdict by its contents.
pub open spec fn verdict_view(v: Option<(bool, Reason)>) -> VerdictView {
    match v {
        Some((allow, reason)) => Some((allow, reason@)),
        None => None,
    }
}

pub open spec fn rules_views(files: Seq<&Rules>) -> Seq<RulesView> {
    Seq::new(files.len(), |i: int| files[i]@)
}

/// One lookup's verdict by the first `n` files.
fn chain_rules_verdict(files: &Vec<&Rules>, n: usize, chain: &Chain) -> (r: Option<(bool, Reason)>)
    requires
        n <= files@.len(),
    ensures
        verdict_view(r) == rules_verdict(
            rules_views(files@).subrange(0, n as int),
            views(chain@),
        ),
{
    let ghost fv = rules_views(files@);
    let mut i: usize = 0;
    assert(fv.subrange(0, 0) =~= Seq::empty());
    while i < n
        invariant
            i <= n <= files@.len(),
            fv == rules_views(files@),
            rules_verdict(fv.subrange(0, i as int), views(chain@)) is None,
        decreases n - i,
    {
        assert(fv.subrange(0, i + 1).drop_last() =~= fv.subrange(0, i as int));
        let found = match find_chain_rule(&files[i].deny, chain) {
            Some(rule) => Some((false, Reason::DenyRule(rule.clone()))),
            None => match find_chain_rule(&files[i].allow, chain) {
                Some(rule) => Some((true, Reason::AllowRule(rule.clone()))),
                None => None,
            },
        };
        assert(verdict_view(found) == file_verdict(fv[i as int], views(chain@)));
        if found.is_some() {
            proof {
                lemma_rules_verdict_extends(fv.subrange(0, n as int), i + 1, views(chain@));
                assert(fv.subrange(0, n as int).subrange(0, i + 1) =~= fv.subrange(0, i + 1));
            }
            return found;
        }
        i += 1;
    }
    None
}

proof fn lemma_rules_verdict_extends(files: Seq<RulesView>, n: int, chain: Seq<Seq<char>>)
    requires
        0 <= n <= files.len(),
        rules_verdict(files.subrange(0, n), chain) is Some,
    ensures
        rules_verdict(files, chain) == rules_verdict(files.subrange(0, n), chain),
    decreases files.len() - n,
{
    if n < files.len() {
        assert(files.subrange(0, n + 1).drop_last() =~= files.subrange(0, n));
        lemma_rules_verdict_extends(files, n + 1, chain);
    } else {
        assert(files.subrange(0, n) =~= files);
    }
}

/// What one lookup comes to by its names. It is denied if any is denied, else allowed
/// if any is allowed (by rule, then by session), else unknown.
fn chain_verdict(
    chain: &Chain,
    files: &Vec<&Rules>,
    n: usize,
    session: &Session,
    now: Instant,
) -> (r: Option<(bool, Reason)>)
    requires
        n <= files@.len(),
    ensures
        verdict_view(r) == lookup_verdict(
            rules_views(files@).subrange(0, n as int),
            session@,
            views(chain@),
            now,
        ),
{
    let by_rule = chain_rules_verdict(files, n, chain);
    if by_rule.is_some() {
        return by_rule;
    }
    let mut i: usize = 0;
    while i < chain.len()
        invariant
            i <= chain@.len(),
            rules_verdict(rules_views(files@).subrange(0, n as int), views(chain@)) is None,
            forall|j: int| 0 <= j < i ==> !granted(session@, #[trigger] views(chain@)[j], now),
        decreases chain@.len() - i,
    {
        if session.allows(chain[i].as_str(), now) {
            assert(granted(session@, views(chain@)[i as int], now));
            return Some((true, Reason::Session));
        }
        i += 1;
    }
    None
}

pub open spec fn verdict_views(s: Seq<(String, Option<(bool, Reason)>)>) -> Seq<VerdictView> {
    Seq::new(s.len(), |i: int| verdict_view(s[i].1))
}

pub open spec fn verdict_names(s: Seq<(String, Option<(bool, Reason)>)>) -> Seq<Seq<char>> {
    Seq::new(s.len(), |i: int| s[i].0@)
}

/// The verdicts of the named lookups by the first `n` files and a session.
fn lookup_verdicts(
    candidates: &Vec<Chain>,
    files: &Vec<&Rules>,
    n: usize,
    session: &Session,
    now: Instant,
) -> (r: Vec<(String, Option<(bool, Reason)>)>)
    requires
        n <= files@.len(),
    ensures
        verdict_views(r@) == verdicts(
            rules_views(files@).subrange(0, n as int),
            session@,
            named_lookups(chain_views(candidates@)),
            now,
        ),
        verdict_names(r@) == query_names(chain_views(candidates@)),
{
    let ghost cv = chain_views(candidates@);
    let ghost fv = rules_views(files@).subrange(0, n as int);
    let mut r: Vec<(String, Option<(bool, Reason)>)> = Vec::new();
    let mut i: usize = 0;
    assert(cv.subrange(0, 0) =~= Seq::empty());
    assert(verdict_views(r@) =~= verdicts(fv, session@, named_lookups(cv.subrange(0, 0)), now));
    assert(verdict_names(r@) =~= query_names(cv.subrange(0, 0)));
    while i < candidates.len()
        invariant
            i <= candidates@.len(),
            n <= files@.len(),
            cv == chain_views(candidates@),
            fv == rules_views(files@).subrange(0, n as int),
            verdict_views(r@) == verdicts(
                fv,
                session@,
                named_lookups(cv.subrange(0, i as int)),
                now,
            ),
            verdict_names(r@) == query_names(cv.subrange(0, i as int)),
        decreases candidates@.len() - i,
    {
        assert(cv.subrange(0, i + 1).drop_last() =~= cv.subrange(0, i as int));
        let chain = &candidates[i];
        assert(cv[i as int] == views(chain@));
        if chain.len() > 0 {
            let ghost done_verdicts = verdict_views(r@);
            let ghost done_names = verdict_names(r@);
            let verdict = chain_verdict(chain, files, n, session, now);
            let ghost vv = verdict_view(verdict);
            r.push((chain[0].clone(), verdict));
            assert(verdict_views(r@) =~= done_verdicts.push(vv));
            assert(verdict_names(r@) =~= done_names.push(cv[i as int][0]));
            assert(verdict_views(r@) =~= verdicts(
                fv,
                session@,
                named_lookups(cv.subrange(0, i + 1)),
                now,
            ));
            assert(verdict_names(r@) =~= query_names(cv.subrange(0, i + 1)));
        }
        i += 1;
    }
    assert(cv.subrange(0, cv.len() as int) =~= cv);
    r
}

/// The decision on which all verdicts agree.
fn agreement(verdicts: &Vec<(String, Option<(bool, Reason)>)>) -> (r: Option<Decision>)
    ensures
        match r {
            Some(decision) => agreed(verdict_views(verdicts@)) == Some(decision@),
            None => agreed(verdict_views(verdicts@)) is None,
        },
{
    let ghost vv = verdict_views(verdicts@);
    if verdicts.len() == 0 {
        return None;
    }
    assert(vv[0] == verdict_view(verdicts@[0].1));
    let (allow, reason) = match &verdicts[0].1 {
        None => {
            return None;
        },
        Some((allow, reason)) => (*allow, reason.clone()),
    };
    let mut i: usize = 1;
    while i < verdicts.len()
        invariant
            1 <= i <= verdicts@.len(),
            vv == verdict_views(verdicts@),
            vv[0] == Some((allow, reason@)),
            forall|j: int|
                0 <= j < i ==> (#[trigger] vv[j]) is Some && (vv[j]->0).0 == allow,
        decreases verdicts@.len() - i,
    {
        let agrees = match &verdicts[i].1 {
            None => false,
            Some((other, _)) => *other == allow,
        };
        assert(vv[i as int] == verdict_view(verdicts@[i as int].1));
        if !agrees {
            return None;
        }
        i += 1;
    }
    let ambiguous = verdicts.len() > 1;
    if allow {
        Some(Decision::Allow { reason, ambiguous })
    } else {
        Some(Decision::Deny { reason, ambiguous })
    }
}

/// The rule for the first named lookup that has one, and how many lookups have
/// a name.
fn find_lookup_rule<'a>(rules: &'a Vec<HostPattern>, candidates: &Vec<Chain>) -> (r: (
    Option<&'a HostPattern>,
    usize,
))
    ensures
        match r.0 {
            Some(rule) => lookups_rule(views(rules@), named_lookups(chain_views(candidates@)))
                == Some(rule@),
            None => lookups_rule(views(rules@), named_lookups(chain_views(candidates@))) is None,
        },
        r.1 == named_lookups(chain_views(candidates@)).len(),
{
    let ghost cv = chain_views(candidates@);
    let mut found: Option<&HostPattern> = None;
    let mut named: usize = 0;
    let mut i: usize = 0;
    assert(cv.subrange(0, 0) =~= Seq::empty());
    while i < candidates.len()
        invariant
            i <= candidates@.len(),
            named <= i,
            cv == chain_views(candidates@),
            named == named_lookups(cv.subrange(0, i as int)).len(),
            match found {
                Some(rule) => lookups_rule(views(rules@), named_lookups(cv.subrange(0, i as int)))
                    == Some(rule@),
                None => lookups_rule(views(rules@), named_lookups(cv.subrange(0, i as int))) is None,
            },
        decreases candidates@.len() - i,
    {
        assert(cv.subrange(0, i + 1).drop_last() =~= cv.subrange(0, i as int));
        let chain = &candidates[i];
        assert(cv[i as int] == views(chain@));
        if chain.len() > 0 {
            let ghost done = named_lookups(cv.subrange(0, i as int));
            assert(done.push(cv[i as int]).drop_last() =~= done);
            if found.is_none() {
                found = find_chain_rule(rules, chain);
            }
            named += 1;
        }
        i += 1;
    }
    assert(cv.subrange(0, cv.len() as int) =~= cv);
    (found, named)
}

/// What one file decides about an address that its rules name: every `deny`, by
/// address and by name, before an `allow`.
fn decide_address(rules: &Rules, candidates: &Vec<Chain>, address: IpAddr) -> (r: Option<Decision>)
    ensures
        ({
            let lookups = named_lookups(chain_views(candidates@));
            match r {
                Some(decision) => address_decision(rules@, lookups, address) == Some(decision@),
                None => address_decision(rules@, lookups, address) is None,
            }
        }),
{
    match find_address_rule(&rules.deny, address) {
        Some(rule) => Some(
            Decision::Deny { reason: Reason::DenyRule(rule.clone()), ambiguous: false },
        ),
        None => match find_address_rule(&rules.allow, address) {
            Some(rule) => {
                let (denied, named) = find_lookup_rule(&rules.deny, candidates);
                match denied {
                    Some(denied) => Some(
                        Decision::Deny {
                            reason: Reason::DenyRule(denied.clone()),
                            ambiguous: named > 1,
                        },
                    ),
                    None => Some(
                        Decision::Allow { reason: Reason::AllowRule(rule.clone()), ambiguous: false },
                    ),
                }
            },
            None => None,
        },
    }
}

/// Decide by one file's rules.
///
/// Precedence, first match wins: malformed, hard denies, open mode, rules that
/// name the address (every deny, by address and by name, before allow), then
/// per-candidate verdicts.
pub fn decide(
    admission: &Admission,
    mode: Mode,
    rules: &Rules,
    session: &Session,
    now: Instant,
) -> (r: Decision)
    ensures
        r@ == decision(
            admission.malformed,
            admission.address,
            chain_views(admission.candidates@),
            mode,
            seq![rules@],
            session@,
            now,
        ),
{
    let mut files: Vec<&Rules> = Vec::new();
    files.push(rules);
    assert(rules_views(files@) =~= seq![rules@]);
    decide_by_files(admission, mode, &files, session, now)
}

/// Decide by the kitchen file's rules, then by those for every sandbox.
pub fn decide_layered(
    admission: &Admission,
    mode: Mode,
    kitchen: &Rules,
    global: &Rules,
    session: &Session,
    now: Instant,
) -> (r: Decision)
    ensures
        r@ == decision(
            admission.malformed,
            admission.address,
            chain_views(admission.candidates@),
            mode,
            seq![kitchen@, global@],
            session@,
            now,
        ),
{
    let mut files: Vec<&Rules> = Vec::new();
    files.push(kitchen);
    files.push(global);
    assert(rules_views(files@) =~= seq![kitchen@, global@]);
    decide_by_files(admission, mode, &files, session, now)
}

fn decide_by_files(
    admission: &Admission,
    mode: Mode,
    files: &Vec<&Rules>,
    session: &Session,
    now: Instant,
) -> (r: Decision)
    ensures
        r@ == decision(
            admission.malformed,
            admission.address,
            chain_views(admission.candidates@),
            mode,
            rules_views(files@),
            session@,
            now,
        ),
{
    if admission.malformed {
        return Decision::Deny { reason: Reason::Malformed, ambiguous: false };
    }
    let address = admission.address.to_canonical();
    if is_hard_denied(address) {
        return Decision::Deny { reason: Reason::HardDeny, ambiguous: false };
    }
    if mode == Mode::Open {
        return Decision::Allow { reason: Reason::OpenMode, ambiguous: false };
    }
    let ghost fv = rules_views(files@);
    let ghost lookups = named_lookups(chain_views(admission.candidates@));
    // Name rules only ever see names bound to this address for this sandbox,
    // which is what makes a name allowlist meaningful here.
    let nothing = Session::default();
    let mut i: usize = 0;
    assert(fv.subrange(0, 0) =~= Seq::empty());
    while i < files.len()
        invariant
            i <= files@.len(),
            fv == rules_views(files@),
            nothing@ == Map::<Seq<char>, u64>::empty(),
            lookups == named_lookups(chain_views(admission.candidates@)),
            !admission.malformed,
            address == admission.address.canonical(),
            !hard_denied(address),
            mode == Mode::Enforce,
            rules_decision(fv.subrange(0, i as int), lookups, address) is None,
        decreases files@.len() - i,
    {
        assert(fv.subrange(0, i + 1).drop_last() =~= fv.subrange(0, i as int));
        assert(fv.subrange(0, i + 1).last() == files@[i as int]@);
        let by_address = decide_address(files[i], &admission.candidates, address);
        if let Some(decision) = by_address {
            proof {
                lemma_rules_decision_extends(fv, i + 1, lookups, address);
            }
            return decision;
        }
        let by_name = lookup_verdicts(&admission.candidates, files, i + 1, &nothing, 0);
        if let Some(decision) = agreement(&by_name) {
            proof {
                lemma_rules_decision_extends(fv, i + 1, lookups, address);
            }
            return decision;
        }
        i += 1;
    }
    assert(fv.subrange(0, fv.len() as int) =~= fv);
    let verdicts = lookup_verdicts(&admission.candidates, files, files.len(), session, now);
    let ghost vv = verdict_views(verdicts@);
    assert(vv.len() == lookups.len());
    if verdicts.len() == 0 {
        return if session.allows(address.text().as_str(), now) {
            Decision::Allow { reason: Reason::Session, ambiguous: false }
        } else {
            Decision::Prompt(PromptKind::Unresolved)
        };
    }
    if let Some(decision) = agreement(&verdicts) {
        return decision;
    }
    let mut unknown = true;
    let mut named: Vec<(String, Option<bool>)> = Vec::new();
    let mut k: usize = 0;
    let ghost said = sayings(lookups, vv);
    assert(named_verdicts(named@) =~= said.subrange(0, 0));
    while k < verdicts.len()
        invariant
            k <= verdicts@.len(),
            vv == verdict_views(verdicts@),
            vv.len() == lookups.len(),
            verdict_names(verdicts@) == query_names(chain_views(admission.candidates@)),
            lookups == named_lookups(chain_views(admission.candidates@)),
            said == sayings(lookups, vv),
            named_verdicts(named@) == said.subrange(0, k as int),
            unknown == (forall|j: int| 0 <= j < k ==> (#[trigger] vv[j]) is None),
        decreases verdicts@.len() - k,
    {
        let allowed = match &verdicts[k].1 {
            None => None,
            Some((allow, _)) => {
                Some(*allow)
            },
        };
        assert(vv[k as int] == verdict_view(verdicts@[k as int].1));
        if allowed.is_some() {
            unknown = false;
        }
        let ghost done = named_verdicts(named@);
        let name = verdicts[k].0.clone();
        assert(verdict_names(verdicts@)[k as int] == name@);
        named.push((name, allowed));
        assert(named_verdicts(named@) =~= done.push(said[k as int]));
        assert(named_verdicts(named@) =~= said.subrange(0, k + 1));
        k += 1;
    }
    assert(said.subrange(0, said.len() as int) =~= said);
    if unknown {
        assert(all_unknown(vv));
        return Decision::Prompt(PromptKind::Unknown);
    }
    Decision::Prompt(PromptKind::Disagreement(named))
}

proof fn lemma_rules_decision_extends(
    files: Seq<RulesView>,
    n: int,
    lookups: Seq<Seq<Seq<char>>>,
    address: IpAddr,
)
    requires
        0 <= n <= files.len(),
        rules_decision(files.subrange(0, n), lookups, address) is Some,
    ensures
        rules_decision(files, lookups, address) == rules_decision(
            files.subrange(0, n),
            lookups,
            address,
        ),
    decreases files.len() - n,
{
    if n < files.len() {
        assert(files.subrange(0, n + 1).drop_last() =~= files.subrange(0, n));
        lemma_rules_decision_extends(files, n + 1, lookups, address);
    } else {
        assert(files.subrange(0, n) =~= files);
    }
}

// ---------------------------------------------------------------------------
// Laws
// ---------------------------------------------------------------------------

/// A malformed request and a hard-denied address are refused in every mode,
/// whatever rules, names and temporary allows say.
pub proof fn law_malformed_and_hard_denies_win(
    malformed: bool,
    address: IpAddr,
    candidates: Seq<Seq<Seq<char>>>,
    mode: Mode,
    files: Seq<RulesView>,
    grants: Map<Seq<char>, u64>,
    now: Instant,
)
    requires
        malformed || hard_denied(address),
    ensures
        decision(malformed, address, candidates, mode, files, grants, now) is Deny,
{
    crate::ip::lemma_canonical_idempotent(address);
}

/// In open mode every other request is allowed.
pub proof fn law_open_mode_allows_the_rest(
    address: IpAddr,
    candidates: Seq<Seq<Seq<char>>>,
    files: Seq<RulesView>,
    grants: Map<Seq<char>, u64>,
    now: Instant,
)
    requires
        !hard_denied(address),
    ensures
        decision(false, address, candidates, Mode::Open, files, grants, now) is Allow,
{
    crate::ip::lemma_canonical_idempotent(address);
}

/// A mapped IPv6 address is judged as the IPv4 address in it.
pub proof fn law_decisions_canonicalize(
    malformed: bool,
    address: IpAddr,
    candidates: Seq<Seq<Seq<char>>>,
    mode: Mode,
    files: Seq<RulesView>,
    grants: Map<Seq<char>, u64>,
    now: Instant,
)
    ensures
        decision(malformed, address.canonical(), candidates, mode, files, grants, now) == decision(
            malformed,
            address,
            candidates,
            mode,
            files,
            grants,
            now,
        ),
{
    crate::ip::lemma_canonical_idempotent(address);
}

/// Whether some address rule of some file matches.
pub open spec fn address_ruled(files: Seq<RulesView>, address: IpAddr) -> bool {
    exists|f: int|
        0 <= f < files.len() && (address_rule(
            (#[trigger] files[f]).deny,
            address.canonical(),
        ) is Some || address_rule(files[f].allow, address.canonical()) is Some)
}

/// Whether a lookup has a name that some file allows, or that is allowed
/// temporarily.
pub open spec fn vouched(
    files: Seq<RulesView>,
    grants: Map<Seq<char>, u64>,
    chain: Seq<Seq<char>>,
    now: Instant,
) -> bool {
    ||| chain_granted(grants, chain, now)
    ||| exists|f: int, i: int|
        0 <= f < files.len() && 0 <= i < chain.len() && name_rule(
            (#[trigger] files[f]).allow,
            #[trigger] chain[i],
        ) is Some
}

/// No laundering: where no address rule applies, a connection is allowed only
/// if every lookup that gave the address is vouched for by a name of its own,
/// and an allowed address that was looked up more than once is marked
/// ambiguous.
pub proof fn law_every_lookup_must_be_allowed(
    address: IpAddr,
    candidates: Seq<Seq<Seq<char>>>,
    files: Seq<RulesView>,
    grants: Map<Seq<char>, u64>,
    now: Instant,
)
    requires
        !address_ruled(files, address),
        named_lookups(candidates).len() > 0,
    ensures
        decision(false, address, candidates, Mode::Enforce, files, grants, now) matches
            DecisionView::Allow { ambiguous, .. } ==> {
            &&& ambiguous == (named_lookups(candidates).len() > 1)
            &&& forall|k: int|
                0 <= k < named_lookups(candidates).len() ==> vouched(
                    files,
                    grants,
                    #[trigger] named_lookups(candidates)[k],
                    now,
                )
        },
{
    let target = address.canonical();
    let lookups = named_lookups(candidates);
    if !hard_denied(target) {
        lemma_rules_decision_vouched(files, files.len() as int, lookups, address, grants, now);
        assert(files.subrange(0, files.len() as int) =~= files);
        if rules_decision(files, lookups, target) is None {
            let all = verdicts(files, grants, lookups, now);
            if all_say(all, true) {
                assert forall|k: int| 0 <= k < lookups.len() implies vouched(
                    files,
                    grants,
                    #[trigger] lookups[k],
                    now,
                ) by {
                    assert(all[k] is Some);
                    lemma_verdict_vouched(files, files.len() as int, grants, lookups[k], now);
                }
            }
        }
    }
}

proof fn lemma_rules_decision_vouched(
    files: Seq<RulesView>,
    n: int,
    lookups: Seq<Seq<Seq<char>>>,
    address: IpAddr,
    grants: Map<Seq<char>, u64>,
    now: Instant,
)
    requires
        0 <= n <= files.len(),
        lookups.len() > 0,
        !address_ruled(files, address),
    ensures
        rules_decision(files.subrange(0, n), lookups, address.canonical()) matches Some(
            DecisionView::Allow { ambiguous, .. },
        ) ==> {
            &&& ambiguous == (lookups.len() > 1)
            &&& forall|k: int|
                0 <= k < lookups.len() ==> vouched(files, grants, #[trigger] lookups[k], now)
        },
    decreases n,
{
    let part = files.subrange(0, n);
    if n > 0 {
        assert(part.drop_last() =~= files.subrange(0, n - 1));
        lemma_rules_decision_vouched(files, n - 1, lookups, address, grants, now);
        assert(part.last() == files[n - 1]);
        assert(address_decision(files[n - 1], lookups, address.canonical()) is None);
        let all = verdicts(part, Map::empty(), lookups, 0);
        if all_say(all, true) {
            assert forall|k: int| 0 <= k < lookups.len() implies vouched(
                files,
                grants,
                #[trigger] lookups[k],
                now,
            ) by {
                assert(all[k] is Some);
                assert(!chain_granted(Map::empty(), lookups[k], 0));
                lemma_verdict_vouched(files, n, Map::empty(), lookups[k], 0);
            }
        }
    }
}

proof fn lemma_verdict_vouched(
    files: Seq<RulesView>,
    n: int,
    grants: Map<Seq<char>, u64>,
    chain: Seq<Seq<char>>,
    now: Instant,
)
    requires
        0 <= n <= files.len(),
    ensures
        lookup_verdict(files.subrange(0, n), grants, chain, now) matches Some((true, _)) ==> vouched(
            files,
            grants,
            chain,
            now,
        ),
    decreases n,
{
    let part = files.subrange(0, n);
    if n > 0 && rules_verdict(part, chain) is Some {
        assert(part.drop_last() =~= files.subrange(0, n - 1));
        lemma_verdict_vouched(files, n - 1, grants, chain, now);
        if rules_verdict(part.drop_last(), chain) is None {
            lemma_chain_rule(files[n - 1].allow, chain);
        }
    }
}

/// A chain has a rule exactly where one of its names has one.
proof fn lemma_chain_rule(rules: Seq<PatternView>, chain: Seq<Seq<char>>)
    ensures
        chain_rule(rules, chain) is Some <==> exists|i: int|
            0 <= i < chain.len() && name_rule(rules, #[trigger] chain[i]) is Some,
    decreases chain.len(),
{
    if chain.len() > 0 {
        let rest = chain.drop_last();
        lemma_chain_rule(rules, rest);
        if chain_rule(rules, rest) is Some {
            let i = choose|i: int| 0 <= i < rest.len() && name_rule(rules, #[trigger] rest[i]) is Some;
            assert(name_rule(rules, chain[i]) is Some);
        } else if name_rule(rules, chain.last()) is Some {
            assert(name_rule(rules, chain[chain.len() - 1]) is Some);
        } else {
            assert forall|i: int| 0 <= i < chain.len() implies name_rule(rules, #[trigger] chain[i]) is None by {
                if i < rest.len() {
                    assert(rest[i] == chain[i]);
                }
            }
        }
    }
}

/// A lookup has a rule exactly where one of the lookups has one.
proof fn lemma_lookups_rule(rules: Seq<PatternView>, lookups: Seq<Seq<Seq<char>>>)
    ensures
        lookups_rule(rules, lookups) is Some <==> exists|k: int|
            0 <= k < lookups.len() && chain_rule(rules, #[trigger] lookups[k]) is Some,
    decreases lookups.len(),
{
    if lookups.len() > 0 {
        let rest = lookups.drop_last();
        lemma_lookups_rule(rules, rest);
        if lookups_rule(rules, rest) is Some {
            let k = choose|k: int| 0 <= k < rest.len() && chain_rule(rules, #[trigger] rest[k]) is Some;
            assert(chain_rule(rules, lookups[k]) is Some);
        } else if chain_rule(rules, lookups.last()) is Some {
            assert(chain_rule(rules, lookups[lookups.len() - 1]) is Some);
        } else {
            assert forall|k: int| 0 <= k < lookups.len() implies chain_rule(rules, #[trigger] lookups[k]) is None by {
                if k < rest.len() {
                    assert(rest[k] == lookups[k]);
                }
            }
        }
    }
}

/// Deny beats allow within a file: a denied address is refused whatever the
/// file allows, a connection whose address was looked up by a denied name is
/// never allowed, and where the file allows the address it is refused.
pub proof fn law_deny_beats_allow(
    address: IpAddr,
    candidates: Seq<Seq<Seq<char>>>,
    rules: RulesView,
    grants: Map<Seq<char>, u64>,
    now: Instant,
)
    ensures
        address_rule(rules.deny, address.canonical()) is Some ==> decision(
            false,
            address,
            candidates,
            Mode::Enforce,
            seq![rules],
            grants,
            now,
        ) is Deny,
        (exists|k: int, i: int|
            0 <= k < named_lookups(candidates).len() && 0 <= i < named_lookups(candidates)[k].len()
                && name_rule(rules.deny, #[trigger] named_lookups(candidates)[k][i]) is Some) ==> {
            let decided = decision(
                false,
                address,
                candidates,
                Mode::Enforce,
                seq![rules],
                grants,
                now,
            );
            &&& !(decided is Allow)
            &&& address_rule(rules.allow, address.canonical()) is Some ==> decided is Deny
        },
{
    let target = address.canonical();
    let files = seq![rules];
    let lookups = named_lookups(candidates);
    assert(files.drop_last() =~= Seq::empty());
    assert(rules_decision(Seq::empty(), lookups, target) is None);
    if exists|k: int, i: int|
        0 <= k < lookups.len() && 0 <= i < lookups[k].len() && name_rule(
            rules.deny,
            #[trigger] lookups[k][i],
        ) is Some {
        let (k, i) = choose|k: int, i: int|
            0 <= k < lookups.len() && 0 <= i < lookups[k].len() && name_rule(
                rules.deny,
                #[trigger] lookups[k][i],
            ) is Some;
        lemma_chain_rule(rules.deny, lookups[k]);
        assert(name_rule(rules.deny, lookups[k][i]) is Some);
        lemma_lookups_rule(rules.deny, lookups);
        assert(chain_rule(rules.deny, lookups[k]) is Some);
        assert(rules_verdict(Seq::<RulesView>::empty(), lookups[k]) is None);
        assert(rules_verdict(files, lookups[k]) == file_verdict(rules, lookups[k]));
        let by_rules = verdicts(files, Map::empty(), lookups, 0);
        assert(by_rules[k] is Some && !(by_rules[k]->0).0);
        let all = verdicts(files, grants, lookups, now);
        assert(all[k] is Some && !(all[k]->0).0);
    }
}

/// A name rule never decides about an address that the sandbox did not look
/// up: without lookups and address rules, only a temporary allow of the
/// address itself or a human lets it through.
pub proof fn law_name_rules_need_a_lookup(
    address: IpAddr,
    candidates: Seq<Seq<Seq<char>>>,
    files: Seq<RulesView>,
    grants: Map<Seq<char>, u64>,
    now: Instant,
)
    requires
        !hard_denied(address),
        !address_ruled(files, address),
        named_lookups(candidates).len() == 0,
    ensures
        decision(false, address, candidates, Mode::Enforce, files, grants, now) == if granted(
            grants,
            ip_text(address.canonical()),
            now,
        ) {
            DecisionView::Allow { reason: ReasonView::Session, ambiguous: false }
        } else {
            DecisionView::Prompt(PromptView::Unresolved)
        },
{
    crate::ip::lemma_canonical_idempotent(address);
    lemma_no_lookup_no_rule(files, files.len() as int, named_lookups(candidates), address);
    assert(files.subrange(0, files.len() as int) =~= files);
}

proof fn lemma_no_lookup_no_rule(
    files: Seq<RulesView>,
    n: int,
    lookups: Seq<Seq<Seq<char>>>,
    address: IpAddr,
)
    requires
        0 <= n <= files.len(),
        lookups.len() == 0,
        !address_ruled(files, address),
    ensures
        rules_decision(files.subrange(0, n), lookups, address.canonical()) is None,
    decreases n,
{
    if n > 0 {
        let part = files.subrange(0, n);
        assert(part.drop_last() =~= files.subrange(0, n - 1));
        lemma_no_lookup_no_rule(files, n - 1, lookups, address);
        assert(part.last() == files[n - 1]);
        assert(address_decision(files[n - 1], lookups, address.canonical()) is None);
    }
}

/// Without rules for every sandbox, the kitchen file alone decides.
pub proof fn law_empty_global_rules_change_nothing(
    malformed: bool,
    address: IpAddr,
    candidates: Seq<Seq<Seq<char>>>,
    mode: Mode,
    kitchen: RulesView,
    global: RulesView,
    grants: Map<Seq<char>, u64>,
    now: Instant,
)
    requires
        global.allow.len() == 0,
        global.deny.len() == 0,
    ensures
        decision(malformed, address, candidates, mode, seq![kitchen, global], grants, now)
            == decision(malformed, address, candidates, mode, seq![kitchen], grants, now),
{
    let two = seq![kitchen, global];
    let one = seq![kitchen];
    let lookups = named_lookups(candidates);
    let target = address.canonical();
    assert(two.drop_last() =~= one);
    assert forall|k: int| 0 <= k < lookups.len() implies rules_verdict(two, #[trigger] lookups[k])
        == rules_verdict(one, lookups[k]) by {
        lemma_chain_rule(global.deny, lookups[k]);
        lemma_chain_rule(global.allow, lookups[k]);
    }
    assert(verdicts(two, grants, lookups, now) =~= verdicts(one, grants, lookups, now));
    assert(verdicts(two, Map::empty(), lookups, 0) =~= verdicts(one, Map::empty(), lookups, 0));
    assert(rules_decision(two, lookups, target) == rules_decision(one, lookups, target));
}

/// A temporary allow holds until its end and not from then on, and leaves
/// every other key as it was.
pub proof fn law_grants_expire(
    grants: Map<Seq<char>, u64>,
    key: Seq<char>,
    other: Seq<char>,
    until: Instant,
    now: Instant,
)
    ensures
        granted(grants.insert(key, until), key, now) <==> now < until,
        other != key ==> granted(grants.insert(key, until), other, now) == granted(
            grants,
            other,
            now,
        ),
{
}

// ---------------------------------------------------------------------------
// What a decision means
// ---------------------------------------------------------------------------

/// Whether an entry is for a name: `example.com` is for that name, and
/// `*.example.com` for it and every name below it.
pub open spec fn is_for_name(rule: PatternView, name: Seq<char>) -> bool {
    match rule {
        PatternView::Exact(exact) => lowercase(name) == exact,
        PatternView::Suffix(suffix) => lowercase(name) == suffix || exists|prefix: Seq<char>|
            lowercase(name) == #[trigger] (prefix + "."@ + suffix),
        _ => false,
    }
}

/// Whether an entry is for an address: the address itself, or one that has the
/// leading bits of the network.
pub open spec fn is_for_address(rule: PatternView, address: IpAddr) -> bool {
    match rule {
        PatternView::Address(own) => own.canonical() == address.canonical(),
        PatternView::Network(net) => match (net.address, address.canonical()) {
            (IpAddr::V4(n), IpAddr::V4(a)) => if net.prefix < 32 {
                n as nat / pow2((32 - net.prefix) as nat) == a as nat / pow2(
                    (32 - net.prefix) as nat,
                )
            } else {
                n == a
            },
            (IpAddr::V6(n), IpAddr::V6(a)) => if net.prefix < 128 {
                n as nat / pow2((128 - net.prefix) as nat) == a as nat / pow2(
                    (128 - net.prefix) as nat,
                )
            } else {
                n == a
            },
            _ => false,
        },
        _ => false,
    }
}

/// Whether some entry of a list is for some name of a lookup.
pub open spec fn names_listed(rules: Seq<PatternView>, chain: Seq<Seq<char>>) -> bool {
    exists|r: int, i: int|
        0 <= r < rules.len() && 0 <= i < chain.len() && is_for_name(
            #[trigger] rules[r],
            #[trigger] chain[i],
        )
}

/// Whether some entry of a list is for an address.
pub open spec fn address_listed(rules: Seq<PatternView>, address: IpAddr) -> bool {
    exists|r: int| 0 <= r < rules.len() && is_for_address(#[trigger] rules[r], address)
}

/// Whether a file allows or denies a lookup, and is the first that speaks of it: a
/// file denies it where it denies one of its names, and allows it where it allows
/// one and denies none.
pub open spec fn says_first(
    files: Seq<RulesView>,
    f: int,
    chain: Seq<Seq<char>>,
    allow: bool,
) -> bool {
    &&& if allow {
        names_listed(files[f].allow, chain) && !names_listed(files[f].deny, chain)
    } else {
        names_listed(files[f].deny, chain)
    }
    &&& forall|g: int|
        0 <= g < f ==> !(#[trigger] names_listed(files[g].deny, chain)) && !names_listed(
            files[g].allow,
            chain,
        )
}

/// Whether the first of some files that speaks of a lookup allows or denies it.
pub open spec fn stands(files: Seq<RulesView>, n: int, chain: Seq<Seq<char>>, allow: bool) -> bool {
    exists|f: int| 0 <= f < n && #[trigger] says_first(files, f, chain, allow)
}

/// Whether there are lookups, and some files say the same of each.
pub open spec fn settled(
    files: Seq<RulesView>,
    n: int,
    lookups: Seq<Seq<Seq<char>>>,
    allow: bool,
) -> bool {
    lookups.len() > 0 && forall|k: int|
        0 <= k < lookups.len() ==> stands(files, n, #[trigger] lookups[k], allow)
}

/// Whether a file, with those before it, settles a flow: it lists the address, or
/// the lookups agree.
pub open spec fn settles(
    files: Seq<RulesView>,
    f: int,
    lookups: Seq<Seq<Seq<char>>>,
    address: IpAddr,
) -> bool {
    ||| address_listed(files[f].deny, address)
    ||| address_listed(files[f].allow, address)
    ||| settled(files, f + 1, lookups, true)
    ||| settled(files, f + 1, lookups, false)
}

/// Whether a lookup has a name of its own that is allowed for longer than now.
pub open spec fn is_live(
    grants: Map<Seq<char>, u64>,
    chain: Seq<Seq<char>>,
    now: Instant,
) -> bool {
    exists|i: int|
        0 <= i < chain.len() && grants.contains_key(#[trigger] chain[i]) && grants[chain[i]] > now
}

/// The lookups that gave a name.
pub open spec fn with_names(candidates: Seq<Seq<Seq<char>>>) -> Seq<Seq<Seq<char>>> {
    candidates.filter(|chain: Seq<Seq<char>>| chain.len() > 0)
}

proof fn lemma_with_names(candidates: Seq<Seq<Seq<char>>>)
    ensures
        named_lookups(candidates) == with_names(candidates),
    decreases candidates.len(),
{
    reveal(Seq::filter);
    if candidates.len() > 0 {
        lemma_with_names(candidates.drop_last());
    }
}

proof fn lemma_is_for_name(rule: PatternView, name: Seq<char>)
    ensures
        rule.matches_name(name) == is_for_name(rule, name),
{
    if let PatternView::Suffix(suffix) = rule {
        let low = lowercase(name);
        let tail = "."@ + suffix;
        if crate::text::ends_with(low, tail) {
            let prefix = low.subrange(0, low.len() - tail.len());
            assert(low =~= prefix + low.subrange(low.len() - tail.len(), low.len() as int));
            assert(prefix + tail =~= prefix + "."@ + suffix);
        }
        if exists|prefix: Seq<char>| low == #[trigger] (prefix + "."@ + suffix) {
            let prefix = choose|prefix: Seq<char>| low == #[trigger] (prefix + "."@ + suffix);
            assert(low.subrange(low.len() - tail.len(), low.len() as int) =~= tail);
        }
    }
}

proof fn lemma_is_for_address(rule: PatternView, address: IpAddr)
    ensures
        rule.matches_address(address) == is_for_address(rule, address),
{
    vstd::arithmetic::power2::lemma2_to64();
    if let PatternView::Network(net) = rule {
        match (net.address, address.canonical()) {
            (IpAddr::V4(n), IpAddr::V4(a)) => {
                assert(n as nat / 1 == n && a as nat / 1 == a);
            },
            (IpAddr::V6(n), IpAddr::V6(a)) => {
                assert(n as nat / 1 == n && a as nat / 1 == a);
            },
            _ => {},
        }
    }
    crate::ip::lemma_canonical_idempotent(address);
}

/// A name has a rule exactly where a list has an entry for it, and the rule is
/// one.
proof fn lemma_name_listed(rules: Seq<PatternView>, name: Seq<char>)
    ensures
        match name_rule(rules, name) {
            Some(rule) => rules.contains(rule) && is_for_name(rule, name),
            None => forall|r: int|
                0 <= r < rules.len() ==> !is_for_name(#[trigger] rules[r], name),
        },
    decreases rules.len(),
{
    if rules.len() > 0 {
        let rest = rules.drop_last();
        lemma_name_listed(rest, name);
        lemma_is_for_name(rules.last(), name);
        if let Some(rule) = name_rule(rest, name) {
            let r = choose|r: int| 0 <= r < rest.len() && rest[r] == rule;
            assert(rules[r] == rule);
        } else if rules.last().matches_name(name) {
            assert(rules[rules.len() - 1] == rules.last());
        } else {
            assert forall|r: int| 0 <= r < rules.len() implies !is_for_name(
                #[trigger] rules[r],
                name,
            ) by {
                if r < rest.len() {
                    assert(rest[r] == rules[r]);
                }
            }
        }
    }
}

proof fn lemma_address_listed(rules: Seq<PatternView>, address: IpAddr)
    ensures
        match address_rule(rules, address) {
            Some(rule) => rules.contains(rule) && is_for_address(rule, address),
            None => !address_listed(rules, address),
        },
        address_rule(rules, address) is Some ==> address_listed(rules, address),
    decreases rules.len(),
{
    if rules.len() > 0 {
        let rest = rules.drop_last();
        lemma_address_listed(rest, address);
        lemma_is_for_address(rules.last(), address);
        if let Some(rule) = address_rule(rest, address) {
            let r = choose|r: int| 0 <= r < rest.len() && rest[r] == rule;
            assert(rules[r] == rule);
            assert(is_for_address(rules[r], address));
        } else if rules.last().matches_address(address) {
            assert(rules[rules.len() - 1] == rules.last());
            assert(is_for_address(rules[rules.len() - 1], address));
        } else if address_listed(rules, address) {
            let r = choose|r: int| 0 <= r < rules.len() && is_for_address(#[trigger] rules[r], address);
            assert(r < rest.len());
            assert(rest[r] == rules[r]);
        }
    }
}

proof fn lemma_chain_listed(rules: Seq<PatternView>, chain: Seq<Seq<char>>)
    ensures
        chain_rule(rules, chain) is Some <==> names_listed(rules, chain),
        chain_rule(rules, chain) matches Some(rule) ==> rules.contains(rule) && exists|i: int|
            0 <= i < chain.len() && is_for_name(rule, #[trigger] chain[i]),
    decreases chain.len(),
{
    if chain.len() > 0 {
        let rest = chain.drop_last();
        let last = chain.len() - 1;
        lemma_chain_listed(rules, rest);
        lemma_name_listed(rules, chain.last());
        if let Some(rule) = chain_rule(rules, rest) {
            let i = choose|i: int| 0 <= i < rest.len() && is_for_name(rule, #[trigger] rest[i]);
            assert(chain[i] == rest[i]);
            let r = choose|r: int| 0 <= r < rules.len() && rules[r] == rule;
            assert(is_for_name(rules[r], chain[i]));
        } else if let Some(rule) = name_rule(rules, chain.last()) {
            assert(chain[last] == chain.last());
            let r = choose|r: int| 0 <= r < rules.len() && rules[r] == rule;
            assert(is_for_name(rules[r], chain[last]));
        } else if names_listed(rules, chain) {
            let (r, i) = choose|r: int, i: int|
                0 <= r < rules.len() && 0 <= i < chain.len() && is_for_name(
                    #[trigger] rules[r],
                    #[trigger] chain[i],
                );
            if i < last {
                assert(rest[i] == chain[i]);
                assert(is_for_name(rules[r], rest[i]));
            }
        }
    }
}

proof fn lemma_lookups_listed(rules: Seq<PatternView>, lookups: Seq<Seq<Seq<char>>>)
    ensures
        lookups_rule(rules, lookups) is Some <==> exists|k: int|
            0 <= k < lookups.len() && names_listed(rules, #[trigger] lookups[k]),
        lookups_rule(rules, lookups) matches Some(rule) ==> rules.contains(rule) && exists|
            k: int,
            i: int,
        |
            0 <= k < lookups.len() && 0 <= i < lookups[k].len() && is_for_name(
                rule,
                #[trigger] lookups[k][i],
            ),
    decreases lookups.len(),
{
    if lookups.len() > 0 {
        let rest = lookups.drop_last();
        let last = lookups.len() - 1;
        lemma_lookups_listed(rules, rest);
        lemma_chain_listed(rules, lookups.last());
        if let Some(rule) = lookups_rule(rules, rest) {
            let k = choose|k: int| 0 <= k < rest.len() && names_listed(rules, #[trigger] rest[k]);
            assert(lookups[k] == rest[k]);
            let (k, i) = choose|k: int, i: int|
                0 <= k < rest.len() && 0 <= i < rest[k].len() && is_for_name(
                    rule,
                    #[trigger] rest[k][i],
                );
            assert(is_for_name(rule, lookups[k][i]));
        } else if let Some(rule) = chain_rule(rules, lookups.last()) {
            let i = choose|i: int|
                0 <= i < lookups.last().len() && is_for_name(rule, #[trigger] lookups.last()[i]);
            assert(is_for_name(rule, lookups[last][i]));
            assert(names_listed(rules, lookups[last]));
        } else if exists|k: int| 0 <= k < lookups.len() && names_listed(rules, #[trigger] lookups[k]) {
            let k = choose|k: int| 0 <= k < lookups.len() && names_listed(rules, #[trigger] lookups[k]);
            if k < last {
                assert(rest[k] == lookups[k]);
            }
        }
    }
}

/// What some files say of a lookup is what stands, for a rule of theirs.
proof fn lemma_verdict_stands(files: Seq<RulesView>, n: int, chain: Seq<Seq<char>>)
    requires
        0 <= n <= files.len(),
    ensures
        ({
            let verdict = rules_verdict(files.subrange(0, n), chain);
            &&& (verdict matches Some((true, _))) <==> stands(files, n, chain, true)
            &&& (verdict matches Some((false, _))) <==> stands(files, n, chain, false)
            &&& verdict is None <==> forall|f: int|
                0 <= f < n ==> !(#[trigger] names_listed(files[f].deny, chain)) && !names_listed(
                    files[f].allow,
                    chain,
                )
            &&& verdict matches Some((allow, reason)) ==> match reason {
                ReasonView::AllowRule(rule) => allow && (exists|f: int|
                    0 <= f < files.len() && (#[trigger] files[f]).allow.contains(rule)) && exists|
                    i: int,
                |
                    0 <= i < chain.len() && is_for_name(rule, #[trigger] chain[i]),
                ReasonView::DenyRule(rule) => !allow && (exists|f: int|
                    0 <= f < files.len() && (#[trigger] files[f]).deny.contains(rule)) && exists|
                    i: int,
                |
                    0 <= i < chain.len() && is_for_name(rule, #[trigger] chain[i]),
                _ => false,
            }
        }),
    decreases n,
{
    let part = files.subrange(0, n);
    let verdict = rules_verdict(part, chain);
    if n > 0 {
        assert(part.drop_last() =~= files.subrange(0, n - 1));
        assert(part.last() == files[n - 1]);
        lemma_verdict_stands(files, n - 1, chain);
        lemma_chain_listed(files[n - 1].deny, chain);
        lemma_chain_listed(files[n - 1].allow, chain);
        let before = rules_verdict(part.drop_last(), chain);
        lemma_stands_step(files, n, chain, true);
        lemma_stands_step(files, n, chain, false);
        if before is None {
            assert(names_listed(files[n - 1].deny, chain) || !names_listed(files[n - 1].deny, chain));
        } else {
            assert(stands(files, n - 1, chain, true) || stands(files, n - 1, chain, false));
        }
    }
}

proof fn lemma_stands_step(files: Seq<RulesView>, n: int, chain: Seq<Seq<char>>, allow: bool)
    requires
        0 < n <= files.len(),
    ensures
        stands(files, n, chain, allow) <==> stands(files, n - 1, chain, allow) || says_first(
            files,
            n - 1,
            chain,
            allow,
        ),
{
    if stands(files, n - 1, chain, allow) {
        let f = choose|f: int| 0 <= f < n - 1 && #[trigger] says_first(files, f, chain, allow);
        assert(says_first(files, f, chain, allow));
    }
}

/// What rules alone say of the lookups is where they agree.
proof fn lemma_agreed_settled(files: Seq<RulesView>, n: int, lookups: Seq<Seq<Seq<char>>>)
    requires
        0 <= n <= files.len(),
    ensures
        ({
            let found = agreed(verdicts(files.subrange(0, n), Map::empty(), lookups, 0));
            &&& (found matches Some(DecisionView::Allow { .. })) <==> settled(files, n, lookups, true)
            &&& (found matches Some(DecisionView::Deny { .. })) <==> settled(files, n, lookups, false)
            &&& !(found matches Some(DecisionView::Prompt(_)))
            &&& found matches Some(DecisionView::Allow { reason, ambiguous }) ==> ambiguous == (
            lookups.len() > 1) && is_named(files, lookups, true, reason)
            &&& found matches Some(DecisionView::Deny { reason, ambiguous }) ==> ambiguous == (
            lookups.len() > 1) && is_named(files, lookups, false, reason)
        }),
{
    let part = files.subrange(0, n);
    let all = verdicts(part, Map::empty(), lookups, 0);
    assert forall|k: int| 0 <= k < lookups.len() implies (#[trigger] all[k]) == rules_verdict(
        part,
        lookups[k],
    ) by {
        assert(!chain_granted(Map::empty(), lookups[k], 0));
    }
    assert forall|k: int| 0 <= k < lookups.len() implies (all[k] matches Some((true, _)) <==> stands(
        files,
        n,
        #[trigger] lookups[k],
        true,
    )) && (all[k] matches Some((false, _)) <==> stands(files, n, lookups[k], false)) by {
        assert(all[k] == rules_verdict(part, lookups[k]));
        lemma_verdict_stands(files, n, lookups[k]);
    }
    if lookups.len() > 0 {
        lemma_verdict_stands(files, n, lookups[0]);
        assert(all[0] == rules_verdict(part, lookups[0]));
        if all_say(all, true) {
            assert forall|k: int| 0 <= k < lookups.len() implies stands(
                files,
                n,
                #[trigger] lookups[k],
                true,
            ) by {
                assert(all[k] is Some);
            }
        }
        if all_say(all, false) {
            assert forall|k: int| 0 <= k < lookups.len() implies stands(
                files,
                n,
                #[trigger] lookups[k],
                false,
            ) by {
                assert(all[k] is Some);
            }
        }
        if settled(files, n, lookups, true) {
            assert forall|k: int| 0 <= k < all.len() implies (#[trigger] all[k]) is Some && (
            all[k]->0).0 by {
                assert(stands(files, n, lookups[k], true));
            }
        }
        if settled(files, n, lookups, false) {
            assert forall|k: int| 0 <= k < all.len() implies (#[trigger] all[k]) is Some && !(
            all[k]->0).0 by {
                assert(stands(files, n, lookups[k], false));
            }
        }
        if all[0] is Some {
            match (all[0]->0).1 {
                ReasonView::AllowRule(rule) => {
                    let i = choose|i: int|
                        0 <= i < lookups[0].len() && is_for_name(rule, #[trigger] lookups[0][i]);
                    assert(is_for_name(rule, lookups[0][i]));
                },
                ReasonView::DenyRule(rule) => {
                    let i = choose|i: int|
                        0 <= i < lookups[0].len() && is_for_name(rule, #[trigger] lookups[0][i]);
                    assert(is_for_name(rule, lookups[0][i]));
                },
                _ => {},
            }
        }
    }
}

/// Whether a reason names a rule of the right list of some file, which is for a
/// name of a lookup.
pub open spec fn is_named(
    files: Seq<RulesView>,
    lookups: Seq<Seq<Seq<char>>>,
    allow: bool,
    reason: ReasonView,
) -> bool {
    match reason {
        ReasonView::AllowRule(rule) => allow && (exists|f: int|
            0 <= f < files.len() && (#[trigger] files[f]).allow.contains(rule)) && exists|
            k: int,
            i: int,
        |
            0 <= k < lookups.len() && 0 <= i < lookups[k].len() && is_for_name(
                rule,
                #[trigger] lookups[k][i],
            ),
        ReasonView::DenyRule(rule) => !allow && (exists|f: int|
            0 <= f < files.len() && (#[trigger] files[f]).deny.contains(rule)) && exists|
            k: int,
            i: int,
        |
            0 <= k < lookups.len() && 0 <= i < lookups[k].len() && is_for_name(
                rule,
                #[trigger] lookups[k][i],
            ),
        _ => false,
    }
}

/// What one file with those before it decides of an address.
pub open spec fn decides_as(
    files: Seq<RulesView>,
    f: int,
    lookups: Seq<Seq<Seq<char>>>,
    address: IpAddr,
    decided: DecisionView,
) -> bool {
    let denied = exists|k: int|
        0 <= k < lookups.len() && names_listed(files[f].deny, #[trigger] lookups[k]);
    if address_listed(files[f].deny, address) {
        decided matches DecisionView::Deny { reason: ReasonView::DenyRule(rule), ambiguous }
            && !ambiguous && files[f].deny.contains(rule) && is_for_address(rule, address)
    } else if address_listed(files[f].allow, address) && denied {
        decided matches DecisionView::Deny { reason: ReasonView::DenyRule(rule), ambiguous }
            && ambiguous == (lookups.len() > 1) && files[f].deny.contains(rule) && exists|
            k: int,
            i: int,
        |
            0 <= k < lookups.len() && 0 <= i < lookups[k].len() && is_for_name(
                rule,
                #[trigger] lookups[k][i],
            )
    } else if address_listed(files[f].allow, address) {
        decided matches DecisionView::Allow { reason: ReasonView::AllowRule(rule), ambiguous }
            && !ambiguous && files[f].allow.contains(rule) && is_for_address(rule, address)
    } else if settled(files, f + 1, lookups, true) {
        decided matches DecisionView::Allow { reason, ambiguous } && ambiguous == (lookups.len()
            > 1) && is_named(files, lookups, true, reason)
    } else {
        decided matches DecisionView::Deny { reason, ambiguous } && ambiguous == (lookups.len() > 1)
            && is_named(files, lookups, false, reason)
    }
}

proof fn lemma_rules_decide(
    files: Seq<RulesView>,
    n: int,
    lookups: Seq<Seq<Seq<char>>>,
    address: IpAddr,
)
    requires
        0 <= n <= files.len(),
    ensures
        (forall|f: int| 0 <= f < n ==> !(#[trigger] settles(files, f, lookups, address)))
            ==> rules_decision(files.subrange(0, n), lookups, address) is None,
        n > 0 && settles(files, n - 1, lookups, address) && (forall|f: int|
            0 <= f < n - 1 ==> !(#[trigger] settles(files, f, lookups, address))) ==> (
        rules_decision(files.subrange(0, n), lookups, address) matches Some(decided) && decides_as(
            files,
            n - 1,
            lookups,
            address,
            decided,
        )),
    decreases n,
{
    if n > 0 {
        let part = files.subrange(0, n);
        assert(part.drop_last() =~= files.subrange(0, n - 1));
        assert(part.last() == files[n - 1]);
        lemma_rules_decide(files, n - 1, lookups, address);
        lemma_address_listed(files[n - 1].deny, address);
        lemma_address_listed(files[n - 1].allow, address);
        lemma_lookups_listed(files[n - 1].deny, lookups);
        lemma_agreed_settled(files, n, lookups);
        if forall|f: int| 0 <= f < n ==> !(#[trigger] settles(files, f, lookups, address)) {
            assert(!settles(files, n - 1, lookups, address));
        }
    }
}

/// Stored rules decide file by file. The first file that settles a connection
/// decides it: a denied address is refused; an allowed one is let through unless a
/// name that was looked up for it is denied there; else every lookup is allowed or
/// every one denied, each by the first file that speaks of one of its names. The
/// reason is a rule of that list that is for the address or for such a name.
pub proof fn law_rules_decide_in_order(
    address: IpAddr,
    candidates: Seq<Seq<Seq<char>>>,
    files: Seq<RulesView>,
    grants: Map<Seq<char>, u64>,
    now: Instant,
    f: int,
)
    requires
        !hard_denied(address),
        0 <= f < files.len(),
        settles(files, f, with_names(candidates), address.canonical()),
        forall|g: int|
            0 <= g < f ==> !(#[trigger] settles(
                files,
                g,
                with_names(candidates),
                address.canonical(),
            )),
    ensures
        decides_as(
            files,
            f,
            with_names(candidates),
            address.canonical(),
            decision(false, address, candidates, Mode::Enforce, files, grants, now),
        ),
{
    crate::ip::lemma_canonical_idempotent(address);
    let lookups = with_names(candidates);
    lemma_with_names(candidates);
    lemma_rules_decide(files, f + 1, lookups, address.canonical());
    lemma_rules_decision_extends(files, f + 1, lookups, address.canonical());
}

/// A temporary allow speaks for its own name or address only. Where no file
/// settles a connection, it is let through exactly where each lookup is allowed by
/// a rule or has a name of its own that is allowed for longer than now; without
/// lookups, where the address itself is. Otherwise a human is asked: about the
/// address, about names of which nothing is known, or about lookups that disagree,
/// each by its query name and with what is known of it.
pub proof fn law_temporary_allows_speak_for_their_own_key(
    address: IpAddr,
    candidates: Seq<Seq<Seq<char>>>,
    files: Seq<RulesView>,
    grants: Map<Seq<char>, u64>,
    now: Instant,
)
    requires
        !hard_denied(address),
        forall|f: int|
            0 <= f < files.len() ==> !(#[trigger] settles(
                files,
                f,
                with_names(candidates),
                address.canonical(),
            )),
    ensures
        ({
            let decided = decision(false, address, candidates, Mode::Enforce, files, grants, now);
            let lookups = with_names(candidates);
            let own = ip_text(address.canonical());
            let n = files.len() as int;
            if lookups.len() == 0 {
                decided == if grants.contains_key(own) && grants[own] > now {
                    DecisionView::Allow { reason: ReasonView::Session, ambiguous: false }
                } else {
                    DecisionView::Prompt(PromptView::Unresolved)
                }
            } else if forall|k: int|
                0 <= k < lookups.len() ==> stands(files, n, #[trigger] lookups[k], true) || (
                !stands(files, n, lookups[k], false) && is_live(grants, lookups[k], now)) {
                decided matches DecisionView::Allow { reason, ambiguous } && ambiguous == (
                lookups.len() > 1) && (reason is Session ==> is_live(grants, lookups[0], now)
                    && !stands(files, n, lookups[0], true)) && (!(reason is Session) ==> is_named(
                    files,
                    lookups,
                    true,
                    reason,
                ))
            } else if forall|k: int|
                0 <= k < lookups.len() ==> !stands(files, n, #[trigger] lookups[k], true) && !stands(
                    files,
                    n,
                    lookups[k],
                    false,
                ) && !is_live(grants, lookups[k], now) {
                decided == DecisionView::Prompt(PromptView::Unknown)
            } else {
                decided matches DecisionView::Prompt(PromptView::Disagreement(said)) && said.len()
                    == lookups.len() && forall|k: int|
                    0 <= k < lookups.len() ==> (#[trigger] said[k]) == (
                        lookups[k][0],
                        if stands(files, n, lookups[k], false) {
                            Some(false)
                        } else if stands(files, n, lookups[k], true) || is_live(
                            grants,
                            lookups[k],
                            now,
                        ) {
                            Some(true)
                        } else {
                            None
                        },
                    )
            }
        }),
{
    crate::ip::lemma_canonical_idempotent(address);
    let lookups = with_names(candidates);
    let n = files.len() as int;
    lemma_with_names(candidates);
    lemma_rules_decide(files, n, lookups, address.canonical());
    assert(files.subrange(0, n) =~= files);
    let all = verdicts(files, grants, lookups, now);
    assert forall|k: int| 0 <= k < lookups.len() implies (all[k] matches Some((true, _)) <==> stands(
        files,
        n,
        #[trigger] lookups[k],
        true,
    ) || (!stands(files, n, lookups[k], false) && is_live(grants, lookups[k], now))) && (
    all[k] matches Some((false, _)) <==> stands(files, n, lookups[k], false)) && !(stands(
        files,
        n,
        lookups[k],
        true,
    ) && stands(files, n, lookups[k], false)) by {
        lemma_verdict_stands(files, n, lookups[k]);
        lemma_live(grants, lookups[k], now);
    }
    if lookups.len() > 0 {
        if forall|k: int|
            0 <= k < lookups.len() ==> stands(files, n, #[trigger] lookups[k], true) || (!stands(
                files,
                n,
                lookups[k],
                false,
            ) && is_live(grants, lookups[k], now)) {
            assert forall|k: int| 0 <= k < all.len() implies (#[trigger] all[k]) is Some && (
            all[k]->0).0 by {
                assert(stands(files, n, lookups[k], true) || is_live(grants, lookups[k], now));
            }
            lemma_verdict_stands(files, n, lookups[0]);
            lemma_live(grants, lookups[0], now);
            match (all[0]->0).1 {
                ReasonView::AllowRule(rule) => {
                    let i = choose|i: int|
                        0 <= i < lookups[0].len() && is_for_name(rule, #[trigger] lookups[0][i]);
                    assert(is_for_name(rule, lookups[0][i]));
                },
                _ => {},
            }
        } else {
            let k = choose|k: int|
                0 <= k < lookups.len() && !(stands(files, n, #[trigger] lookups[k], true) || (
                !stands(files, n, lookups[k], false) && is_live(grants, lookups[k], now)));
            assert(!(all[k] matches Some((true, _))));
            assert(!all_say(all, true));
            // Not every lookup is denied, or the last file would have settled it.
            if all_say(all, false) {
                assert forall|j: int| 0 <= j < lookups.len() implies stands(
                    files,
                    n,
                    #[trigger] lookups[j],
                    false,
                ) by {
                    assert(all[j] is Some);
                }
                assert(settled(files, n, lookups, false));
                if n > 0 {
                    assert(!settles(files, n - 1, lookups, address.canonical()));
                } else {
                    assert(stands(files, n, lookups[0], false));
                }
            }
            let nothing = forall|k: int|
                0 <= k < lookups.len() ==> !stands(files, n, #[trigger] lookups[k], true) && !stands(
                    files,
                    n,
                    lookups[k],
                    false,
                ) && !is_live(grants, lookups[k], now);
            if nothing {
                assert forall|j: int| 0 <= j < all.len() implies (#[trigger] all[j]) is None by {
                    assert(!stands(files, n, lookups[j], true));
                }
            } else {
                let j = choose|j: int|
                    0 <= j < lookups.len() && !(!stands(files, n, #[trigger] lookups[j], true)
                        && !stands(files, n, lookups[j], false) && !is_live(
                        grants,
                        lookups[j],
                        now,
                    ));
                assert(all[j] is Some);
                let said = sayings(lookups, all);
                assert forall|k: int| 0 <= k < lookups.len() implies (#[trigger] said[k]) == (
                    lookups[k][0],
                    if stands(files, n, lookups[k], false) {
                        Some(false)
                    } else if stands(files, n, lookups[k], true) || is_live(
                        grants,
                        lookups[k],
                        now,
                    ) {
                        Some(true)
                    } else {
                        None
                    },
                ) by {
                    assert(all[k] is Some || all[k] is None);
                }
            }
        }
    }
}

proof fn lemma_live(grants: Map<Seq<char>, u64>, chain: Seq<Seq<char>>, now: Instant)
    ensures
        chain_granted(grants, chain, now) == is_live(grants, chain, now),
{
    if chain_granted(grants, chain, now) {
        let i = choose|i: int| 0 <= i < chain.len() && granted(grants, #[trigger] chain[i], now);
        assert(grants.contains_key(chain[i]));
    }
    if is_live(grants, chain, now) {
        let i = choose|i: int|
            0 <= i < chain.len() && grants.contains_key(#[trigger] chain[i]) && grants[chain[i]]
                > now;
        assert(granted(grants, chain[i], now));
    }
}

/// What is refused in every mode, and why: a malformed request; link-local,
/// multicast, unspecified and broadcast addresses, and the metadata service. Open
/// mode lets everything else through.
pub proof fn law_some_addresses_are_never_reached(
    malformed: bool,
    address: IpAddr,
    candidates: Seq<Seq<Seq<char>>>,
    mode: Mode,
    files: Seq<RulesView>,
    grants: Map<Seq<char>, u64>,
    now: Instant,
)
    ensures
        ({
            let never = match address.canonical() {
                IpAddr::V4(n) => 0xa9fe_0000 <= n <= 0xa9fe_ffff || 0xe000_0000 <= n <= 0xefff_ffff
                    || n == 0 || n == 0xffff_ffff,
                IpAddr::V6(n) => n >= 0xff00_0000_0000_0000_0000_0000_0000_0000
                    || 0xfe80_0000_0000_0000_0000_0000_0000_0000 <= n
                    <= 0xfebf_ffff_ffff_ffff_ffff_ffff_ffff_ffff || n == 0 || n
                    == 0xfd00_0ec2_0000_0000_0000_0000_0000_0254,
            };
            let decided = decision(malformed, address, candidates, mode, files, grants, now);
            &&& hard_denied(address) == never
            &&& malformed ==> decided == (DecisionView::Deny {
                reason: ReasonView::Malformed,
                ambiguous: false,
            })
            &&& !malformed && never ==> decided == (DecisionView::Deny {
                reason: ReasonView::HardDeny,
                ambiguous: false,
            })
            &&& !malformed && !never && mode == Mode::Open ==> decided == (DecisionView::Allow {
                reason: ReasonView::OpenMode,
                ambiguous: false,
            })
        }),
{
    crate::ip::lemma_canonical_idempotent(address);
}

/// An operator answers about the address where nothing was looked up, else about
/// the query names: all of them where nothing is known, and those of which nothing
/// is known where lookups disagree.
pub proof fn law_operators_answer_about_what_is_unknown(
    address: IpAddr,
    candidates: Seq<Seq<Seq<char>>>,
    said: Seq<(Seq<char>, Option<bool>)>,
    pattern: PatternView,
)
    ensures
        PromptView::Unresolved.subjects(address, candidates) == seq![
            PatternView::Address(address.canonical()),
        ],
        PromptView::Unknown.subjects(address, candidates).contains(pattern) <==> exists|k: int|
            0 <= k < with_names(candidates).len() && pattern_text(
                #[trigger] with_names(candidates)[k][0],
            ) == Ok::<PatternView, PatternErrorView>(pattern),
        PromptView::Disagreement(said).subjects(address, candidates).contains(pattern)
            <==> exists|k: int|
            0 <= k < said.len() && (#[trigger] said[k]).1 is None && pattern_text(said[k].0)
                == Ok::<PatternView, PatternErrorView>(pattern),
{
    lemma_with_names(candidates);
    let lookups = with_names(candidates);
    lemma_readable(query_names(candidates), pattern);
    lemma_readable(undecided(said), pattern);
    let names = query_names(candidates);
    if readable(names).contains(pattern) {
        let i = choose|i: int|
            0 <= i < names.len() && pattern_text(#[trigger] names[i]) == Ok::<
                PatternView,
                PatternErrorView,
            >(pattern);
        assert(lookups[i][0] == names[i]);
    }
    if exists|k: int|
        0 <= k < lookups.len() && pattern_text(#[trigger] lookups[k][0]) == Ok::<
            PatternView,
            PatternErrorView,
        >(pattern) {
        let k = choose|k: int|
            0 <= k < lookups.len() && pattern_text(#[trigger] lookups[k][0]) == Ok::<
                PatternView,
                PatternErrorView,
            >(pattern);
        assert(names[k] == lookups[k][0]);
    }
    let open = undecided(said);
    if exists|i: int|
        0 <= i < open.len() && pattern_text(#[trigger] open[i]) == Ok::<
            PatternView,
            PatternErrorView,
        >(pattern) {
        let i = choose|i: int|
            0 <= i < open.len() && pattern_text(#[trigger] open[i]) == Ok::<
                PatternView,
                PatternErrorView,
            >(pattern);
        lemma_undecided(said, open[i]);
    }
    if exists|k: int|
        0 <= k < said.len() && (#[trigger] said[k]).1 is None && pattern_text(said[k].0) == Ok::<
            PatternView,
            PatternErrorView,
        >(pattern) {
        let k = choose|k: int|
            0 <= k < said.len() && (#[trigger] said[k]).1 is None && pattern_text(said[k].0)
                == Ok::<PatternView, PatternErrorView>(pattern);
        lemma_undecided(said, said[k].0);
        let i = choose|i: int| 0 <= i < open.len() && open[i] == said[k].0;
        assert(pattern_text(open[i]) == Ok::<PatternView, PatternErrorView>(pattern));
    }
}

proof fn lemma_readable(names: Seq<Seq<char>>, pattern: PatternView)
    ensures
        readable(names).contains(pattern) <==> exists|i: int|
            0 <= i < names.len() && pattern_text(#[trigger] names[i]) == Ok::<
                PatternView,
                PatternErrorView,
            >(pattern),
    decreases names.len(),
{
    if names.len() > 0 {
        let rest = names.drop_last();
        let last = names.len() - 1;
        lemma_readable(rest, pattern);
        let all = readable(names);
        let few = readable(rest);
        if few.contains(pattern) {
            let j = choose|j: int| 0 <= j < few.len() && few[j] == pattern;
            assert(all[j] == pattern);
            let i = choose|i: int|
                0 <= i < rest.len() && pattern_text(#[trigger] rest[i]) == Ok::<
                    PatternView,
                    PatternErrorView,
                >(pattern);
            assert(names[i] == rest[i]);
        }
        if pattern_text(names.last()) == Ok::<PatternView, PatternErrorView>(pattern) {
            assert(names[last] == names.last());
            assert(all[few.len() as int] == pattern);
        }
        if exists|i: int|
            0 <= i < names.len() && pattern_text(#[trigger] names[i]) == Ok::<
                PatternView,
                PatternErrorView,
            >(pattern) {
            let i = choose|i: int|
                0 <= i < names.len() && pattern_text(#[trigger] names[i]) == Ok::<
                    PatternView,
                    PatternErrorView,
                >(pattern);
            if i < last {
                assert(rest[i] == names[i]);
            }
        }
        if all.contains(pattern) {
            let j = choose|j: int| 0 <= j < all.len() && all[j] == pattern;
            if j < few.len() {
                assert(few[j] == pattern);
            } else {
                assert(names[last] == names.last());
            }
        }
    }
}

proof fn lemma_undecided(said: Seq<(Seq<char>, Option<bool>)>, name: Seq<char>)
    ensures
        undecided(said).contains(name) <==> exists|k: int|
            0 <= k < said.len() && (#[trigger] said[k]).1 is None && said[k].0 == name,
    decreases said.len(),
{
    if said.len() > 0 {
        let rest = said.drop_last();
        let last = said.len() - 1;
        lemma_undecided(rest, name);
        let all = undecided(said);
        let few = undecided(rest);
        if few.contains(name) {
            let j = choose|j: int| 0 <= j < few.len() && few[j] == name;
            assert(all[j] == name);
            let k = choose|k: int|
                0 <= k < rest.len() && (#[trigger] rest[k]).1 is None && rest[k].0 == name;
            assert(said[k] == rest[k]);
        }
        if said.last().1 is None && said.last().0 == name {
            assert(said[last] == said.last());
            assert(all[few.len() as int] == name);
        }
        if exists|k: int| 0 <= k < said.len() && (#[trigger] said[k]).1 is None && said[k].0 == name {
            let k = choose|k: int|
                0 <= k < said.len() && (#[trigger] said[k]).1 is None && said[k].0 == name;
            if k < last {
                assert(rest[k] == said[k]);
            }
        }
        if all.contains(name) {
            let j = choose|j: int| 0 <= j < all.len() && all[j] == name;
            if j < few.len() {
                assert(few[j] == name);
            } else {
                assert(said[last] == said.last());
            }
        }
    }
}

/// What decided a connection is written down by its kind, and by its rule where it
/// is one.
pub proof fn law_reasons_are_told_apart(rule: PatternView)
    ensures
        ReasonView::Malformed.text() == "malformed"@,
        ReasonView::HardDeny.text() == "hard-deny"@,
        ReasonView::OpenMode.text() == "open-mode"@,
        ReasonView::Session.text() == "session"@,
        ReasonView::DenyRule(rule).text() == "deny-rule:"@ + rule.text(),
        ReasonView::AllowRule(rule).text() == "allow-rule:"@ + rule.text(),
{
}

/// Of the rules of a list the first that is for an address or a name speaks, and of the
/// names of a lookup the first that has a rule, and of the lookups the first that has one.
pub proof fn law_the_first_rule_speaks(
    rules: Seq<PatternView>,
    address: IpAddr,
    name: Seq<char>,
    chain: Seq<Seq<char>>,
    lookups: Seq<Seq<Seq<char>>>,
    i: int,
)
    ensures
        0 <= i < rules.len() && rules[i].matches_address(address) && (forall|j: int|
            0 <= j < i ==> !(#[trigger] rules[j]).matches_address(address)) ==> address_rule(
            rules,
            address,
        ) == Some(rules[i]),
        0 <= i < rules.len() && rules[i].matches_name(name) && (forall|j: int|
            0 <= j < i ==> !(#[trigger] rules[j]).matches_name(name)) ==> name_rule(rules, name)
            == Some(rules[i]),
        0 <= i < chain.len() && name_rule(rules, chain[i]) is Some && (forall|j: int|
            0 <= j < i ==> name_rule(rules, #[trigger] chain[j]) is None) ==> chain_rule(
            rules,
            chain,
        ) == name_rule(rules, chain[i]),
        0 <= i < lookups.len() && chain_rule(rules, lookups[i]) is Some && (forall|j: int|
            0 <= j < i ==> chain_rule(rules, #[trigger] lookups[j]) is None) ==> lookups_rule(
            rules,
            lookups,
        ) == chain_rule(rules, lookups[i]),
{
    if 0 <= i < rules.len() && rules[i].matches_address(address) && (forall|j: int|
        0 <= j < i ==> !(#[trigger] rules[j]).matches_address(address)) {
        lemma_first_for_address(rules, address, i);
    }
    if 0 <= i < rules.len() && rules[i].matches_name(name) && (forall|j: int|
        0 <= j < i ==> !(#[trigger] rules[j]).matches_name(name)) {
        lemma_first_for_name(rules, name, i);
    }
    if 0 <= i < chain.len() && name_rule(rules, chain[i]) is Some && (forall|j: int|
        0 <= j < i ==> name_rule(rules, #[trigger] chain[j]) is None) {
        lemma_first_of_chain(rules, chain, i);
    }
    if 0 <= i < lookups.len() && chain_rule(rules, lookups[i]) is Some && (forall|j: int|
        0 <= j < i ==> chain_rule(rules, #[trigger] lookups[j]) is None) {
        lemma_first_of_lookups(rules, lookups, i);
    }
}

proof fn lemma_first_for_address(rules: Seq<PatternView>, address: IpAddr, i: int)
    requires
        0 <= i < rules.len(),
        rules[i].matches_address(address),
        forall|j: int| 0 <= j < i ==> !(#[trigger] rules[j]).matches_address(address),
    ensures
        address_rule(rules, address) == Some(rules[i]),
    decreases rules.len(),
{
    let rest = rules.drop_last();
    if i < rest.len() {
        assert forall|j: int| 0 <= j < i implies !(#[trigger] rest[j]).matches_address(address) by {
            assert(rest[j] == rules[j]);
        }
        lemma_first_for_address(rest, address, i);
    } else {
        lemma_none_for_address(rest, address, rules);
    }
}

proof fn lemma_none_for_address(
    rules: Seq<PatternView>,
    address: IpAddr,
    all: Seq<PatternView>,
)
    requires
        rules.len() <= all.len(),
        forall|j: int| 0 <= j < rules.len() ==> #[trigger] rules[j] == all[j],
        forall|j: int| 0 <= j < rules.len() ==> !(#[trigger] all[j]).matches_address(address),
    ensures
        address_rule(rules, address) is None,
    decreases rules.len(),
{
    if rules.len() > 0 {
        let rest = rules.drop_last();
        assert forall|j: int| 0 <= j < rest.len() implies #[trigger] rest[j] == all[j] by {
            assert(rest[j] == rules[j]);
        }
        lemma_none_for_address(rest, address, all);
        assert(rules[rules.len() - 1] == all[rules.len() - 1]);
    }
}

proof fn lemma_first_for_name(rules: Seq<PatternView>, name: Seq<char>, i: int)
    requires
        0 <= i < rules.len(),
        rules[i].matches_name(name),
        forall|j: int| 0 <= j < i ==> !(#[trigger] rules[j]).matches_name(name),
    ensures
        name_rule(rules, name) == Some(rules[i]),
    decreases rules.len(),
{
    let rest = rules.drop_last();
    if i < rest.len() {
        assert forall|j: int| 0 <= j < i implies !(#[trigger] rest[j]).matches_name(name) by {
            assert(rest[j] == rules[j]);
        }
        lemma_first_for_name(rest, name, i);
    } else {
        lemma_none_for_name(rest, name, rules);
    }
}

proof fn lemma_none_for_name(rules: Seq<PatternView>, name: Seq<char>, all: Seq<PatternView>)
    requires
        rules.len() <= all.len(),
        forall|j: int| 0 <= j < rules.len() ==> #[trigger] rules[j] == all[j],
        forall|j: int| 0 <= j < rules.len() ==> !(#[trigger] all[j]).matches_name(name),
    ensures
        name_rule(rules, name) is None,
    decreases rules.len(),
{
    if rules.len() > 0 {
        let rest = rules.drop_last();
        assert forall|j: int| 0 <= j < rest.len() implies #[trigger] rest[j] == all[j] by {
            assert(rest[j] == rules[j]);
        }
        lemma_none_for_name(rest, name, all);
        assert(rules[rules.len() - 1] == all[rules.len() - 1]);
    }
}

proof fn lemma_first_of_chain(rules: Seq<PatternView>, chain: Seq<Seq<char>>, i: int)
    requires
        0 <= i < chain.len(),
        forall|j: int| 0 <= j < i ==> name_rule(rules, #[trigger] chain[j]) is None,
    ensures
        name_rule(rules, chain[i]) is Some ==> chain_rule(rules, chain) == name_rule(
            rules,
            chain[i],
        ),
        i == chain.len() - 1 && name_rule(rules, chain[i]) is None ==> chain_rule(
            rules,
            chain,
        ) is None,
    decreases chain.len(),
{
    let rest = chain.drop_last();
    reveal_with_fuel(chain_rule, 2);
    assert(chain[chain.len() - 1] == chain.last());
    if rest.len() > 0 {
        let k = if i < rest.len() {
            i
        } else {
            rest.len() - 1
        };
        assert forall|j: int| 0 <= j < k implies name_rule(rules, #[trigger] rest[j]) is None by {
            assert(rest[j] == chain[j]);
        }
        assert(rest[k] == chain[k]);
        lemma_first_of_chain(rules, rest, k);
    }
}

proof fn lemma_first_of_lookups(rules: Seq<PatternView>, lookups: Seq<Seq<Seq<char>>>, i: int)
    requires
        0 <= i < lookups.len(),
        forall|j: int| 0 <= j < i ==> chain_rule(rules, #[trigger] lookups[j]) is None,
    ensures
        chain_rule(rules, lookups[i]) is Some ==> lookups_rule(rules, lookups) == chain_rule(
            rules,
            lookups[i],
        ),
        i == lookups.len() - 1 && chain_rule(rules, lookups[i]) is None ==> lookups_rule(
            rules,
            lookups,
        ) is None,
    decreases lookups.len(),
{
    let rest = lookups.drop_last();
    reveal_with_fuel(lookups_rule, 2);
    assert(lookups[lookups.len() - 1] == lookups.last());
    if rest.len() > 0 {
        let k = if i < rest.len() {
            i
        } else {
            rest.len() - 1
        };
        assert forall|j: int| 0 <= j < k implies chain_rule(rules, #[trigger] rest[j]) is None by {
            assert(rest[j] == lookups[j]);
        }
        assert(rest[k] == lookups[k]);
        lemma_first_of_lookups(rules, rest, k);
    }
}

} // verus!
