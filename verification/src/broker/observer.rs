//! The name observer: each sandbox's resolver.
//!
//! Queries are forwarded verbatim to the upstream resolvers and responses
//! returned unmodified. The observer never blocks, never filters and never
//! synthesizes: an upstream failure is passed on (or, on timeout, the client
//! times out too). It only records which names mapped to which addresses.

use vstd::prelude::*;
use vstd::utf8::encode_utf8;

use crate::broker::bindings::{clone_names, has_name};
use crate::broker::mediator::grammar::{hostname_error, validate_hostname};
use crate::ip::{ip_from_text, read_ip, IpAddr};
use crate::maps::{lemma_flat_map_contains, lemma_flat_map_step};
use crate::text::{
    after, before, chars, concat, find_first, first_index, lines, lines_of, lowercase, opt_view,
    quoted, quoted_text, starts_with, string_of, to_lowercase, trim, trimmed, views,
};
use crate::time::Duration;

verus! {

/// How long an upstream resolver may take.
pub const UPSTREAM_TIMEOUT: Duration = 3_000_000_000;

pub const MAX_DNS_MESSAGE: usize = 65_535;

// ---------------------------------------------------------------------------
// Messages
// ---------------------------------------------------------------------------

/// What the observer reads of a DNS response.
#[derive(Debug, PartialEq, Eq)]
pub struct DnsMessage {
    /// The name of the first question.
    pub query: Option<String>,
    pub answers: Vec<DnsRecord>,
}

/// One record of an answer.
#[derive(Debug, PartialEq, Eq)]
pub struct DnsRecord {
    /// The owner name.
    pub name: String,
    pub ttl: u32,
    pub data: Data,
}

/// What a record says.
#[derive(Debug, PartialEq, Eq)]
pub enum Data {
    /// `A`
    V4(u32),
    /// `AAAA`
    V6(u128),
    /// `CNAME`
    Alias(String),
    /// `HTTPS` or `SVCB`
    Service(Service),
    Other,
}

/// A service binding: its target name, and its parameters in order.
#[derive(Debug, PartialEq, Eq)]
pub struct Service {
    pub target: String,
    pub params: Vec<Param>,
}

/// A parameter of a service binding.
#[derive(Debug, PartialEq, Eq)]
pub enum Param {
    V4Hint(Vec<u32>),
    V6Hint(Vec<u128>),
    Other,
}

/// A [`DnsMessage`] by its contents.
#[verifier::ext_equal]
pub struct MessageView {
    pub query: Option<Seq<char>>,
    pub answers: Seq<RecordView>,
}

/// A [`DnsRecord`] by its contents.
#[verifier::ext_equal]
pub struct RecordView {
    pub name: Seq<char>,
    pub ttl: u32,
    pub data: DataView,
}

/// [`Data`] by its contents.
#[verifier::ext_equal]
pub enum DataView {
    V4(u32),
    V6(u128),
    Alias(Seq<char>),
    Service(ServiceView),
    Other,
}

/// A [`Service`] by its contents.
#[verifier::ext_equal]
pub struct ServiceView {
    pub target: Seq<char>,
    pub params: Seq<ParamView>,
}

/// A [`Param`] by its contents.
#[verifier::ext_equal]
pub enum ParamView {
    V4Hint(Seq<u32>),
    V6Hint(Seq<u128>),
    Other,
}

impl View for Param {
    type V = ParamView;

    open spec fn view(&self) -> ParamView {
        match self {
            Param::V4Hint(hints) => ParamView::V4Hint(hints@),
            Param::V6Hint(hints) => ParamView::V6Hint(hints@),
            Param::Other => ParamView::Other,
        }
    }
}

impl View for Service {
    type V = ServiceView;

    open spec fn view(&self) -> ServiceView {
        ServiceView { target: self.target@, params: views(self.params@) }
    }
}

impl View for Data {
    type V = DataView;

    open spec fn view(&self) -> DataView {
        match self {
            Data::V4(address) => DataView::V4(*address),
            Data::V6(address) => DataView::V6(*address),
            Data::Alias(target) => DataView::Alias(target@),
            Data::Service(service) => DataView::Service(service@),
            Data::Other => DataView::Other,
        }
    }
}

impl View for DnsRecord {
    type V = RecordView;

    open spec fn view(&self) -> RecordView {
        RecordView { name: self.name@, ttl: self.ttl, data: self.data@ }
    }
}

impl View for DnsMessage {
    type V = MessageView;

    open spec fn view(&self) -> MessageView {
        MessageView { query: opt_view(self.query), answers: views(self.answers@) }
    }
}

/// A DNS message of `hickory_proto`.
#[verifier::external_type_specification]
#[verifier::external_body]
pub struct ExMessage(hickory_proto::op::Message);

/// A service binding of `hickory_proto`.
#[verifier::external_type_specification]
#[verifier::external_body]
pub struct ExSvcb(hickory_proto::rr::rdata::SVCB);

/// The data of a record of `hickory_proto`.
#[verifier::external_type_specification]
#[verifier::external_body]
pub struct ExRdata(hickory_proto::rr::RData);

/// The DNS message that bytes write, as `hickory_proto` reads it.
pub uninterp spec fn dns_message(bytes: Seq<u8>) -> Option<MessageView>;

/// What a `hickory_proto` message holds.
pub uninterp spec fn message_contents(message: hickory_proto::op::Message) -> MessageView;

/// What the data of a `hickory_proto` record holds.
pub uninterp spec fn data_contents(data: hickory_proto::rr::RData) -> DataView;

/// What a `hickory_proto` service binding holds.
pub uninterp spec fn service_contents(service: hickory_proto::rr::rdata::SVCB) -> ServiceView;

/// `hickory_proto::op::Message::from_vec`: the message that the bytes write, or
/// `None` where they write none. Which bytes write a message is left to the
/// crate.
#[verifier::external_body]
fn parse_message(bytes: &[u8]) -> (r: Option<hickory_proto::op::Message>)
    ensures
        match r {
            Some(message) => dns_message(bytes@) == Some(message_contents(message)),
            None => dns_message(bytes@) is None,
        },
{
    hickory_proto::op::Message::from_vec(bytes).ok()
}

/// The target name (`Name::to_ascii`) and the parameters of a service binding.
#[verifier::external_body]
fn service_of(service: &hickory_proto::rr::rdata::SVCB) -> (r: Service)
    ensures
        r@ == service_contents(*service),
{
    let param = |value: &hickory_proto::rr::rdata::svcb::SvcParamValue| match value {
        hickory_proto::rr::rdata::svcb::SvcParamValue::Ipv4Hint(hint) => Param::V4Hint(
            hint.0.iter().map(|a| u32::from(a.0)).collect()),
        hickory_proto::rr::rdata::svcb::SvcParamValue::Ipv6Hint(hint) => Param::V6Hint(
            hint.0.iter().map(|a| u128::from(a.0)).collect()),
        _ => Param::Other,
    };
    Service {
        target: service.target_name.to_ascii(),
        params: service.svc_params.iter().map(|(_, value)| param(value)).collect(),
    }
}

/// `Message::queries` and `Name::to_ascii`: the name of the first question of a
/// message.
#[verifier::external_body]
fn query_of(message: &hickory_proto::op::Message) -> (r: Option<String>)
    ensures
        opt_view(r) == message_contents(*message).query,
{
    message.queries.first().map(|query| query.name.to_ascii())
}

/// `Message::answers`: the owner names (`Name::to_ascii`), lifetimes and data of
/// a message's answers.
#[verifier::external_body]
fn answers_of(message: &hickory_proto::op::Message) -> (r: Vec<
    (String, u32, hickory_proto::rr::RData),
>)
    ensures
        r@.len() == message_contents(*message).answers.len(),
        forall|i: int|
            0 <= i < r@.len() ==> message_contents(*message).answers[i] == (RecordView {
                name: (#[trigger] r@[i]).0@,
                ttl: r@[i].1,
                data: data_contents(r@[i].2),
            }),
{
    message.answers.iter().map(|r| (r.name.to_ascii(), r.ttl, r.data.clone())).collect()
}

/// The data of a record, one form for each kind that is looked at.
enum RecordData {
    V4(u32),
    V6(u128),
    Alias(String),
    Service(hickory_proto::rr::rdata::SVCB),
    Other,
}

/// The variants of `hickory_proto::rr::RData`: an address, the target of an alias
/// (`Name::to_ascii`), a service binding, or anything else.
#[verifier::external_body]
fn data_of(data: &hickory_proto::rr::RData) -> (r: RecordData)
    ensures
        data_contents(*data) == (match r {
            RecordData::V4(n) => DataView::V4(n),
            RecordData::V6(n) => DataView::V6(n),
            RecordData::Alias(target) => DataView::Alias(target@),
            RecordData::Service(service) => DataView::Service(service_contents(service)),
            RecordData::Other => DataView::Other,
        }),
{
    match data {
        hickory_proto::rr::RData::A(a) => RecordData::V4(u32::from(a.0)),
        hickory_proto::rr::RData::AAAA(a) => RecordData::V6(u128::from(a.0)),
        hickory_proto::rr::RData::CNAME(target) => RecordData::Alias(target.0.to_ascii()),
        hickory_proto::rr::RData::HTTPS(service) => RecordData::Service(service.0.clone()),
        hickory_proto::rr::RData::SVCB(service) => RecordData::Service(service.clone()),
        _ => RecordData::Other,
    }
}

/// What a message holds.
fn message_of(message: &hickory_proto::op::Message) -> (r: DnsMessage)
    ensures
        r@ == message_contents(*message),
{
    let query = query_of(message);
    let found = answers_of(message);
    let ghost expected = message_contents(*message).answers;
    let mut answers: Vec<DnsRecord> = Vec::new();
    let mut i: usize = 0;
    while i < found.len()
        invariant
            i <= found@.len(),
            found@.len() == expected.len(),
            forall|k: int|
                0 <= k < found@.len() ==> expected[k] == (RecordView {
                    name: (#[trigger] found@[k]).0@,
                    ttl: found@[k].1,
                    data: data_contents(found@[k].2),
                }),
            answers@.len() == i,
            forall|k: int| 0 <= k < i ==> (#[trigger] answers@[k])@ == expected[k],
        decreases found@.len() - i,
    {
        let data = match data_of(&found[i].2) {
            RecordData::V4(n) => Data::V4(n),
            RecordData::V6(n) => Data::V6(n),
            RecordData::Alias(target) => Data::Alias(target),
            RecordData::Service(service) => Data::Service(service_of(&service)),
            RecordData::Other => Data::Other,
        };
        let record = DnsRecord { name: found[i].0.clone(), ttl: found[i].1, data };
        assert(record@ =~= expected[i as int]);
        answers.push(record);
        i += 1;
    }
    let r = DnsMessage { query, answers };
    assert(views(r.answers@) =~= expected);
    r
}

/// Read a DNS message.
fn read_message(bytes: &[u8]) -> (r: Option<DnsMessage>)
    ensures
        opt_view(r) == dns_message(bytes@),
{
    match parse_message(bytes) {
        Some(message) => Some(message_of(&message)),
        None => None,
    }
}

// ---------------------------------------------------------------------------
// Names
// ---------------------------------------------------------------------------

/// A text without the dots at its end.
pub open spec fn without_dots(s: Seq<char>) -> Seq<char>
    decreases s.len(),
{
    if s.len() > 0 && s.last() == '.' {
        without_dots(s.drop_last())
    } else {
        s
    }
}

/// A DNS name as the rules write it, if it follows the grammar of host names.
pub open spec fn normal_name(text: Seq<char>) -> Option<Seq<char>> {
    let name = lowercase(without_dots(text));
    if hostname_error(encode_utf8(name)) is None {
        Some(name)
    } else {
        None
    }
}

fn normalize(text: &str) -> (r: Option<String>)
    ensures
        opt_view(r) == normal_name(text@),
{
    let v = chars(text);
    let mut n: usize = v.len();
    assert(text@.subrange(0, n as int) =~= text@);
    while n > 0 && v[n - 1] == '.'
        invariant
            n <= v@.len(),
            v@ == text@,
            without_dots(text@) == without_dots(text@.subrange(0, n as int)),
        decreases n,
    {
        assert(text@.subrange(0, n as int).drop_last() =~= text@.subrange(0, n - 1));
        n -= 1;
    }
    let bare = string_of(&v, 0, n);
    let name = to_lowercase(bare.as_str());
    match validate_hostname(name.as_str().as_bytes()) {
        Ok(_) => Some(name),
        Err(_) => None,
    }
}

fn normalize_query(query: &Option<String>) -> (r: Option<String>)
    ensures
        opt_view(r) == normal_query(opt_view(*query)),
{
    match query {
        Some(name) => normalize(name.as_str()),
        None => None,
    }
}

pub open spec fn normal_query(query: Option<Seq<char>>) -> Option<Seq<char>> {
    match query {
        Some(name) => normal_name(name),
        None => None,
    }
}

/// A list of names with one more, if there is one and it is not in it yet.
pub open spec fn with_name(names: Seq<Seq<char>>, name: Option<Seq<char>>) -> Seq<Seq<char>> {
    match name {
        Some(name) => if names.contains(name) {
            names
        } else {
            names.push(name)
        },
        None => names,
    }
}

fn push_name(names: &mut Vec<String>, name: Option<String>)
    ensures
        views(final(names)@) == with_name(views(old(names)@), opt_view(name)),
{
    if let Some(name) = name {
        if !has_name(names, name.as_str()) {
            let ghost done = views(names@);
            let ghost nv = name@;
            names.push(name);
            assert(views(names@) =~= done.push(nv));
        }
    }
}

// ---------------------------------------------------------------------------
// The chain
// ---------------------------------------------------------------------------

/// The aliases of an answer whose names follow the grammar: owner and target.
pub open spec fn aliases(answers: Seq<RecordView>) -> Seq<(Seq<char>, Seq<char>)>
    decreases answers.len(),
{
    if answers.len() == 0 {
        Seq::empty()
    } else {
        let rest = aliases(answers.drop_last());
        let record = answers.last();
        match record.data {
            DataView::Alias(target) => match (normal_name(record.name), normal_name(target)) {
                (Some(owner), Some(target)) => rest.push((owner, target)),
                _ => rest,
            },
            _ => rest,
        }
    }
}

/// What a name is an alias of, by the first alias for it.
pub open spec fn alias_of(
    pairs: Seq<(Seq<char>, Seq<char>)>,
    name: Seq<char>,
    from: int,
) -> Option<Seq<char>>
    decreases pairs.len() - from,
{
    if from < 0 || from >= pairs.len() {
        None
    } else if pairs[from].0 == name {
        Some(pairs[from].1)
    } else {
        alias_of(pairs, name, from + 1)
    }
}

/// How many aliases lead to a name that is not in the chain yet.
pub open spec fn unseen(pairs: Seq<(Seq<char>, Seq<char>)>, chain: Seq<Seq<char>>) -> nat
    decreases pairs.len(),
{
    if pairs.len() == 0 {
        0
    } else {
        unseen(pairs.drop_last(), chain) + if chain.contains(pairs.last().1) {
            0nat
        } else {
            1nat
        }
    }
}

pub proof fn lemma_unseen_shrinks(
    pairs: Seq<(Seq<char>, Seq<char>)>,
    chain: Seq<Seq<char>>,
    target: Seq<char>,
)
    ensures
        unseen(pairs, chain.push(target)) <= unseen(pairs, chain),
        !chain.contains(target) && (exists|i: int|
            0 <= i < pairs.len() && (#[trigger] pairs[i]).1 == target) ==> unseen(
            pairs,
            chain.push(target),
        ) < unseen(pairs, chain),
    decreases pairs.len(),
{
    if pairs.len() > 0 {
        let rest = pairs.drop_last();
        lemma_unseen_shrinks(rest, chain, target);
        let last = pairs.last().1;
        let longer = chain.push(target);
        if chain.contains(last) {
            let k = choose|k: int| 0 <= k < chain.len() && chain[k] == last;
            assert(longer[k] == last);
        }
        assert(longer[chain.len() as int] == target);
        if !chain.contains(target) && exists|i: int|
            0 <= i < pairs.len() && (#[trigger] pairs[i]).1 == target {
            let i = choose|i: int| 0 <= i < pairs.len() && (#[trigger] pairs[i]).1 == target;
            if i < rest.len() {
                assert(rest[i].1 == target);
            }
        }
    }
}

pub proof fn lemma_alias_of(pairs: Seq<(Seq<char>, Seq<char>)>, name: Seq<char>, from: int)
    requires
        0 <= from,
    ensures
        alias_of(pairs, name, from) matches Some(target) ==> exists|i: int|
            0 <= i < pairs.len() && (#[trigger] pairs[i]).1 == target,
    decreases pairs.len() - from,
{
    if from < pairs.len() && pairs[from].0 != name {
        lemma_alias_of(pairs, name, from + 1);
    } else if from < pairs.len() {
        assert(pairs[from].1 == alias_of(pairs, name, from)->0);
    }
}

/// A chain followed from a name through the aliases, as long as they lead to
/// new names.
pub open spec fn followed(
    chain: Seq<Seq<char>>,
    current: Option<Seq<char>>,
    pairs: Seq<(Seq<char>, Seq<char>)>,
) -> Seq<Seq<char>>
    decreases unseen(pairs, chain),
{
    match current {
        None => chain,
        Some(name) => match alias_of(pairs, name, 0) {
            None => chain,
            Some(target) => if chain.contains(target) {
                chain
            } else {
                proof {
                    lemma_alias_of(pairs, name, 0);
                    lemma_unseen_shrinks(pairs, chain, target);
                }
                followed(chain.push(target), Some(target), pairs)
            },
        },
    }
}

/// A chain with the names of records: both names of an alias, and the owner
/// names of addresses.
pub open spec fn with_owners(chain: Seq<Seq<char>>, answers: Seq<RecordView>) -> Seq<Seq<char>>
    decreases answers.len(),
{
    if answers.len() == 0 {
        chain
    } else {
        let rest = with_owners(chain, answers.drop_last());
        let record = answers.last();
        match record.data {
            DataView::Alias(target) => with_name(
                with_name(rest, normal_name(record.name)),
                normal_name(target),
            ),
            DataView::V4(_) => with_name(rest, normal_name(record.name)),
            DataView::V6(_) => with_name(rest, normal_name(record.name)),
            _ => rest,
        }
    }
}

/// The names that an answer's addresses are bound to, in order: the query name,
/// the aliases it leads through, then any other owner names in the answer.
pub open spec fn chain_of(message: MessageView) -> Seq<Seq<char>> {
    let query = normal_query(message.query);
    let start = with_name(Seq::empty(), query);
    with_owners(followed(start, query, aliases(message.answers)), message.answers)
}

// ---------------------------------------------------------------------------
// Bindings
// ---------------------------------------------------------------------------

/// One learned binding.
#[derive(Debug, PartialEq, Eq)]
pub struct Learned {
    pub address: IpAddr,
    pub names: Vec<String>,
    /// In seconds.
    pub ttl: u32,
}

/// A [`Learned`] by its contents.
#[verifier::ext_equal]
pub struct LearnedView {
    pub address: IpAddr,
    pub names: Seq<Seq<char>>,
    pub ttl: u32,
}

impl View for Learned {
    type V = LearnedView;

    open spec fn view(&self) -> LearnedView {
        LearnedView { address: self.address, names: views(self.names@), ttl: self.ttl }
    }
}

/// The bindings of the first `n` hints.
pub open spec fn v4_bindings(
    hints: Seq<u32>,
    names: Seq<Seq<char>>,
    ttl: u32,
) -> Seq<LearnedView> {
    Seq::new(
        hints.len(),
        |i: int| LearnedView { address: IpAddr::V4(hints[i]), names, ttl },
    )
}

pub open spec fn v6_bindings(
    hints: Seq<u128>,
    names: Seq<Seq<char>>,
    ttl: u32,
) -> Seq<LearnedView> {
    Seq::new(
        hints.len(),
        |i: int| LearnedView { address: IpAddr::V6(hints[i]), names, ttl },
    )
}

pub open spec fn param_bindings(
    params: Seq<ParamView>,
    names: Seq<Seq<char>>,
    ttl: u32,
) -> Seq<LearnedView>
    decreases params.len(),
{
    if params.len() == 0 {
        Seq::empty()
    } else {
        let rest = param_bindings(params.drop_last(), names, ttl);
        match params.last() {
            ParamView::V4Hint(hints) => rest + v4_bindings(hints, names, ttl),
            ParamView::V6Hint(hints) => rest + v6_bindings(hints, names, ttl),
            ParamView::Other => rest,
        }
    }
}

/// The names that a service binding's hints are bound to: the query, owner and
/// target names.
pub open spec fn service_names(
    query: Option<Seq<char>>,
    owner: Seq<char>,
    target: Seq<char>,
) -> Seq<Seq<char>> {
    with_name(
        with_name(with_name(Seq::empty(), query), normal_name(owner)),
        normal_name(target),
    )
}

pub open spec fn record_bindings(
    answers: Seq<RecordView>,
    query: Option<Seq<char>>,
    chain: Seq<Seq<char>>,
) -> Seq<LearnedView>
    decreases answers.len(),
{
    if answers.len() == 0 {
        Seq::empty()
    } else {
        let rest = record_bindings(answers.drop_last(), query, chain);
        let record = answers.last();
        match record.data {
            DataView::V4(address) => rest.push(
                LearnedView { address: IpAddr::V4(address), names: chain, ttl: record.ttl },
            ),
            DataView::V6(address) => rest.push(
                LearnedView { address: IpAddr::V6(address), names: chain, ttl: record.ttl },
            ),
            DataView::Service(service) => rest + param_bindings(
                service.params,
                service_names(query, record.name, service.target),
                record.ttl,
            ),
            _ => rest,
        }
    }
}

/// The bindings in a DNS message.
pub open spec fn bindings_of(message: MessageView) -> Seq<LearnedView> {
    record_bindings(message.answers, normal_query(message.query), chain_of(message))
}

/// The contents of a list of aliases.
pub open spec fn alias_texts(pairs: Seq<(String, String)>) -> Seq<(Seq<char>, Seq<char>)> {
    Seq::new(pairs.len(), |i: int| (pairs[i].0@, pairs[i].1@))
}

fn read_aliases(answers: &Vec<DnsRecord>) -> (r: Vec<(String, String)>)
    ensures
        alias_texts(r@) == aliases(views(answers@)),
{
    let ghost av = views(answers@);
    let mut pairs: Vec<(String, String)> = Vec::new();
    assert(alias_texts(pairs@) =~= Seq::empty());
    let mut i: usize = 0;
    assert(av.subrange(0, 0) =~= Seq::empty());
    while i < answers.len()
        invariant
            i <= answers@.len(),
            av == views(answers@),
            alias_texts(pairs@) == aliases(av.subrange(0, i as int)),
        decreases answers@.len() - i,
    {
        assert(av.subrange(0, i + 1).drop_last() =~= av.subrange(0, i as int));
        assert(av.subrange(0, i + 1).last() == answers@[i as int]@);
        if let Data::Alias(target) = &answers[i].data {
            let owner = normalize(answers[i].name.as_str());
            let target = normalize(target.as_str());
            if let (Some(owner), Some(target)) = (owner, target) {
                let ghost done = alias_texts(pairs@);
                let ghost pair = (owner@, target@);
                pairs.push((owner, target));
                assert(alias_texts(pairs@) =~= done.push(pair));
            }
        }
        i += 1;
    }
    assert(av.subrange(0, av.len() as int) =~= av);
    pairs
}

fn find_alias(pairs: &Vec<(String, String)>, name: &str) -> (r: Option<String>)
    ensures
        opt_view(r) == alias_of(alias_texts(pairs@), name@, 0),
{
    let ghost pv = alias_texts(pairs@);
    let mut i: usize = 0;
    while i < pairs.len()
        invariant
            i <= pairs@.len(),
            pv == alias_texts(pairs@),
            alias_of(pv, name@, 0) == alias_of(pv, name@, i as int),
        decreases pairs@.len() - i,
    {
        assert(pv[i as int] == (pairs@[i as int].0@, pairs@[i as int].1@));
        if crate::text::same(pairs[i].0.as_str(), name) {
            return Some(pairs[i].1.clone());
        }
        i += 1;
    }
    None
}

/// Follow a chain from its last name through the aliases.
fn follow_aliases(chain: &mut Vec<String>, current: Option<String>, pairs: &Vec<(String, String)>)
    ensures
        views(final(chain)@) == followed(
            views(old(chain)@),
            opt_view(current),
            alias_texts(pairs@),
        ),
    decreases unseen(alias_texts(pairs@), views(old(chain)@)),
{
    let ghost pv = alias_texts(pairs@);
    let ghost before = views(chain@);
    if let Some(name) = current {
        if let Some(target) = find_alias(pairs, name.as_str()) {
            if !has_name(chain, target.as_str()) {
                proof {
                    lemma_alias_of(pv, name@, 0);
                    lemma_unseen_shrinks(pv, before, target@);
                }
                chain.push(target.clone());
                assert(views(chain@) =~= before.push(target@));
                follow_aliases(chain, Some(target), pairs);
            }
        }
    }
}

fn push_owners(chain: &mut Vec<String>, answers: &Vec<DnsRecord>)
    ensures
        views(final(chain)@) == with_owners(views(old(chain)@), views(answers@)),
{
    let ghost start = views(chain@);
    let ghost av = views(answers@);
    let mut i: usize = 0;
    assert(av.subrange(0, 0) =~= Seq::empty());
    while i < answers.len()
        invariant
            i <= answers@.len(),
            av == views(answers@),
            views(chain@) == with_owners(start, av.subrange(0, i as int)),
        decreases answers@.len() - i,
    {
        assert(av.subrange(0, i + 1).drop_last() =~= av.subrange(0, i as int));
        assert(av.subrange(0, i + 1).last() == answers@[i as int]@);
        match &answers[i].data {
            Data::Alias(target) => {
                push_name(chain, normalize(answers[i].name.as_str()));
                push_name(chain, normalize(target.as_str()));
            },
            Data::V4(_) => push_name(chain, normalize(answers[i].name.as_str())),
            Data::V6(_) => push_name(chain, normalize(answers[i].name.as_str())),
            _ => {},
        }
        i += 1;
    }
    assert(av.subrange(0, av.len() as int) =~= av);
}

fn push_v4(learned: &mut Vec<Learned>, hints: &Vec<u32>, names: &Vec<String>, ttl: u32)
    ensures
        views(final(learned)@) == views(old(learned)@) + v4_bindings(hints@, views(names@), ttl),
{
    let ghost start = views(learned@);
    let ghost all = v4_bindings(hints@, views(names@), ttl);
    let mut i: usize = 0;
    assert(start + all.subrange(0, 0) =~= start);
    while i < hints.len()
        invariant
            i <= hints@.len(),
            all == v4_bindings(hints@, views(names@), ttl),
            views(learned@) == start + all.subrange(0, i as int),
        decreases hints@.len() - i,
    {
        let ghost done = views(learned@);
        learned.push(Learned { address: IpAddr::V4(hints[i]), names: clone_names(names), ttl });
        assert(views(learned@) =~= done.push(all[i as int]));
        assert(views(learned@) =~= start + all.subrange(0, i + 1));
        i += 1;
    }
    assert(all.subrange(0, all.len() as int) =~= all);
}

fn push_v6(learned: &mut Vec<Learned>, hints: &Vec<u128>, names: &Vec<String>, ttl: u32)
    ensures
        views(final(learned)@) == views(old(learned)@) + v6_bindings(hints@, views(names@), ttl),
{
    let ghost start = views(learned@);
    let ghost all = v6_bindings(hints@, views(names@), ttl);
    let mut i: usize = 0;
    assert(start + all.subrange(0, 0) =~= start);
    while i < hints.len()
        invariant
            i <= hints@.len(),
            all == v6_bindings(hints@, views(names@), ttl),
            views(learned@) == start + all.subrange(0, i as int),
        decreases hints@.len() - i,
    {
        let ghost done = views(learned@);
        learned.push(Learned { address: IpAddr::V6(hints[i]), names: clone_names(names), ttl });
        assert(views(learned@) =~= done.push(all[i as int]));
        assert(views(learned@) =~= start + all.subrange(0, i + 1));
        i += 1;
    }
    assert(all.subrange(0, all.len() as int) =~= all);
}

fn push_params(learned: &mut Vec<Learned>, params: &Vec<Param>, names: &Vec<String>, ttl: u32)
    ensures
        views(final(learned)@) == views(old(learned)@) + param_bindings(
            views(params@),
            views(names@),
            ttl,
        ),
{
    let ghost start = views(learned@);
    let ghost pv = views(params@);
    let ghost nv = views(names@);
    let mut i: usize = 0;
    assert(pv.subrange(0, 0) =~= Seq::empty());
    assert(start + param_bindings(pv.subrange(0, 0), nv, ttl) =~= start);
    while i < params.len()
        invariant
            i <= params@.len(),
            pv == views(params@),
            nv == views(names@),
            views(learned@) == start + param_bindings(pv.subrange(0, i as int), nv, ttl),
        decreases params@.len() - i,
    {
        assert(pv.subrange(0, i + 1).drop_last() =~= pv.subrange(0, i as int));
        assert(pv.subrange(0, i + 1).last() == params@[i as int]@);
        match &params[i] {
            Param::V4Hint(hints) => push_v4(learned, hints, names, ttl),
            Param::V6Hint(hints) => push_v6(learned, hints, names, ttl),
            Param::Other => {},
        }
        assert(views(learned@) =~= start + param_bindings(pv.subrange(0, i + 1), nv, ttl));
        i += 1;
    }
    assert(pv.subrange(0, pv.len() as int) =~= pv);
}

fn copy_name(name: &Option<String>) -> (r: Option<String>)
    ensures
        opt_view(r) == opt_view(*name),
{
    match name {
        Some(name) => Some(name.clone()),
        None => None,
    }
}

/// The bindings in a DNS message: every A/AAAA address is bound to the query
/// name and every name in the CNAME chain; `HTTPS`/`SVCB` IP hints are bound
/// to the query, owner and target names.
pub fn bindings_in(message: &DnsMessage) -> (r: Vec<Learned>)
    ensures
        views(r@) == bindings_of(message@),
{
    let query = normalize_query(&message.query);
    let pairs = read_aliases(&message.answers);
    let mut chain: Vec<String> = Vec::new();
    assert(views(chain@) =~= Seq::empty());
    push_name(&mut chain, copy_name(&query));
    follow_aliases(&mut chain, copy_name(&query), &pairs);
    push_owners(&mut chain, &message.answers);
    let ghost cv = views(chain@);
    assert(cv == chain_of(message@));

    let ghost av = views(message.answers@);
    let ghost qv = opt_view(query);
    let mut learned: Vec<Learned> = Vec::new();
    assert(views(learned@) =~= Seq::empty());
    let mut i: usize = 0;
    assert(av.subrange(0, 0) =~= Seq::empty());
    while i < message.answers.len()
        invariant
            i <= message.answers@.len(),
            av == views(message.answers@),
            qv == opt_view(query),
            cv == views(chain@),
            views(learned@) == record_bindings(av.subrange(0, i as int), qv, cv),
        decreases message.answers@.len() - i,
    {
        assert(av.subrange(0, i + 1).drop_last() =~= av.subrange(0, i as int));
        assert(av.subrange(0, i + 1).last() == message.answers@[i as int]@);
        let record = &message.answers[i];
        let ghost done = views(learned@);
        match &record.data {
            Data::V4(address) => {
                let binding = Learned {
                    address: IpAddr::V4(*address),
                    names: clone_names(&chain),
                    ttl: record.ttl,
                };
                let ghost bv = binding@;
                learned.push(binding);
                assert(views(learned@) =~= done.push(bv));
            },
            Data::V6(address) => {
                let binding = Learned {
                    address: IpAddr::V6(*address),
                    names: clone_names(&chain),
                    ttl: record.ttl,
                };
                let ghost bv = binding@;
                learned.push(binding);
                assert(views(learned@) =~= done.push(bv));
            },
            Data::Service(service) => {
                let mut names: Vec<String> = Vec::new();
                assert(views(names@) =~= Seq::empty());
                push_name(&mut names, copy_name(&query));
                push_name(&mut names, normalize(record.name.as_str()));
                push_name(&mut names, normalize(service.target.as_str()));
                push_params(&mut learned, &service.params, &names, record.ttl);
            },
            _ => {},
        }
        i += 1;
    }
    assert(av.subrange(0, av.len() as int) =~= av);
    learned
}

/// What a DNS response tells.
pub open spec fn learned_from(response: Seq<u8>) -> Seq<LearnedView> {
    match dns_message(response) {
        Some(message) => bindings_of(message),
        None => Seq::empty(),
    }
}

/// Bindings in a DNS response; see [`bindings_in`]. Anything unparseable yields
/// nothing.
pub fn extract_bindings(response: &[u8]) -> (r: Vec<Learned>)
    ensures
        views(r@) == learned_from(response@),
{
    match read_message(response) {
        Some(message) => bindings_in(&message),
        None => {
            let none: Vec<Learned> = Vec::new();
            assert(views(none@) =~= Seq::empty());
            none
        },
    }
}

// ---------------------------------------------------------------------------
// Upstream resolvers
// ---------------------------------------------------------------------------

/// An upstream resolver. The scope belongs to a link-local address, and is 0
/// elsewhere.
#[derive(Debug, Clone, Copy, PartialEq, Eq, Hash, Structural)]
pub struct Upstream {
    pub ip: IpAddr,
    pub port: u16,
    pub scope: u32,
}

/// The socket address that a text writes, as the standard library reads it.
pub uninterp spec fn socket_from_text(text: Seq<char>) -> Option<Upstream>;

/// `<core::net::SocketAddr as FromStr>::from_str`: the address, port and scope
/// that `text` writes, or `None` where it writes none. Which texts write a
/// socket address is left to the standard library.
#[verifier::external_body]
fn read_socket(text: &str) -> (r: Option<Upstream>)
    ensures
        r == socket_from_text(text@),
{
    match text.parse::<core::net::SocketAddr>() {
        Ok(core::net::SocketAddr::V4(a)) => Some(
            Upstream { ip: IpAddr::V4(u32::from(*a.ip())), port: a.port(), scope: 0 }),
        Ok(core::net::SocketAddr::V6(a)) => Some(
            Upstream { ip: IpAddr::V6(u128::from(*a.ip())), port: a.port(), scope: a.scope_id() }),
        Err(_) => None,
    }
}

/// The resolver that an entry of the settings names: `ip:port`, or an address
/// for port 53.
pub open spec fn upstream_of(text: Seq<char>) -> Option<Upstream> {
    match socket_from_text(text) {
        Some(upstream) => Some(upstream),
        None => match ip_from_text(text) {
            Some(ip) => Some(Upstream { ip, port: 53, scope: 0 }),
            None => None,
        },
    }
}

/// The first entry that names no resolver.
pub open spec fn bad_upstream(texts: Seq<Seq<char>>) -> Option<Seq<char>>
    decreases texts.len(),
{
    if texts.len() == 0 {
        None
    } else {
        match bad_upstream(texts.drop_last()) {
            Some(text) => Some(text),
            None => if upstream_of(texts.last()) is None {
                Some(texts.last())
            } else {
                None
            },
        }
    }
}

/// Why there are no resolvers.
#[derive(Debug, PartialEq, Eq)]
pub enum UpstreamError {
    /// An entry names no resolver.
    Invalid(String),
    /// There is none.
    Missing,
}

impl UpstreamError {
    pub open spec fn spec_text(self) -> Seq<char> {
        match self {
            UpstreamError::Invalid(text) => "invalid upstream resolver "@ + quoted_text(text@),
            UpstreamError::Missing =>
                "no upstream DNS resolver: set broker.upstream_dns in ~/.microkitchen/config.toml"@,
        }
    }

    pub fn to_text(&self) -> (r: String)
        ensures
            r@ == self.spec_text(),
    {
        match self {
            UpstreamError::Invalid(text) => {
                let shown = quoted(text.as_str());
                concat("invalid upstream resolver ", shown.as_str())
            },
            UpstreamError::Missing =>
                "no upstream DNS resolver: set broker.upstream_dns in ~/.microkitchen/config.toml".to_owned(),
        }
    }
}

/// What a line of `resolv.conf` names as a resolver.
pub open spec fn nameserver_of(line: Seq<char>) -> Option<Upstream> {
    let text = trim(line);
    if !starts_with(text, "nameserver"@) {
        None
    } else {
        let rest = trim(after(text, "nameserver"@.len() as int));
        let address = match first_index(rest, '%', 0) {
            Some(percent) => before(rest, percent),
            None => rest,
        };
        match ip_from_text(address) {
            Some(ip) => Some(Upstream { ip, port: 53, scope: 0 }),
            None => None,
        }
    }
}

/// The resolvers that lines of `resolv.conf` name.
pub open spec fn nameservers(text: Seq<Seq<char>>) -> Seq<Upstream>
    decreases text.len(),
{
    if text.len() == 0 {
        Seq::empty()
    } else {
        let rest = nameservers(text.drop_last());
        match nameserver_of(text.last()) {
            Some(upstream) => rest.push(upstream),
            None => rest,
        }
    }
}

fn read_nameserver(line: &str) -> (r: Option<Upstream>)
    ensures
        r == nameserver_of(line@),
{
    let text = trimmed(line);
    match crate::text::strip_prefix(text.as_str(), "nameserver") {
        None => None,
        Some(rest) => {
            let rest = trimmed(rest.as_str());
            let v = chars(rest.as_str());
            let end: usize = match find_first(&v, '%') {
                Some(percent) => percent,
                None => v.len(),
            };
            let address = string_of(&v, 0, end);
            assert(address@ =~= match first_index(rest@, '%', 0) {
                Some(percent) => before(rest@, percent),
                None => rest@,
            });
            match read_ip(address.as_str()) {
                Some(ip) => Some(Upstream { ip, port: 53, scope: 0 }),
                None => None,
            }
        },
    }
}

/// The resolvers that the text of a `resolv.conf` names.
pub fn parse_resolv_conf(text: &str) -> (r: Vec<Upstream>)
    ensures
        r@ == nameservers(lines(text@)),
{
    let list = lines_of(text);
    let ghost lv = views(list@);
    let mut r: Vec<Upstream> = Vec::new();
    let mut i: usize = 0;
    assert(lv.subrange(0, 0) =~= Seq::empty());
    while i < list.len()
        invariant
            i <= list@.len(),
            lv == views(list@),
            r@ == nameservers(lv.subrange(0, i as int)),
        decreases list@.len() - i,
    {
        assert(lv.subrange(0, i + 1).drop_last() =~= lv.subrange(0, i as int));
        assert(lv.subrange(0, i + 1).last() == list@[i as int]@);
        if let Some(upstream) = read_nameserver(list[i].as_str()) {
            r.push(upstream);
        }
        i += 1;
    }
    assert(lv.subrange(0, lv.len() as int) =~= lv);
    r
}

proof fn lemma_bad_upstream_extends(texts: Seq<Seq<char>>, n: int)
    requires
        0 <= n <= texts.len(),
        bad_upstream(texts.subrange(0, n)) is Some,
    ensures
        bad_upstream(texts) == bad_upstream(texts.subrange(0, n)),
    decreases texts.len() - n,
{
    if n < texts.len() {
        assert(texts.subrange(0, n + 1).drop_last() =~= texts.subrange(0, n));
        lemma_bad_upstream_extends(texts, n + 1);
    } else {
        assert(texts.subrange(0, n) =~= texts);
    }
}

/// Upstream resolvers: `configured` (`ip` or `ip:port`) or else those of the
/// host's `/etc/resolv.conf`, whose text is given.
pub fn upstreams(configured: &Vec<String>, resolv_conf: &str) -> (r: Result<
    Vec<Upstream>,
    UpstreamError,
>)
    ensures
        ({
            let texts = views(configured@);
            if texts.len() == 0 {
                match r {
                    Ok(found) => found@ == nameservers(lines(resolv_conf@)) && found@.len() > 0,
                    Err(error) => error is Missing && nameservers(lines(resolv_conf@)).len() == 0,
                }
            } else {
                match (r, bad_upstream(texts)) {
                    (Ok(found), None) => found@.len() == texts.len() && forall|i: int|
                        0 <= i < texts.len() ==> upstream_of(#[trigger] texts[i]) == Some(
                            found@[i],
                        ),
                    (Err(UpstreamError::Invalid(text)), Some(bad)) => text@ == bad,
                    _ => false,
                }
            }
        }),
{
    let ghost texts = views(configured@);
    if configured.len() == 0 {
        let found = parse_resolv_conf(resolv_conf);
        if found.len() == 0 {
            return Err(UpstreamError::Missing);
        }
        return Ok(found);
    }
    let mut found: Vec<Upstream> = Vec::new();
    let mut i: usize = 0;
    assert(texts.subrange(0, 0) =~= Seq::empty());
    while i < configured.len()
        invariant
            i <= configured@.len(),
            texts == views(configured@),
            texts.len() > 0,
            found@.len() == i,
            bad_upstream(texts.subrange(0, i as int)) is None,
            forall|k: int| 0 <= k < i ==> upstream_of(#[trigger] texts[k]) == Some(found@[k]),
        decreases configured@.len() - i,
    {
        assert(texts.subrange(0, i + 1).drop_last() =~= texts.subrange(0, i as int));
        let text = configured[i].as_str();
        assert(texts[i as int] == text@);
        assert(texts.subrange(0, i + 1).last() == text@);
        let upstream = match read_socket(text) {
            Some(upstream) => upstream,
            None => match read_ip(text) {
                Some(ip) => Upstream { ip, port: 53, scope: 0 },
                None => {
                    proof {
                        lemma_bad_upstream_extends(texts, i + 1);
                    }
                    return Err(UpstreamError::Invalid(text.to_owned()));
                },
            },
        };
        found.push(upstream);
        i += 1;
    }
    assert(texts.subrange(0, texts.len() as int) =~= texts);
    Ok(found)
}

// ---------------------------------------------------------------------------
// Forwarding
// ---------------------------------------------------------------------------

/// Whether a datagram answers a query that was sent to an upstream resolver: it
/// comes from there and carries the query's number.
pub open spec fn answers(
    query: Seq<u8>,
    upstream: Upstream,
    from: Upstream,
    datagram: Seq<u8>,
) -> bool {
    &&& query.len() >= 2
    &&& from == upstream
    &&& datagram.len() >= 2
    &&& datagram[0] == query[0]
    &&& datagram[1] == query[1]
}

/// Whether a datagram answers a query; see [`answers`].
pub fn is_answer(query: &[u8], upstream: Upstream, from: Upstream, datagram: &[u8]) -> (r: bool)
    ensures
        r == answers(query@, upstream, from, datagram@),
{
    query.len() >= 2 && from == upstream && datagram.len() >= 2 && datagram[0] == query[0]
        && datagram[1] == query[1]
}

/// A DNS message as it goes over TCP: behind its length. `None` for a message
/// that is too long.
pub open spec fn framed(message: Seq<u8>) -> Option<Seq<u8>> {
    if message.len() <= MAX_DNS_MESSAGE {
        Some(
            seq![(message.len() / 256) as u8, (message.len() % 256) as u8] + message,
        )
    } else {
        None
    }
}

/// The length that the first two bytes of a frame give.
pub open spec fn frame_len(first: u8, second: u8) -> int {
    first * 256 + second
}

/// Frame a message for TCP; `None` if it is too long.
pub fn write_frame(message: &[u8]) -> (r: Option<Vec<u8>>)
    ensures
        match (r, framed(message@)) {
            (Some(bytes), Some(expected)) => bytes@ == expected,
            (None, None) => true,
            _ => false,
        },
{
    if message.len() > MAX_DNS_MESSAGE {
        return None;
    }
    let mut bytes: Vec<u8> = Vec::new();
    bytes.push((message.len() / 256) as u8);
    bytes.push((message.len() % 256) as u8);
    bytes.extend_from_slice(message);
    assert(bytes@ =~= framed(message@)->0);
    Some(bytes)
}

/// How many bytes follow the two that a frame starts with.
pub fn read_frame_len(first: u8, second: u8) -> (r: usize)
    ensures
        r == frame_len(first, second),
{
    first as usize * 256 + second as usize
}

// ---------------------------------------------------------------------------
// Laws
// ---------------------------------------------------------------------------

/// Whether names are host names in lower case, each once.
pub open spec fn clean_names(names: Seq<Seq<char>>) -> bool {
    &&& names.no_duplicates()
    &&& forall|i: int|
        0 <= i < names.len() ==> hostname_error(encode_utf8(#[trigger] names[i])) is None
}

proof fn lemma_with_name(names: Seq<Seq<char>>, name: Option<Seq<char>>)
    requires
        clean_names(names),
        name matches Some(name) ==> hostname_error(encode_utf8(name)) is None,
    ensures
        clean_names(with_name(names, name)),
        name matches Some(new) ==> with_name(names, name).contains(new),
        forall|other: Seq<char>| names.contains(other) ==> #[trigger] with_name(
            names,
            name,
        ).contains(other),
{
    if let Some(new) = name {
        if !names.contains(new) {
            let all = names.push(new);
            assert(all[names.len() as int] == new);
            assert forall|i: int, j: int|
                0 <= i < all.len() && 0 <= j < all.len() && i != j implies all[i] != all[j] by {
                if i < names.len() && j < names.len() {
                    assert(names[i] != names[j]);
                } else if i < names.len() {
                    assert(names[i] != new);
                } else {
                    assert(names[j] != new);
                }
            }
            assert forall|other: Seq<char>| names.contains(other) implies all.contains(other) by {
                let k = choose|k: int| 0 <= k < names.len() && names[k] == other;
                assert(all[k] == other);
            }
        }
    }
}

proof fn lemma_aliases_clean(answers: Seq<RecordView>)
    ensures
        forall|i: int|
            0 <= i < aliases(answers).len() ==> hostname_error(
                encode_utf8((#[trigger] aliases(answers)[i]).1),
            ) is None,
    decreases answers.len(),
{
    if answers.len() > 0 {
        lemma_aliases_clean(answers.drop_last());
    }
}

proof fn lemma_followed(
    chain: Seq<Seq<char>>,
    current: Option<Seq<char>>,
    pairs: Seq<(Seq<char>, Seq<char>)>,
    kept: Seq<char>,
)
    requires
        clean_names(chain),
        forall|i: int|
            0 <= i < pairs.len() ==> hostname_error(encode_utf8((#[trigger] pairs[i]).1)) is None,
    ensures
        clean_names(followed(chain, current, pairs)),
        chain.contains(kept) ==> followed(chain, current, pairs).contains(kept),
    decreases unseen(pairs, chain),
{
    if let Some(name) = current {
        if let Some(target) = alias_of(pairs, name, 0) {
            if !chain.contains(target) {
                lemma_alias_of(pairs, name, 0);
                lemma_unseen_shrinks(pairs, chain, target);
                lemma_with_name(chain, Some(target));
                assert(with_name(chain, Some(target)) == chain.push(target));
                lemma_followed(chain.push(target), Some(target), pairs, kept);
            }
        }
    }
}

proof fn lemma_with_owners(chain: Seq<Seq<char>>, answers: Seq<RecordView>, kept: Seq<char>)
    requires
        clean_names(chain),
    ensures
        clean_names(with_owners(chain, answers)),
        chain.contains(kept) ==> with_owners(chain, answers).contains(kept),
    decreases answers.len(),
{
    if answers.len() > 0 {
        lemma_with_owners(chain, answers.drop_last(), kept);
        let rest = with_owners(chain, answers.drop_last());
        let record = answers.last();
        lemma_with_name(rest, normal_name(record.name));
        match record.data {
            DataView::Alias(target) => {
                let half = with_name(rest, normal_name(record.name));
                lemma_with_name(half, normal_name(target));
            },
            _ => {},
        }
    }
}

proof fn lemma_chain(message: MessageView)
    ensures
        clean_names(chain_of(message)),
        normal_query(message.query) matches Some(query) ==> chain_of(message).contains(query),
{
    let query = normal_query(message.query);
    let start = with_name(Seq::empty(), query);
    let kept = match query {
        Some(name) => name,
        None => ""@,
    };
    lemma_with_name(Seq::empty(), query);
    lemma_aliases_clean(message.answers);
    let chain = followed(start, query, aliases(message.answers));
    lemma_followed(start, query, aliases(message.answers), kept);
    lemma_with_owners(chain, message.answers, kept);
}

proof fn lemma_param_bindings(params: Seq<ParamView>, names: Seq<Seq<char>>, ttl: u32, i: int)
    requires
        0 <= i < param_bindings(params, names, ttl).len(),
    ensures
        param_bindings(params, names, ttl)[i].names == names,
    decreases params.len(),
{
    let rest = param_bindings(params.drop_last(), names, ttl);
    if i < rest.len() {
        lemma_param_bindings(params.drop_last(), names, ttl, i);
    }
}

proof fn lemma_record_bindings(
    answers: Seq<RecordView>,
    query: Option<Seq<char>>,
    chain: Seq<Seq<char>>,
    i: int,
)
    requires
        clean_names(chain),
        query matches Some(query) ==> chain.contains(query) && hostname_error(
            encode_utf8(query),
        ) is None,
        0 <= i < record_bindings(answers, query, chain).len(),
    ensures
        clean_names(record_bindings(answers, query, chain)[i].names),
        query matches Some(query) ==> record_bindings(
            answers,
            Some(query),
            chain,
        )[i].names.contains(query),
    decreases answers.len(),
{
    let rest = record_bindings(answers.drop_last(), query, chain);
    if i < rest.len() {
        lemma_record_bindings(answers.drop_last(), query, chain, i);
    } else {
        let record = answers.last();
        match record.data {
            DataView::Service(service) => {
                let one = with_name(Seq::empty(), query);
                let two = with_name(one, normal_name(record.name));
                lemma_with_name(Seq::empty(), query);
                lemma_with_name(one, normal_name(record.name));
                lemma_with_name(two, normal_name(service.target));
                lemma_param_bindings(
                    service.params,
                    service_names(query, record.name, service.target),
                    record.ttl,
                    i - rest.len(),
                );
            },
            _ => {},
        }
    }
}

/// Every address in a response is bound to names that follow the grammar of
/// host names, each once; and the name that was asked for is among them, if it
/// follows the grammar.
pub proof fn law_addresses_are_bound_to_what_was_asked(message: MessageView, i: int)
    requires
        0 <= i < bindings_of(message).len(),
    ensures
        clean_names(bindings_of(message)[i].names),
        normal_query(message.query) matches Some(query) ==> bindings_of(
            message,
        )[i].names.contains(query),
{
    lemma_chain(message);
    lemma_record_bindings(message.answers, normal_query(message.query), chain_of(message), i);
}

/// A frame gives back the message that was framed.
pub proof fn law_frames_round_trip(message: Seq<u8>)
    requires
        message.len() <= MAX_DNS_MESSAGE,
    ensures
        framed(message) matches Some(bytes) && frame_len(bytes[0], bytes[1]) == message.len()
            && bytes.subrange(2, bytes.len() as int) == message,
{
    let bytes = framed(message)->0;
    assert(bytes.subrange(2, bytes.len() as int) =~= message);
}

/// What one record tells: its address, bound to the names of the answer; or its
/// hints, bound to the names of the service.
pub open spec fn told_by(message: MessageView, record: RecordView) -> Seq<LearnedView> {
    match record.data {
        DataView::V4(address) => seq![
            LearnedView {
                address: IpAddr::V4(address),
                names: chain_of(message),
                ttl: record.ttl,
            },
        ],
        DataView::V6(address) => seq![
            LearnedView {
                address: IpAddr::V6(address),
                names: chain_of(message),
                ttl: record.ttl,
            },
        ],
        DataView::Service(service) => service.params.flat_map(
            |param: ParamView|
                hinted_by(
                    param,
                    service_names(normal_query(message.query), record.name, service.target),
                    record.ttl,
                ),
        ),
        _ => Seq::empty(),
    }
}

/// What one parameter of a service binding tells: each of its hints.
pub open spec fn hinted_by(param: ParamView, names: Seq<Seq<char>>, ttl: u32) -> Seq<LearnedView> {
    match param {
        ParamView::V4Hint(hints) => hints.map_values(
            |hint: u32| LearnedView { address: IpAddr::V4(hint), names, ttl },
        ),
        ParamView::V6Hint(hints) => hints.map_values(
            |hint: u128| LearnedView { address: IpAddr::V6(hint), names, ttl },
        ),
        ParamView::Other => Seq::empty(),
    }
}

proof fn lemma_params_told(params: Seq<ParamView>, names: Seq<Seq<char>>, ttl: u32)
    ensures
        param_bindings(params, names, ttl) == params.flat_map(
            |param: ParamView| hinted_by(param, names, ttl),
        ),
    decreases params.len(),
{
    let f = |param: ParamView| hinted_by(param, names, ttl);
    lemma_flat_map_step(params, f);
    if params.len() > 0 {
        lemma_params_told(params.drop_last(), names, ttl);
        match params.last() {
            ParamView::V4Hint(hints) => {
                assert(v4_bindings(hints, names, ttl) =~= f(params.last()));
            },
            ParamView::V6Hint(hints) => {
                assert(v6_bindings(hints, names, ttl) =~= f(params.last()));
            },
            ParamView::Other => {},
        }
        assert(param_bindings(params, names, ttl) =~= params.flat_map(f));
    }
}

proof fn lemma_records_told(message: MessageView, answers: Seq<RecordView>)
    ensures
        record_bindings(answers, normal_query(message.query), chain_of(message))
            == answers.flat_map(|record: RecordView| told_by(message, record)),
    decreases answers.len(),
{
    let f = |record: RecordView| told_by(message, record);
    let query = normal_query(message.query);
    lemma_flat_map_step(answers, f);
    if answers.len() > 0 {
        lemma_records_told(message, answers.drop_last());
        let record = answers.last();
        if let DataView::Service(service) = record.data {
            lemma_params_told(
                service.params,
                service_names(query, record.name, service.target),
                record.ttl,
            );
        }
        assert(record_bindings(answers, query, chain_of(message)) =~= answers.flat_map(f));
    }
}

/// A response tells what its records tell, one after the other: nothing is left
/// out and nothing added.
pub proof fn law_every_record_is_learned_from(message: MessageView)
    ensures
        bindings_of(message) == message.answers.flat_map(
            |record: RecordView| told_by(message, record),
        ),
{
    lemma_records_told(message, message.answers);
}

/// Every address in a response is learned for the names of the answer and as long
/// as its record lives, and every hint of a service for the names of the service.
pub proof fn law_every_address_is_learned(message: MessageView, k: int)
    requires
        0 <= k < message.answers.len(),
    ensures
        message.answers[k].data matches DataView::V4(address) ==> bindings_of(message).contains(
            LearnedView {
                address: IpAddr::V4(address),
                names: chain_of(message),
                ttl: message.answers[k].ttl,
            },
        ),
        message.answers[k].data matches DataView::V6(address) ==> bindings_of(message).contains(
            LearnedView {
                address: IpAddr::V6(address),
                names: chain_of(message),
                ttl: message.answers[k].ttl,
            },
        ),
        message.answers[k].data matches DataView::Service(service) ==> forall|p: int, h: int|
            #![trigger service.params[p], is_hint(h)]
            0 <= p < service.params.len() && is_hint(h) ==> (match service.params[p] {
                ParamView::V4Hint(hints) => h < hints.len() ==> bindings_of(message).contains(
                    LearnedView {
                        address: IpAddr::V4(hints[h]),
                        names: service_names(
                            normal_query(message.query),
                            message.answers[k].name,
                            service.target,
                        ),
                        ttl: message.answers[k].ttl,
                    },
                ),
                ParamView::V6Hint(hints) => h < hints.len() ==> bindings_of(message).contains(
                    LearnedView {
                        address: IpAddr::V6(hints[h]),
                        names: service_names(
                            normal_query(message.query),
                            message.answers[k].name,
                            service.target,
                        ),
                        ttl: message.answers[k].ttl,
                    },
                ),
                ParamView::Other => true,
            }),
{
    law_every_record_is_learned_from(message);
    let f = |record: RecordView| told_by(message, record);
    let record = message.answers[k];
    let told = told_by(message, record);
    match record.data {
        DataView::V4(address) => {
            assert(told.contains(told[0]));
            lemma_flat_map_contains(message.answers, f, told[0]);
            assert(f(message.answers[k]).contains(told[0]));
        },
        DataView::V6(address) => {
            assert(told.contains(told[0]));
            lemma_flat_map_contains(message.answers, f, told[0]);
            assert(f(message.answers[k]).contains(told[0]));
        },
        DataView::Service(service) => {
            let names = service_names(normal_query(message.query), record.name, service.target);
            let g = |param: ParamView| hinted_by(param, names, record.ttl);
            assert forall|p: int, h: int|
                #![trigger service.params[p], is_hint(h)]
                0 <= p < service.params.len() && is_hint(h) implies (match service.params[p] {
                ParamView::V4Hint(hints) => h < hints.len() ==> bindings_of(message).contains(
                    LearnedView { address: IpAddr::V4(hints[h]), names, ttl: record.ttl },
                ),
                ParamView::V6Hint(hints) => h < hints.len() ==> bindings_of(message).contains(
                    LearnedView { address: IpAddr::V6(hints[h]), names, ttl: record.ttl },
                ),
                ParamView::Other => true,
            }) by {
                let some = hinted_by(service.params[p], names, record.ttl);
                if h < some.len() {
                    assert(some.contains(some[h]));
                    lemma_flat_map_contains(service.params, g, some[h]);
                    assert(g(service.params[p]).contains(some[h]));
                    lemma_flat_map_contains(message.answers, f, some[h]);
                    assert(f(message.answers[k]).contains(some[h]));
                }
            }
        },
        _ => {},
    }
}

/// Whether a number can be the place of a hint.
pub open spec fn is_hint(h: int) -> bool {
    0 <= h
}

/// Whether a record gives the names of an answer one more: an alias both of its
/// names, an address its owner's.
pub open spec fn gives_name(record: RecordView, name: Seq<char>) -> bool {
    match record.data {
        DataView::Alias(target) => normal_name(record.name) == Some(name) || normal_name(target)
            == Some(name),
        DataView::V4(_) => normal_name(record.name) == Some(name),
        DataView::V6(_) => normal_name(record.name) == Some(name),
        _ => false,
    }
}

proof fn lemma_owners_have(chain: Seq<Seq<char>>, answers: Seq<RecordView>, name: Seq<char>)
    ensures
        with_owners(chain, answers).contains(name) <==> chain.contains(name) || exists|k: int|
            0 <= k < answers.len() && gives_name(#[trigger] answers[k], name),
        chain.len() <= with_owners(chain, answers).len(),
        with_owners(chain, answers).subrange(0, chain.len() as int) == chain,
    decreases answers.len(),
{
    if answers.len() > 0 {
        let fewer = answers.drop_last();
        let rest = with_owners(chain, fewer);
        let record = answers.last();
        lemma_owners_have(chain, fewer, name);
        let one = with_name(rest, normal_name(record.name));
        lemma_with_name_has(rest, normal_name(record.name), name);
        if let DataView::Alias(target) = record.data {
            lemma_with_name_has(one, normal_name(target), name);
            assert(with_owners(chain, answers).subrange(0, rest.len() as int) =~= rest);
        }
        assert(with_owners(chain, answers).subrange(0, rest.len() as int) =~= rest);
        assert(with_owners(chain, answers).subrange(0, chain.len() as int) =~= rest.subrange(
            0,
            chain.len() as int,
        )) by {
            let all = with_owners(chain, answers);
            assert forall|i: int| 0 <= i < chain.len() implies all[i] == rest[i] by {
                assert(all.subrange(0, rest.len() as int)[i] == rest[i]);
            }
        }
        if exists|k: int| 0 <= k < fewer.len() && gives_name(#[trigger] fewer[k], name) {
            let k = choose|k: int| 0 <= k < fewer.len() && gives_name(#[trigger] fewer[k], name);
            assert(answers[k] == fewer[k]);
        }
        if exists|k: int| 0 <= k < answers.len() && gives_name(#[trigger] answers[k], name) {
            let k = choose|k: int| 0 <= k < answers.len() && gives_name(#[trigger] answers[k], name);
            if k < fewer.len() {
                assert(fewer[k] == answers[k]);
            }
        }
        if gives_name(record, name) {
            assert(answers[answers.len() - 1] == record);
        }
    } else {
        assert(chain.subrange(0, chain.len() as int) =~= chain);
    }
}

proof fn lemma_with_name_has(names: Seq<Seq<char>>, new: Option<Seq<char>>, name: Seq<char>)
    ensures
        with_name(names, new).contains(name) <==> names.contains(name) || new == Some(name),
        names.len() <= with_name(names, new).len(),
        with_name(names, new).subrange(0, names.len() as int) == names,
{
    let all = with_name(names, new);
    assert(all.subrange(0, names.len() as int) =~= names);
    if names.contains(name) {
        let k = choose|k: int| 0 <= k < names.len() && names[k] == name;
        assert(all[k] == name);
    }
    if all.contains(name) && new != Some(name) {
        let k = choose|k: int| 0 <= k < all.len() && all[k] == name;
        assert(names[k] == name);
    }
    if new == Some(name) && !names.contains(name) {
        assert(all[names.len() as int] == name);
    }
}

/// Whether an answer has an alias from one name to another, both of which follow
/// the grammar, and no such alias of the name before it.
pub open spec fn leads_first(
    answers: Seq<RecordView>,
    owner: Seq<char>,
    target: Seq<char>,
) -> bool {
    exists|k: int|
        0 <= k < answers.len() && is_alias(#[trigger] answers[k], owner, target) && forall|
            j: int,
            other: Seq<char>,
        |
            0 <= j < k ==> !(#[trigger] is_alias(answers[j], owner, other))
}

pub open spec fn is_alias(record: RecordView, owner: Seq<char>, target: Seq<char>) -> bool {
    record.data matches DataView::Alias(text) && normal_name(record.name) == Some(owner)
        && normal_name(text) == Some(target)
}

/// Whether the names of an answer start with a name and follow its aliases as far
/// as they lead to new names.
pub open spec fn follows_aliases(
    answers: Seq<RecordView>,
    names: Seq<Seq<char>>,
    m: int,
) -> bool {
    &&& forall|j: int|
        0 <= j < m - 1 ==> leads_first(answers, #[trigger] names[j], names[j + 1])
    &&& forall|target: Seq<char>|
        leads_first(answers, names[m - 1], target) ==> #[trigger] names.subrange(0, m).contains(
            target,
        )
}

proof fn lemma_alias_pairs(answers: Seq<RecordView>, owner: Seq<char>, target: Seq<char>)
    ensures
        alias_of(aliases(answers), owner, 0) == Some(target) <==> leads_first(
            answers,
            owner,
            target,
        ),
    decreases answers.len(),
{
    if answers.len() > 0 {
        let fewer = answers.drop_last();
        let record = answers.last();
        let last = answers.len() - 1;
        lemma_alias_pairs(fewer, owner, target);
        lemma_alias_none(fewer, owner);
        let pairs = aliases(fewer);
        if let DataView::Alias(text) = record.data {
            if let (Some(o), Some(t)) = (normal_name(record.name), normal_name(text)) {
                lemma_alias_push(pairs, (o, t), owner, 0);
            }
        }
        if leads_first(fewer, owner, target) {
            let k = choose|k: int|
                0 <= k < fewer.len() && is_alias(#[trigger] fewer[k], owner, target) && forall|
                    j: int,
                    other: Seq<char>,
                |
                    0 <= j < k ==> !(#[trigger] is_alias(fewer[j], owner, other));
            assert(answers[k] == fewer[k]);
            assert forall|j: int, other: Seq<char>| 0 <= j < k implies !(#[trigger] is_alias(
                answers[j],
                owner,
                other,
            )) by {
                assert(answers[j] == fewer[j]);
                assert(!is_alias(fewer[j], owner, other));
            }
            assert(leads_first(answers, owner, target));
        }
        if leads_first(answers, owner, target) {
            let k = choose|k: int|
                0 <= k < answers.len() && is_alias(#[trigger] answers[k], owner, target) && forall|
                    j: int,
                    other: Seq<char>,
                |
                    0 <= j < k ==> !(#[trigger] is_alias(answers[j], owner, other));
            if k < last {
                assert(fewer[k] == answers[k]);
                assert forall|j: int, other: Seq<char>| 0 <= j < k implies !(#[trigger] is_alias(
                    fewer[j],
                    owner,
                    other,
                )) by {
                    assert(!is_alias(answers[j], owner, other));
                }
                assert(leads_first(fewer, owner, target));
            } else {
                assert forall|j: int, other: Seq<char>| 0 <= j < fewer.len() implies !(
                #[trigger] is_alias(fewer[j], owner, other)) by {
                    assert(!is_alias(answers[j], owner, other));
                }
            }
        }
        if alias_of(pairs, owner, 0) is None && is_alias(record, owner, target) {
            assert(answers[last] == record);
            assert forall|j: int, other: Seq<char>| 0 <= j < last implies !(#[trigger] is_alias(
                answers[j],
                owner,
                other,
            )) by {
                assert(fewer[j] == answers[j]);
                assert(!is_alias(fewer[j], owner, other));
            }
            assert(leads_first(answers, owner, target));
        }
    }
}

proof fn lemma_alias_none(answers: Seq<RecordView>, owner: Seq<char>)
    ensures
        alias_of(aliases(answers), owner, 0) is None <==> forall|j: int, other: Seq<char>|
            0 <= j < answers.len() ==> !(#[trigger] is_alias(answers[j], owner, other)),
    decreases answers.len(),
{
    if answers.len() > 0 {
        let fewer = answers.drop_last();
        let record = answers.last();
        let last = answers.len() - 1;
        lemma_alias_none(fewer, owner);
        let pairs = aliases(fewer);
        if let DataView::Alias(text) = record.data {
            if let (Some(o), Some(t)) = (normal_name(record.name), normal_name(text)) {
                lemma_alias_push(pairs, (o, t), owner, 0);
                if o == owner {
                    assert(is_alias(answers[last], owner, t));
                }
            }
        }
        if alias_of(pairs, owner, 0) is Some {
            let (j, other) = choose|j: int, other: Seq<char>|
                0 <= j < fewer.len() && #[trigger] is_alias(fewer[j], owner, other);
            assert(is_alias(answers[j], owner, other));
        }
        if alias_of(aliases(answers), owner, 0) is None {
            assert forall|j: int, other: Seq<char>| 0 <= j < answers.len() implies !(
            #[trigger] is_alias(answers[j], owner, other)) by {
                if j < last {
                    assert(!is_alias(fewer[j], owner, other));
                }
            }
        }
    }
}

proof fn lemma_alias_push(
    pairs: Seq<(Seq<char>, Seq<char>)>,
    pair: (Seq<char>, Seq<char>),
    owner: Seq<char>,
    from: int,
)
    requires
        0 <= from <= pairs.len(),
    ensures
        alias_of(pairs.push(pair), owner, from) == match alias_of(pairs, owner, from) {
            Some(target) => Some(target),
            None => if pair.0 == owner {
                Some(pair.1)
            } else {
                None
            },
        },
    decreases pairs.len() - from,
{
    let all = pairs.push(pair);
    if from < pairs.len() {
        assert(all[from] == pairs[from]);
        lemma_alias_push(pairs, pair, owner, from + 1);
    } else {
        assert(all[from] == pair);
        assert(alias_of(all, owner, from + 1) is None);
    }
}

proof fn lemma_followed_order(
    answers: Seq<RecordView>,
    chain: Seq<Seq<char>>,
    start: Seq<char>,
)
    requires
        chain.len() > 0,
        chain.last() == start,
        forall|j: int|
            0 <= j < chain.len() - 1 ==> leads_first(answers, #[trigger] chain[j], chain[j + 1]),
    ensures
        ({
            let all = followed(chain, Some(start), aliases(answers));
            &&& all.len() >= chain.len()
            &&& all.subrange(0, chain.len() as int) == chain
            &&& follows_aliases(answers, all, all.len() as int)
        }),
    decreases unseen(aliases(answers), chain),
{
    let pairs = aliases(answers);
    let all = followed(chain, Some(start), pairs);
    match alias_of(pairs, start, 0) {
        None => {
            assert(all.subrange(0, chain.len() as int) =~= chain);
            assert forall|target: Seq<char>| leads_first(answers, all[all.len() - 1], target) implies #[trigger] all.subrange(
            0, all.len() as int).contains(target) by {
                lemma_alias_pairs(answers, start, target);
            }
        },
        Some(target) => {
            lemma_alias_pairs(answers, start, target);
            if chain.contains(target) {
                assert(all.subrange(0, chain.len() as int) =~= chain);
                assert forall|other: Seq<char>| leads_first(answers, all[all.len() - 1], other) implies #[trigger] all.subrange(
                0, all.len() as int).contains(other) by {
                    lemma_alias_pairs(answers, start, other);
                }
            } else {
                lemma_alias_of(pairs, start, 0);
                lemma_unseen_shrinks(pairs, chain, target);
                let longer = chain.push(target);
                assert forall|j: int| 0 <= j < longer.len() - 1 implies leads_first(
                    answers,
                    #[trigger] longer[j],
                    longer[j + 1],
                ) by {
                    if j < chain.len() - 1 {
                        assert(leads_first(answers, chain[j], chain[j + 1]));
                    }
                }
                lemma_followed_order(answers, longer, target);
                assert(all.subrange(0, chain.len() as int) =~= chain) by {
                    assert forall|i: int| 0 <= i < chain.len() implies all[i] == chain[i] by {
                        assert(all.subrange(0, longer.len() as int)[i] == longer[i]);
                    }
                }
            }
        },
    }
}

/// The names of an answer are the name that was asked for, both names of each alias
/// and the owner of each address, as far as they follow the grammar, and no others,
/// each once. The name that was asked for comes first, and behind it the aliases
/// that it leads through.
pub proof fn law_names_of_an_answer(message: MessageView, name: Seq<char>)
    ensures
        chain_of(message).no_duplicates(),
        chain_of(message).contains(name) <==> normal_query(message.query) == Some(name) || exists|
            k: int,
        |
            0 <= k < message.answers.len() && gives_name(#[trigger] message.answers[k], name),
        normal_query(message.query) matches Some(query) ==> chain_of(message).len() > 0 && chain_of(
            message,
        )[0] == query && exists|m: int|
            1 <= m <= chain_of(message).len() && #[trigger] follows_aliases(
                message.answers,
                chain_of(message),
                m,
            ),
{
    lemma_chain(message);
    let query = normal_query(message.query);
    let start = with_name(Seq::empty(), query);
    let pairs = aliases(message.answers);
    let chain = followed(start, query, pairs);
    let all = chain_of(message);
    lemma_owners_have(chain, message.answers, name);
    lemma_with_name_has(Seq::empty(), query, name);
    lemma_followed_names(message.answers, start, query, name);
    if let Some(query) = query {
        assert(start =~= seq![query]);
        lemma_followed_order(message.answers, start, query);
        let m = chain.len() as int;
        assert(chain[0] == chain.subrange(0, 1)[0]);
        assert(all.subrange(0, m) == chain);
        assert(all[0] == all.subrange(0, m)[0]);
        assert forall|j: int| 0 <= j < m - 1 implies leads_first(
            message.answers,
            #[trigger] all[j],
            all[j + 1],
        ) by {
            assert(all[j] == all.subrange(0, m)[j] && all[j + 1] == all.subrange(0, m)[j + 1]);
            assert(leads_first(message.answers, chain[j], chain[j + 1]));
        }
        assert(chain.subrange(0, m) =~= chain);
        assert(all[m - 1] == all.subrange(0, m)[m - 1]);
        assert(follows_aliases(message.answers, all, m));
    }
}

proof fn lemma_followed_names(
    answers: Seq<RecordView>,
    chain: Seq<Seq<char>>,
    current: Option<Seq<char>>,
    name: Seq<char>,
)
    ensures
        chain.contains(name) ==> followed(chain, current, aliases(answers)).contains(name),
        followed(chain, current, aliases(answers)).contains(name) ==> chain.contains(name)
            || exists|k: int| 0 <= k < answers.len() && gives_name(#[trigger] answers[k], name),
    decreases unseen(aliases(answers), chain),
{
    let pairs = aliases(answers);
    if let Some(start) = current {
        if let Some(target) = alias_of(pairs, start, 0) {
            if !chain.contains(target) {
                lemma_alias_of(pairs, start, 0);
                lemma_unseen_shrinks(pairs, chain, target);
                lemma_followed_names(answers, chain.push(target), Some(target), name);
                lemma_with_name_has(chain, Some(target), name);
                lemma_alias_pairs(answers, start, target);
                let k = choose|k: int|
                    0 <= k < answers.len() && is_alias(#[trigger] answers[k], start, target)
                        && forall|j: int, other: Seq<char>|
                        0 <= j < k ==> !(#[trigger] is_alias(answers[j], start, other));
                assert(is_alias(answers[k], start, target));
                assert(gives_name(answers[k], target));
            }
        }
    }
}

/// The hints of a service are bound to the name that was asked for, the owner and
/// the target, in this order, as far as they follow the grammar, each once.
pub proof fn law_names_of_a_service(
    query: Option<Seq<char>>,
    owner: Seq<char>,
    target: Seq<char>,
    name: Seq<char>,
)
    ensures
        service_names(query, owner, target).contains(name) <==> query == Some(name) || normal_name(
            owner,
        ) == Some(name) || normal_name(target) == Some(name),
        service_names(query, owner, target).no_duplicates(),
        query matches Some(query) ==> service_names(Some(query), owner, target)[0] == query,
        query is None && normal_name(owner) is Some ==> service_names(query, owner, target)[0]
            == normal_name(owner)->0,
        ({
            let names = service_names(query, owner, target);
            names.len() == 3 ==> names == seq![
                query->0,
                normal_name(owner)->0,
                normal_name(target)->0,
            ]
        }),
{
    let none = Seq::<Seq<char>>::empty();
    let one = with_name(none, query);
    let two = with_name(one, normal_name(owner));
    lemma_with_name_has(none, query, name);
    lemma_with_name_has(one, normal_name(owner), name);
    lemma_with_name_has(two, normal_name(target), name);
    let names = service_names(query, owner, target);
    if let Some(query) = query {
        assert(one[0] == query);
        assert(two[0] == two.subrange(0, 1)[0]);
    }
    if names.len() == 3 {
        assert(names =~= seq![query->0, normal_name(owner)->0, normal_name(target)->0]);
    }
}

/// Names are read without the dots at their end and in lower case, and count only
/// where they follow the grammar of host names.
pub proof fn law_names_are_read_alike(base: Seq<char>, dots: nat)
    requires
        base.len() > 0 ==> base.last() != '.',
    ensures
        normal_name(base + Seq::new(dots, |i: int| '.')) == if hostname_error(
            encode_utf8(lowercase(base)),
        ) is None {
            Some(lowercase(base))
        } else {
            None
        },
    decreases dots,
{
    let text = base + Seq::new(dots, |i: int| '.');
    if dots > 0 {
        let fewer = (dots - 1) as nat;
        law_names_are_read_alike(base, fewer);
        assert(text.last() == '.');
        assert(text.drop_last() =~= base + Seq::new(fewer, |i: int| '.'));
    } else {
        assert(text =~= base);
    }
}

/// A datagram answers a query exactly where it comes from the resolver that was
/// asked and starts with the two bytes that the query starts with.
pub proof fn law_answers_carry_the_number_of_the_query(
    query: Seq<u8>,
    upstream: Upstream,
    from: Upstream,
    datagram: Seq<u8>,
)
    ensures
        answers(query, upstream, from, datagram) <==> from == upstream && query.len() >= 2
            && datagram.len() >= 2 && datagram.subrange(0, 2) == query.subrange(0, 2),
{
    if query.len() >= 2 && datagram.len() >= 2 {
        if datagram.subrange(0, 2) == query.subrange(0, 2) {
            assert(datagram.subrange(0, 2)[0] == datagram[0] && datagram.subrange(0, 2)[1]
                == datagram[1]);
            assert(query.subrange(0, 2)[0] == query[0] && query.subrange(0, 2)[1] == query[1]);
        }
        if datagram[0] == query[0] && datagram[1] == query[1] {
            assert(datagram.subrange(0, 2) =~= query.subrange(0, 2));
        }
    }
}

/// A message is framed exactly where its length fits two bytes, and the length
/// comes first, high byte first.
pub proof fn law_frames_carry_lengths(message: Seq<u8>)
    ensures
        framed(message) is Some <==> message.len() <= 65535,
        framed(message) matches Some(bytes) ==> bytes.len() == message.len() + 2 && bytes[0] * 256
            + bytes[1] == message.len() && bytes.subrange(2, bytes.len() as int) == message,
{
    if let Some(bytes) = framed(message) {
        assert(bytes.subrange(2, bytes.len() as int) =~= message);
    }
}

/// A resolver of the settings is `ip:port`, or an address for port 53. The first
/// entry that is neither is refused.
pub proof fn law_resolvers_are_read(texts: Seq<Seq<char>>)
    ensures
        forall|text: Seq<char>| #[trigger]
            socket_from_text(text) matches Some(upstream) ==> upstream_of(text) == Some(upstream),
        forall|text: Seq<char>|
            socket_from_text(text) is None ==> #[trigger] upstream_of(text) == match ip_from_text(
                text,
            ) {
                Some(ip) => Some(Upstream { ip, port: 53, scope: 0 }),
                None => None,
            },
        match bad_upstream(texts) {
            None => forall|i: int|
                0 <= i < texts.len() ==> upstream_of(#[trigger] texts[i]) is Some,
            Some(text) => exists|i: int|
                0 <= i < texts.len() && #[trigger] texts[i] == text && upstream_of(text) is None
                    && forall|j: int| 0 <= j < i ==> upstream_of(#[trigger] texts[j]) is Some,
        },
    decreases texts.len(),
{
    if texts.len() > 0 {
        let rest = texts.drop_last();
        law_resolvers_are_read(rest);
        match bad_upstream(rest) {
            None => {
                assert forall|i: int| 0 <= i < rest.len() implies upstream_of(
                    #[trigger] texts[i],
                ) is Some by {
                    assert(rest[i] == texts[i]);
                }
                assert(texts[texts.len() - 1] == texts.last());
            },
            Some(text) => {
                let i = choose|i: int|
                    0 <= i < rest.len() && #[trigger] rest[i] == text && upstream_of(text) is None
                        && forall|j: int|
                        0 <= j < i ==> upstream_of(#[trigger] rest[j]) is Some;
                assert(texts[i] == text);
                assert forall|j: int| 0 <= j < i implies upstream_of(#[trigger] texts[j]) is Some by {
                    assert(rest[j] == texts[j]);
                }
            },
        }
    }
}

/// The resolvers of a `resolv.conf` are those of its lines, in order.
pub proof fn law_nameservers_stand_in_order(list: Seq<Seq<char>>)
    ensures
        nameservers(list) == list.flat_map(
            |line: Seq<char>|
                match nameserver_of(line) {
                    Some(upstream) => seq![upstream],
                    None => Seq::empty(),
                },
        ),
    decreases list.len(),
{
    let f = |line: Seq<char>|
        match nameserver_of(line) {
            Some(upstream) => seq![upstream],
            None => Seq::<Upstream>::empty(),
        };
    lemma_flat_map_step(list, f);
    if list.len() > 0 {
        law_nameservers_stand_in_order(list.drop_last());
        assert(nameservers(list) =~= list.flat_map(f));
    }
}

/// What is learned of a response is what its message tells, and nothing where it is none;
/// the name that was asked for counts where it follows the grammar.
pub proof fn law_responses_are_read(response: Seq<u8>, name: Seq<char>)
    ensures
        dns_message(response) matches Some(message) ==> learned_from(response) == bindings_of(
            message,
        ),
        dns_message(response) is None ==> learned_from(response).len() == 0,
        normal_query(Some(name)) == normal_name(name),
        normal_query(None) is None,
{
}

/// A line names a resolver where it is `nameserver` and an address, with white space
/// around them; what stands behind `%` does not count.
pub proof fn law_nameserver_lines(line: Seq<char>, rest: Seq<char>, address: Seq<char>, zone: Seq<char>)
    requires
        trim(line) == "nameserver"@ + rest,
        !address.contains('%'),
    ensures
        trim(rest) == address ==> nameserver_of(line) == match ip_from_text(address) {
            Some(ip) => Some(Upstream { ip, port: 53, scope: 0 }),
            None => None,
        },
        trim(rest) == address + seq!['%'] + zone ==> nameserver_of(line) == match ip_from_text(
            address,
        ) {
            Some(ip) => Some(Upstream { ip, port: 53, scope: 0 }),
            None => None,
        },
{
    let text = trim(line);
    let n = "nameserver"@.len() as int;
    assert(text.subrange(0, n) =~= "nameserver"@);
    assert(after(text, n) =~= rest);
    let found = trim(rest);
    let i = address.len() as int;
    crate::text::law_places_of_a_character(found, '%', 0, i);
    assert forall|j: int| 0 <= j < address.len() implies #[trigger] address[j] != '%' by {
        if address[j] == '%' {
            assert(address.contains('%'));
        }
    }
    if found == address + seq!['%'] + zone {
        assert forall|j: int| 0 <= j < i implies #[trigger] found[j] != '%' by {
            assert(found[j] == address[j]);
        }
        assert(found[i] == '%');
        assert(before(found, i) =~= address);
    }
}

/// A line without the word names none.
pub proof fn law_other_lines_name_no_resolver(line: Seq<char>)
    requires
        forall|rest: Seq<char>| trim(line) != #[trigger] ("nameserver"@ + rest),
    ensures
        nameserver_of(line) is None,
{
    let text = trim(line);
    let n = "nameserver"@.len() as int;
    if starts_with(text, "nameserver"@) {
        assert(text =~= "nameserver"@ + after(text, n));
    }
}

} // verus!
