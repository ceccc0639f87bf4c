//! `UDP ASSOCIATE`.
//!
//! The control connection is the association's lifetime. The relay accepts
//! datagrams from its first sender only, drops fragments, decides once per
//! destination (queueing a few datagrams meanwhile), and accepts replies only
//! from destinations it was allowed to send to.

use vstd::prelude::*;

use crate::broker::mediator::socks5::{
    datagram, datagram_bytes, encode_datagram, parse_datagram, Address, AddressView, CodecError,
};
use crate::ip::SocketAddr;
use crate::maps::{
    distinct_keys, has_key, lemma_to_map_at, lemma_to_map_insert, lemma_to_map_update, to_map,
};

verus! {

/// Datagrams held per destination while its approval is pending.
pub const PENDING_QUEUE_LIMIT: usize = 16;

pub const MAX_DATAGRAM: usize = 65_535;

/// What is decided on a destination.
#[derive(Debug, PartialEq, Eq)]
pub enum Verdict {
    /// Nothing yet; the datagrams wait.
    Pending(Vec<Vec<u8>>),
    Allowed,
    Denied,
}

/// A [`Verdict`] by its contents.
#[verifier::ext_equal]
pub enum VerdictView {
    Pending(Seq<Seq<u8>>),
    Allowed,
    Denied,
}

/// The contents of a list of payloads.
pub open spec fn payloads(list: Seq<Vec<u8>>) -> Seq<Seq<u8>> {
    Seq::new(list.len(), |i: int| list[i]@)
}

impl View for Verdict {
    type V = VerdictView;

    open spec fn view(&self) -> VerdictView {
        match self {
            Verdict::Pending(queue) => VerdictView::Pending(payloads(queue@)),
            Verdict::Allowed => VerdictView::Allowed,
            Verdict::Denied => VerdictView::Denied,
        }
    }
}

/// The contents of a list of verdicts.
pub open spec fn verdict_views(list: Seq<(SocketAddr, Verdict)>) -> Seq<(SocketAddr, VerdictView)> {
    Seq::new(list.len(), |i: int| (list[i].0, list[i].1@))
}

/// One association.
pub struct Relay {
    /// The relay is reachable by anything on loopback: the first sender owns it.
    client: Option<SocketAddr>,
    verdicts: Vec<(SocketAddr, Verdict)>,
}

impl Relay {
    #[verifier::type_invariant]
    spec fn sound(&self) -> bool {
        distinct_keys(self.verdicts@)
    }
}

/// A [`Relay`] by its contents.
#[verifier::ext_equal]
pub struct RelayView {
    pub client: Option<SocketAddr>,
    pub verdicts: Map<SocketAddr, VerdictView>,
}

impl View for Relay {
    type V = RelayView;

    closed spec fn view(&self) -> RelayView {
        RelayView { client: self.client, verdicts: to_map(verdict_views(self.verdicts@)) }
    }
}

/// What a packet from the client's side turns out to be.
#[derive(Debug, PartialEq, Eq)]
pub enum Received {
    /// Not from the client: ignored.
    Foreign,
    /// Not a datagram: dropped.
    Dropped(CodecError),
    /// A destination and its payload.
    Datagram(Address, Vec<u8>),
}

/// A [`Received`] by its contents.
#[verifier::ext_equal]
pub enum ReceivedView {
    Foreign,
    Dropped(CodecError),
    Datagram(AddressView, Seq<u8>),
}

impl View for Received {
    type V = ReceivedView;

    open spec fn view(&self) -> ReceivedView {
        match self {
            Received::Foreign => ReceivedView::Foreign,
            Received::Dropped(error) => ReceivedView::Dropped(*error),
            Received::Datagram(address, payload) => ReceivedView::Datagram(address@, payload@),
        }
    }
}

/// What happens to a datagram.
#[derive(Debug, PartialEq, Eq)]
pub enum Offered {
    /// It goes out.
    Send(Vec<u8>),
    /// It waits, and its destination is to be decided on.
    Ask,
    /// It waits for a decision that is being made.
    Queued,
    /// It is dropped.
    Dropped,
}

/// An [`Offered`] by its contents.
#[verifier::ext_equal]
pub enum OfferedView {
    Send(Seq<u8>),
    Ask,
    Queued,
    Dropped,
}

impl View for Offered {
    type V = OfferedView;

    open spec fn view(&self) -> OfferedView {
        match self {
            Offered::Send(payload) => OfferedView::Send(payload@),
            Offered::Ask => OfferedView::Ask,
            Offered::Queued => OfferedView::Queued,
            Offered::Dropped => OfferedView::Dropped,
        }
    }
}

/// A destination in its canonical form.
pub open spec fn canonical(target: SocketAddr) -> SocketAddr {
    SocketAddr { ip: target.ip.canonical(), port: target.port }
}

impl RelayView {
    /// What is decided on a destination.
    pub open spec fn verdict(self, target: SocketAddr) -> Option<VerdictView> {
        if self.verdicts.contains_key(target) {
            Some(self.verdicts[target])
        } else {
            None
        }
    }

    /// The relay after a packet from the client's side, and what it is.
    pub open spec fn received(self, source: SocketAddr, packet: Seq<u8>) -> (
        RelayView,
        ReceivedView,
    ) {
        let client = match self.client {
            Some(client) => client,
            None => source,
        };
        let owned = RelayView { client: Some(client), ..self };
        (
            owned,
            if client != source {
                ReceivedView::Foreign
            } else {
                match datagram(packet) {
                    Err(error) => ReceivedView::Dropped(error),
                    Ok((address, payload)) => ReceivedView::Datagram(address, payload),
                }
            },
        )
    }

    /// The relay after a datagram for a destination, and what happens to it.
    pub open spec fn offered(self, target: SocketAddr, payload: Seq<u8>) -> (
        RelayView,
        OfferedView,
    ) {
        match self.verdict(target) {
            Some(VerdictView::Allowed) => (self, OfferedView::Send(payload)),
            Some(VerdictView::Denied) => (self, OfferedView::Dropped),
            Some(VerdictView::Pending(queue)) => if queue.len() < PENDING_QUEUE_LIMIT {
                (self.with_verdict(target, VerdictView::Pending(queue.push(payload))), OfferedView::Queued)
            } else {
                (self, OfferedView::Dropped)
            },
            None => (
                self.with_verdict(target, VerdictView::Pending(seq![payload])),
                OfferedView::Ask,
            ),
        }
    }

    pub open spec fn with_verdict(self, target: SocketAddr, verdict: VerdictView) -> RelayView {
        RelayView { verdicts: self.verdicts.insert(target, verdict), ..self }
    }

    /// The relay after a decision, and the datagrams that go out now.
    pub open spec fn decided(self, target: SocketAddr, allowed: bool) -> (
        RelayView,
        Seq<Seq<u8>>,
    ) {
        (
            self.with_verdict(
                target,
                if allowed {
                    VerdictView::Allowed
                } else {
                    VerdictView::Denied
                },
            ),
            match self.verdict(target) {
                Some(VerdictView::Pending(queue)) => if allowed {
                    queue
                } else {
                    Seq::empty()
                },
                _ => Seq::empty(),
            },
        )
    }

    /// Where a reply goes, and what is sent there. Replies are accepted only
    /// from exactly where an allowed datagram went: an unrestricted relay would
    /// be an open reflector.
    pub open spec fn reply(self, from: SocketAddr, payload: Seq<u8>) -> Option<
        (SocketAddr, Seq<u8>),
    > {
        match self.client {
            None => None,
            Some(client) => if self.verdict(canonical(from)) == Some(VerdictView::Allowed) {
                Some((client, datagram_bytes(canonical(from), payload)))
            } else {
                None
            },
        }
    }
}

/// A destination in its canonical form.
pub fn canonical_target(target: SocketAddr) -> (r: SocketAddr)
    ensures
        r == canonical(target),
{
    SocketAddr { ip: target.ip.to_canonical(), port: target.port }
}

proof fn lemma_views_distinct(list: Seq<(SocketAddr, Verdict)>)
    ensures
        distinct_keys(list) <==> distinct_keys(verdict_views(list)),
{
    let views = verdict_views(list);
    if distinct_keys(list) {
        assert forall|i: int, j: int|
            0 <= i < views.len() && 0 <= j < views.len() && (#[trigger] views[i]).0 == (
            #[trigger] views[j]).0 implies i == j by {
            assert(list[i].0 == list[j].0);
        }
    }
    if distinct_keys(views) {
        assert forall|i: int, j: int|
            0 <= i < list.len() && 0 <= j < list.len() && (#[trigger] list[i]).0 == (
            #[trigger] list[j]).0 implies i == j by {
            assert(views[i].0 == views[j].0);
        }
    }
}

fn copy_payload(payload: &Vec<u8>) -> (r: Vec<u8>)
    ensures
        r@ == payload@,
{
    let mut r: Vec<u8> = Vec::new();
    r.extend_from_slice(payload.as_slice());
    assert(r@ =~= payload@);
    r
}

impl Relay {
    pub fn new() -> (r: Self)
        ensures
            r@ == (RelayView { client: None, verdicts: Map::empty() }),
    {
        let r = Relay { client: None, verdicts: Vec::new() };
        assert(r@.verdicts =~= Map::empty());
        r
    }

    /// A packet arrived at the relay's socket.
    pub fn receive(&mut self, source: SocketAddr, packet: &[u8]) -> (r: Received)
        ensures
            (final(self)@, r@) == old(self)@.received(source, packet@),
    {
        let client = match self.client {
            Some(client) => client,
            None => source,
        };
        proof {
            use_type_invariant(&*self);
        }
        self.client = Some(client);
        if client != source {
            return Received::Foreign;
        }
        match parse_datagram(packet) {
            Err(error) => Received::Dropped(error),
            Ok((address, payload)) => {
                let mut owned: Vec<u8> = Vec::new();
                owned.extend_from_slice(payload);
                assert(owned@ =~= payload@);
                Received::Datagram(address, owned)
            },
        }
    }

    fn place(&self, target: SocketAddr) -> (r: Option<usize>)
        ensures
            match r {
                Some(i) => i < self.verdicts@.len() && self.verdicts@[i as int].0 == target
                    && self@.verdict(target) == Some(self.verdicts@[i as int].1@),
                None => self@.verdict(target) is None && !has_key(
                    verdict_views(self.verdicts@),
                    target,
                ),
            },
    {
        proof {
            use_type_invariant(self);
            lemma_views_distinct(self.verdicts@);
        }
        let ghost vv = verdict_views(self.verdicts@);
        let mut i: usize = 0;
        while i < self.verdicts.len()
            invariant
                i <= self.verdicts@.len(),
                vv == verdict_views(self.verdicts@),
                distinct_keys(vv),
                forall|k: int| 0 <= k < i ==> (#[trigger] vv[k]).0 != target,
            decreases self.verdicts@.len() - i,
        {
            assert(vv[i as int].0 == self.verdicts@[i as int].0);
            if self.verdicts[i].0 == target {
                proof {
                    lemma_to_map_at(vv, i as int);
                }
                return Some(i);
            }
            i += 1;
        }
        None
    }

    fn put(&mut self, target: SocketAddr, verdict: Verdict)
        ensures
            final(self)@ == old(self)@.with_verdict(target, verdict@),
    {
        let place = self.place(target);
        proof {
            use_type_invariant(&*self);
            lemma_views_distinct(self.verdicts@);
        }
        let mut verdicts: Vec<(SocketAddr, Verdict)> = Vec::new();
        std::mem::swap(&mut verdicts, &mut self.verdicts);
        let ghost before = verdict_views(verdicts@);
        let ghost vv = verdict@;
        match place {
            Some(i) => {
                proof {
                    lemma_to_map_update(before, i as int, vv);
                }
                verdicts.set(i, (target, verdict));
                assert(verdict_views(verdicts@) =~= before.update(i as int, (target, vv)));
                assert(distinct_keys(before.update(i as int, (target, vv)))) by {
                    let now = before.update(i as int, (target, vv));
                    assert forall|a: int, b: int|
                        0 <= a < now.len() && 0 <= b < now.len() && (#[trigger] now[a]).0 == (
                        #[trigger] now[b]).0 implies a == b by {
                        assert(now[a].0 == before[a].0 && now[b].0 == before[b].0);
                    }
                }
            },
            None => {
                proof {
                    lemma_to_map_insert(before, before.len() as int, target, vv);
                }
                verdicts.push((target, verdict));
                assert(verdict_views(verdicts@) =~= before.insert(
                    before.len() as int,
                    (target, vv),
                ));
            },
        }
        proof {
            lemma_views_distinct(verdicts@);
        }
        self.verdicts = verdicts;
    }

    /// A datagram is to go to a destination, which is in canonical form.
    pub fn offer(&mut self, target: SocketAddr, payload: Vec<u8>) -> (r: Offered)
        ensures
            (final(self)@, r@) == old(self)@.offered(target, payload@),
    {
        match self.place(target) {
            Some(i) => {
                let mut longer: Option<Vec<Vec<u8>>> = None;
                match &self.verdicts[i].1 {
                    Verdict::Allowed => {
                        return Offered::Send(payload);
                    },
                    Verdict::Denied => {
                        return Offered::Dropped;
                    },
                    Verdict::Pending(queue) => {
                        if queue.len() >= PENDING_QUEUE_LIMIT {
                            return Offered::Dropped;
                        }
                        let ghost qv = payloads(queue@);
                        let mut copy: Vec<Vec<u8>> = Vec::new();
                        let mut k: usize = 0;
                        while k < queue.len()
                            invariant
                                k <= queue@.len(),
                                qv == payloads(queue@),
                                payloads(copy@) == qv.subrange(0, k as int),
                            decreases queue@.len() - k,
                        {
                            let ghost done = payloads(copy@);
                            copy.push(copy_payload(&queue[k]));
                            assert(payloads(copy@) =~= done.push(qv[k as int]));
                            assert(payloads(copy@) =~= qv.subrange(0, k + 1));
                            k += 1;
                        }
                        assert(payloads(copy@) =~= qv);
                        let ghost pv = payload@;
                        copy.push(payload);
                        assert(payloads(copy@) =~= qv.push(pv));
                        longer = Some(copy);
                    },
                }
                if let Some(queue) = longer {
                    self.put(target, Verdict::Pending(queue));
                }
                Offered::Queued
            },
            None => {
                let ghost pv = payload@;
                let mut queue: Vec<Vec<u8>> = Vec::new();
                queue.push(payload);
                assert(payloads(queue@) =~= seq![pv]);
                self.put(target, Verdict::Pending(queue));
                Offered::Ask
            },
        }
    }

    /// A destination is decided on: the datagrams that go out now.
    pub fn decided(&mut self, target: SocketAddr, allowed: bool) -> (r: Vec<Vec<u8>>)
        ensures
            (final(self)@, payloads(r@)) == old(self)@.decided(target, allowed),
    {
        let mut queued: Vec<Vec<u8>> = Vec::new();
        assert(payloads(queued@) =~= Seq::empty());
        if allowed {
            if let Some(i) = self.place(target) {
                if let Verdict::Pending(queue) = &self.verdicts[i].1 {
                    let ghost qv = payloads(queue@);
                    let mut k: usize = 0;
                    while k < queue.len()
                        invariant
                            k <= queue@.len(),
                            qv == payloads(queue@),
                            payloads(queued@) == qv.subrange(0, k as int),
                        decreases queue@.len() - k,
                    {
                        let ghost done = payloads(queued@);
                        queued.push(copy_payload(&queue[k]));
                        assert(payloads(queued@) =~= done.push(qv[k as int]));
                        assert(payloads(queued@) =~= qv.subrange(0, k + 1));
                        k += 1;
                    }
                    assert(payloads(queued@) =~= qv);
                }
            }
            self.put(target, Verdict::Allowed);
        } else {
            self.put(target, Verdict::Denied);
        }
        queued
    }

    /// A reply came back: where it goes and what is sent there.
    pub fn reply(&self, from: SocketAddr, payload: &[u8]) -> (r: Option<(SocketAddr, Vec<u8>)>)
        ensures
            match (r, self@.reply(from, payload@)) {
                (Some((client, packet)), Some(expected)) => (client, packet@) == expected,
                (None, None) => true,
                _ => false,
            },
    {
        let from = canonical_target(from);
        match self.client {
            None => None,
            Some(client) => match self.place(from) {
                Some(i) => match &self.verdicts[i].1 {
                    Verdict::Allowed => Some((client, encode_datagram(from, payload))),
                    _ => None,
                },
                None => None,
            },
        }
    }
}

// ---------------------------------------------------------------------------
// Laws
// ---------------------------------------------------------------------------

/// Whether no destination has more datagrams waiting than the limit.
pub open spec fn is_bounded(relay: RelayView) -> bool {
    forall|target: SocketAddr| #[trigger]
        relay.verdicts.contains_key(target) ==> (relay.verdicts[target] matches VerdictView::Pending(
            queue,
        ) ==> queue.len() <= PENDING_QUEUE_LIMIT)
}

/// However many datagrams come in, no more than [`PENDING_QUEUE_LIMIT`] wait for
/// one destination.
pub proof fn law_waiting_datagrams_are_bounded(
    relay: RelayView,
    source: SocketAddr,
    target: SocketAddr,
    bytes: Seq<u8>,
    allowed: bool,
)
    requires
        is_bounded(relay),
    ensures
        is_bounded(relay.received(source, bytes).0),
        is_bounded(relay.offered(target, bytes).0),
        is_bounded(relay.decided(target, allowed).0),
{
}

/// The first sender owns the relay: once it has one, packets from anywhere else
/// are ignored, and it never changes hands.
pub proof fn law_the_first_sender_owns_the_relay(
    relay: RelayView,
    client: SocketAddr,
    source: SocketAddr,
    packet: Seq<u8>,
)
    requires
        relay.client == Some(client),
    ensures
        relay.received(source, packet).0 == relay,
        source != client ==> relay.received(source, packet).1 == ReceivedView::Foreign,
{
}

/// Each destination is asked about once: while a decision is being made, and
/// after it, further datagrams do not ask again.
pub proof fn law_each_destination_is_asked_about_once(
    relay: RelayView,
    target: SocketAddr,
    first: Seq<u8>,
    second: Seq<u8>,
    allowed: bool,
)
    ensures
        relay.offered(target, first).1 == OfferedView::Ask <==> relay.verdict(target) is None,
        relay.offered(target, first).0.offered(target, second).1 != OfferedView::Ask,
        relay.decided(target, allowed).0.offered(target, second).1 == if allowed {
            OfferedView::Send(second)
        } else {
            OfferedView::Dropped
        },
{
}

/// Replies reach the client only from a destination that was allowed.
pub proof fn law_replies_come_only_from_allowed_destinations(
    relay: RelayView,
    from: SocketAddr,
    payload: Seq<u8>,
)
    ensures
        relay.reply(from, payload) is Some ==> relay.client is Some && relay.verdict(
            canonical(from),
        ) == Some(VerdictView::Allowed),
        relay.reply(from, payload) matches Some((client, _)) ==> relay.client == Some(client),
{
}

// ---------------------------------------------------------------------------
// A whole association
// ---------------------------------------------------------------------------

/// What happens to an association.
pub enum RelayEvent {
    /// A packet arrives at the relay; `target` is where its datagram, if it is
    /// one, is to go.
    Packet { source: SocketAddr, packet: Seq<u8>, target: SocketAddr },
    /// The broker decides on a destination that it was asked about.
    Decided { target: SocketAddr, allowed: bool },
    /// Something comes back.
    Reply { from: SocketAddr, payload: Seq<u8> },
}

/// What came of an association so far.
#[verifier::ext_equal]
pub struct RunView {
    pub relay: RelayView,
    /// What went out: destinations and payloads.
    pub sent: Seq<(SocketAddr, Seq<u8>)>,
    /// Which destinations the broker was asked about, in order.
    pub asked: Seq<SocketAddr>,
    /// Whose replies the client got.
    pub replied: Seq<SocketAddr>,
}

/// The datagrams that are sent to a destination.
pub open spec fn addressed(target: SocketAddr, payloads: Seq<Seq<u8>>) -> Seq<
    (SocketAddr, Seq<u8>),
> {
    Seq::new(payloads.len(), |i: int| (target, payloads[i]))
}

impl RunView {
    /// An association after an event.
    pub open spec fn after(self, event: RelayEvent) -> RunView {
        match event {
            RelayEvent::Packet { source, packet, target } => {
                let (owned, received) = self.relay.received(source, packet);
                match received {
                    ReceivedView::Datagram(_, payload) => {
                        let (relay, offered) = owned.offered(target, payload);
                        RunView {
                            relay,
                            sent: match offered {
                                OfferedView::Send(payload) => self.sent.push((target, payload)),
                                _ => self.sent,
                            },
                            asked: match offered {
                                OfferedView::Ask => self.asked.push(target),
                                _ => self.asked,
                            },
                            replied: self.replied,
                        }
                    },
                    _ => RunView { relay: owned, ..self },
                }
            },
            RelayEvent::Decided { target, allowed } => match self.relay.verdict(target) {
                Some(VerdictView::Pending(_)) => {
                    let (relay, queued) = self.relay.decided(target, allowed);
                    RunView { relay, sent: self.sent + addressed(target, queued), ..self }
                },
                _ => self,
            },
            RelayEvent::Reply { from, payload } => match self.relay.reply(from, payload) {
                Some(_) => RunView { replied: self.replied.push(canonical(from)), ..self },
                None => self,
            },
        }
    }
}

/// An association after events.
pub open spec fn run_of(events: Seq<RelayEvent>) -> RunView
    decreases events.len(),
{
    if events.len() == 0 {
        RunView {
            relay: RelayView { client: None, verdicts: Map::empty() },
            sent: Seq::empty(),
            asked: Seq::empty(),
            replied: Seq::empty(),
        }
    } else {
        run_of(events.drop_last()).after(events.last())
    }
}

/// Who sent the first packet.
pub open spec fn first_sender(events: Seq<RelayEvent>) -> Option<SocketAddr>
    decreases events.len(),
{
    if events.len() == 0 {
        None
    } else if first_sender(events.drop_last()) is Some {
        first_sender(events.drop_last())
    } else {
        match events.last() {
            RelayEvent::Packet { source, .. } => Some(source),
            _ => None,
        }
    }
}

/// Whether an event is a well-formed datagram of a client for a destination.
pub open spec fn carries(
    event: RelayEvent,
    client: SocketAddr,
    destination: SocketAddr,
    payload: Seq<u8>,
) -> bool {
    event matches RelayEvent::Packet { source, packet, target } && source == client && target
        == destination && (datagram(packet) matches Ok((_, carried)) && carried == payload)
}

/// Whether the client sent a payload to a destination.
pub open spec fn came_in(
    events: Seq<RelayEvent>,
    destination: SocketAddr,
    payload: Seq<u8>,
) -> bool {
    exists|k: int|
        0 <= k < events.len() && first_sender(events) is Some && carries(
            #[trigger] events[k],
            first_sender(events)->0,
            destination,
            payload,
        )
}

/// Whether the broker allowed a destination.
pub open spec fn was_allowed(events: Seq<RelayEvent>, destination: SocketAddr) -> bool {
    exists|k: int|
        0 <= k < events.len() && (#[trigger] events[k]) == (RelayEvent::Decided {
            target: destination,
            allowed: true,
        })
}

/// What holds at every moment of an association.
spec fn in_order(events: Seq<RelayEvent>, run: RunView) -> bool {
    &&& run.relay.client == first_sender(events)
    &&& is_bounded(run.relay)
    &&& run.asked.no_duplicates()
    &&& forall|i: int| 0 <= i < run.asked.len() ==> run.relay.verdicts.contains_key(#[trigger] run.asked[i])
    &&& forall|target: SocketAddr| #[trigger]
        run.relay.verdicts.contains_key(target) ==> match run.relay.verdicts[target] {
            VerdictView::Allowed => was_allowed(events, target),
            VerdictView::Pending(queue) => forall|i: int|
                0 <= i < queue.len() ==> came_in(events, target, #[trigger] queue[i]),
            VerdictView::Denied => true,
        }
    &&& forall|i: int|
        0 <= i < run.sent.len() ==> came_in(events, (#[trigger] run.sent[i]).0, run.sent[i].1)
            && was_allowed(events, run.sent[i].0)
    &&& forall|i: int| 0 <= i < run.replied.len() ==> was_allowed(events, #[trigger] run.replied[i])
}

/// What came in and what was allowed stays so.
proof fn lemma_later(events: Seq<RelayEvent>, event: RelayEvent)
    ensures
        forall|target: SocketAddr, payload: Seq<u8>| #[trigger]
            came_in(events, target, payload) ==> came_in(events.push(event), target, payload),
        forall|target: SocketAddr| #[trigger]
            was_allowed(events, target) ==> was_allowed(events.push(event), target),
        first_sender(events) is Some ==> first_sender(events.push(event)) == first_sender(events),
{
    let all = events.push(event);
    assert(all.drop_last() =~= events);
    assert forall|target: SocketAddr, payload: Seq<u8>| #[trigger]
        came_in(events, target, payload) implies came_in(all, target, payload) by {
        let k = choose|k: int|
            0 <= k < events.len() && first_sender(events) is Some && carries(
                #[trigger] events[k],
                first_sender(events)->0,
                target,
                payload,
            );
        assert(all[k] == events[k]);
    }
    assert forall|target: SocketAddr| #[trigger] was_allowed(events, target) implies was_allowed(
        all,
        target,
    ) by {
        let k = choose|k: int|
            0 <= k < events.len() && (#[trigger] events[k]) == (RelayEvent::Decided {
                target,
                allowed: true,
            });
        assert(all[k] == events[k]);
    }
}

proof fn lemma_step(events: Seq<RelayEvent>, run: RunView, event: RelayEvent)
    requires
        in_order(events, run),
    ensures
        in_order(events.push(event), run.after(event)),
{
    let all = events.push(event);
    let now = run.after(event);
    lemma_later(events, event);
    assert(all.drop_last() =~= events);
    assert(all[events.len() as int] == event);
    match event {
        RelayEvent::Packet { source, packet, target } => {
            let (owned, received) = run.relay.received(source, packet);
            if let ReceivedView::Datagram(_, payload) = received {
                assert(carries(all[events.len() as int], first_sender(all)->0, target, payload));
                assert(came_in(all, target, payload));
                match owned.verdict(target) {
                    Some(VerdictView::Pending(queue)) => {
                        if queue.len() < PENDING_QUEUE_LIMIT {
                            let longer = queue.push(payload);
                            assert forall|i: int| 0 <= i < longer.len() implies came_in(
                                all,
                                target,
                                #[trigger] longer[i],
                            ) by {
                                if i < queue.len() {
                                    assert(came_in(events, target, queue[i]));
                                }
                            }
                        }
                    },
                    None => {
                        assert(!run.asked.contains(target));
                    },
                    _ => {},
                }
            }
        },
        RelayEvent::Decided { target, allowed } => {
            if let Some(VerdictView::Pending(queue)) = run.relay.verdict(target) {
                if allowed {
                    assert(was_allowed(all, target));
                }
                assert forall|i: int| 0 <= i < now.sent.len() implies came_in(
                    all,
                    (#[trigger] now.sent[i]).0,
                    now.sent[i].1,
                ) && was_allowed(all, now.sent[i].0) by {
                    if i < run.sent.len() {
                        assert(now.sent[i] == run.sent[i]);
                    } else {
                        assert(came_in(events, target, queue[i - run.sent.len()]));
                    }
                }
            }
        },
        RelayEvent::Reply { from, payload } => {},
    }
}

proof fn lemma_run(events: Seq<RelayEvent>)
    ensures
        in_order(events, run_of(events)),
    decreases events.len(),
{
    if events.len() > 0 {
        lemma_run(events.drop_last());
        lemma_step(events.drop_last(), run_of(events.drop_last()), events.last());
        assert(events.drop_last().push(events.last()) =~= events);
    }
}

/// Over a whole association, whatever arrives from wherever: only payloads that
/// the first sender sent, in well-formed datagrams for a destination that was
/// allowed, go out; the broker is asked about a destination at most once; no
/// more than [`PENDING_QUEUE_LIMIT`] datagrams wait for one; and the client gets
/// replies only from destinations that were allowed.
pub proof fn law_an_association_keeps_to_what_was_allowed(events: Seq<RelayEvent>)
    ensures
        ({
            let run = run_of(events);
            &&& run.relay.client == first_sender(events)
            &&& forall|i: int|
                0 <= i < run.sent.len() ==> came_in(
                    events,
                    (#[trigger] run.sent[i]).0,
                    run.sent[i].1,
                ) && was_allowed(events, run.sent[i].0)
            &&& run.asked.no_duplicates()
            &&& is_bounded(run.relay)
            &&& forall|i: int|
                0 <= i < run.replied.len() ==> was_allowed(events, #[trigger] run.replied[i])
        }),
{
    lemma_run(events);
}

/// What a relay does with a datagram: where its destination is allowed it is sent as it
/// is, where it is denied it is dropped, and until then it waits behind those that came
/// before it, sixteen at most; the first one asks. No other destination is touched.
pub proof fn law_datagrams_wait_for_the_verdict(
    relay: RelayView,
    target: SocketAddr,
    payload: Seq<u8>,
    other: SocketAddr,
)
    requires
        other != target,
    ensures
        ({
            let (after, offered) = relay.offered(target, payload);
            &&& after.client == relay.client
            &&& after.verdict(other) == relay.verdict(other)
            &&& match relay.verdict(target) {
                None => offered == OfferedView::Ask && after.verdict(target) == Some(
                    VerdictView::Pending(seq![payload]),
                ),
                Some(VerdictView::Allowed) => offered == OfferedView::Send(payload) && after
                    == relay,
                Some(VerdictView::Denied) => offered == OfferedView::Dropped && after == relay,
                Some(VerdictView::Pending(queue)) => if queue.len() < 16 {
                    offered == OfferedView::Queued && after.verdict(target) == Some(
                        VerdictView::Pending(queue + seq![payload]),
                    )
                } else {
                    offered == OfferedView::Dropped && after == relay
                },
            }
        }),
{
    if let Some(VerdictView::Pending(queue)) = relay.verdict(target) {
        assert(queue.push(payload) =~= queue + seq![payload]);
    }
}

/// A verdict holds for its destination alone. One that allows it hands out what waited,
/// in order, and one that denies it drops that.
pub proof fn law_verdicts_hand_out_what_waited(
    relay: RelayView,
    target: SocketAddr,
    other: SocketAddr,
    queue: Seq<Seq<u8>>,
)
    requires
        other != target,
        relay.verdict(target) == Some(VerdictView::Pending(queue)),
    ensures
        relay.decided(target, true).1 == queue,
        relay.decided(target, true).0.verdict(target) == Some(VerdictView::Allowed),
        relay.decided(target, false).1.len() == 0,
        relay.decided(target, false).0.verdict(target) == Some(VerdictView::Denied),
        relay.decided(target, true).0.verdict(other) == relay.verdict(other),
        relay.decided(target, false).0.verdict(other) == relay.verdict(other),
        relay.decided(target, true).0.client == relay.client,
        relay.decided(target, false).0.client == relay.client,
{
}

/// The first sender owns the relay. What it sends is taken apart, and what anyone else
/// sends is not looked at. Replies go to it, with the address that they come from.
pub proof fn law_relays_serve_their_client(
    relay: RelayView,
    source: SocketAddr,
    packet: Seq<u8>,
    from: SocketAddr,
    payload: Seq<u8>,
)
    ensures
        ({
            let (after, received) = relay.received(source, packet);
            let owner = if relay.client is Some {
                relay.client->0
            } else {
                source
            };
            &&& after.client == Some(owner) && after.verdicts == relay.verdicts
            &&& received == ReceivedView::Foreign <==> source != owner
            &&& source == owner ==> match datagram(packet) {
                Ok((address, carried)) => received == ReceivedView::Datagram(address, carried),
                Err(error) => received == ReceivedView::Dropped(error),
            }
        }),
        relay.reply(from, payload) is Some <==> relay.client is Some && relay.verdict(
            SocketAddr { ip: from.ip.canonical(), port: from.port },
        ) == Some(VerdictView::Allowed),
        relay.reply(from, payload) matches Some((to, bytes)) ==> Some(to) == relay.client
            && datagram(bytes) == Ok::<(AddressView, Seq<u8>), CodecError>(
            (AddressView::Ip(SocketAddr { ip: from.ip.canonical(), port: from.port }), payload),
        ),
{
    crate::broker::mediator::socks5::law_datagrams_round_trip(
        SocketAddr { ip: from.ip.canonical(), port: from.port },
        payload,
    );
}

} // verus!
