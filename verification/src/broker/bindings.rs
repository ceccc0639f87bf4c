//! Which names a sandbox resolved to which addresses.
//!
//! One store per sandbox: bindings are never shared, or one sandbox's lookup
//! would launder another's connection. Expiry bounds memory; it is not a
//! security control.
//!
//! Names are kept as *chains*: the query name of one lookup followed by its
//! CNAME targets. A chain is one candidate for the decision engine, so a
//! CDN alias does not count as a second, unknown destination.

use vstd::prelude::*;

use crate::ip::IpAddr;
use crate::maps::{
    distinct_keys, has_key, key_index, lemma_to_map_at, lemma_to_map_insert, lemma_to_map_len,
    lemma_to_map_remove, lemma_to_map_update, to_map,
};
use crate::text::{same, views};
use crate::time::{Duration, Instant};

verus! {

/// Guests cache DNS well past the TTL, so bindings live at least this long.
pub const TTL_FLOOR: Duration = 3_600_000_000_000;

pub const TTL_CAP: Duration = 86_400_000_000_000;

pub const DEFAULT_CAPACITY: usize = 10_000;

/// One lookup's names: the query name first, then the CNAME chain.
pub type Chain = Vec<String>;

#[derive(Debug)]
struct Entry {
    chains: Vec<Chain>,
    expires_at: Instant,
    last_seen: Instant,
}

/// What is bound to one address.
#[verifier::ext_equal]
pub struct EntryView {
    pub chains: Seq<Seq<Seq<char>>>,
    pub expires_at: u64,
    pub last_seen: u64,
}

/// The bindings of one sandbox.
#[derive(Debug)]
pub struct BindingStore {
    entries: Vec<(IpAddr, Entry)>,
    capacity: usize,
}

// ---------------------------------------------------------------------------
// Chains
// ---------------------------------------------------------------------------

/// The names of each chain.
pub open spec fn chain_views(chains: Seq<Chain>) -> Seq<Seq<Seq<char>>> {
    Seq::new(chains.len(), |i: int| views(chains[i]@))
}

/// The elements of a sequence, each where it first occurs.
pub open spec fn firsts<T>(s: Seq<T>) -> Seq<T>
    decreases s.len(),
{
    if s.len() == 0 {
        Seq::empty()
    } else {
        let rest = firsts(s.drop_last());
        if rest.contains(s.last()) {
            rest
        } else {
            rest.push(s.last())
        }
    }
}

/// All names of all chains, one chain after the other.
pub open spec fn all_names(chains: Seq<Seq<Seq<char>>>) -> Seq<Seq<char>>
    decreases chains.len(),
{
    if chains.len() == 0 {
        Seq::empty()
    } else {
        all_names(chains.drop_last()) + chains.last()
    }
}

/// Every name once, in order.
pub open spec fn flat_names(chains: Seq<Seq<Seq<char>>>) -> Seq<Seq<char>> {
    firsts(all_names(chains))
}

pub proof fn lemma_firsts<T>(s: Seq<T>)
    ensures
        firsts(s).no_duplicates(),
        forall|x: T| firsts(s).contains(x) <==> #[trigger] s.contains(x),
    decreases s.len(),
{
    if s.len() > 0 {
        let rest = s.drop_last();
        lemma_firsts(rest);
        let f = firsts(rest);
        assert forall|x: T| firsts(s).contains(x) <==> #[trigger] s.contains(x) by {
            if s.contains(x) {
                let i = choose|i: int| 0 <= i < s.len() && s[i] == x;
                if i < rest.len() {
                    assert(rest[i] == x);
                    assert(rest.contains(x));
                    let j = choose|j: int| 0 <= j < f.len() && f[j] == x;
                    assert(firsts(s)[j] == x);
                } else if !f.contains(s.last()) {
                    assert(firsts(s)[f.len() as int] == x);
                }
            }
            if firsts(s).contains(x) {
                let j = choose|j: int| 0 <= j < firsts(s).len() && firsts(s)[j] == x;
                if j < f.len() {
                    assert(f[j] == x);
                    assert(rest.contains(x));
                    let i = choose|i: int| 0 <= i < rest.len() && rest[i] == x;
                    assert(s[i] == x);
                } else {
                    assert(s[s.len() - 1] == x);
                }
            }
        }
    }
}

/// Flattening names no name twice and leaves none out.
pub proof fn law_flatten_is_a_set(chains: Seq<Seq<Seq<char>>>)
    ensures
        flat_names(chains).no_duplicates(),
        forall|name: Seq<char>| #[trigger]
            flat_names(chains).contains(name) <==> exists|i: int|
                0 <= i < chains.len() && (#[trigger] chains[i]).contains(name),
{
    lemma_firsts(all_names(chains));
    assert forall|name: Seq<char>| #[trigger] flat_names(chains).contains(name) <==> exists|i: int|
        0 <= i < chains.len() && (#[trigger] chains[i]).contains(name) by {
        assert(flat_names(chains).contains(name) <==> all_names(chains).contains(name));
        lemma_all_names(chains, name);
    }
}

proof fn lemma_all_names(chains: Seq<Seq<Seq<char>>>, name: Seq<char>)
    ensures
        all_names(chains).contains(name) <==> exists|i: int|
            0 <= i < chains.len() && (#[trigger] chains[i]).contains(name),
    decreases chains.len(),
{
    if chains.len() > 0 {
        let rest = chains.drop_last();
        lemma_all_names(rest, name);
        let a = all_names(rest);
        let all = all_names(chains);
        if all.contains(name) {
            let k = choose|k: int| 0 <= k < all.len() && all[k] == name;
            if k < a.len() {
                assert(a[k] == name);
                let i = choose|i: int| 0 <= i < rest.len() && (#[trigger] rest[i]).contains(name);
                assert(chains[i].contains(name));
            } else {
                assert(chains.last()[k - a.len()] == name);
                assert(chains[chains.len() - 1].contains(name));
            }
        }
        if exists|i: int| 0 <= i < chains.len() && (#[trigger] chains[i]).contains(name) {
            let i = choose|i: int| 0 <= i < chains.len() && (#[trigger] chains[i]).contains(name);
            if i < rest.len() {
                assert(rest[i].contains(name));
                let k = choose|k: int| 0 <= k < a.len() && a[k] == name;
                assert(all[k] == name);
            } else {
                let k = choose|k: int| 0 <= k < chains[i].len() && chains[i][k] == name;
                assert(all[a.len() + k] == name);
            }
        }
    }
}

/// A copy of a list of names.
pub fn clone_names(names: &Vec<String>) -> (r: Vec<String>)
    ensures
        views(r@) == views(names@),
{
    let mut r: Vec<String> = Vec::new();
    let mut i: usize = 0;
    while i < names.len()
        invariant
            i <= names@.len(),
            views(r@) == views(names@).subrange(0, i as int),
        decreases names@.len() - i,
    {
        let ghost done = views(r@);
        r.push(names[i].clone());
        assert(views(r@) =~= done.push(views(names@)[i as int]));
        assert(views(r@) =~= views(names@).subrange(0, i + 1));
        i += 1;
    }
    assert(views(r@) =~= views(names@));
    r
}

/// Whether two lists hold the same names in the same order.
pub fn same_names(a: &Vec<String>, b: &Vec<String>) -> (r: bool)
    ensures
        r == (views(a@) == views(b@)),
{
    if a.len() != b.len() {
        assert(views(a@).len() != views(b@).len());
        return false;
    }
    let mut i: usize = 0;
    while i < a.len()
        invariant
            i <= a@.len(),
            a@.len() == b@.len(),
            forall|j: int| 0 <= j < i ==> views(a@)[j] == views(b@)[j],
        decreases a@.len() - i,
    {
        if !same(a[i].as_str(), b[i].as_str()) {
            assert(views(a@)[i as int] != views(b@)[i as int]);
            return false;
        }
        i += 1;
    }
    assert(views(a@) =~= views(b@));
    true
}

/// Whether `names` holds `name`.
pub fn has_name(names: &Vec<String>, name: &str) -> (r: bool)
    ensures
        r == views(names@).contains(name@),
{
    let mut i: usize = 0;
    while i < names.len()
        invariant
            i <= names@.len(),
            forall|j: int| 0 <= j < i ==> views(names@)[j] != name@,
        decreases names@.len() - i,
    {
        if same(names[i].as_str(), name) {
            assert(views(names@)[i as int] == name@);
            return true;
        }
        i += 1;
    }
    false
}

fn clone_chains(chains: &Vec<Chain>) -> (r: Vec<Chain>)
    ensures
        chain_views(r@) == chain_views(chains@),
{
    let mut r: Vec<Chain> = Vec::new();
    let mut i: usize = 0;
    while i < chains.len()
        invariant
            i <= chains@.len(),
            chain_views(r@) == chain_views(chains@).subrange(0, i as int),
        decreases chains@.len() - i,
    {
        let ghost done = chain_views(r@);
        r.push(clone_names(&chains[i]));
        assert(chain_views(r@) =~= done.push(chain_views(chains@)[i as int]));
        assert(chain_views(r@) =~= chain_views(chains@).subrange(0, i + 1));
        i += 1;
    }
    assert(chain_views(r@) =~= chain_views(chains@));
    r
}

fn has_chain(chains: &Vec<Chain>, chain: &Chain) -> (r: bool)
    ensures
        r == chain_views(chains@).contains(views(chain@)),
{
    let mut i: usize = 0;
    while i < chains.len()
        invariant
            i <= chains@.len(),
            forall|j: int| 0 <= j < i ==> chain_views(chains@)[j] != views(chain@),
        decreases chains@.len() - i,
    {
        if same_names(&chains[i], chain) {
            assert(chain_views(chains@)[i as int] == views(chain@));
            return true;
        }
        i += 1;
    }
    false
}

/// Every name of `chains` once, in order.
pub fn flatten(chains: &Vec<Chain>) -> (r: Vec<String>)
    ensures
        views(r@) == flat_names(chain_views(chains@)),
{
    let ghost cv = chain_views(chains@);
    let mut names: Vec<String> = Vec::new();
    let mut i: usize = 0;
    assert(views(names@) =~= Seq::empty());
    assert(cv.subrange(0, 0) =~= Seq::empty());
    while i < chains.len()
        invariant
            i <= chains@.len(),
            cv == chain_views(chains@),
            views(names@) == flat_names(cv.subrange(0, i as int)),
        decreases chains@.len() - i,
    {
        let chain = &chains[i];
        let ghost done = all_names(cv.subrange(0, i as int));
        let mut k: usize = 0;
        assert(done + cv[i as int].subrange(0, 0) =~= done);
        while k < chain.len()
            invariant
                i < chains@.len(),
                cv == chain_views(chains@),
                chain@ == chains@[i as int]@,
                k <= chain@.len(),
                views(names@) == firsts(done + cv[i as int].subrange(0, k as int)),
            decreases chain@.len() - k,
        {
            let ghost next = done + cv[i as int].subrange(0, k + 1);
            assert(next.drop_last() =~= done + cv[i as int].subrange(0, k as int));
            assert(next.last() == chain@[k as int]@);
            if !has_name(&names, chain[k].as_str()) {
                names.push(chain[k].clone());
                assert(views(names@) =~= firsts(next));
            }
            k += 1;
        }
        assert(cv[i as int].subrange(0, chain@.len() as int) =~= cv[i as int]);
        assert(cv.subrange(0, i + 1).drop_last() =~= cv.subrange(0, i as int));
        i += 1;
    }
    assert(cv.subrange(0, chains@.len() as int) =~= cv);
    names
}

// ---------------------------------------------------------------------------
// The store
// ---------------------------------------------------------------------------

impl Entry {
    spec fn view(&self) -> EntryView {
        EntryView {
            chains: chain_views(self.chains@),
            expires_at: self.expires_at,
            last_seen: self.last_seen,
        }
    }
}

spec fn entry_views(s: Seq<(IpAddr, Entry)>) -> Seq<(IpAddr, EntryView)> {
    Seq::new(s.len(), |i: int| (s[i].0, s[i].1.view()))
}

/// The order of addresses: IPv4 before IPv6, then by number.
pub open spec fn ip_lt(a: IpAddr, b: IpAddr) -> bool {
    match (a, b) {
        (IpAddr::V4(x), IpAddr::V4(y)) => x < y,
        (IpAddr::V4(_), IpAddr::V6(_)) => true,
        (IpAddr::V6(_), IpAddr::V4(_)) => false,
        (IpAddr::V6(x), IpAddr::V6(y)) => x < y,
    }
}

fn ip_before(a: IpAddr, b: IpAddr) -> (r: bool)
    ensures
        r == ip_lt(a, b),
{
    match (a, b) {
        (IpAddr::V4(x), IpAddr::V4(y)) => x < y,
        (IpAddr::V4(_), IpAddr::V6(_)) => true,
        (IpAddr::V6(_), IpAddr::V4(_)) => false,
        (IpAddr::V6(x), IpAddr::V6(y)) => x < y,
    }
}

spec fn in_order(s: Seq<(IpAddr, EntryView)>) -> bool {
    forall|i: int, j: int|
        0 <= i < j < s.len() ==> ip_lt((#[trigger] s[i]).0, (#[trigger] s[j]).0)
}

/// What a store may hold of one address: at least one chain, none of them
/// empty and none twice.
pub open spec fn good_entry(entry: EntryView) -> bool {
    &&& entry.chains.len() >= 1
    &&& entry.chains.no_duplicates()
    &&& forall|i: int| 0 <= i < entry.chains.len() ==> (#[trigger] entry.chains[i]).len() >= 1
}

/// How long a binding lives: its TTL between the floor and the cap.
pub open spec fn lifetime(ttl: Duration) -> Duration {
    if ttl < TTL_FLOOR {
        TTL_FLOOR
    } else if ttl > TTL_CAP {
        TTL_CAP
    } else {
        ttl
    }
}

pub open spec fn later(a: u64, b: u64) -> u64 {
    if a >= b {
        a
    } else {
        b
    }
}

/// The entry of an address after one more lookup gave it.
pub open spec fn recorded(
    known: Option<EntryView>,
    chain: Seq<Seq<char>>,
    ttl: Duration,
    now: Instant,
) -> EntryView {
    let expires_at = (now + lifetime(ttl)) as u64;
    match known {
        None => EntryView { chains: seq![chain], expires_at, last_seen: now },
        Some(entry) => EntryView {
            chains: if entry.chains.contains(chain) {
                entry.chains
            } else {
                entry.chains.push(chain)
            },
            expires_at: later(entry.expires_at, expires_at),
            last_seen: now,
        },
    }
}

/// No entry was seen longer ago than the one at `address`.
pub open spec fn least_recent(store: Map<IpAddr, EntryView>, address: IpAddr) -> bool {
    &&& store.contains_key(address)
    &&& forall|other: IpAddr| #[trigger]
        store.contains_key(other) ==> store[address].last_seen <= store[other].last_seen
}

pub open spec fn entry_of(store: Map<IpAddr, EntryView>, address: IpAddr) -> Option<EntryView> {
    if store.contains_key(address) {
        Some(store[address])
    } else {
        None
    }
}

/// Whether recording a chain makes `after` of `before`, in a store that holds
/// `limit` addresses at most. Where the store is full, an address that was seen
/// least recently leaves; which one, if there are several, is left open.
pub open spec fn records_as(
    before: Map<IpAddr, EntryView>,
    limit: nat,
    address: IpAddr,
    chain: Seq<Seq<char>>,
    ttl: Duration,
    now: Instant,
    after: Map<IpAddr, EntryView>,
) -> bool {
    if chain.len() == 0 {
        after == before
    } else {
        let key = address.canonical();
        let all = before.insert(key, recorded(entry_of(before, key), chain, ttl, now));
        ||| all.len() <= limit && after == all
        ||| all.len() > limit && exists|gone: IpAddr| #[trigger]
            least_recent(all, gone) && after == all.remove(gone)
    }
}

impl View for BindingStore {
    type V = Map<IpAddr, EntryView>;

    closed spec fn view(&self) -> Map<IpAddr, EntryView> {
        to_map(entry_views(self.entries@))
    }
}

impl BindingStore {
    #[verifier::type_invariant]
    spec fn inv(&self) -> bool {
        &&& good_entries(self.entries@)
        &&& 1 <= self.capacity
        &&& self.entries@.len() <= self.capacity
    }

    /// How many addresses the store holds at most.
    pub closed spec fn limit(&self) -> nat {
        self.capacity as nat
    }

    pub fn new(capacity: usize) -> (r: Self)
        ensures
            r@ == Map::<IpAddr, EntryView>::empty(),
            r.limit() == if capacity >= 1 {
                capacity as nat
            } else {
                1
            },
    {
        let r = BindingStore {
            entries: Vec::new(),
            capacity: if capacity >= 1 {
                capacity
            } else {
                1
            },
        };
        assert(r@ =~= Map::<IpAddr, EntryView>::empty());
        r
    }

    /// Where `address` is, or where it would go.
    fn place(&self, address: IpAddr) -> (r: (usize, bool))
        ensures
            r.0 <= self.entries@.len(),
            r.1 ==> r.0 < self.entries@.len() && self.entries@[r.0 as int].0 == address,
            !r.1 ==> !has_key(entry_views(self.entries@), address),
            forall|i: int| 0 <= i < r.0 ==> ip_lt((#[trigger] self.entries@[i]).0, address),
            !r.1 ==> forall|i: int|
                r.0 <= i < self.entries@.len() ==> ip_lt(address, (#[trigger] self.entries@[i]).0),
    {
        proof {
            use_type_invariant(self);
        }
        let mut i: usize = 0;
        while i < self.entries.len() && ip_before(self.entries[i].0, address)
            invariant
                i <= self.entries@.len(),
                forall|j: int| 0 <= j < i ==> ip_lt((#[trigger] self.entries@[j]).0, address),
            decreases self.entries@.len() - i,
        {
            i += 1;
        }
        let found = i < self.entries.len() && self.entries[i].0 == address;
        proof {
            let s = entry_views(self.entries@);
            if !found {
                assert forall|j: int| i <= j < self.entries@.len() implies ip_lt(
                    address,
                    (#[trigger] self.entries@[j]).0,
                ) by {
                    assert(s[i as int].0 == self.entries@[i as int].0);
                    assert(s[j].0 == self.entries@[j].0);
                }
                assert(!has_key(s, address)) by {
                    if has_key(s, address) {
                        let j = choose|j: int| 0 <= j < s.len() && (#[trigger] s[j]).0 == address;
                        assert(self.entries@[j].0 == address);
                    }
                }
            }
        }
        (i, found)
    }

    /// Bind `chain` to `address` for `ttl` (clamped to the floor and cap).
    ///
    /// Where the store is full, an address that was seen least recently leaves.
    pub fn record(&mut self, address: IpAddr, chain: Chain, ttl: Duration, now: Instant)
        requires
            now + TTL_CAP <= u64::MAX,
        ensures
            final(self).limit() == old(self).limit(),
            records_as(
                old(self)@,
                old(self).limit(),
                address,
                views(chain@),
                ttl,
                now,
                final(self)@,
            ),
    {
        proof {
            use_type_invariant(&*self);
        }
        if chain.len() == 0 {
            return;
        }
        let address = address.to_canonical();
        let (at, found) = self.place(address);
        let ghost before = entry_views(self.entries@);
        proof {
            lemma_in_order_distinct(before);
            assert(self@ == to_map(before));
            if found {
                assert(before[at as int].0 == address);
                lemma_to_map_at(before, at as int);
            }
        }
        let life: u64 = if ttl < TTL_FLOOR {
            TTL_FLOOR
        } else if ttl > TTL_CAP {
            TTL_CAP
        } else {
            ttl
        };
        let expires_at: u64 = now + life;
        let ghost known = entry_of(self@, address);
        let ghost cv = views(chain@);
        let ghost entry_view = recorded(known, cv, ttl, now);
        let mut entries: Vec<(IpAddr, Entry)> = Vec::new();
        std::mem::swap(&mut entries, &mut self.entries);
        let capacity: usize = self.capacity;
        if found {
            let (_, mut entry) = entries.remove(at);
            let ghost chains0 = chain_views(entry.chains@);
            assert(known == Some(before[at as int].1));
            if !has_chain(&entry.chains, &chain) {
                entry.chains.push(chain);
                assert(chain_views(entry.chains@) =~= chains0.push(cv));
            }
            if entry.expires_at < expires_at {
                entry.expires_at = expires_at;
            }
            entry.last_seen = now;
            assert(entry.view() =~= entry_view);
            entries.insert(at, (address, entry));
            proof {
                lemma_to_map_update(before, at as int, entry_view);
                assert(entry_views(entries@) =~= before.update(at as int, (address, entry_view)));
                assert(good_entry(before[at as int].1));
                lemma_good_recorded(known, cv, ttl, now);
            }
        } else {
            let mut chains: Vec<Chain> = Vec::new();
            chains.push(chain);
            let entry = Entry { chains, expires_at, last_seen: now };
            assert(known is None);
            assert(chain_views(entry.chains@) =~= seq![cv]);
            assert(entry.view() =~= entry_view);
            entries.insert(at, (address, entry));
            proof {
                lemma_to_map_insert(before, at as int, address, entry_view);
                assert(entry_views(entries@) =~= before.insert(at as int, (address, entry_view)));
                lemma_good_recorded(known, cv, ttl, now);
            }
        }
        let ghost all = old(self)@.insert(address, entry_view);
        let ghost full = entry_views(entries@);
        assert(to_map(full) == all);
        assert(good_entries(entries@)) by {
            lemma_good_after(before, full, at as int, found, address, entry_view);
        }
        proof {
            lemma_in_order_distinct(full);
            lemma_to_map_len(full);
        }
        if entries.len() > capacity {
            let mut oldest: usize = 0;
            let mut i: usize = 1;
            while i < entries.len()
                invariant
                    1 <= i <= entries@.len(),
                    oldest < i,
                    forall|j: int|
                        0 <= j < i ==> entries@[oldest as int].1.last_seen <= (#[trigger] entries@[j]).1.last_seen,
                decreases entries@.len() - i,
            {
                if entries[i].1.last_seen < entries[oldest].1.last_seen {
                    oldest = i;
                }
                i += 1;
            }
            let ghost gone = full[oldest as int].0;
            proof {
                lemma_to_map_remove(full, oldest as int);
                lemma_to_map_at(full, oldest as int);
                assert forall|other: IpAddr| #[trigger] all.contains_key(other) implies all[gone].last_seen
                    <= all[other].last_seen by {
                    assert(has_key(full, other));
                    let j = key_index(full, other);
                    assert(full[j].0 == other);
                    lemma_to_map_at(full, j);
                    assert(entries@[j].1.last_seen == full[j].1.last_seen);
                }
                assert(least_recent(all, gone));
            }
            entries.remove(oldest);
            assert(entry_views(entries@) =~= full.remove(oldest as int));
            assert(good_entries(entries@)) by {
                lemma_good_removed(full, oldest as int);
            }
        }
        self.entries = entries;
    }

    /// Chains bound to `address`, refreshing the binding. Empty when unknown or expired.
    pub fn lookup(&mut self, address: IpAddr, now: Instant) -> (r: Vec<Chain>)
        requires
            now + TTL_FLOOR <= u64::MAX,
        ensures
            final(self).limit() == old(self).limit(),
            match entry_of(old(self)@, address.canonical()) {
                None => r@.len() == 0 && final(self)@ == old(self)@,
                Some(entry) => if entry.expires_at <= now {
                    r@.len() == 0 && final(self)@ == old(self)@.remove(address.canonical())
                } else {
                    chain_views(r@) == entry.chains && final(self)@ == old(self)@.insert(
                        address.canonical(),
                        EntryView {
                            chains: entry.chains,
                            expires_at: later(entry.expires_at, (now + TTL_FLOOR) as u64),
                            last_seen: now,
                        },
                    )
                },
            },
    {
        proof {
            use_type_invariant(&*self);
        }
        let address = address.to_canonical();
        let (at, found) = self.place(address);
        let ghost before = entry_views(self.entries@);
        proof {
            lemma_in_order_distinct(before);
            assert(self@ == to_map(before));
        }
        if !found {
            return Vec::new();
        }
        proof {
            assert(before[at as int].0 == address);
            lemma_to_map_at(before, at as int);
        }
        let mut entries: Vec<(IpAddr, Entry)> = Vec::new();
        std::mem::swap(&mut entries, &mut self.entries);
        let (_, mut entry) = entries.remove(at);
        if entry.expires_at <= now {
            proof {
                lemma_to_map_remove(before, at as int);
                assert(entry_views(entries@) =~= before.remove(at as int));
                assert(good_entries(entries@)) by {
                    lemma_good_removed(before, at as int);
                }
            }
            self.entries = entries;
            return Vec::new();
        }
        let chains = clone_chains(&entry.chains);
        entry.last_seen = now;
        let floor: u64 = now + TTL_FLOOR;
        if entry.expires_at < floor {
            entry.expires_at = floor;
        }
        let ghost entry_view = entry.view();
        entries.insert(at, (address, entry));
        proof {
            lemma_to_map_update(before, at as int, entry_view);
            assert(entry_views(entries@) =~= before.update(at as int, (address, entry_view)));
            assert(good_entry(before[at as int].1));
            assert(good_entries(entries@)) by {
                lemma_good_after(before, entry_views(entries@), at as int, true, address, entry_view);
            }
        }
        self.entries = entries;
        chains
    }

    pub fn len(&self) -> (r: usize)
        ensures
            self@.dom().finite(),
            r == self@.len(),
            1 <= self.limit(),
            r <= self.limit(),
    {
        proof {
            use_type_invariant(self);
            lemma_in_order_distinct(entry_views(self.entries@));
            lemma_to_map_len(entry_views(self.entries@));
        }
        self.entries.len()
    }

    pub fn is_empty(&self) -> (r: bool)
        ensures
            r == (self@.len() == 0),
    {
        self.len() == 0
    }

    /// Live bindings (all names, in order) with their remaining lifetime, by
    /// address.
    pub fn snapshot(&self, now: Instant) -> (r: Vec<(IpAddr, Vec<String>, Duration)>)
        ensures
            forall|i: int, j: int|
                0 <= i < j < r@.len() ==> ip_lt((#[trigger] r@[i]).0, (#[trigger] r@[j]).0),
            forall|i: int|
                0 <= i < r@.len() ==> {
                    let entry = self@[(#[trigger] r@[i]).0];
                    &&& self@.contains_key(r@[i].0)
                    &&& entry.expires_at > now
                    &&& views(r@[i].1@) == flat_names(entry.chains)
                    &&& r@[i].2 == entry.expires_at - now
                },
            forall|address: IpAddr| #[trigger]
                self@.contains_key(address) && self@[address].expires_at > now ==> exists|i: int|
                    0 <= i < r@.len() && (#[trigger] r@[i]).0 == address,
    {
        proof {
            use_type_invariant(self);
        }
        let ghost s = entry_views(self.entries@);
        proof {
            lemma_in_order_distinct(s);
        }
        let mut out: Vec<(IpAddr, Vec<String>, Duration)> = Vec::new();
        let mut i: usize = 0;
        while i < self.entries.len()
            invariant
                i <= self.entries@.len(),
                s == entry_views(self.entries@),
                in_order(s),
                distinct_keys(s),
                self@ == to_map(s),
                forall|a: int, b: int|
                    0 <= a < b < out@.len() ==> ip_lt((#[trigger] out@[a]).0, (#[trigger] out@[b]).0),
                forall|a: int|
                    0 <= a < out@.len() ==> exists|k: int|
                        0 <= k < i && (#[trigger] s[k]).0 == (#[trigger] out@[a]).0,
                forall|a: int|
                    0 <= a < out@.len() ==> {
                        let entry = self@[(#[trigger] out@[a]).0];
                        &&& self@.contains_key(out@[a].0)
                        &&& entry.expires_at > now
                        &&& views(out@[a].1@) == flat_names(entry.chains)
                        &&& out@[a].2 == entry.expires_at - now
                    },
                forall|k: int|
                    0 <= k < i && (#[trigger] s[k]).1.expires_at > now ==> exists|a: int|
                        0 <= a < out@.len() && (#[trigger] out@[a]).0 == s[k].0,
            decreases self.entries@.len() - i,
        {
            proof {
                lemma_to_map_at(s, i as int);
                assert(s[i as int].0 == self.entries@[i as int].0);
            }
            let entry = &self.entries[i].1;
            if entry.expires_at > now {
                let ghost out0 = out@;
                let address = self.entries[i].0;
                let names = flatten(&entry.chains);
                let left: u64 = entry.expires_at - now;
                out.push((address, names, left));
                proof {
                    assert forall|a: int, b: int| 0 <= a < b < out@.len() implies ip_lt(
                        (#[trigger] out@[a]).0,
                        (#[trigger] out@[b]).0,
                    ) by {
                        assert(out@[a] == out0[a]);
                        let k = choose|k: int|
                            0 <= k < i && (#[trigger] s[k]).0 == out0[a].0;
                        if b == out0.len() {
                            assert(ip_lt(s[k].0, s[i as int].0));
                        } else {
                            assert(out@[b] == out0[b]);
                        }
                    }
                    assert forall|a: int| 0 <= a < out@.len() implies exists|k: int|
                        0 <= k < i + 1 && (#[trigger] s[k]).0 == (#[trigger] out@[a]).0 by {
                        if a < out0.len() {
                            assert(out@[a] == out0[a]);
                        } else {
                            assert(s[i as int].0 == out@[a].0);
                        }
                    }
                    assert forall|k: int|
                        0 <= k < i + 1 && (#[trigger] s[k]).1.expires_at > now implies exists|a: int|
                        0 <= a < out@.len() && (#[trigger] out@[a]).0 == s[k].0 by {
                        if k < i {
                            let a = choose|a: int|
                                0 <= a < out0.len() && (#[trigger] out0[a]).0 == s[k].0;
                            assert(out@[a].0 == s[k].0);
                        } else {
                            assert(out@[out0.len() as int].0 == s[k].0);
                        }
                    }
                }
            }
            i += 1;
        }
        proof {
            assert forall|address: IpAddr| #[trigger]
                self@.contains_key(address) && self@[address].expires_at > now implies exists|a: int|
                0 <= a < out@.len() && (#[trigger] out@[a]).0 == address by {
                assert(has_key(s, address));
                let k = key_index(s, address);
                assert(s[k].0 == address);
                lemma_to_map_at(s, k);
                assert(s[k].1.expires_at > now);
            }
        }
        out
    }
}

impl Default for BindingStore {
    fn default() -> (r: Self)
        ensures
            r@ == Map::<IpAddr, EntryView>::empty(),
            r.limit() == DEFAULT_CAPACITY,
    {
        BindingStore::new(DEFAULT_CAPACITY)
    }
}

spec fn good_entries(entries: Seq<(IpAddr, Entry)>) -> bool {
    let s = entry_views(entries);
    &&& in_order(s)
    &&& forall|i: int|
        0 <= i < s.len() ==> good_entry((#[trigger] s[i]).1) && s[i].0.canonical() == s[i].0
}

proof fn lemma_in_order_distinct(s: Seq<(IpAddr, EntryView)>)
    requires
        in_order(s),
    ensures
        distinct_keys(s),
{
    assert forall|i: int, j: int|
        0 <= i < s.len() && 0 <= j < s.len() && (#[trigger] s[i]).0 == (#[trigger] s[j]).0 implies i
        == j by {
        if i < j {
            assert(ip_lt(s[i].0, s[j].0));
        }
        if j < i {
            assert(ip_lt(s[j].0, s[i].0));
        }
    }
}

proof fn lemma_good_recorded(
    known: Option<EntryView>,
    chain: Seq<Seq<char>>,
    ttl: Duration,
    now: Instant,
)
    requires
        known matches Some(entry) ==> good_entry(entry),
        chain.len() >= 1,
    ensures
        good_entry(recorded(known, chain, ttl, now)),
{
    let r = recorded(known, chain, ttl, now);
    match known {
        None => {},
        Some(entry) => {
            if !entry.chains.contains(chain) {
                let c = entry.chains.push(chain);
                assert forall|i: int, j: int| 0 <= i < c.len() && 0 <= j < c.len() && i != j implies c[i]
                    != c[j] by {
                    if i < entry.chains.len() {
                        assert(entry.chains[i] == c[i]);
                    }
                    if j < entry.chains.len() {
                        assert(entry.chains[j] == c[j]);
                    }
                }
            }
        },
    }
}

proof fn lemma_good_after(
    before: Seq<(IpAddr, EntryView)>,
    after: Seq<(IpAddr, EntryView)>,
    at: int,
    found: bool,
    address: IpAddr,
    entry: EntryView,
)
    requires
        in_order(before),
        forall|i: int|
            0 <= i < before.len() ==> good_entry((#[trigger] before[i]).1)
                && before[i].0.canonical() == before[i].0,
        good_entry(entry),
        address.canonical() == address,
        0 <= at <= before.len(),
        forall|i: int| 0 <= i < at ==> ip_lt((#[trigger] before[i]).0, address),
        found ==> at < before.len() && before[at].0 == address && after == before.update(
            at,
            (address, entry),
        ),
        !found ==> after == before.insert(at, (address, entry)) && forall|i: int|
            at <= i < before.len() ==> ip_lt(address, (#[trigger] before[i]).0),
    ensures
        in_order(after),
        forall|i: int|
            0 <= i < after.len() ==> good_entry((#[trigger] after[i]).1) && after[i].0.canonical()
                == after[i].0,
{
    assert forall|i: int, j: int| 0 <= i < j < after.len() implies ip_lt(
        (#[trigger] after[i]).0,
        (#[trigger] after[j]).0,
    ) by {
        if found {
            assert(after[i].0 == before[i].0);
            assert(after[j].0 == before[j].0);
        } else {
            if i != at {
                assert(after[i] == before[if i < at { i } else { i - 1 }]);
            }
            if j != at {
                assert(after[j] == before[if j < at { j } else { j - 1 }]);
            }
        }
    }
    assert forall|i: int| 0 <= i < after.len() implies good_entry((#[trigger] after[i]).1)
        && after[i].0.canonical() == after[i].0 by {
        if i != at {
            if found || i < at {
                assert(after[i] == before[i]);
            } else {
                assert(after[i] == before[i - 1]);
            }
        }
    }
}

proof fn lemma_good_removed(before: Seq<(IpAddr, EntryView)>, at: int)
    requires
        in_order(before),
        forall|i: int|
            0 <= i < before.len() ==> good_entry((#[trigger] before[i]).1)
                && before[i].0.canonical() == before[i].0,
        0 <= at < before.len(),
    ensures
        in_order(before.remove(at)),
        forall|i: int|
            0 <= i < before.remove(at).len() ==> good_entry((#[trigger] before.remove(at)[i]).1)
                && before.remove(at)[i].0.canonical() == before.remove(at)[i].0,
{
    let s = before.remove(at);
    assert forall|i: int, j: int| 0 <= i < j < s.len() implies ip_lt(
        (#[trigger] s[i]).0,
        (#[trigger] s[j]).0,
    ) by {
        assert(s[i] == before[if i < at { i } else { i + 1 }]);
        assert(s[j] == before[if j < at { j } else { j + 1 }]);
    }
    assert forall|i: int| 0 <= i < s.len() implies good_entry((#[trigger] s[i]).1)
        && s[i].0.canonical() == s[i].0 by {
        assert(s[i] == before[if i < at { i } else { i + 1 }]);
    }
}

// ---------------------------------------------------------------------------
// Laws
// ---------------------------------------------------------------------------

/// A binding lives at least as long as the floor and, on its own, at most as
/// long as the cap.
pub proof fn law_lifetimes_have_a_floor_and_a_cap(
    known: Option<EntryView>,
    chain: Seq<Seq<char>>,
    ttl: Duration,
    now: Instant,
)
    requires
        now + TTL_CAP <= u64::MAX,
    ensures
        recorded(known, chain, ttl, now).expires_at >= now + TTL_FLOOR,
        known is None ==> recorded(known, chain, ttl, now).expires_at <= now + TTL_CAP,
{
}

/// Recording never forgets a chain of the address, and afterwards the new
/// chain is one of them.
pub proof fn law_recording_keeps_chains(
    known: Option<EntryView>,
    chain: Seq<Seq<char>>,
    ttl: Duration,
    now: Instant,
)
    ensures
        recorded(known, chain, ttl, now).chains.contains(chain),
        forall|c: Seq<Seq<char>>|
            known is Some && (known->0).chains.contains(c) ==> #[trigger] recorded(
                known,
                chain,
                ttl,
                now,
            ).chains.contains(c),
        known matches Some(entry) ==> recorded(known, chain, ttl, now).expires_at >= entry.expires_at,
{
    let r = recorded(known, chain, ttl, now);
    match known {
        None => {
            assert(r.chains[0] == chain);
        },
        Some(entry) => {
            if !entry.chains.contains(chain) {
                assert(r.chains[entry.chains.len() as int] == chain);
            }
            assert forall|c: Seq<Seq<char>>| entry.chains.contains(c) implies #[trigger] r.chains.contains(
                c,
            ) by {
                let i = choose|i: int| 0 <= i < entry.chains.len() && entry.chains[i] == c;
                assert(r.chains[i] == c);
            }
        },
    }
}

/// Recording the same lookup again adds no chain.
pub proof fn law_recording_twice_adds_nothing(
    known: Option<EntryView>,
    chain: Seq<Seq<char>>,
    ttl: Duration,
    now: Instant,
)
    ensures
        recorded(Some(recorded(known, chain, ttl, now)), chain, ttl, now) == recorded(
            known,
            chain,
            ttl,
            now,
        ),
{
    law_recording_keeps_chains(known, chain, ttl, now);
}

/// A binding lives as long as its answer says, but at least an hour and at most a day.
pub proof fn law_lifetimes_are_those_of_the_answer(ttl: Duration)
    ensures
        3_600_000_000_000 <= lifetime(ttl) <= 86_400_000_000_000,
        3_600_000_000_000 <= ttl <= 86_400_000_000_000 ==> lifetime(ttl) == ttl,
        ttl < 3_600_000_000_000 ==> lifetime(ttl) == 3_600_000_000_000,
        ttl > 86_400_000_000_000 ==> lifetime(ttl) == 86_400_000_000_000,
{
}

/// What is known of an address after a lookup: the chains that were known, in order,
/// and behind them the new one if it is new; until the later of the two ends; seen now.
pub proof fn law_what_is_known_after_a_lookup(
    entry: EntryView,
    chain: Seq<Seq<char>>,
    ttl: Duration,
    now: Instant,
)
    requires
        now + 86_400_000_000_000 <= u64::MAX,
    ensures
        recorded(None, chain, ttl, now).chains == seq![chain],
        recorded(None, chain, ttl, now).expires_at == now + lifetime(ttl),
        recorded(None, chain, ttl, now).last_seen == now,
        recorded(Some(entry), chain, ttl, now).last_seen == now,
        recorded(Some(entry), chain, ttl, now).chains == entry.chains + if entry.chains.contains(
            chain,
        ) {
            Seq::empty()
        } else {
            seq![chain]
        },
        ({
            let end = recorded(Some(entry), chain, ttl, now).expires_at;
            &&& end >= entry.expires_at && end >= now + lifetime(ttl)
            &&& end == entry.expires_at || end == now + lifetime(ttl)
        }),
{
    assert(recorded(Some(entry), chain, ttl, now).chains =~= entry.chains + if entry.chains.contains(
        chain,
    ) {
        Seq::empty()
    } else {
        seq![chain]
    });
}

/// Recording an answer changes what is known of its address and nothing else, except
/// that where there is no room one address is forgotten: one that was seen no later
/// than any other.
pub proof fn law_recording_touches_one_address(
    before: Map<IpAddr, EntryView>,
    limit: nat,
    address: IpAddr,
    chain: Seq<Seq<char>>,
    ttl: Duration,
    now: Instant,
    after: Map<IpAddr, EntryView>,
    other: IpAddr,
)
    requires
        records_as(before, limit, address, chain, ttl, now, after),
        before.dom().finite(),
    ensures
        chain.len() == 0 ==> after == before,
        after.contains_key(other) && other != address.canonical() ==> before.contains_key(other)
            && after[other] == before[other],
        after.contains_key(other) && other == address.canonical() && chain.len() > 0
            ==> after[other] == recorded(
            if before.contains_key(other) {
                Some(before[other])
            } else {
                None
            },
            chain,
            ttl,
            now,
        ),
        chain.len() > 0 && before.insert(address.canonical(), after[address.canonical()]).len()
            <= limit ==> after.contains_key(address.canonical()) && (before.contains_key(other)
            ==> after.contains_key(other)),
        chain.len() > 0 && (before.contains_key(other) || other == address.canonical())
            && !after.contains_key(other) ==> forall|kept: IpAddr| #[trigger]
            after.contains_key(kept) ==> (if other == address.canonical() {
                now
            } else {
                before[other].last_seen
            }) <= after[kept].last_seen,
{
    if chain.len() > 0 {
        let key = address.canonical();
        let all = before.insert(key, recorded(entry_of(before, key), chain, ttl, now));
        assert(before.insert(key, after[key]).dom() =~= all.dom());
        if all.len() > limit {
            let gone = choose|gone: IpAddr| #[trigger]
                least_recent(all, gone) && after == all.remove(gone);
            assert forall|kept: IpAddr| #[trigger] after.contains_key(kept) implies all[gone].last_seen
                <= after[kept].last_seen by {
                assert(all.contains_key(kept));
            }
        }
    }
}

/// Each element stands where it first occurs.
pub proof fn law_firsts_stand_in_order<T>(s: Seq<T>)
    ensures
        firsts(s) == crate::maps::below(s.len()).flat_map(
            |i: int|
                if s.subrange(0, i).contains(s[i]) {
                    Seq::empty()
                } else {
                    seq![s[i]]
                },
        ),
    decreases s.len(),
{
    let f = |i: int|
        if s.subrange(0, i).contains(s[i]) {
            Seq::<T>::empty()
        } else {
            seq![s[i]]
        };
    crate::maps::lemma_below_step(s.len(), f);
    if s.len() > 0 {
        let rest = s.drop_last();
        let n = rest.len();
        law_firsts_stand_in_order(rest);
        let g = |i: int|
            if rest.subrange(0, i).contains(rest[i]) {
                Seq::<T>::empty()
            } else {
                seq![rest[i]]
            };
        assert forall|i: int| 0 <= i < crate::maps::below(n).len() implies g(
            #[trigger] crate::maps::below(n)[i],
        ) == f(crate::maps::below(n)[i]) by {
            assert(rest.subrange(0, i) =~= s.subrange(0, i));
        }
        crate::maps::lemma_flat_map_same(crate::maps::below(n), g, f);
        lemma_firsts(rest);
        assert(s.subrange(0, n as int) =~= rest);
        assert(rest.contains(s.last()) <==> firsts(rest).contains(s.last()));
        assert(firsts(s) =~= crate::maps::below(s.len()).flat_map(f));
    }
}

/// The names of lookups are those of one chain after the other.
pub proof fn law_names_come_chain_by_chain(chains: Seq<Seq<Seq<char>>>)
    ensures
        flat_names(chains) == firsts(chains.flat_map(|chain: Seq<Seq<char>>| chain)),
{
    lemma_names_by_chain(chains);
}

proof fn lemma_names_by_chain(chains: Seq<Seq<Seq<char>>>)
    ensures
        all_names(chains) == chains.flat_map(|chain: Seq<Seq<char>>| chain),
    decreases chains.len(),
{
    crate::maps::lemma_flat_map_step(chains, |chain: Seq<Seq<char>>| chain);
    if chains.len() > 0 {
        lemma_names_by_chain(chains.drop_last());
    }
}

} // verus!
