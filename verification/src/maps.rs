//! Sorted association lists: maps whose iteration order is that of their keys.

use vstd::prelude::*;

use crate::text::chars;

verus! {

// ---------------------------------------------------------------------------
// Lists of pairs as maps
// ---------------------------------------------------------------------------

pub open spec fn has_key<K, V>(s: Seq<(K, V)>, k: K) -> bool {
    exists|i: int| 0 <= i < s.len() && (#[trigger] s[i]).0 == k
}

pub open spec fn key_index<K, V>(s: Seq<(K, V)>, k: K) -> int {
    choose|i: int| 0 <= i < s.len() && (#[trigger] s[i]).0 == k
}

/// The map that a list of pairs with distinct keys stands for.
pub open spec fn to_map<K, V>(s: Seq<(K, V)>) -> Map<K, V> {
    Map::new(|k: K| has_key(s, k), |k: K| s[key_index(s, k)].1)
}

pub open spec fn distinct_keys<K, V>(s: Seq<(K, V)>) -> bool {
    forall|i: int, j: int|
        0 <= i < s.len() && 0 <= j < s.len() && (#[trigger] s[i]).0 == (#[trigger] s[j]).0 ==> i == j
}

pub proof fn lemma_to_map_at<K, V>(s: Seq<(K, V)>, i: int)
    requires
        distinct_keys(s),
        0 <= i < s.len(),
    ensures
        to_map(s).contains_key(s[i].0),
        to_map(s)[s[i].0] == s[i].1,
{
    assert(has_key(s, s[i].0));
    let j = key_index(s, s[i].0);
    assert(s[j].0 == s[i].0);
}

pub proof fn lemma_to_map_insert<K, V>(s: Seq<(K, V)>, at: int, k: K, v: V)
    requires
        distinct_keys(s),
        0 <= at <= s.len(),
        !has_key(s, k),
    ensures
        distinct_keys(s.insert(at, (k, v))),
        to_map(s.insert(at, (k, v))) == to_map(s).insert(k, v),
{
    let t = s.insert(at, (k, v));
    assert forall|i: int, j: int|
        0 <= i < t.len() && 0 <= j < t.len() && (#[trigger] t[i]).0 == (#[trigger] t[j]).0 implies i
        == j by {
        let i0 = if i < at { i } else { i - 1 };
        let j0 = if j < at { j } else { j - 1 };
        if i != at {
            assert(t[i] == s[i0]);
        }
        if j != at {
            assert(t[j] == s[j0]);
        }
    }
    assert forall|key: K| has_key(t, key) <==> (key == k || has_key(s, key)) by {
        if has_key(t, key) {
            let i = choose|i: int| 0 <= i < t.len() && (#[trigger] t[i]).0 == key;
            if i != at {
                let i0 = if i < at { i } else { i - 1 };
                assert(s[i0].0 == key);
            }
        }
        if has_key(s, key) {
            let i = choose|i: int| 0 <= i < s.len() && (#[trigger] s[i]).0 == key;
            let i1 = if i < at { i } else { i + 1 };
            assert(t[i1].0 == key);
        }
        if key == k {
            assert(t[at].0 == key);
        }
    }
    assert forall|key: K| has_key(t, key) implies to_map(t)[key] == to_map(s).insert(k, v)[key] by {
        let i = key_index(t, key);
        assert(t[i].0 == key);
        if i != at {
            let i0 = if i < at { i } else { i - 1 };
            assert(s[i0] == t[i]);
            lemma_to_map_at(s, i0);
            assert(has_key(s, key));
        }
    }
    assert(to_map(t) =~= to_map(s).insert(k, v));
}

pub proof fn lemma_to_map_update<K, V>(s: Seq<(K, V)>, at: int, v: V)
    requires
        distinct_keys(s),
        0 <= at < s.len(),
    ensures
        distinct_keys(s.update(at, (s[at].0, v))),
        to_map(s.update(at, (s[at].0, v))) == to_map(s).insert(s[at].0, v),
{
    let t = s.update(at, (s[at].0, v));
    assert forall|i: int, j: int|
        0 <= i < t.len() && 0 <= j < t.len() && (#[trigger] t[i]).0 == (#[trigger] t[j]).0 implies i
        == j by {
        assert(t[i].0 == s[i].0);
        assert(t[j].0 == s[j].0);
    }
    assert forall|key: K| has_key(t, key) <==> has_key(s, key) by {
        if has_key(t, key) {
            let i = choose|i: int| 0 <= i < t.len() && (#[trigger] t[i]).0 == key;
            assert(s[i].0 == key);
        }
        if has_key(s, key) {
            let i = choose|i: int| 0 <= i < s.len() && (#[trigger] s[i]).0 == key;
            assert(t[i].0 == key);
        }
    }
    assert(has_key(s, s[at].0));
    assert forall|key: K| has_key(t, key) implies to_map(t)[key] == to_map(s).insert(
        s[at].0,
        v,
    )[key] by {
        let i = key_index(t, key);
        assert(t[i].0 == key);
        assert(s[i].0 == key);
        lemma_to_map_at(s, i);
    }
    assert(to_map(t) =~= to_map(s).insert(s[at].0, v));
}

pub proof fn lemma_to_map_remove<K, V>(s: Seq<(K, V)>, at: int)
    requires
        distinct_keys(s),
        0 <= at < s.len(),
    ensures
        distinct_keys(s.remove(at)),
        to_map(s.remove(at)) == to_map(s).remove(s[at].0),
{
    let t = s.remove(at);
    let k = s[at].0;
    assert forall|i: int, j: int|
        0 <= i < t.len() && 0 <= j < t.len() && (#[trigger] t[i]).0 == (#[trigger] t[j]).0 implies i
        == j by {
        let i1 = if i < at { i } else { i + 1 };
        let j1 = if j < at { j } else { j + 1 };
        assert(t[i] == s[i1]);
        assert(t[j] == s[j1]);
    }
    assert forall|key: K| has_key(t, key) <==> (key != k && has_key(s, key)) by {
        if has_key(t, key) {
            let i = choose|i: int| 0 <= i < t.len() && (#[trigger] t[i]).0 == key;
            let i1 = if i < at { i } else { i + 1 };
            assert(s[i1].0 == key);
        }
        if key != k && has_key(s, key) {
            let i = choose|i: int| 0 <= i < s.len() && (#[trigger] s[i]).0 == key;
            let i0 = if i < at { i } else { i - 1 };
            assert(t[i0].0 == key);
        }
    }
    assert forall|key: K| has_key(t, key) implies to_map(t)[key] == to_map(s).remove(k)[key] by {
        let i = key_index(t, key);
        assert(t[i].0 == key);
        let i1 = if i < at { i } else { i + 1 };
        assert(s[i1] == t[i]);
        lemma_to_map_at(s, i1);
    }
    assert(to_map(t) =~= to_map(s).remove(k));
}

/// The map has as many keys as the list has pairs.
pub proof fn lemma_to_map_len<K, V>(s: Seq<(K, V)>)
    requires
        distinct_keys(s),
    ensures
        to_map(s).dom().finite(),
        to_map(s).len() == s.len(),
    decreases s.len(),
{
    if s.len() == 0 {
        assert(to_map(s) =~= Map::<K, V>::empty());
    } else {
        let n = s.len() - 1;
        lemma_to_map_remove(s, n);
        lemma_to_map_len(s.remove(n));
        lemma_to_map_at(s, n);
        assert(to_map(s.remove(n)).dom() =~= to_map(s).dom().remove(s[n].0));
        assert(to_map(s).dom() =~= to_map(s.remove(n)).dom().insert(s[n].0));
    }
}

/// The map of the first pairs grows by one pair at a time.
pub proof fn lemma_to_map_push<K, V>(s: Seq<(K, V)>, n: int)
    requires
        distinct_keys(s),
        0 <= n < s.len(),
    ensures
        to_map(s.subrange(0, n + 1)) == to_map(s.subrange(0, n)).insert(s[n].0, s[n].1),
        !has_key(s.subrange(0, n), s[n].0),
{
    let t = s.subrange(0, n);
    assert forall|i: int, j: int|
        0 <= i < t.len() && 0 <= j < t.len() && (#[trigger] t[i]).0 == (#[trigger] t[j]).0 implies i
        == j by {
        assert(t[i] == s[i] && t[j] == s[j]);
    }
    if has_key(t, s[n].0) {
        let i = key_index(t, s[n].0);
        assert(t[i] == s[i]);
        assert(s[i].0 == s[n].0);
    }
    lemma_to_map_insert(t, n, s[n].0, s[n].1);
    assert(t.insert(n, (s[n].0, s[n].1)) =~= s.subrange(0, n + 1));
}

// ---------------------------------------------------------------------------
// The order of texts
// ---------------------------------------------------------------------------

pub open spec fn lt_from(a: Seq<char>, b: Seq<char>, i: int) -> bool
    decreases a.len() - i,
{
    if i < 0 || i >= b.len() {
        false
    } else if i >= a.len() {
        true
    } else if a[i] == b[i] {
        lt_from(a, b, i + 1)
    } else {
        a[i] < b[i]
    }
}

/// Whether text `a` comes before text `b`, character by character.
pub open spec fn text_lt(a: Seq<char>, b: Seq<char>) -> bool {
    lt_from(a, b, 0)
}

proof fn lemma_lt_trans_from(a: Seq<char>, b: Seq<char>, c: Seq<char>, i: int)
    requires
        0 <= i,
        lt_from(a, b, i),
        lt_from(b, c, i),
    ensures
        lt_from(a, c, i),
    decreases b.len() - i,
{
    if i < a.len() && i < b.len() && i < c.len() && a[i] == b[i] && b[i] == c[i] {
        lemma_lt_trans_from(a, b, c, i + 1);
    }
}

pub proof fn lemma_text_lt_trans(a: Seq<char>, b: Seq<char>, c: Seq<char>)
    requires
        text_lt(a, b),
        text_lt(b, c),
    ensures
        text_lt(a, c),
{
    lemma_lt_trans_from(a, b, c, 0);
}

proof fn lemma_lt_total_from(a: Seq<char>, b: Seq<char>, i: int)
    requires
        0 <= i <= a.len(),
        i <= b.len(),
        forall|j: int| 0 <= j < i ==> a[j] == b[j],
    ensures
        lt_from(a, b, i) || lt_from(b, a, i) || a == b,
        !(lt_from(a, b, i) && lt_from(b, a, i)),
        a == b ==> !lt_from(a, b, i),
    decreases a.len() - i,
{
    if i < a.len() && i < b.len() && a[i] == b[i] {
        lemma_lt_total_from(a, b, i + 1);
    } else if i == a.len() && i == b.len() {
        assert(a =~= b);
    }
}

/// Of two texts exactly one comes before the other, or they are equal.
pub proof fn lemma_text_lt_total(a: Seq<char>, b: Seq<char>)
    ensures
        text_lt(a, b) || text_lt(b, a) || a == b,
        !(text_lt(a, b) && text_lt(b, a)),
        !text_lt(a, a),
{
    lemma_lt_total_from(a, b, 0);
    lemma_lt_total_from(a, a, 0);
}

/// Whether `a` comes before `b`.
pub fn text_before(a: &str, b: &str) -> (r: bool)
    ensures
        r == text_lt(a@, b@),
{
    let x = chars(a);
    let y = chars(b);
    let mut i: usize = 0;
    while i < x.len() && i < y.len() && x[i] == y[i]
        invariant
            i <= x@.len(),
            i <= y@.len(),
            lt_from(x@, y@, 0) == lt_from(x@, y@, i as int),
        decreases x@.len() - i,
    {
        i += 1;
    }
    if i >= y.len() {
        false
    } else if i >= x.len() {
        true
    } else {
        x[i] < y[i]
    }
}

// ---------------------------------------------------------------------------
// A map with text keys
// ---------------------------------------------------------------------------

pub open spec fn pair_views<V: View>(s: Seq<(String, V)>) -> Seq<(Seq<char>, V::V)> {
    Seq::new(s.len(), |i: int| (s[i].0@, s[i].1@))
}

pub open spec fn sorted_keys<V>(s: Seq<(Seq<char>, V)>) -> bool {
    forall|i: int, j: int|
        0 <= i < j < s.len() ==> text_lt((#[trigger] s[i]).0, (#[trigger] s[j]).0)
}

pub proof fn lemma_sorted_distinct<V>(s: Seq<(Seq<char>, V)>)
    requires
        sorted_keys(s),
    ensures
        distinct_keys(s),
{
    assert forall|i: int, j: int|
        0 <= i < s.len() && 0 <= j < s.len() && (#[trigger] s[i]).0 == (#[trigger] s[j]).0 implies i
        == j by {
        lemma_text_lt_total(s[i].0, s[j].0);
        if i < j {
            assert(text_lt(s[i].0, s[j].0));
        }
        if j < i {
            assert(text_lt(s[j].0, s[i].0));
        }
    }
}

/// What a list comes to piece by piece comes to one more piece with one more
/// element.
pub proof fn lemma_flat_map_step<A, B>(s: Seq<A>, f: spec_fn(A) -> Seq<B>)
    ensures
        s.len() == 0 ==> s.flat_map(f) == Seq::<B>::empty(),
        s.len() > 0 ==> s.flat_map(f) == s.drop_last().flat_map(f) + f(s.last()),
{
    if s.len() == 0 {
        assert(s.map_values(f) =~= Seq::empty());
    } else {
        assert(s.map_values(f) =~= s.drop_last().map_values(f).push(f(s.last())));
        s.drop_last().map_values(f).lemma_flatten_push(f(s.last()));
    }
}

/// The numbers below a number, in order.
pub open spec fn below(n: nat) -> Seq<int> {
    Seq::new(n, |i: int| i)
}

/// What the numbers below a number come to, one after the other, is what all but
/// the last come to and then what the last does.
pub proof fn lemma_below_step<B>(n: nat, f: spec_fn(int) -> Seq<B>)
    ensures
        n == 0 ==> below(n).flat_map(f) == Seq::<B>::empty(),
        n > 0 ==> below(n).flat_map(f) == below((n - 1) as nat).flat_map(f) + f(n - 1),
{
    lemma_flat_map_step(below(n), f);
    if n > 0 {
        assert(below(n).drop_last() =~= below((n - 1) as nat));
        assert(below(n).last() == n - 1);
    }
}

/// Two ways to turn elements into pieces that agree on a list turn it into the same.
pub proof fn lemma_flat_map_same<A, B>(
    s: Seq<A>,
    f: spec_fn(A) -> Seq<B>,
    g: spec_fn(A) -> Seq<B>,
)
    requires
        forall|i: int| 0 <= i < s.len() ==> f(#[trigger] s[i]) == g(s[i]),
    ensures
        s.flat_map(f) == s.flat_map(g),
{
    assert(s.map_values(f) =~= s.map_values(g));
}

/// A list holds what some element comes to, and nothing else.
pub proof fn lemma_flat_map_contains<A, B>(s: Seq<A>, f: spec_fn(A) -> Seq<B>, x: B)
    ensures
        s.flat_map(f).contains(x) <==> exists|k: int|
            0 <= k < s.len() && f(#[trigger] s[k]).contains(x),
    decreases s.len(),
{
    lemma_flat_map_step(s, f);
    if s.len() > 0 {
        let rest = s.drop_last();
        lemma_flat_map_contains(rest, f, x);
        let all = s.flat_map(f);
        let few = rest.flat_map(f);
        let last = f(s.last());
        if few.contains(x) {
            let i = choose|i: int| 0 <= i < few.len() && few[i] == x;
            assert(all[i] == x);
            let k = choose|k: int| 0 <= k < rest.len() && f(#[trigger] rest[k]).contains(x);
            assert(s[k] == rest[k]);
        }
        if last.contains(x) {
            let i = choose|i: int| 0 <= i < last.len() && last[i] == x;
            assert(all[few.len() + i] == x);
            assert(s[s.len() - 1] == s.last());
        }
        if all.contains(x) {
            let i = choose|i: int| 0 <= i < all.len() && all[i] == x;
            if i < few.len() {
                assert(few[i] == x);
            } else {
                assert(last[i - few.len()] == x);
            }
        }
        if exists|k: int| 0 <= k < s.len() && f(#[trigger] s[k]).contains(x) {
            let k = choose|k: int| 0 <= k < s.len() && f(#[trigger] s[k]).contains(x);
            if k < rest.len() {
                assert(rest[k] == s[k]);
            }
        }
    } else {
        assert(!s.flat_map(f).contains(x));
    }
}

/// A map with text keys that is walked in the order of its keys.
#[derive(Debug, PartialEq, Eq)]
pub struct TextMap<V> {
    entries: Vec<(String, V)>,
}

impl<V> TextMap<V> {
    #[verifier::type_invariant]
    spec fn sorted(&self) -> bool {
        forall|i: int, j: int|
            0 <= i < j < self.entries@.len() ==> text_lt(
                (#[trigger] self.entries@[i]).0@,
                (#[trigger] self.entries@[j]).0@,
            )
    }
}

impl<V: View> View for TextMap<V> {
    type V = Map<Seq<char>, V::V>;

    open spec fn view(&self) -> Map<Seq<char>, V::V> {
        to_map(self.pairs())
    }
}

impl<V: View> TextMap<V> {
    /// The pairs in the order of their keys.
    pub closed spec fn pairs(&self) -> Seq<(Seq<char>, V::V)> {
        pair_views(self.entries@)
    }

    proof fn lemma_sorted(&self)
        requires
            self.sorted(),
        ensures
            sorted_keys(self.pairs()),
    {
        let s = self.pairs();
        assert forall|i: int, j: int| 0 <= i < j < s.len() implies text_lt(
            (#[trigger] s[i]).0,
            (#[trigger] s[j]).0,
        ) by {
            assert(text_lt(self.entries@[i].0@, self.entries@[j].0@));
        }
    }

    proof fn lemma_keeps_sorted(entries: Seq<(String, V)>)
        requires
            sorted_keys(pair_views(entries)),
        ensures
            forall|i: int, j: int|
                0 <= i < j < entries.len() ==> text_lt(
                    (#[trigger] entries[i]).0@,
                    (#[trigger] entries[j]).0@,
                ),
    {
        let s = pair_views(entries);
        assert forall|i: int, j: int| 0 <= i < j < entries.len() implies text_lt(
            (#[trigger] entries[i]).0@,
            (#[trigger] entries[j]).0@,
        ) by {
            assert(text_lt(s[i].0, s[j].0));
        }
    }

    pub fn new() -> (r: Self)
        ensures
            r@ == Map::<Seq<char>, V::V>::empty(),
            r.pairs() == Seq::<(Seq<char>, V::V)>::empty(),
    {
        let r = TextMap { entries: Vec::new() };
        assert(r.pairs() =~= Seq::<(Seq<char>, V::V)>::empty());
        assert(r@ =~= Map::<Seq<char>, V::V>::empty());
        r
    }

    /// The map is that of its pairs.
    pub proof fn lemma_pairs(&self)
        ensures
            self@ == to_map(self.pairs()),
    {
    }

    /// The pairs are sorted, so no key occurs twice, and the map is theirs.
    pub fn len(&self) -> (r: usize)
        ensures
            r == self.pairs().len(),
            sorted_keys(self.pairs()),
            distinct_keys(self.pairs()),
            self@.dom().finite(),
            self@.len() == r,
    {
        proof {
            use_type_invariant(self);
            self.lemma_sorted();
            lemma_sorted_distinct(self.pairs());
            lemma_to_map_len(self.pairs());
        }
        self.entries.len()
    }

    /// The pair at a place of the order.
    pub fn at(&self, i: usize) -> (r: (&str, &V))
        requires
            i < self.pairs().len(),
        ensures
            r.0@ == self.pairs()[i as int].0,
            r.1@ == self.pairs()[i as int].1,
            self@.contains_key(r.0@),
            self@[r.0@] == r.1@,
    {
        proof {
            use_type_invariant(self);
            self.lemma_sorted();
            lemma_sorted_distinct(self.pairs());
            lemma_to_map_at(self.pairs(), i as int);
        }
        (self.entries[i].0.as_str(), &self.entries[i].1)
    }

    /// Where `key` is, or where it would go.
    fn place(&self, key: &str) -> (r: (usize, bool))
        ensures
            r.0 <= self.entries@.len(),
            forall|i: int| 0 <= i < r.0 ==> text_lt((#[trigger] self.pairs()[i]).0, key@),
            r.1 ==> r.0 < self.entries@.len() && self.pairs()[r.0 as int].0 == key@,
            !r.1 ==> forall|i: int|
                r.0 <= i < self.entries@.len() ==> text_lt(key@, (#[trigger] self.pairs()[i]).0),
    {
        proof {
            use_type_invariant(self);
            self.lemma_sorted();
        }
        let mut i: usize = 0;
        while i < self.entries.len() && text_before(self.entries[i].0.as_str(), key)
            invariant
                i <= self.entries@.len(),
                forall|j: int| 0 <= j < i ==> text_lt((#[trigger] self.pairs()[j]).0, key@),
            decreases self.entries@.len() - i,
        {
            i += 1;
        }
        if i < self.entries.len() {
            let found = self.entries[i].0.as_str();
            if text_before(key, found) {
                proof {
                    let s = self.pairs();
                    assert forall|j: int| i <= j < s.len() implies text_lt(key@, (#[trigger] s[j]).0) by {
                        if j > i {
                            lemma_text_lt_trans(key@, s[i as int].0, s[j].0);
                        }
                    }
                }
                (i, false)
            } else {
                proof {
                    lemma_text_lt_total(key@, found@);
                }
                (i, true)
            }
        } else {
            (i, false)
        }
    }

    pub fn get(&self, key: &str) -> (r: Option<&V>)
        ensures
            r is Some <==> self@.contains_key(key@),
            r matches Some(value) ==> self@[key@] == value@,
    {
        let (i, found) = self.place(key);
        proof {
            use_type_invariant(self);
            self.lemma_sorted();
            lemma_sorted_distinct(self.pairs());
        }
        if found {
            proof {
                lemma_to_map_at(self.pairs(), i as int);
            }
            Some(&self.entries[i].1)
        } else {
            proof {
                self.lemma_absent(i as int, key@);
            }
            None
        }
    }

    pub fn contains_key(&self, key: &str) -> (r: bool)
        ensures
            r == self@.contains_key(key@),
    {
        self.get(key).is_some()
    }

    proof fn lemma_absent(&self, i: int, key: Seq<char>)
        requires
            0 <= i <= self.pairs().len(),
            forall|j: int| 0 <= j < i ==> text_lt((#[trigger] self.pairs()[j]).0, key),
            forall|j: int|
                i <= j < self.pairs().len() ==> text_lt(key, (#[trigger] self.pairs()[j]).0),
        ensures
            !has_key(self.pairs(), key),
            !self@.contains_key(key),
    {
        let s = self.pairs();
        if has_key(s, key) {
            let j = choose|j: int| 0 <= j < s.len() && (#[trigger] s[j]).0 == key;
            lemma_text_lt_total(key, key);
            if j < i {
                assert(text_lt(s[j].0, key));
            } else {
                assert(text_lt(key, s[j].0));
            }
        }
    }

    /// Map `key` to `value`, whatever it mapped to before.
    pub fn insert(&mut self, key: &str, value: V)
        ensures
            final(self)@ == old(self)@.insert(key@, value@),
    {
        let (i, found) = self.place(key);
        proof {
            use_type_invariant(&*self);
            self.lemma_sorted();
            lemma_sorted_distinct(self.pairs());
        }
        let ghost before = self.pairs();
        let mut entries: Vec<(String, V)> = Vec::new();
        std::mem::swap(&mut entries, &mut self.entries);
        if found {
            proof {
                lemma_to_map_update(before, i as int, value@);
            }
            entries.set(i, (key.to_owned(), value));
            assert(pair_views(entries@) =~= before.update(i as int, (key@, value@)));
            assert(sorted_keys(pair_views(entries@))) by {
                let t = pair_views(entries@);
                assert forall|a: int, b: int| 0 <= a < b < t.len() implies text_lt(
                    (#[trigger] t[a]).0,
                    (#[trigger] t[b]).0,
                ) by {
                    assert(t[a].0 == before[a].0);
                    assert(t[b].0 == before[b].0);
                }
            }
        } else {
            proof {
                assert(!has_key(before, key@)) by {
                    old(self).lemma_absent(i as int, key@);
                }
                lemma_to_map_insert(before, i as int, key@, value@);
            }
            entries.insert(i, (key.to_owned(), value));
            assert(pair_views(entries@) =~= before.insert(i as int, (key@, value@)));
            assert(sorted_keys(pair_views(entries@))) by {
                let t = pair_views(entries@);
                assert forall|a: int, b: int| 0 <= a < b < t.len() implies text_lt(
                    (#[trigger] t[a]).0,
                    (#[trigger] t[b]).0,
                ) by {
                    if a != i {
                        assert(t[a] == before[if a < i { a } else { a - 1 }]);
                    }
                    if b != i {
                        assert(t[b] == before[if b < i { b } else { b - 1 }]);
                    }
                }
            }
        }
        proof {
            Self::lemma_keeps_sorted(entries@);
        }
        self.entries = entries;
    }

    /// Forget `key`.
    pub fn remove(&mut self, key: &str)
        ensures
            final(self)@ == old(self)@.remove(key@),
    {
        self.take(key);
    }

    /// Forget `key`, and hand out what stood for it.
    pub fn take(&mut self, key: &str) -> (r: Option<V>)
        ensures
            final(self)@ == old(self)@.remove(key@),
            match r {
                Some(value) => old(self)@.contains_key(key@) && value@ == old(self)@[key@],
                None => !old(self)@.contains_key(key@),
            },
    {
        let (i, found) = self.place(key);
        proof {
            use_type_invariant(&*self);
            self.lemma_sorted();
            lemma_sorted_distinct(self.pairs());
        }
        let ghost before = self.pairs();
        if found {
            let mut entries: Vec<(String, V)> = Vec::new();
            std::mem::swap(&mut entries, &mut self.entries);
            proof {
                lemma_to_map_remove(before, i as int);
                lemma_to_map_at(before, i as int);
            }
            let (_, value) = entries.remove(i);
            assert(pair_views(entries@) =~= before.remove(i as int));
            assert(sorted_keys(pair_views(entries@))) by {
                let t = pair_views(entries@);
                assert forall|a: int, b: int| 0 <= a < b < t.len() implies text_lt(
                    (#[trigger] t[a]).0,
                    (#[trigger] t[b]).0,
                ) by {
                    assert(t[a] == before[if a < i { a } else { a + 1 }]);
                    assert(t[b] == before[if b < i { b } else { b + 1 }]);
                }
            }
            proof {
                Self::lemma_keeps_sorted(entries@);
            }
            self.entries = entries;
            Some(value)
        } else {
            proof {
                self.lemma_absent(i as int, key@);
                assert(self@.remove(key@) =~= self@);
            }
            None
        }
    }
}

/// Two sorted lists of pairs that stand for one map are the same list.
pub proof fn lemma_sorted_unique<V>(a: Seq<(Seq<char>, V)>, b: Seq<(Seq<char>, V)>)
    requires
        sorted_keys(a),
        sorted_keys(b),
        to_map(a) == to_map(b),
    ensures
        a == b,
    decreases a.len(),
{
    lemma_sorted_distinct(a);
    lemma_sorted_distinct(b);
    lemma_to_map_len(a);
    lemma_to_map_len(b);
    if a.len() > 0 {
        let n = a.len() - 1;
        lemma_to_map_at(a, n);
        lemma_to_map_at(b, n);
        // The greatest key is the last of either list.
        let ka = a[n].0;
        let kb = b[n].0;
        let ib = key_index(b, ka);
        assert(to_map(b).contains_key(ka));
        assert(has_key(b, ka));
        assert(b[ib].0 == ka);
        let ia = key_index(a, kb);
        assert(to_map(a).contains_key(kb));
        assert(has_key(a, kb));
        assert(a[ia].0 == kb);
        lemma_text_lt_total(ka, kb);
        if ib < n {
            assert(text_lt(b[ib].0, b[n].0));
            if ia < n {
                assert(text_lt(a[ia].0, a[n].0));
            }
        }
        assert(ka == kb);
        assert(a[n].1 == to_map(a)[ka]);
        assert(b[n].1 == to_map(b)[ka]);
        lemma_to_map_remove(a, n);
        lemma_to_map_remove(b, n);
        assert(sorted_keys(a.remove(n))) by {
            assert forall|i: int, j: int| 0 <= i < j < a.remove(n).len() implies text_lt(
                (#[trigger] a.remove(n)[i]).0,
                (#[trigger] a.remove(n)[j]).0,
            ) by {
                assert(a.remove(n)[i] == a[i]);
                assert(a.remove(n)[j] == a[j]);
            }
        }
        assert(sorted_keys(b.remove(n))) by {
            assert forall|i: int, j: int| 0 <= i < j < b.remove(n).len() implies text_lt(
                (#[trigger] b.remove(n)[i]).0,
                (#[trigger] b.remove(n)[j]).0,
            ) by {
                assert(b.remove(n)[i] == b[i]);
                assert(b.remove(n)[j] == b[j]);
            }
        }
        lemma_sorted_unique(a.remove(n), b.remove(n));
        assert(a =~= a.remove(n).push(a[n]));
        assert(b =~= b.remove(n).push(b[n]));
    } else {
        assert(a =~= b);
    }
}

impl TextMap<String> {
    /// The same map once more.
    pub fn copied(&self) -> (r: TextMap<String>)
        ensures
            r@ == self@,
    {
        let mut r: TextMap<String> = TextMap::new();
        let ghost pairs = self.pairs();
        let n: usize = self.len();
        let mut i: usize = 0;
        assert(pairs.subrange(0, 0) =~= Seq::empty());
        assert(to_map(pairs.subrange(0, 0)) =~= Map::empty());
        while i < n
            invariant
                i <= n,
                n == pairs.len(),
                pairs == self.pairs(),
                distinct_keys(pairs),
                r@ == to_map(pairs.subrange(0, i as int)),
            decreases n - i,
        {
            let (key, value) = self.at(i);
            proof {
                lemma_to_map_push(pairs, i as int);
            }
            r.insert(key, value.clone());
            i += 1;
        }
        assert(pairs.subrange(0, n as int) =~= pairs);
        r
    }
}

/// Texts stand in the order of their first different character, and a text before every
/// longer one that starts with it.
pub proof fn law_the_order_of_texts(a: Seq<char>, b: Seq<char>, n: int)
    requires
        0 <= n <= a.len(),
        n <= b.len(),
        a.subrange(0, n) == b.subrange(0, n),
    ensures
        n < a.len() && n < b.len() && a[n] != b[n] ==> (text_lt(a, b) <==> a[n] < b[n]),
        n == a.len() ==> (text_lt(a, b) <==> n < b.len()),
        n == b.len() ==> !text_lt(a, b),
{
    lemma_lt_common(a, b, 0, n);
}

proof fn lemma_lt_common(a: Seq<char>, b: Seq<char>, i: int, n: int)
    requires
        0 <= i <= n <= a.len(),
        n <= b.len(),
        a.subrange(0, n) == b.subrange(0, n),
    ensures
        lt_from(a, b, i) == lt_from(a, b, n),
    decreases n - i,
{
    if i < n {
        assert(a[i] == a.subrange(0, n)[i] && b[i] == b.subrange(0, n)[i]);
        lemma_lt_common(a, b, i + 1, n);
    }
}

} // verus!
