//! Maps from numbers that are walked in the order of their keys.

use std::collections::BTreeMap;

use vstd::prelude::*;
use vstd::std_specs::btree::{increasing_seq, spec_btree_map_iter};
use vstd::std_specs::cmp::OrdSpec;
use vstd::std_specs::iter::IteratorSpec;

use crate::maps::{distinct_keys, has_key, key_index, lemma_to_map_at, to_map};

verus! {

pub open spec fn id_views<V: View>(s: Seq<(u64, &V)>) -> Seq<(u64, V::V)> {
    Seq::new(s.len(), |i: int| (s[i].0, s[i].1@))
}

pub open spec fn ascending_ids<V>(s: Seq<(u64, V)>) -> bool {
    forall|i: int, j: int| 0 <= i < j < s.len() ==> (#[trigger] s[i]).0 < (#[trigger] s[j]).0
}

/// The pairs of a map in the order of their keys.
pub open spec fn in_order<V>(map: Map<u64, V>) -> Seq<(u64, V)> {
    choose|s: Seq<(u64, V)>| ascending_ids(s) && #[trigger] to_map(s) == map
}

/// A map with number keys that is walked in the order of its keys.
#[derive(Debug, PartialEq, Eq)]
pub struct IdMap<V> {
    map: BTreeMap<u64, V>,
}

impl<V: View> View for IdMap<V> {
    type V = Map<u64, V::V>;

    closed spec fn view(&self) -> Map<u64, V::V> {
        self.map@.map_values(|value: V| value@)
    }
}

pub proof fn lemma_ascending_distinct<V>(s: Seq<(u64, V)>)
    requires
        ascending_ids(s),
    ensures
        distinct_keys(s),
{
    assert forall|i: int, j: int|
        0 <= i < s.len() && 0 <= j < s.len() && (#[trigger] s[i]).0 == (#[trigger] s[j]).0 implies i
        == j by {
        if i < j {
            assert(s[i].0 < s[j].0);
        } else if j < i {
            assert(s[j].0 < s[i].0);
        }
    }
}

/// Two lists in order that stand for one map are the same up to an index.
proof fn lemma_same_order<V>(a: Seq<(u64, V)>, b: Seq<(u64, V)>, n: int)
    requires
        ascending_ids(a),
        ascending_ids(b),
        to_map(a) == to_map(b),
        0 <= n <= a.len(),
    ensures
        n <= b.len(),
        forall|i: int| 0 <= i < n ==> a[i] == b[i],
    decreases n,
{
    if n > 0 {
        let k = n - 1;
        lemma_same_order(a, b, k);
        lemma_ascending_distinct(a);
        lemma_ascending_distinct(b);
        lemma_to_map_at(a, k);
        assert(to_map(b).contains_key(a[k].0));
        assert(has_key(b, a[k].0));
        let j = key_index(b, a[k].0);
        if j < k {
            assert(a[j] == b[j]);
            assert(a[j].0 < a[k].0);
        }
        lemma_to_map_at(b, j);
        lemma_to_map_at(b, k);
        assert(to_map(a).contains_key(b[k].0));
        assert(has_key(a, b[k].0));
        let l = key_index(a, b[k].0);
        if l < k {
            assert(a[l] == b[l]);
            assert(b[l].0 < b[k].0);
        }
        if j > k {
            assert(b[k].0 < b[j].0);
            if l > k {
                assert(a[k].0 < a[l].0);
            }
        }
        assert(j == k);
    }
}

/// The list in order is the only one.
pub proof fn lemma_in_order<V>(s: Seq<(u64, V)>)
    requires
        ascending_ids(s),
    ensures
        in_order(to_map(s)) == s,
{
    let other = in_order(to_map(s));
    assert(ascending_ids(other) && to_map(other) == to_map(s));
    lemma_same_order(s, other, s.len() as int);
    lemma_same_order(other, s, other.len() as int);
    assert(other =~= s);
}

impl<V: View> IdMap<V> {
    pub fn new() -> (r: Self)
        ensures
            r@ == Map::<u64, V::V>::empty(),
    {
        let r = IdMap { map: BTreeMap::new() };
        assert(r@ =~= Map::<u64, V::V>::empty());
        r
    }

    /// The pairs in the order of their keys.
    pub fn list(&self) -> (r: Vec<(u64, &V)>)
        ensures
            id_views(r@) == in_order(self@),
            ascending_ids(id_views(r@)),
            distinct_keys(id_views(r@)),
            self@ == to_map(id_views(r@)),
    {
        broadcast use vstd::laws_cmp::group_laws_cmp;

        let mut r: Vec<(u64, &V)> = Vec::new();
        let ghost pairs = spec_btree_map_iter(&self.map).remaining();
        let ghost keys = pairs.map_values(|pair: (&u64, &V)| *pair.0);
        for pair in it: self.map.iter()
            invariant
                it.seq() == pairs,
                keys == pairs.map_values(|pair: (&u64, &V)| *pair.0),
                increasing_seq(keys),
                r@.len() == it.index(),
                forall|i: int|
                    0 <= i < r@.len() ==> (#[trigger] r@[i]).0 == *pairs[i].0 && r@[i].1
                        == pairs[i].1,
        {
            r.push((*pair.0, pair.1));
        }
        let ghost s = id_views(r@);
        proof {
            assert forall|i: int, j: int| 0 <= i < j < s.len() implies (#[trigger] s[i]).0 < (
            #[trigger] s[j]).0 by {
                assert(keys[i].cmp_spec(&keys[j]) is Less);
            }
            lemma_ascending_distinct(s);
            assert forall|k: u64| has_key(s, k) <==> #[trigger] self.map@.contains_key(k) by {
                if has_key(s, k) {
                    let i = key_index(s, k);
                    assert(self.map@.contains_key(*pairs[i].0));
                }
                if self.map@.contains_key(k) {
                    let i = choose|i: int|
                        0 <= i < pairs.len() && pairs[i] == (&k, &self.map@[k]);
                    assert(s[i].0 == k);
                }
            }
            assert forall|k: u64| #[trigger] has_key(s, k) implies to_map(s)[k] == self@[k] by {
                let i = key_index(s, k);
                assert(self.map@[*pairs[i].0] == *pairs[i].1);
            }
            assert(to_map(s) =~= self@);
            lemma_in_order(s);
        }
        r
    }

    pub fn get(&self, key: u64) -> (r: Option<&V>)
        ensures
            r is Some <==> self@.contains_key(key),
            r matches Some(value) ==> self@[key] == value@,
    {
        broadcast use vstd::laws_cmp::group_laws_cmp;

        self.map.get(&key)
    }

    /// Map `key` to `value`, whatever it mapped to before.
    pub fn insert(&mut self, key: u64, value: V)
        ensures
            final(self)@ == old(self)@.insert(key, value@),
    {
        broadcast use vstd::laws_cmp::group_laws_cmp;

        self.map.insert(key, value);
        assert(self@ =~= old(self)@.insert(key, value@));
    }

    /// Forget `key`.
    pub fn remove(&mut self, key: u64)
        ensures
            final(self)@ == old(self)@.remove(key),
    {
        broadcast use vstd::laws_cmp::group_laws_cmp;

        self.map.remove(&key);
        assert(self@ =~= old(self)@.remove(key));
    }
}

} // verus!
