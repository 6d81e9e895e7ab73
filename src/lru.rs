//! A fixed-capacity cache that evicts the least recently used entry.
//!
//! The cache is modelled as the sequence of its pairs (key, value), most
//! recently used first; `get` and `put` are stated as functions on that model.
use std::collections::HashMap;
use vstd::prelude::*;
use crate::recency::RecencyList;

verus! {

broadcast use vstd::std_specs::hash::group_hash_axioms;

/// Some pair of `s` has key `k`.
pub open spec fn has_key(s: Seq<(i64, i64)>, k: i64) -> bool {
    exists|i: int| 0 <= i < s.len() && s[i].0 == k
}

/// The position of the pair with key `k` (meaningful where `has_key(s, k)`).
pub open spec fn key_index(s: Seq<(i64, i64)>, k: i64) -> int {
    choose|i: int| 0 <= i < s.len() && s[i].0 == k
}

/// No two pairs of `s` share a key.
pub open spec fn distinct_keys(s: Seq<(i64, i64)>) -> bool {
    forall|a: int, b: int| 0 <= a < s.len() && 0 <= b < s.len() && a != b ==> s[a].0 != s[b].0
}

/// What `get(k)` returns on the cache `s`.
pub open spec fn get_result(s: Seq<(i64, i64)>, k: i64) -> Option<i64> {
    if has_key(s, k) {
        Some(s[key_index(s, k)].1)
    } else {
        None
    }
}

/// The cache after `get(k)`: a present key moves to the front.
pub open spec fn after_get(s: Seq<(i64, i64)>, k: i64) -> Seq<(i64, i64)> {
    if has_key(s, k) {
        seq![s[key_index(s, k)]] + s.remove(key_index(s, k))
    } else {
        s
    }
}

/// The cache after `put(k, v)` under capacity `cap`: the pair goes to the
/// front, replacing the old pair of `k`; a new key that overflows the
/// capacity evicts the last (least recently used) pair.
pub open spec fn after_put(s: Seq<(i64, i64)>, k: i64, v: i64, cap: nat) -> Seq<(i64, i64)> {
    if has_key(s, k) {
        seq![(k, v)] + s.remove(key_index(s, k))
    } else if s.len() + 1 > cap {
        (seq![(k, v)] + s).drop_last()
    } else {
        seq![(k, v)] + s
    }
}

/// In a sequence without repeated keys, the pair with key `k` is the one at `i`.
pub proof fn lemma_key_index(s: Seq<(i64, i64)>, k: i64, i: int)
    requires
        distinct_keys(s),
        0 <= i < s.len(),
        s[i].0 == k,
    ensures
        has_key(s, k),
        key_index(s, k) == i,
        get_result(s, k) == Some(s[i].1),
{
}

/// A `get` keeps the pairs held and their number, and repeats no key.
pub proof fn lemma_get_keeps_pairs(s: Seq<(i64, i64)>, k: i64)
    requires
        distinct_keys(s),
    ensures
        distinct_keys(after_get(s, k)),
        after_get(s, k).len() == s.len(),
        forall|p: (i64, i64)| after_get(s, k).contains(p) <==> s.contains(p),
        forall|k2: i64| #[trigger] get_result(after_get(s, k), k2) == get_result(s, k2),
{
    if has_key(s, k) {
        let i = key_index(s, k);
        let t = after_get(s, k);
        assert forall|a: int| 0 <= a < t.len() implies #[trigger] t[a] == (if a == 0 {
            s[i]
        } else if a - 1 < i {
            s[a - 1]
        } else {
            s[a]
        }) by {}
        assert forall|a: int, b: int| 0 <= a < t.len() && 0 <= b < t.len() && a != b implies t[a].0
            != t[b].0 by {}
        assert forall|p: (i64, i64)| t.contains(p) <==> s.contains(p) by {
            if s.contains(p) {
                let j = choose|j: int| 0 <= j < s.len() && s[j] == p;
                if j == i {
                    assert(t[0] == p);
                } else if j < i {
                    assert(t[j + 1] == p);
                } else {
                    assert(t[j] == p);
                }
            }
        }
        assert forall|k2: i64| #[trigger] get_result(t, k2) == get_result(s, k2) by {
            if has_key(s, k2) {
                let j = key_index(s, k2);
                if j == i {
                    lemma_key_index(t, k2, 0);
                } else if j < i {
                    lemma_key_index(t, k2, j + 1);
                } else {
                    lemma_key_index(t, k2, j);
                }
            } else if has_key(t, k2) {
                let j = choose|j: int| 0 <= j < t.len() && t[j].0 == k2;
                assert(s.contains(t[j]));
            }
        }
    }
}

/// Asking for a key twice in a row: the second `get` returns what the first
/// did and leaves the cache as the first left it.
pub proof fn lemma_get_twice(s: Seq<(i64, i64)>, k: i64)
    requires
        distinct_keys(s),
    ensures
        after_get(after_get(s, k), k) == after_get(s, k),
        get_result(after_get(s, k), k) == get_result(s, k),
{
    lemma_get_keeps_pairs(s, k);
    let t = after_get(s, k);
    if has_key(s, k) {
        lemma_key_index(t, k, 0);
        assert(seq![t[0]] + t.remove(0) =~= t);
    }
}

/// A `get` of a present key makes it the most recently used.
pub proof fn lemma_get_head(s: Seq<(i64, i64)>, k: i64)
    requires
        distinct_keys(s),
        has_key(s, k),
    ensures
        after_get(s, k)[0] == (k, get_result(s, k).unwrap()),
{
}

/// After `put(k, v)` the cache holds at most its capacity and repeats no key,
/// and `(k, v)` is its most recently used pair. A new key put into a full cache
/// evicts exactly one pair, the least recently used one.
pub proof fn lemma_put_capacity(s: Seq<(i64, i64)>, k: i64, v: i64, cap: nat)
    requires
        distinct_keys(s),
        s.len() <= cap,
        0 < cap,
    ensures
        after_put(s, k, v, cap).len() <= cap,
        distinct_keys(after_put(s, k, v, cap)),
        after_put(s, k, v, cap)[0] == (k, v),
        !has_key(s, k) && s.len() == cap ==> after_put(s, k, v, cap) == seq![(k, v)] + s.drop_last()
            && !has_key(after_put(s, k, v, cap), s[s.len() - 1].0),
        !has_key(s, k) && s.len() < cap ==> after_put(s, k, v, cap) == seq![(k, v)] + s,
{
    let t = after_put(s, k, v, cap);
    if has_key(s, k) {
        let i = key_index(s, k);
        assert forall|a: int| 0 <= a < t.len() implies #[trigger] t[a] == (if a == 0 {
            (k, v)
        } else if a - 1 < i {
            s[a - 1]
        } else {
            s[a]
        }) by {}
        assert forall|a: int, b: int| 0 <= a < t.len() && 0 <= b < t.len() && a != b implies t[a].0
            != t[b].0 by {}
    } else {
        assert forall|a: int| 0 < a < t.len() implies #[trigger] t[a] == s[a - 1] by {}
        assert forall|a: int, b: int| 0 <= a < t.len() && 0 <= b < t.len() && a != b implies t[a].0
            != t[b].0 by {
            if a == 0 {
                assert(s[b - 1].0 != k);
            } else if b == 0 {
                assert(s[a - 1].0 != k);
            }
        }
        if s.len() == cap {
            assert(t =~= seq![(k, v)] + s.drop_last());
            let last = s[s.len() - 1].0;
            if has_key(t, last) {
                let j = choose|j: int| 0 <= j < t.len() && t[j].0 == last;
                if j == 0 {
                    assert(s[s.len() - 1].0 == k);
                } else {
                    assert(s[j - 1].0 == last);
                }
            }
        }
    }
}

/// What was last put under a key is what `get` returns for it.
pub proof fn lemma_put_then_get(s: Seq<(i64, i64)>, k: i64, v: i64, cap: nat)
    requires
        distinct_keys(s),
        s.len() <= cap,
        0 < cap,
    ensures
        get_result(after_put(s, k, v, cap), k) == Some(v),
{
    lemma_put_capacity(s, k, v, cap);
    lemma_key_index(after_put(s, k, v, cap), k, 0);
}

/// A `put` of another key leaves the value of `k` as it was, as long as `k`
/// is not evicted.
pub proof fn lemma_put_keeps_others(s: Seq<(i64, i64)>, k: i64, k2: i64, v2: i64, cap: nat)
    requires
        distinct_keys(s),
        s.len() <= cap,
        0 < cap,
        k != k2,
        has_key(after_put(s, k2, v2, cap), k),
    ensures
        get_result(after_put(s, k2, v2, cap), k) == get_result(s, k),
{
    lemma_put_capacity(s, k2, v2, cap);
    let t = after_put(s, k2, v2, cap);
    let j = choose|j: int| 0 <= j < t.len() && t[j].0 == k;
    lemma_key_index(t, k, j);
    if has_key(s, k2) {
        let i = key_index(s, k2);
        if j - 1 < i {
            lemma_key_index(s, k, j - 1);
        } else {
            lemma_key_index(s, k, j);
        }
    } else {
        lemma_key_index(s, k, j - 1);
    }
}

/// The cache after putting the pairs of `ps` in turn into `s`.
pub open spec fn put_all(s: Seq<(i64, i64)>, ps: Seq<(i64, i64)>, cap: nat) -> Seq<(i64, i64)>
    decreases ps.len(),
{
    if ps.len() == 0 {
        s
    } else {
        let p = ps[ps.len() - 1];
        after_put(put_all(s, ps.drop_last(), cap), p.0, p.1, cap)
    }
}

/// The keys of `ps`, in order.
pub open spec fn keys_of(ps: Seq<(i64, i64)>) -> Seq<i64> {
    ps.map_values(|p: (i64, i64)| p.0)
}

/// The results of asking for the keys of `ks` in turn, starting from `s`.
pub open spec fn get_all(s: Seq<(i64, i64)>, ks: Seq<i64>) -> (Seq<(i64, i64)>, Seq<Option<i64>>)
    decreases ks.len(),
{
    if ks.len() == 0 {
        (s, Seq::empty())
    } else {
        let (t, rs) = get_all(s, ks.drop_last());
        let k = ks[ks.len() - 1];
        (after_get(t, k), rs.push(get_result(t, k)))
    }
}

/// Putting pairs with distinct keys, no more than the capacity, into an empty
/// cache evicts nothing and orders them most recent first.
pub proof fn lemma_put_all_fills(ps: Seq<(i64, i64)>, cap: nat)
    requires
        distinct_keys(ps),
        ps.len() <= cap,
        0 < cap,
    ensures
        put_all(Seq::empty(), ps, cap) == ps.reverse(),
    decreases ps.len(),
{
    if ps.len() > 0 {
        let init = ps.drop_last();
        let p = ps[ps.len() - 1];
        assert(distinct_keys(init));
        lemma_put_all_fills(init, cap);
        let r = init.reverse();
        assert(distinct_keys(r)) by {
            assert forall|a: int, b: int| 0 <= a < r.len() && 0 <= b < r.len() && a != b implies r[a].0
                != r[b].0 by {
                assert(r[a] == init[init.len() - 1 - a]);
                assert(r[b] == init[init.len() - 1 - b]);
            }
        }
        assert(!has_key(r, p.0)) by {
            if has_key(r, p.0) {
                let j = choose|j: int| 0 <= j < r.len() && r[j].0 == p.0;
                assert(r[j] == ps[init.len() - 1 - j]);
            }
        }
        lemma_put_capacity(r, p.0, p.1, cap);
        assert(seq![p] + r =~= ps.reverse());
    }
}

/// Asking in turn for keys that are all present returns, for each, the value
/// that the starting cache holds for it.
pub proof fn lemma_get_all_results(s: Seq<(i64, i64)>, ks: Seq<i64>)
    requires
        distinct_keys(s),
    ensures
        distinct_keys(get_all(s, ks).0),
        get_all(s, ks).1.len() == ks.len(),
        forall|k: i64| #[trigger] get_result(get_all(s, ks).0, k) == get_result(s, k),
        forall|j: int| 0 <= j < ks.len() ==> #[trigger] get_all(s, ks).1[j] == get_result(s, ks[j]),
    decreases ks.len(),
{
    if ks.len() > 0 {
        let init = ks.drop_last();
        lemma_get_all_results(s, init);
        let t = get_all(s, init).0;
        lemma_get_keeps_pairs(t, ks[ks.len() - 1]);
        assert forall|j: int| 0 <= j < ks.len() implies #[trigger] get_all(s, ks).1[j] == get_result(
            s,
            ks[j],
        ) by {
            if j < init.len() {
                assert(init[j] == ks[j]);
            }
        }
    }
}

/// Pairs with distinct keys, no more than the capacity, are put into an empty
/// cache; asking for their keys in the reverse of that order returns each
/// value once, and each `get` makes its key the most recently used.
pub proof fn lemma_order(ps: Seq<(i64, i64)>, cap: nat)
    requires
        distinct_keys(ps),
        ps.len() <= cap,
        0 < cap,
    ensures
        put_all(Seq::empty(), ps, cap)[0] == ps[ps.len() - 1] || ps.len() == 0,
        forall|j: int|
            0 <= j < ps.len() ==> #[trigger] get_all(
                put_all(Seq::empty(), ps, cap),
                keys_of(ps.reverse()),
            ).1[j] == Some(ps[ps.len() - 1 - j].1),
        forall|j: int|
            0 <= j < ps.len() ==> #[trigger] get_all(
                put_all(Seq::empty(), ps, cap),
                keys_of(ps.reverse()).take(j + 1),
            ).0[0] == ps[ps.len() - 1 - j],
{
    lemma_put_all_fills(ps, cap);
    let s = ps.reverse();
    let ks = keys_of(s);
    assert(distinct_keys(s)) by {
        assert forall|a: int, b: int| 0 <= a < s.len() && 0 <= b < s.len() && a != b implies s[a].0
            != s[b].0 by {
            assert(s[a] == ps[ps.len() - 1 - a]);
            assert(s[b] == ps[ps.len() - 1 - b]);
        }
    }
    lemma_get_all_results(s, ks);
    assert forall|j: int| 0 <= j < ps.len() implies #[trigger] get_all(s, ks).1[j] == Some(
        ps[ps.len() - 1 - j].1,
    ) by {
        lemma_key_index(s, ks[j], j);
    }
    assert forall|j: int| 0 <= j < ps.len() implies #[trigger] get_all(s, ks.take(j + 1)).0[0]
        == ps[ps.len() - 1 - j] by {
        let pre = ks.take(j + 1);
        assert(pre.drop_last() =~= ks.take(j));
        lemma_get_all_results(s, ks.take(j));
        let t = get_all(s, ks.take(j)).0;
        lemma_key_index(s, ks[j], j);
        assert(get_result(t, ks[j]) == Some(s[j].1));
        lemma_get_head(t, ks[j]);
    }
}

/// A freshly made cache has no pair: `get` finds nothing, whatever the key.
pub proof fn lemma_empty_get(k: i64)
    ensures
        get_result(Seq::<(i64, i64)>::empty(), k) is None,
        after_get(Seq::<(i64, i64)>::empty(), k) == Seq::<(i64, i64)>::empty(),
{
}

/// Why a cache could not be made.
#[derive(Debug, PartialEq, Eq, Structural)]
pub enum LruError {
    /// The capacity asked for was zero or negative.
    NonPositiveCapacity,
}

/// The key index agrees with the recency list: each listed entry is found
/// under its key, and each indexed key leads to a listed entry with that key.
pub open spec fn index_matches(lookup: Map<i64, usize>, list: RecencyList) -> bool {
    &&& forall|h: usize|
        #[trigger] list.order().contains(h) ==> lookup.contains_key(list.key_at(h)) && lookup[list.key_at(h)] == h
    &&& forall|k: i64|
        #[trigger] lookup.contains_key(k) ==> list.order().contains(lookup[k]) && list.key_at(lookup[k]) == k
}

proof fn lemma_index_moves(lookup: Map<i64, usize>, a: RecencyList, b: RecencyList)
    requires
        index_matches(lookup, a),
        forall|h: usize| #[trigger] b.order().contains(h) == a.order().contains(h),
        forall|h: usize| #[trigger] a.order().contains(h) ==> b.key_at(h) == a.key_at(h),
    ensures
        index_matches(lookup, b),
{
}

proof fn lemma_distinct(lookup: Map<i64, usize>, list: RecencyList)
    requires
        list.wf(),
        index_matches(lookup, list),
    ensures
        distinct_keys(list@),
        forall|k: i64| has_key(list@, k) <==> lookup.contains_key(k),
{
    list.lemma_view();
    list.lemma_wf();
    let o = list.order();
    assert forall|a: int, b: int| 0 <= a < o.len() && 0 <= b < o.len() && a != b implies list@[a].0
        != list@[b].0 by {
        assert(o.contains(o[a]));
        assert(o.contains(o[b]));
    }
    assert forall|k: i64| has_key(list@, k) <==> lookup.contains_key(k) by {
        if has_key(list@, k) {
            let i = choose|i: int| 0 <= i < list@.len() && list@[i].0 == k;
            assert(o.contains(o[i]));
        }
        if lookup.contains_key(k) {
            let i = choose|i: int| 0 <= i < o.len() && o[i] == lookup[k];
            assert(list@[i].0 == k);
        }
    }
}

/// A least-recently-used cache from `i64` keys to `i64` values.
pub struct LRU {
    list: RecencyList,
    lookup: HashMap<i64, usize>,
    capacity: u64,
    length: u64,
}

impl LRU {
    /// The pairs held, most recently used first.
    pub closed spec fn view(&self) -> Seq<(i64, i64)> {
        self.list@
    }

    /// The most entries the cache holds after any operation.
    pub closed spec fn cap(&self) -> nat {
        self.capacity as nat
    }

    pub closed spec fn inv(&self) -> bool {
        &&& self.list.wf()
        &&& index_matches(self.lookup@, self.list)
        &&& self.length == self.list.order().len()
        &&& 0 < self.capacity <= i64::MAX
        &&& self.length <= self.capacity
    }

    /// What every well-formed cache satisfies: it holds at most `cap()`
    /// pairs, no two with one key.
    pub proof fn lemma_inv(&self)
        requires
            self.inv(),
        ensures
            self@.len() <= self.cap(),
            0 < self.cap(),
            distinct_keys(self@),
    {
        self.list.lemma_view();
        lemma_distinct(self.lookup@, self.list);
    }

    /// A cache that holds at most `capacity` entries; a capacity of zero or
    /// less is refused.
    pub fn new(capacity: i64) -> (r: Result<LRU, LruError>)
        ensures
            r is Ok <==> capacity > 0,
            r matches Ok(c) ==> c.inv() && c@ == Seq::<(i64, i64)>::empty() && c.cap() == capacity,
            r matches Err(e) ==> e == LruError::NonPositiveCapacity,
    {
        if capacity <= 0 {
            return Err(LruError::NonPositiveCapacity);
        }
        let list = RecencyList::new();
        let c = LRU { list, lookup: HashMap::new(), capacity: capacity as u64, length: 0 };
        proof {
            c.list.lemma_view();
            assert(c@ =~= Seq::<(i64, i64)>::empty());
        }
        Ok(c)
    }

    /// The value of `key`, which becomes the most recently used entry; `None`,
    /// with nothing changed, when the key is absent.
    pub fn get(&mut self, key: i64) -> (r: Option<i64>)
        requires
            old(self).inv(),
        ensures
            final(self).inv(),
            final(self).cap() == old(self).cap(),
            r == get_result(old(self)@, key),
            final(self)@ == after_get(old(self)@, key),
    {
        proof {
            self.list.lemma_view();
            self.list.lemma_wf();
            lemma_distinct(self.lookup@, self.list);
        }
        let found = self.lookup.get(&key);
        match found {
            Some(hr) => {
                let h = *hr;
                let ghost o = self.list.order();
                let ghost i = choose|i: int| 0 <= i < o.len() && o[i] == h;
                proof {
                    assert(self@[i].0 == key);
                    assert(key_index(self@, key) == i);
                }
                self.promote(h, Ghost(i));
                let v = self.list.value_of(h);
                Some(v)
            },
            None => None,
        }
    }

    /// Stores `value` under `key` and makes it the most recently used entry.
    /// A present key has its value replaced; a new key that takes the cache
    /// over its capacity evicts the least recently used entry.
    pub fn put(&mut self, key: i64, value: i64)
        requires
            old(self).inv(),
        ensures
            final(self).inv(),
            final(self).cap() == old(self).cap(),
            final(self)@ == after_put(old(self)@, key, value, old(self).cap()),
    {
        proof {
            self.list.lemma_view();
            self.list.lemma_wf();
            lemma_distinct(self.lookup@, self.list);
        }
        let found = self.lookup.get(&key);
        match found {
            Some(hr) => {
                let h = *hr;
                let ghost o = self.list.order();
                let ghost s = self@;
                let ghost i = choose|i: int| 0 <= i < o.len() && o[i] == h;
                proof {
                    assert(s[i].0 == key);
                    assert(key_index(s, key) == i);
                    assert(o.contains(h));
                }
                self.list.set_value(h, value);
                proof {
                    self.list.lemma_view();
                    assert forall|g: usize| #[trigger] o.contains(g) implies self.list.key_at(g)
                        == old(self).list.key_at(g) by {
                        let j = choose|j: int| 0 <= j < o.len() && o[j] == g;
                        assert(old(self).list.in_use(o[j]));
                    }
                    lemma_index_moves(self.lookup@, old(self).list, self.list);
                    assert forall|j: int| 0 <= j < o.len() implies #[trigger] self@[j] == s.update(
                        i,
                        (key, value),
                    )[j] by {
                        assert(o.contains(o[j]));
                        assert(old(self).list.in_use(o[j]));
                    }
                    assert(self@ =~= s.update(i, (key, value)));
                }
                self.promote(h, Ghost(i));
                proof {
                    assert(self@ =~= seq![(key, value)] + s.remove(i));
                }
            },
            None => {
                let ghost s = self@;
                let ghost o = self.list.order();
                let h = self.list.allocate(key, value);
                let ghost mid = self.list;
                self.lookup.insert(key, h);
                self.list.prepend(h);
                self.length = self.length + 1;
                proof {
                    self.list.lemma_view();
                    let o2 = self.list.order();
                    assert forall|g: usize| #[trigger] o.contains(g) implies self.list.key_at(g)
                        == old(self).list.key_at(g) && self.list.value_at(g) == old(self).list.value_at(g)
                        && g != h by {
                        let j = choose|j: int| 0 <= j < o.len() && o[j] == g;
                        assert(old(self).list.in_use(o[j]));
                    }
                    assert forall|g: usize| #[trigger] o2.contains(g) implies g == h || o.contains(g) by {
                        let j = choose|j: int| 0 <= j < o2.len() && o2[j] == g;
                        if j > 0 {
                            assert(o[j - 1] == g);
                        }
                    }
                    assert forall|g: usize| #[trigger] o.contains(g) implies o2.contains(g) by {
                        let j = choose|j: int| 0 <= j < o.len() && o[j] == g;
                        assert(o2[j + 1] == g);
                    }
                    assert(o2[0] == h);
                    assert(o2.contains(h));
                    assert forall|g: usize| #[trigger] o2.contains(g) implies self.lookup@.contains_key(
                        self.list.key_at(g),
                    ) && self.lookup@[self.list.key_at(g)] == g by {
                        if g != h {
                            assert(o.contains(g));
                            assert(old(self).list.key_at(g) != key) by {
                                let j = choose|j: int| 0 <= j < o.len() && o[j] == g;
                                assert(s[j].0 == old(self).list.key_at(g));
                            }
                        }
                    }
                    assert forall|k: i64| #[trigger] self.lookup@.contains_key(k) implies o2.contains(
                        self.lookup@[k],
                    ) && self.list.key_at(self.lookup@[k]) == k by {
                        if k != key {
                            assert(old(self).lookup@.contains_key(k));
                            assert(o.contains(old(self).lookup@[k]));
                        }
                    }
                    let t = seq![(key, value)] + s;
                    assert forall|j: int| 0 <= j < t.len() implies #[trigger] self@[j] == t[j] by {
                        if j > 0 {
                            assert(o2[j] == o[j - 1]);
                            assert(o.contains(o[j - 1]));
                        }
                    }
                    assert(self@ =~= t);
                }
                self.trim_cache();
            },
        }
    }

    /// Evicts the least recently used entry while the cache holds one entry
    /// more than its capacity: out of the key index, then out of the list.
    fn trim_cache(&mut self)
        requires
            old(self).list.wf(),
            index_matches(old(self).lookup@, old(self).list),
            old(self).length == old(self).list.order().len(),
            0 < old(self).capacity <= i64::MAX,
            old(self).length <= old(self).capacity + 1,
        ensures
            final(self).inv(),
            final(self).cap() == old(self).cap(),
            final(self)@ == (if old(self)@.len() > old(self).cap() {
                old(self)@.drop_last()
            } else {
                old(self)@
            }),
    {
        proof {
            self.list.lemma_view();
            self.list.lemma_wf();
        }
        if self.length > self.capacity {
            let ghost o = self.list.order();
            let ghost s = self@;
            let ghost n = o.len();
            if let Some(t) = self.list.tail() {
                let k = self.list.key_of(t);
                self.lookup.remove(&k);
                self.list.detach(t, Ghost(n - 1));
                let ghost mid = self.list;
                self.list.release(t);
                self.length = self.length - 1;
                proof {
                    self.list.lemma_view();
                    let o2 = self.list.order();
                    assert(o2 =~= o.drop_last());
                    assert(o.contains(t));
                    assert forall|g: usize| #[trigger] o.contains(g) implies self.list.key_at(g)
                        == old(self).list.key_at(g) && self.list.value_at(g) == old(self).list.value_at(g) by {
                        let j = choose|j: int| 0 <= j < o.len() && o[j] == g;
                        assert(old(self).list.in_use(o[j]));
                    }
                    assert forall|g: usize| #[trigger] o2.contains(g) implies o.contains(g) && g != t by {
                        let j = choose|j: int| 0 <= j < o2.len() && o2[j] == g;
                        assert(o[j] == g);
                    }
                    assert forall|k2: i64| #[trigger] self.lookup@.contains_key(k2) implies o2.contains(
                        self.lookup@[k2],
                    ) && self.list.key_at(self.lookup@[k2]) == k2 by {
                        let g = self.lookup@[k2];
                        assert(old(self).lookup@.contains_key(k2));
                        assert(o.contains(g));
                        let j = choose|j: int| 0 <= j < o.len() && o[j] == g;
                        assert(j != n - 1);
                        assert(o2[j] == g);
                    }
                    let d = s.drop_last();
                    assert forall|j: int| 0 <= j < d.len() implies #[trigger] self@[j] == d[j] by {
                        assert(o.contains(o[j]));
                    }
                    assert(self@ =~= d);
                }
            }
        }
    }

    /// The number of entries held.
    pub fn len(&self) -> (r: u64)
        requires
            self.inv(),
        ensures
            r == self@.len(),
    {
        proof {
            self.list.lemma_view();
        }
        self.length
    }

    /// The most entries the cache holds.
    pub fn capacity(&self) -> (r: u64)
        requires
            self.inv(),
        ensures
            r == self.cap(),
    {
        self.capacity
    }

    /// The value of the most recently used entry.
    pub fn head_value(&self) -> (r: Option<i64>)
        requires
            self.inv(),
        ensures
            r == (if self@.len() == 0 { None } else { Some(self@[0].1) }),
    {
        proof {
            self.list.lemma_view();
            self.list.lemma_wf();
        }
        match self.list.head() {
            Some(h) => Some(self.list.value_of(h)),
            None => None,
        }
    }

    /// The value of the least recently used entry, the next to be evicted.
    pub fn tail_value(&self) -> (r: Option<i64>)
        requires
            self.inv(),
        ensures
            r == (if self@.len() == 0 { None } else { Some(self@[self@.len() - 1].1) }),
    {
        proof {
            self.list.lemma_view();
            self.list.lemma_wf();
        }
        match self.list.tail() {
            Some(h) => Some(self.list.value_of(h)),
            None => None,
        }
    }

    /// The pairs (key, value) held, read by following the links from the
    /// most recently used entry to the least recently used one.
    pub fn entries(&self) -> (r: Vec<(i64, i64)>)
        requires
            self.inv(),
        ensures
            r@ == self@,
    {
        proof {
            self.list.lemma_view();
            self.list.lemma_wf();
        }
        let ghost o = self.list.order();
        let mut out: Vec<(i64, i64)> = Vec::new();
        let mut cur = self.list.head();
        while cur.is_some()
            invariant
                self.inv(),
                o == self.list.order(),
                self@.len() == o.len(),
                out@.len() <= o.len(),
                out@ == self@.subrange(0, out@.len() as int),
                cur == (if out@.len() == o.len() { None } else { Some(o[out@.len() as int]) }),
                forall|i: int| 0 <= i < o.len() ==> #[trigger] self.list.in_use(o[i]),
                forall|i: int|
                    0 <= i < o.len() ==> #[trigger] self@[i] == (
                        self.list.key_at(o[i]),
                        self.list.value_at(o[i]),
                    ),
            decreases o.len() - out@.len(),
        {
            let h = cur.unwrap();
            let ghost i = out@.len() as int;
            out.push((self.list.key_of(h), self.list.value_of(h)));
            cur = self.list.next_of(h, Ghost(i));
            proof {
                assert(out@ =~= self@.subrange(0, out@.len() as int));
            }
        }
        proof {
            assert(out@ =~= self@);
        }
        out
    }

    /// Moves the entry `h`, at position `i`, to the front.
    fn promote(&mut self, h: usize, Ghost(i): Ghost<int>)
        requires
            old(self).inv(),
            0 <= i < old(self).list.order().len(),
            old(self).list.order()[i] == h,
        ensures
            final(self).inv(),
            final(self).cap() == old(self).cap(),
            final(self)@ == seq![old(self)@[i]] + old(self)@.remove(i),
            final(self).list.in_use(h),
            final(self).list.value_at(h) == old(self)@[i].1,
    {
        let ghost o = self.list.order();
        let ghost s = self@;
        proof {
            self.list.lemma_view();
            self.list.lemma_wf();
        }
        self.list.detach(h, Ghost(i));
        let ghost mid = self.list;
        self.list.prepend(h);
        proof {
            assert forall|g: usize| #[trigger] o.contains(g) implies self.list.key_at(g)
                == old(self).list.key_at(g) && self.list.value_at(g) == old(self).list.value_at(g) by {
                let j = choose|j: int| 0 <= j < o.len() && o[j] == g;
                assert(old(self).list.in_use(o[j]));
                assert(mid.in_use(g));
            }
            self.list.lemma_view();
            let o2 = self.list.order();
            assert(o2 == seq![h] + o.remove(i));
            assert forall|g: usize| #[trigger] o2.contains(g) == o.contains(g) by {
                if o.contains(g) {
                    let j = choose|j: int| 0 <= j < o.len() && o[j] == g;
                    if j < i {
                        assert(o2[j + 1] == g);
                    } else if j > i {
                        assert(o2[j] == g);
                    } else {
                        assert(o2[0] == g);
                    }
                }
            }
            lemma_index_moves(self.lookup@, old(self).list, self.list);
            let t = seq![s[i]] + s.remove(i);
            assert forall|j: int| 0 <= j < t.len() implies #[trigger] self@[j] == t[j] by {
                if j == 0 {
                    assert(o.contains(o[i]));
                } else if j - 1 < i {
                    assert(o2[j] == o[j - 1]);
                    assert(o.contains(o[j - 1]));
                } else {
                    assert(o2[j] == o[j]);
                    assert(o.contains(o[j]));
                }
            }
            assert(self@ =~= t);
            assert(o.contains(o[i]));
            assert(mid.in_use(h));
        }
    }
}

} // verus!
