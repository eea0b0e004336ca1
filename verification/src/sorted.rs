//! A map kept as a sorted sequence.

use vstd::prelude::*;

use crate::order::OrderedKey;
use crate::rope::Rope;

verus! {

/// A map whose entries stand in ascending order of their keys.
pub struct SortedMap<K: OrderedKey, V> {
    items: Rope<(K, V)>,
}

/// Each key comes before the next.
pub open spec fn ascending<K: OrderedKey, V>(s: Seq<(K::Model, V)>) -> bool {
    forall|i: int, j: int|
        0 <= i < j < s.len() ==> K::before((#[trigger] s[i]).0, (#[trigger] s[j]).0)
}

/// The map that the entries make up.
pub open spec fn map_of<M, V>(s: Seq<(M, V)>) -> Map<M, V> {
    Map::new(
        |k: M| exists|i: int| 0 <= i < s.len() && (#[trigger] s[i]).0 == k,
        |k: M| s[choose|i: int| 0 <= i < s.len() && (#[trigger] s[i]).0 == k].1,
    )
}

/// Maps that hold the same under every key are equal.
proof fn lemma_maps_equal<M, V>(a: Map<M, V>, b: Map<M, V>)
    requires
        forall|k: M|
            #![trigger a.contains_key(k)]
            a.contains_key(k) == b.contains_key(k) && (a.contains_key(k) ==> a[k] == b[k]),
    ensures
        a == b,
{
    assert forall|k: M| a.dom().contains(k) == b.dom().contains(k) by {
        assert(a.contains_key(k) == b.contains_key(k));
    }
    assert(a =~= b);
}

/// An entry of an ascending sequence is what the map holds under its key.
pub proof fn lemma_map_of_entry<K: OrderedKey, V>(s: Seq<(K::Model, V)>, i: int)
    requires
        ascending::<K, V>(s),
        0 <= i < s.len(),
    ensures
        map_of(s).contains_key(s[i].0),
        map_of(s)[s[i].0] == s[i].1,
{
    let k = s[i].0;
    let j = choose|j: int| 0 <= j < s.len() && (#[trigger] s[j]).0 == k;
    if j != i {
        K::irreflexive(k);
        if j < i {
            assert(K::before(s[j].0, s[i].0));
        } else {
            assert(K::before(s[i].0, s[j].0));
        }
    }
}

/// A key that the map holds has an entry.
pub proof fn lemma_map_of_key<M, V>(s: Seq<(M, V)>, k: M) -> (i: int)
    requires
        map_of(s).contains_key(k),
    ensures
        0 <= i < s.len(),
        s[i].0 == k,
        map_of(s)[k] == s[i].1,
{
    choose|i: int| 0 <= i < s.len() && (#[trigger] s[i]).0 == k
}

/// The first of the ascending entries comes before every other key of the
/// map.
proof fn lemma_first_is_least<K: OrderedKey, V>(s: Seq<(K::Model, V)>, k: K::Model)
    requires
        ascending::<K, V>(s),
        map_of(s).contains_key(k),
        k != s[0].0,
    ensures
        K::before(s[0].0, k),
{
    let i = lemma_map_of_key(s, k);
    assert(K::before(s[0].0, s[i].0));
}

/// Without its first entry an ascending sequence makes up the map without
/// that key.
proof fn lemma_map_of_rest<K: OrderedKey, V>(s: Seq<(K::Model, V)>)
    requires
        ascending::<K, V>(s),
        s.len() > 0,
    ensures
        ascending::<K, V>(s.drop_first()),
        map_of(s.drop_first()) == map_of(s).remove(s[0].0),
{
    let rest = s.drop_first();
    assert forall|i: int, j: int| 0 <= i < j < rest.len() implies K::before(
        (#[trigger] rest[i]).0,
        (#[trigger] rest[j]).0,
    ) by {
        assert(K::before(s[i + 1].0, s[j + 1].0));
    }
    assert forall|k: K::Model|
        #![trigger map_of(rest).contains_key(k)]
        map_of(rest).contains_key(k) == map_of(s).remove(s[0].0).contains_key(k) && (map_of(
            rest,
        ).contains_key(k) ==> map_of(rest)[k] == map_of(s).remove(s[0].0)[k]) by {
        if map_of(rest).contains_key(k) {
            let i = lemma_map_of_key(rest, k);
            lemma_map_of_entry::<K, V>(s, i + 1);
            assert(K::before(s[0].0, s[i + 1].0));
            K::irreflexive(k);
        }
        if map_of(s).contains_key(k) && k != s[0].0 {
            let i = lemma_map_of_key(s, k);
            assert(rest[i - 1].0 == k);
        }
    }
    lemma_maps_equal(map_of(rest), map_of(s).remove(s[0].0));
}

/// An entry at the end adds itself to the map.
pub proof fn lemma_map_of_push<K: OrderedKey, V>(s: Seq<(K::Model, V)>, e: (K::Model, V))
    requires
        ascending::<K, V>(s.push(e)),
    ensures
        ascending::<K, V>(s),
        !map_of(s).contains_key(e.0),
        map_of(s.push(e)) == map_of(s).insert(e.0, e.1),
{
    let t = s.push(e);
    assert forall|i: int, j: int| 0 <= i < j < s.len() implies K::before(
        (#[trigger] s[i]).0,
        (#[trigger] s[j]).0,
    ) by {
        assert(K::before(t[i].0, t[j].0));
    }
    if map_of(s).contains_key(e.0) {
        let i = lemma_map_of_key(s, e.0);
        assert(K::before(t[i].0, t[s.len() as int].0));
        K::irreflexive(e.0);
    }
    assert forall|k: K::Model|
        #![trigger map_of(t).contains_key(k)]
        map_of(t).contains_key(k) == map_of(s).insert(e.0, e.1).contains_key(k) && (map_of(
            t,
        ).contains_key(k) ==> map_of(t)[k] == map_of(s).insert(e.0, e.1)[k]) by {
        if map_of(t).contains_key(k) {
            let i = lemma_map_of_key(t, k);
            if i < s.len() {
                lemma_map_of_entry::<K, V>(s, i);
                assert(s[i] == t[i]);
            }
        } else if map_of(s).contains_key(k) {
            let i = lemma_map_of_key(s, k);
            assert(t[i].0 == k);
        } else {
            assert(t[s.len() as int].0 == e.0);
        }
    }
    lemma_maps_equal(map_of(t), map_of(s).insert(e.0, e.1));
}

/// An entry at its place adds itself to the map.
pub proof fn lemma_map_of_insert<K: OrderedKey, V>(s: Seq<(K::Model, V)>, p: int, k: K::Model, v: V)
    requires
        ascending::<K, V>(s),
        0 <= p <= s.len(),
        forall|i: int| 0 <= i < p ==> K::before((#[trigger] s[i]).0, k),
        forall|i: int| p <= i < s.len() ==> K::before(k, (#[trigger] s[i]).0),
    ensures
        ascending::<K, V>(s.insert(p, (k, v))),
        map_of(s.insert(p, (k, v))) == map_of(s).insert(k, v),
{
    let t = s.insert(p, (k, v));
    assert forall|i: int, j: int| 0 <= i < j < t.len() implies K::before(
        (#[trigger] t[i]).0,
        (#[trigger] t[j]).0,
    ) by {
        if i < p && j > p {
            assert(K::before(s[i].0, s[j - 1].0));
        } else if i > p {
            assert(K::before(s[i - 1].0, s[j - 1].0));
        } else if j < p {
            assert(K::before(s[i].0, s[j].0));
        } else if i == p {
            assert(t[j] == s[j - 1]);
        } else {
            assert(t[i] == s[i]);
        }
    }
    assert forall|q: K::Model|
        #![trigger map_of(t).contains_key(q)]
        map_of(t).contains_key(q) == map_of(s).insert(k, v).contains_key(q) && (map_of(
            t,
        ).contains_key(q) ==> map_of(t)[q] == map_of(s).insert(k, v)[q]) by {
        if map_of(t).contains_key(q) {
            let i = lemma_map_of_key(t, q);
            lemma_map_of_entry::<K, V>(t, i);
            if i != p {
                let b = if i < p {
                    i
                } else {
                    i - 1
                };
                assert(t[i] == s[b]);
                lemma_map_of_entry::<K, V>(s, b);
                K::irreflexive(k);
            }
        } else if map_of(s).contains_key(q) {
            let b = lemma_map_of_key(s, q);
            assert(t[if b < p {
                b
            } else {
                b + 1
            }].0 == q);
        } else {
            assert(t[p].0 == k);
        }
    }
    lemma_maps_equal(map_of(t), map_of(s).insert(k, v));
}

/// Where `k` belongs among ascending entries that do not have it.
pub proof fn lemma_place_for<K: OrderedKey, V>(s: Seq<(K::Model, V)>, k: K::Model) -> (p: int)
    requires
        ascending::<K, V>(s),
        !map_of(s).contains_key(k),
    ensures
        0 <= p <= s.len(),
        forall|i: int| 0 <= i < p ==> K::before((#[trigger] s[i]).0, k),
        forall|i: int| p <= i < s.len() ==> K::before(k, (#[trigger] s[i]).0),
    decreases s.len(),
{
    if s.len() == 0 {
        0
    } else {
        lemma_map_of_entry::<K, V>(s, 0);
        K::total(k, s[0].0);
        if K::before(k, s[0].0) {
            assert forall|i: int| 0 <= i < s.len() implies K::before(k, (#[trigger] s[i]).0) by {
                if i > 0 {
                    K::transitive(k, s[0].0, s[i].0);
                }
            }
            0
        } else {
            lemma_map_of_rest::<K, V>(s);
            let p = lemma_place_for::<K, V>(s.drop_first(), k);
            assert forall|i: int| 0 <= i < p + 1 implies K::before((#[trigger] s[i]).0, k) by {
                if i > 0 {
                    assert(s.drop_first()[i - 1] == s[i]);
                }
            }
            assert forall|i: int| p + 1 <= i < s.len() implies K::before(
                k,
                (#[trigger] s[i]).0,
            ) by {
                assert(s.drop_first()[i - 1] == s[i]);
            }
            p + 1
        }
    }
}

/// The entries of a finite map can be listed in ascending order.
pub proof fn lemma_finite_map_has_entries<K: OrderedKey, V>(m: Map<K::Model, V>)
    requires
        m.dom().finite(),
    ensures
        exists|s: Seq<(K::Model, V)>| #[trigger] ascending::<K, V>(s) && map_of(s) == m,
    decreases m.dom().len(),
{
    if m.dom().len() == 0 {
        let s = Seq::<(K::Model, V)>::empty();
        assert(m.dom() =~= Set::empty());
        assert(map_of(s) =~= m);
        assert(ascending::<K, V>(s));
    } else {
        let k = m.dom().choose();
        let rest = m.remove(k);
        assert(rest.dom() =~= m.dom().remove(k));
        lemma_finite_map_has_entries::<K, V>(rest);
        let s = choose|s: Seq<(K::Model, V)>| #[trigger] ascending::<K, V>(s) && map_of(s) == rest;
        let p = lemma_place_for::<K, V>(s, k);
        lemma_map_of_insert::<K, V>(s, p, k, m[k]);
        assert(rest.insert(k, m[k]) =~= m);
        assert(ascending::<K, V>(s.insert(p, (k, m[k]))));
    }
}

/// A map has only one ascending sequence of entries.
pub proof fn lemma_entries_unique<K: OrderedKey, V>(a: Seq<(K::Model, V)>, b: Seq<(K::Model, V)>)
    requires
        ascending::<K, V>(a),
        ascending::<K, V>(b),
        map_of(a) == map_of(b),
    ensures
        a == b,
    decreases a.len(),
{
    if a.len() == 0 {
        if b.len() > 0 {
            lemma_map_of_entry::<K, V>(b, 0);
            let i = lemma_map_of_key(a, b[0].0);
        }
        assert(a =~= b);
    } else {
        lemma_map_of_entry::<K, V>(a, 0);
        let i = lemma_map_of_key(b, a[0].0);
        lemma_map_of_entry::<K, V>(b, 0);
        if a[0].0 != b[0].0 {
            lemma_first_is_least::<K, V>(a, b[0].0);
            lemma_first_is_least::<K, V>(b, a[0].0);
            K::transitive(a[0].0, b[0].0, a[0].0);
            K::irreflexive(a[0].0);
        }
        lemma_map_of_rest::<K, V>(a);
        lemma_map_of_rest::<K, V>(b);
        lemma_entries_unique::<K, V>(a.drop_first(), b.drop_first());
        assert(a =~= seq![a[0]] + a.drop_first());
        assert(b =~= seq![b[0]] + b.drop_first());
    }
}

/// The entries of a map in ascending order.
pub open spec fn entries_of<K: OrderedKey, V>(m: Map<K::Model, V>) -> Seq<(K::Model, V)> {
    choose|s: Seq<(K::Model, V)>| #[trigger] ascending::<K, V>(s) && map_of(s) == m
}

impl<K: OrderedKey, V> View for SortedMap<K, V> {
    type V = Map<K::Model, V>;

    open spec fn view(&self) -> Map<K::Model, V> {
        map_of(self.entries())
    }
}

impl<K: OrderedKey, V> SortedMap<K, V> {
    /// The entries from the first key to the last.
    pub closed spec fn entries(&self) -> Seq<(K::Model, V)> {
        Seq::new(self.items@.len(), |i: int| (self.items@[i].0.model(), self.items@[i].1))
    }

    #[verifier::type_invariant]
    spec fn sorted(&self) -> bool {
        ascending::<K, V>(self.entries())
    }

    /// There are finitely many keys, and no more than entries.
    pub proof fn lemma_finite(&self)
        ensures
            self@.dom().finite(),
            self@.dom().len() <= self.entries().len(),
    {
        let keys = Seq::new(self.entries().len(), |i: int| self.entries()[i].0);
        vstd::seq_lib::seq_to_set_is_finite(keys);
        assert forall|k: K::Model| self@.dom().contains(k) implies keys.to_set().contains(k) by {
            let i = lemma_map_of_key(self.entries(), k);
            assert(keys[i] == k);
        }
        vstd::set_lib::lemma_set_subset_finite(keys.to_set(), self@.dom());
        vstd::set_lib::lemma_len_subset(self@.dom(), keys.to_set());
        keys.lemma_cardinality_of_set();
    }

    pub fn new() -> (m: SortedMap<K, V>)
        ensures
            m@ == Map::<K::Model, V>::empty(),
            m.entries() == Seq::<(K::Model, V)>::empty(),
    {
        let m = SortedMap { items: Rope::new() };
        assert(m.entries() =~= Seq::empty());
        assert(m@ =~= Map::empty());
        m
    }

    /// The number of entries.
    pub fn len(&self) -> (n: usize)
        ensures
            n == self.entries().len(),
            ascending::<K, V>(self.entries()),
            self.entries() == entries_of::<K, V>(self@),
    {
        proof {
            use_type_invariant(self);
            lemma_entries_unique::<K, V>(self.entries(), entries_of::<K, V>(self@));
        }
        self.items.len()
    }

    /// The entry at position `i`.
    pub fn entry(&self, i: usize) -> (e: (&K, &V))
        requires
            i < self.entries().len(),
        ensures
            self.entries()[i as int] == (e.0.model(), *e.1),
    {
        let e = self.items.get(i);
        (&e.0, &e.1)
    }

    /// The position of the first entry that does not come before `key`.
    pub fn position(&self, key: &K) -> (p: usize)
        ensures
            p <= self.entries().len(),
            forall|i: int| 0 <= i < p ==> K::before((#[trigger] self.entries()[i]).0, key.model()),
            forall|i: int|
                p <= i < self.entries().len() ==> !K::before(
                    (#[trigger] self.entries()[i]).0,
                    key.model(),
                ),
    {
        proof {
            use_type_invariant(self);
        }
        let mut lo: usize = 0;
        let mut hi: usize = self.items.len();
        while lo < hi
            invariant
                lo <= hi <= self.items@.len(),
                self.entries().len() == self.items@.len(),
                ascending::<K, V>(self.entries()),
                forall|i: int|
                    0 <= i < lo ==> K::before((#[trigger] self.entries()[i]).0, key.model()),
                forall|i: int|
                    hi <= i < self.entries().len() ==> !K::before(
                        (#[trigger] self.entries()[i]).0,
                        key.model(),
                    ),
            decreases hi - lo,
        {
            let mid: usize = lo + (hi - lo) / 2;
            let ghost m = self.entries()[mid as int].0;
            if self.items.get(mid).0.precedes(key) {
                proof {
                    assert forall|i: int| 0 <= i < mid + 1 implies K::before(
                        (#[trigger] self.entries()[i]).0,
                        key.model(),
                    ) by {
                        if i < mid {
                            K::transitive(self.entries()[i].0, m, key.model());
                        }
                    }
                }
                lo = mid + 1;
            } else {
                proof {
                    assert forall|i: int| mid <= i < self.entries().len() implies !K::before(
                        (#[trigger] self.entries()[i]).0,
                        key.model(),
                    ) by {
                        if i > mid && K::before(self.entries()[i].0, key.model()) {
                            K::transitive(m, self.entries()[i].0, key.model());
                        }
                    }
                }
                hi = mid;
            }
        }
        lo
    }

    /// Whether the entry at position `p` has the key `key`, where `p` is the
    /// key's position.
    fn holds_at(&self, p: usize, key: &K) -> (r: bool)
        requires
            p <= self.entries().len(),
            forall|i: int| 0 <= i < p ==> K::before((#[trigger] self.entries()[i]).0, key.model()),
            forall|i: int|
                p <= i < self.entries().len() ==> !K::before(
                    (#[trigger] self.entries()[i]).0,
                    key.model(),
                ),
        ensures
            r == (p < self.entries().len() && self.entries()[p as int].0 == key.model()),
            r == self@.contains_key(key.model()),
            r ==> self@[key.model()] == self.entries()[p as int].1,
            !r ==> forall|i: int|
                p <= i < self.entries().len() ==> K::before(
                    key.model(),
                    (#[trigger] self.entries()[i]).0,
                ),
    {
        proof {
            use_type_invariant(self);
        }
        let ghost k = key.model();
        if p < self.items.len() && !key.precedes(&self.items.get(p).0) {
            proof {
                K::total(k, self.entries()[p as int].0);
                lemma_map_of_entry::<K, V>(self.entries(), p as int);
            }
            true
        } else {
            proof {
                if p < self.entries().len() {
                    K::irreflexive(k);
                }
                assert forall|i: int| p <= i < self.entries().len() implies K::before(
                    k,
                    (#[trigger] self.entries()[i]).0,
                ) by {
                    if i > p {
                        K::transitive(k, self.entries()[p as int].0, self.entries()[i].0);
                    }
                }
                if self@.contains_key(k) {
                    let i = lemma_map_of_key(self.entries(), k);
                    K::irreflexive(k);
                }
            }
            false
        }
    }

    /// The value under `key`.
    pub fn get(&self, key: &K) -> (v: Option<&V>)
        ensures
            match v {
                Some(x) => self@.contains_key(key.model()) && *x == self@[key.model()],
                None => !self@.contains_key(key.model()),
            },
    {
        let p: usize = self.position(key);
        if self.holds_at(p, key) {
            Some(&self.items.get(p).1)
        } else {
            None
        }
    }

    /// Whether there is a value under `key`.
    pub fn contains_key(&self, key: &K) -> (r: bool)
        ensures
            r == self@.contains_key(key.model()),
    {
        let p: usize = self.position(key);
        self.holds_at(p, key)
    }

    /// Puts `value` under `key`, in place of what was there.
    pub fn insert(&mut self, key: K, value: V)
        ensures
            final(self)@ == old(self)@.insert(key.model(), value),
            ascending::<K, V>(final(self).entries()),
            !old(self)@.contains_key(key.model()) ==> exists|p: int|
                0 <= p <= old(self).entries().len() && final(self).entries()
                    == #[trigger] old(self).entries().insert(p, (key.model(), value)),
    {
        proof {
            use_type_invariant(&*self);
        }
        let ghost k = key.model();
        let p: usize = self.position(&key);
        let found = self.holds_at(p, &key);
        let ghost before = self.entries();
        let mut items: Rope<(K, V)> = Rope::new();
        std::mem::swap(&mut items, &mut self.items);
        let ghost rest = if found {
            before.remove(p as int)
        } else {
            before
        };
        if found {
            items = items.remove(p).0;
        }
        items = items.insert(p, (key, value));
        let ghost after = rest.insert(p as int, (k, value));
        proof {
            let seen = Seq::new(items@.len(), |i: int| (items@[i].0.model(), items@[i].1));
            assert(seen =~= after);
            assert forall|i: int, j: int| 0 <= i < j < after.len() implies K::before(
                (#[trigger] after[i]).0,
                (#[trigger] after[j]).0,
            ) by {
                if found {
                    assert(i != p ==> after[i] == before[i]);
                    assert(j != p ==> after[j] == before[j]);
                    assert(K::before(before[i].0, before[j].0));
                } else {
                    if i < p && j > p {
                        assert(K::before(before[i].0, before[j - 1].0));
                    } else if i > p {
                        assert(K::before(before[i - 1].0, before[j - 1].0));
                    } else if j < p {
                        assert(K::before(before[i].0, before[j].0));
                    } else if i == p {
                        assert(after[j] == before[j - 1]);
                    } else {
                        assert(after[i] == before[i]);
                    }
                }
            }
            assert forall|q: K::Model|
                #![trigger map_of(after).contains_key(q)]
                map_of(after).contains_key(q) == map_of(before).insert(k, value).contains_key(q)
                    && (map_of(after).contains_key(q) ==> map_of(after)[q] == map_of(before).insert(
                    k,
                    value,
                )[q]) by {
                if map_of(after).contains_key(q) {
                    let i = lemma_map_of_key(after, q);
                    if i == p {
                        lemma_map_of_entry::<K, V>(after, i);
                    } else {
                        let b = if found || i < p {
                            i
                        } else {
                            i - 1
                        };
                        assert(after[i] == before[b]);
                        lemma_map_of_entry::<K, V>(before, b);
                        lemma_map_of_entry::<K, V>(after, i);
                        K::irreflexive(k);
                        if i < p {
                            assert(K::before(after[i].0, after[p as int].0));
                        } else {
                            assert(K::before(after[p as int].0, after[i].0));
                        }
                    }
                } else if map_of(before).contains_key(q) {
                    let b = lemma_map_of_key(before, q);
                    let i = if found || b < p {
                        b
                    } else {
                        b + 1
                    };
                    assert(i != p ==> after[i] == before[b]);
                    assert(after[i].0 == q);
                } else {
                    assert(after[p as int].0 == k);
                }
            }
            lemma_maps_equal(map_of(after), map_of(before).insert(k, value));
        }
        *self = SortedMap { items };
        assert(self.entries() =~= after);
    }

    /// Takes the value under `key` out.
    pub fn remove(&mut self, key: &K) -> (v: Option<V>)
        ensures
            final(self)@ == old(self)@.remove(key.model()),
            ascending::<K, V>(final(self).entries()),
            match v {
                Some(x) => old(self)@.contains_key(key.model()) && x == old(self)@[key.model()]
                    && exists|p: int|
                    0 <= p < old(self).entries().len() && old(self).entries()[p] == (
                        key.model(),
                        x,
                    ) && final(self).entries() == #[trigger] old(self).entries().remove(p),
                None => !old(self)@.contains_key(key.model()) && final(self).entries() == old(
                    self,
                ).entries(),
            },
    {
        proof {
            use_type_invariant(&*self);
        }
        let ghost k = key.model();
        let p: usize = self.position(key);
        let ghost before = self.entries();
        if !self.holds_at(p, key) {
            assert(self@ =~= old(self)@.remove(k));
            return None;
        }
        let mut items: Rope<(K, V)> = Rope::new();
        std::mem::swap(&mut items, &mut self.items);
        let (items, taken) = items.remove(p);
        let ghost after = before.remove(p as int);
        proof {
            let seen = Seq::new(items@.len(), |i: int| (items@[i].0.model(), items@[i].1));
            assert(seen =~= after);
            assert forall|i: int, j: int| 0 <= i < j < after.len() implies K::before(
                (#[trigger] after[i]).0,
                (#[trigger] after[j]).0,
            ) by {
                let bi = if i < p {
                    i
                } else {
                    i + 1
                };
                let bj = if j < p {
                    j
                } else {
                    j + 1
                };
                assert(K::before(before[bi].0, before[bj].0));
            }
            assert forall|q: K::Model|
                #![trigger map_of(after).contains_key(q)]
                map_of(after).contains_key(q) == map_of(before).remove(k).contains_key(q) && (
                map_of(after).contains_key(q) ==> map_of(after)[q] == map_of(before).remove(k)[q]) by {
                if map_of(after).contains_key(q) {
                    let i = lemma_map_of_key(after, q);
                    let b = if i < p {
                        i
                    } else {
                        i + 1
                    };
                    assert(after[i] == before[b]);
                    lemma_map_of_entry::<K, V>(before, b);
                    K::irreflexive(k);
                    if b < p {
                        assert(K::before(before[b].0, before[p as int].0));
                    } else {
                        assert(K::before(before[p as int].0, before[b].0));
                    }
                } else if map_of(before).contains_key(q) && q != k {
                    let b = lemma_map_of_key(before, q);
                    let i = if b < p {
                        b
                    } else {
                        b - 1
                    };
                    assert(after[i].0 == q);
                }
            }
            lemma_maps_equal(map_of(after), map_of(before).remove(k));
        }
        *self = SortedMap { items };
        assert(self.entries() =~= after);
        match taken {
            Some(e) => Some(e.1),
            None => None,
        }
    }
}

} // verus!
