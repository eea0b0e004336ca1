//! Ranking by score.

use vstd::prelude::*;

use crate::order::OrderedKey;
use crate::sorted::{ascending, lemma_map_of_entry, SortedMap};

verus! {

/// A number whose order is that of the scores: `bits` is the bit pattern of an
/// IEEE 754 double, the sign before the magnitude. The two zeros are equal.
pub open spec fn score_order(bits: u64) -> int {
    if bits < 0x8000_0000_0000_0000 {
        bits as int
    } else {
        0x8000_0000_0000_0000 - bits
    }
}

/// The order of a score.
pub fn score_key(bits: u64) -> (k: i64)
    ensures
        k == score_order(bits),
{
    if bits < 0x8000_0000_0000_0000 {
        bits as i64
    } else {
        -((bits - 0x8000_0000_0000_0000) as i64)
    }
}

/// `p` lists the positions of `keys` from the highest key to the lowest; equal
/// keys keep their order.
pub open spec fn is_ranking(keys: Seq<i64>, p: Seq<usize>) -> bool {
    &&& p.len() == keys.len()
    &&& forall|i: int| 0 <= i < p.len() ==> (#[trigger] p[i]) < keys.len()
    &&& forall|i: int, j: int|
        0 <= i < j < p.len() ==> ranked_before(keys, #[trigger] p[i], #[trigger] p[j])
}

/// Position `a` ranks before position `b`.
pub open spec fn ranked_before(keys: Seq<i64>, a: usize, b: usize) -> bool {
    keys[a as int] > keys[b as int] || (keys[a as int] == keys[b as int] && a < b)
}

/// A position with its key.
pub struct Place {
    pub key: i64,
    pub at: usize,
}

impl OrderedKey for Place {
    type Model = (i64, usize);

    open spec fn model(self) -> (i64, usize) {
        (self.key, self.at)
    }

    open spec fn before(a: (i64, usize), b: (i64, usize)) -> bool {
        a.0 > b.0 || (a.0 == b.0 && a.1 < b.1)
    }

    proof fn irreflexive(a: (i64, usize)) {
    }

    proof fn transitive(a: (i64, usize), b: (i64, usize), c: (i64, usize)) {
    }

    proof fn total(a: (i64, usize), b: (i64, usize)) {
    }

    fn precedes(&self, other: &Place) -> (r: bool) {
        self.key > other.key || (self.key == other.key && self.at < other.at)
    }
}

/// The positions of `keys` from the highest key to the lowest; equal keys keep
/// their order.
pub fn rank(keys: &Vec<i64>) -> (p: Vec<usize>)
    ensures
        is_ranking(keys@, p@),
{
    let mut places: SortedMap<Place, ()> = SortedMap::new();
    let mut i: usize = 0;
    while i < keys.len()
        invariant
            i <= keys@.len(),
            ascending::<Place, ()>(places.entries()),
            places.entries().len() == i,
            forall|k: (i64, usize)| #[trigger]
                places@.contains_key(k) ==> k.1 < i && k.0 == keys@[k.1 as int],
        decreases keys@.len() - i,
    {
        let ghost before = places.entries();
        places.insert(Place { key: keys[i], at: i }, ());
        proof {
            let k = (keys@[i as int], i);
            let p = choose|p: int|
                0 <= p <= before.len() && places.entries() == #[trigger] before.insert(p, (k, ()));
        }
        i = i + 1;
    }
    let n: usize = places.len();
    let ghost all = places.entries();
    let mut p: Vec<usize> = Vec::new();
    let mut j: usize = 0;
    while j < n
        invariant
            n == all.len(),
            n == keys@.len(),
            all == places.entries(),
            ascending::<Place, ()>(all),
            j == p@.len(),
            j <= n,
            forall|k: (i64, usize)| #[trigger]
                places@.contains_key(k) ==> k.1 < n && k.0 == keys@[k.1 as int],
            forall|x: int| 0 <= x < j ==> (#[trigger] p@[x]) == all[x].0.1,
        decreases n - j,
    {
        p.push(places.entry(j).0.at);
        j = j + 1;
    }
    proof {
        assert forall|x: int| 0 <= x < p@.len() implies (#[trigger] p@[x]) < keys@.len()
            && keys@[p@[x] as int] == all[x].0.0 by {
            lemma_map_of_entry::<Place, ()>(all, x);
            assert(places@.contains_key(all[x].0));
        }
        assert forall|x: int, y: int| 0 <= x < y < p@.len() implies ranked_before(
            keys@,
            #[trigger] p@[x],
            #[trigger] p@[y],
        ) by {
            assert(Place::before(all[x].0, all[y].0));
        }
    }
    p
}

/// There is only one ranking.
pub proof fn law_ranking_is_unique(keys: Seq<i64>, p: Seq<usize>, q: Seq<usize>)
    requires
        is_ranking(keys, p),
        is_ranking(keys, q),
        keys.len() <= usize::MAX,
    ensures
        p == q,
{
    let n = keys.len() as int;
    assert forall|x: usize| x < n implies p.contains(x) by {
        lemma_ranking_covers(keys, p, x);
    }
    assert forall|x: usize| x < n implies q.contains(x) by {
        lemma_ranking_covers(keys, q, x);
    }
    lemma_rankings_agree(keys, p, q, n);
    assert(p =~= q);
}

/// Every position is ranked.
pub proof fn lemma_ranking_covers(keys: Seq<i64>, p: Seq<usize>, x: usize)
    requires
        is_ranking(keys, p),
        x < keys.len() <= usize::MAX,
    ensures
        p.contains(x),
{
    assert(p.no_duplicates()) by {
        assert forall|i: int, j: int| 0 <= i < p.len() && 0 <= j < p.len() && i != j implies p[i]
            != p[j] by {
            if i < j {
                assert(ranked_before(keys, p[i], p[j]));
            } else {
                assert(ranked_before(keys, p[j], p[i]));
            }
        }
    }
    p.unique_seq_to_set();
    let all = Set::new(|y: usize| y < keys.len());
    lemma_positions_finite(keys.len());
    assert(p.to_set().subset_of(all));
    vstd::seq_lib::seq_to_set_is_finite(p);
    vstd::set_lib::lemma_subset_equality(p.to_set(), all);
    assert(all.contains(x));
}

proof fn lemma_positions_finite(n: nat)
    requires
        n <= usize::MAX,
    ensures
        Set::new(|y: usize| y < n).finite(),
        Set::new(|y: usize| y < n).len() == n,
    decreases n,
{
    let s = Set::new(|y: usize| y < n);
    if n == 0 {
        assert(s =~= Set::empty());
    } else {
        let m = (n - 1) as nat;
        lemma_positions_finite(m);
        assert(s =~= Set::new(|y: usize| y < m).insert(m as usize));
    }
}

/// Two rankings agree on their first `n` places.
proof fn lemma_rankings_agree(keys: Seq<i64>, p: Seq<usize>, q: Seq<usize>, n: int)
    requires
        is_ranking(keys, p),
        is_ranking(keys, q),
        0 <= n <= keys.len(),
        forall|x: usize| x < keys.len() ==> #[trigger] p.contains(x),
        forall|x: usize| x < keys.len() ==> #[trigger] q.contains(x),
    ensures
        forall|i: int| 0 <= i < n ==> p[i] == q[i],
    decreases n,
{
    if n > 0 {
        lemma_rankings_agree(keys, p, q, n - 1);
        let i = n - 1;
        if p[i] != q[i] {
            assert(q.contains(p[i]) && p.contains(q[i]));
            let a = choose|a: int| 0 <= a < q.len() && q[a] == p[i];
            let b = choose|b: int| 0 <= b < p.len() && p[b] == q[i];
            // Both stand behind the places that agree.
            if a < i {
                assert(p[a] == q[a]);
                assert(ranked_before(keys, p[a], p[i]));
            }
            if b < i {
                assert(p[b] == q[b]);
                assert(ranked_before(keys, q[b], q[i]));
            }
            assert(ranked_before(keys, q[i], q[a]));
            assert(ranked_before(keys, p[i], p[b]));
        }
    }
}

} // verus!
