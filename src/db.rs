//! What a database decides for the transactions it starts: the order in
//! which a transaction takes the locks of its trees.
use vstd::prelude::*;
use crate::keys::{compare_keys, key_lt, lemma_key_lt_transitive};
use core::cmp::Ordering;

verus! {

/// Settings shared by a database's parts; none are needed yet.
pub struct Context {}

/// The names at the positions in `order` strictly increase.
pub open spec fn increasing_names(ns: Seq<Seq<u8>>, order: Seq<usize>) -> bool {
    forall|j: int, k: int|
        0 <= j < k < order.len() ==> key_lt(ns[#[trigger] order[j] as int], ns[#[trigger] order[k] as int])
}

/// Each of the first `n` names is at some position in `order`.
pub open spec fn covers(ns: Seq<Seq<u8>>, order: Seq<usize>, n: int) -> bool {
    forall|q: int| 0 <= q < n ==> has_name(ns, order, #[trigger] ns[q])
}

/// Some position in `order` holds the name `x`.
pub open spec fn has_name(ns: Seq<Seq<u8>>, order: Seq<usize>, x: Seq<u8>) -> bool {
    exists|j: int| 0 <= j < order.len() && ns[order[j] as int] == x
}

proof fn lemma_insert_in_order(ns: Seq<Seq<u8>>, before: Seq<usize>, p: int, i: usize)
    requires
        increasing_names(ns, before),
        0 <= p <= before.len(),
        forall|j: int| 0 <= j < before.len() ==> (#[trigger] before[j]) < ns.len(),
        i < ns.len(),
        forall|j: int| 0 <= j < p ==> key_lt(ns[#[trigger] before[j] as int], ns[i as int]),
        p < before.len() ==> key_lt(ns[i as int], ns[before[p] as int]),
    ensures
        increasing_names(ns, before.insert(p, i)),
{
    let after = before.insert(p, i);
    assert forall|j: int, k: int| 0 <= j < k < after.len() implies key_lt(
        ns[#[trigger] after[j] as int],
        ns[#[trigger] after[k] as int],
    ) by {
        if j < p && k > p {
            assert(after[j] == before[j] && after[k] == before[k - 1]);
            if k - 1 > p {
                assert(key_lt(ns[before[p] as int], ns[before[k - 1] as int]));
                lemma_key_lt_transitive(ns[i as int], ns[before[p] as int], ns[before[k - 1] as int]);
            }
            lemma_key_lt_transitive(ns[before[j] as int], ns[i as int], ns[before[k - 1] as int]);
        } else if j < p && k < p {
            assert(after[j] == before[j] && after[k] == before[k]);
        } else if j < p && k == p {
            assert(after[j] == before[j]);
        } else if j > p {
            assert(after[j] == before[j - 1] && after[k] == before[k - 1]);
        } else {
            assert(after[k] == before[k - 1]);
            if k - 1 > p {
                assert(key_lt(ns[before[p] as int], ns[before[k - 1] as int]));
                lemma_key_lt_transitive(ns[i as int], ns[before[p] as int], ns[before[k - 1] as int]);
            }
        }
    }
}

proof fn lemma_insert_covers(ns: Seq<Seq<u8>>, before: Seq<usize>, p: int, i: usize)
    requires
        covers(ns, before, i as int),
        0 <= p <= before.len(),
        i < ns.len(),
    ensures
        covers(ns, before.insert(p, i), i + 1),
{
    let after = before.insert(p, i);
    assert forall|q: int| 0 <= q < i + 1 implies has_name(ns, after, #[trigger] ns[q]) by {
        if q == i {
            assert(after[p] == i);
            assert(0 <= p < after.len() && ns[after[p] as int] == ns[q]);
        } else {
            assert(has_name(ns, before, ns[q]));
            let j = choose|j: int| 0 <= j < before.len() && ns[before[j] as int] == ns[q];
            if j < p {
                assert(after[j] == before[j]);
                assert(0 <= j < after.len() && ns[after[j] as int] == ns[q]);
            } else {
                assert(after[j + 1] == before[j]);
                assert(0 <= j + 1 < after.len() && ns[after[j + 1] as int] == ns[q]);
            }
        }
    }
}

proof fn lemma_repeat_covers(ns: Seq<Seq<u8>>, order: Seq<usize>, p: int, i: int)
    requires
        covers(ns, order, i),
        0 <= p < order.len(),
        ns[order[p] as int] == ns[i],
    ensures
        covers(ns, order, i + 1),
{
    assert forall|q: int| 0 <= q < i + 1 implies has_name(ns, order, #[trigger] ns[q]) by {
        if q == i {
            assert(0 <= p < order.len() && ns[order[p] as int] == ns[q]);
        }
    }
}

/// The positions of `names` in increasing name order, one per distinct name.
/// Every transaction takes its locks in this order, so no two transactions
/// can each wait for a lock the other holds.
pub fn lock_order(names: &Vec<Vec<u8>>) -> (r: Vec<usize>)
    ensures
        forall|j: int| 0 <= j < r@.len() ==> (#[trigger] r@[j]) < names@.len(),
        increasing_names(names@.map_values(|n: Vec<u8>| n@), r@),
        covers(names@.map_values(|n: Vec<u8>| n@), r@, names@.len() as int),
{
    let ghost ns = names@.map_values(|n: Vec<u8>| n@);
    let mut order: Vec<usize> = Vec::new();
    let mut i: usize = 0;
    while i < names.len()
        invariant
            i <= names@.len(),
            ns == names@.map_values(|n: Vec<u8>| n@),
            forall|j: int| 0 <= j < order@.len() ==> (#[trigger] order@[j]) < i,
            increasing_names(ns, order@),
            covers(ns, order@, i as int),
        decreases names@.len() - i,
    {
        let name = &names[i];
        let mut p: usize = 0;
        while p < order.len() && matches!(compare_keys(&names[order[p]], name), Ordering::Less)
            invariant
                i < names@.len(),
                ns == names@.map_values(|n: Vec<u8>| n@),
                name@ == ns[i as int],
                p <= order@.len(),
                forall|j: int| 0 <= j < order@.len() ==> (#[trigger] order@[j]) < i,
                forall|j: int| 0 <= j < p ==> key_lt(ns[#[trigger] order@[j] as int], ns[i as int]),
            decreases order@.len() - p,
        {
            p += 1;
        }
        let ghost before = order@;
        if p < order.len() && matches!(compare_keys(&names[order[p]], name), Ordering::Equal) {
            proof {
                lemma_repeat_covers(ns, before, p as int, i as int);
            }
        } else {
            order.insert(p, i);
            proof {
                lemma_insert_in_order(ns, before, p as int, i);
                lemma_insert_covers(ns, before, p as int, i);
            }
        }
        i += 1;
    }
    order
}

} // verus!
