//! Stable ordering of items by text keys.
use vstd::prelude::*;

use crate::text::{
    compare, lemma_lex_irreflexive, lemma_lex_total, lemma_lex_transitive, lex_le, lex_lt, Order,
};

verus! {

/// Where a new item with key `k` goes in `order`: before the first item whose key
/// is larger, so that items with equal keys keep their original order.
pub open spec fn insert_position(order: Seq<int>, keys: Seq<Seq<char>>, k: Seq<char>, j: int) -> int
    decreases order.len() - j,
{
    if j < 0 || j >= order.len() {
        order.len() as int
    } else if lex_lt(k, keys[order[j]]) {
        j
    } else {
        insert_position(order, keys, k, j + 1)
    }
}

/// The stable order of the first `n` keys: item indices from the smallest key to
/// the largest, equal keys in their original order.
pub open spec fn stable_order(keys: Seq<Seq<char>>, n: int) -> Seq<int>
    decreases n,
{
    if n <= 0 {
        seq![]
    } else {
        let o = stable_order(keys, n - 1);
        o.insert(insert_position(o, keys, keys[n - 1], 0), n - 1)
    }
}

pub open spec fn keys_view(keys: Seq<Vec<char>>) -> Seq<Seq<char>> {
    keys.map_values(|k: Vec<char>| k@)
}

pub proof fn lemma_insert_position_bounds(order: Seq<int>, keys: Seq<Seq<char>>, k: Seq<char>, j: int)
    requires
        0 <= j <= order.len(),
    ensures
        j <= insert_position(order, keys, k, j) <= order.len(),
    decreases order.len() - j,
{
    if j < order.len() && !lex_lt(k, keys[order[j]]) {
        lemma_insert_position_bounds(order, keys, k, j + 1);
    }
}

/// The stable order holds `n` indices, each below `n`.
pub proof fn lemma_stable_order_range(keys: Seq<Seq<char>>, n: int)
    requires
        0 <= n,
    ensures
        stable_order(keys, n).len() == n,
        forall|m: int| 0 <= m < n ==> 0 <= #[trigger] stable_order(keys, n)[m] < n,
    decreases n,
{
    if n > 0 {
        let o = stable_order(keys, n - 1);
        lemma_stable_order_range(keys, n - 1);
        let p = insert_position(o, keys, keys[n - 1], 0);
        lemma_insert_position_bounds(o, keys, keys[n - 1], 0);
        assert forall|m: int| 0 <= m < n implies 0 <= #[trigger] stable_order(keys, n)[m] < n by {
            if m < p {
                assert(stable_order(keys, n)[m] == o[m]);
            } else if m > p {
                assert(stable_order(keys, n)[m] == o[m - 1]);
            }
        }
    }
}

/// Item indices in stable sorted order of their keys.
pub fn sort_order(keys: &Vec<Vec<char>>) -> (order: Vec<usize>)
    ensures
        order@.len() == keys@.len(),
        order@.map_values(|i: usize| i as int) == stable_order(keys_view(keys@), keys@.len() as int),
{
    let ghost ks = keys_view(keys@);
    let mut order: Vec<usize> = Vec::new();
    let mut n: usize = 0;
    assert(order@.map_values(|i: usize| i as int) =~= stable_order(ks, 0));
    while n < keys.len()
        invariant
            n <= keys.len(),
            ks == keys_view(keys@),
            order@.len() == n,
            forall|m: int| 0 <= m < order@.len() ==> order@[m] < n,
            order@.map_values(|i: usize| i as int) == stable_order(ks, n as int),
        decreases keys.len() - n,
    {
        let ghost o = stable_order(ks, n as int);
        let mut j: usize = 0;
        while j < order.len() && compare(&keys[n], &keys[order[j]]) != Order::Less
            invariant
                j <= order@.len(),
                n < keys@.len(),
                order@.len() == n,
                forall|m: int| 0 <= m < order@.len() ==> order@[m] < n,
                o == order@.map_values(|i: usize| i as int),
                ks == keys_view(keys@),
                insert_position(o, ks, ks[n as int], 0) == insert_position(
                    o,
                    ks,
                    ks[n as int],
                    j as int,
                ),
            decreases order@.len() - j,
        {
            assert(o[j as int] == order@[j as int] as int);
            assert(ks[order@[j as int] as int] == keys@[order@[j as int] as int]@);
            assert(ks[n as int] == keys@[n as int]@);
            j += 1;
        }
        if j < order.len() {
            assert(o[j as int] == order@[j as int] as int);
            assert(ks[order@[j as int] as int] == keys@[order@[j as int] as int]@);
            assert(ks[n as int] == keys@[n as int]@);
        }
        assert(insert_position(o, ks, ks[n as int], 0) == j);
        assert(stable_order(ks, n + 1) == o.insert(j as int, n as int));
        let ghost before = order@;
        order.insert(j, n);
        assert(order@.map_values(|i: usize| i as int) =~= o.insert(j as int, n as int));
        n += 1;
    }
    order
}


/// Where the new key goes: after every item whose key is not larger, before the
/// first whose key is larger.
pub proof fn lemma_insert_position(order: Seq<int>, keys: Seq<Seq<char>>, k: Seq<char>, j: int)
    requires
        0 <= j <= order.len(),
    ensures
        forall|m: int|
            j <= m < insert_position(order, keys, k, j) ==> !lex_lt(k, #[trigger] keys[order[m]]),
        insert_position(order, keys, k, j) < order.len() ==> lex_lt(
            k,
            keys[order[insert_position(order, keys, k, j)]],
        ),
    decreases order.len() - j,
{
    if j < order.len() && !lex_lt(k, keys[order[j]]) {
        lemma_insert_position(order, keys, k, j + 1);
    }
}

/// `order` lists distinct indices below `n`, `n` of them.
pub open spec fn is_permutation(order: Seq<int>, n: int) -> bool {
    &&& order.len() == n
    &&& forall|m: int| 0 <= m < n ==> 0 <= #[trigger] order[m] < n
    &&& forall|a: int, b: int| 0 <= a < b < n ==> order[a] != order[b]
}

/// The keys along `order` never decrease.
pub open spec fn is_sorted_by(order: Seq<int>, keys: Seq<Seq<char>>) -> bool {
    forall|a: int, b: int|
        0 <= a < b < order.len() ==> lex_le(#[trigger] keys[order[a]], #[trigger] keys[order[b]])
}

/// Items with equal keys keep their original order.
pub open spec fn is_stable_by(order: Seq<int>, keys: Seq<Seq<char>>) -> bool {
    forall|a: int, b: int|
        0 <= a < b < order.len() && #[trigger] keys[order[a]] == #[trigger] keys[order[b]]
            ==> order[a] < order[b]
}

/// Sorting is a stable sort: the stable order of `n` keys lists each of the first
/// `n` items once, in non-decreasing key order, with items of equal keys in their
/// original order.
pub proof fn law_stable_order_sorts(keys: Seq<Seq<char>>, n: int)
    requires
        0 <= n <= keys.len(),
    ensures
        is_permutation(stable_order(keys, n), n),
        is_sorted_by(stable_order(keys, n), keys),
        is_stable_by(stable_order(keys, n), keys),
    decreases n,
{
    lemma_stable_order_range(keys, n);
    if n > 0 {
        let o = stable_order(keys, n - 1);
        let k = keys[n - 1];
        law_stable_order_sorts(keys, n - 1);
        lemma_stable_order_range(keys, n - 1);
        let p = insert_position(o, keys, k, 0);
        lemma_insert_position_bounds(o, keys, k, 0);
        lemma_insert_position(o, keys, k, 0);
        let o2 = stable_order(keys, n);
        assert(o2 == o.insert(p, n - 1));
        assert forall|m: int| 0 <= m < n implies #[trigger] o2[m] == (if m < p {
            o[m]
        } else if m == p {
            n - 1
        } else {
            o[m - 1]
        }) by {}
        // Every item after the insertion point has a larger key.
        assert forall|m: int| p <= m < o.len() implies lex_lt(k, #[trigger] keys[o[m]]) by {
            if m > p {
                assert(lex_le(keys[o[p]], keys[o[m]]));
                if keys[o[p]] != keys[o[m]] {
                    lemma_lex_transitive(k, keys[o[p]], keys[o[m]]);
                }
            }
        }
        assert forall|a: int, b: int| 0 <= a < b < n implies o2[a] != o2[b] by {}
        assert forall|a: int, b: int| 0 <= a < b < n implies lex_le(
            #[trigger] keys[o2[a]],
            #[trigger] keys[o2[b]],
        ) by {
            if a == p {
                assert(lex_lt(k, keys[o[b - 1]]));
            } else if b == p {
                assert(!lex_lt(k, keys[o[a]]));
                lemma_lex_total(k, keys[o[a]]);
            } else if a < p && b > p {
                assert(lex_le(keys[o[a]], keys[o[b - 1]]));
            } else if a > p {
                assert(lex_le(keys[o[a - 1]], keys[o[b - 1]]));
            } else {
                assert(lex_le(keys[o[a]], keys[o[b]]));
            }
        }
        assert forall|a: int, b: int|
            0 <= a < b < n && #[trigger] keys[o2[a]] == #[trigger] keys[o2[b]] implies o2[a]
            < o2[b] by {
            if a == p {
                assert(lex_lt(k, keys[o[b - 1]]));
                lemma_lex_irreflexive(k);
            } else if b == p {
            } else if a < p && b > p {
                assert(keys[o[a]] == keys[o[b - 1]]);
            } else if a > p {
                assert(keys[o[a - 1]] == keys[o[b - 1]]);
            } else {
                assert(keys[o[a]] == keys[o[b]]);
            }
        }
    }
}

} // verus!
