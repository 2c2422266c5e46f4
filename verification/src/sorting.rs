//! Stable sorting of names in natural order.

use crate::natural::{
    compare_natural, lemma_natural_order_antisymmetric, lemma_natural_order_transitive,
    natural_order, Order,
};
use vstd::prelude::*;

verus! {

/// `order` lists each of `0..n` exactly once.
pub open spec fn is_permutation(order: Seq<usize>, n: nat) -> bool {
    &&& order.len() == n
    &&& forall|i: int| 0 <= i < order.len() ==> #[trigger] order[i] < n
    &&& forall|i: int, j: int|
        0 <= i < j < order.len() ==> #[trigger] order[i] != #[trigger] order[j]
}

/// Listing the keys in `order` puts them in natural order.
pub open spec fn sorted_by_key(keys: Seq<Seq<char>>, order: Seq<usize>) -> bool {
    forall|i: int, j: int|
        0 <= i < j < order.len() ==> natural_order(
            keys[#[trigger] order[i] as int],
            keys[#[trigger] order[j] as int],
        ) != Order::Greater
}

/// Keys that the natural order ties keep their relative order in `keys`.
pub open spec fn stable_by_key(keys: Seq<Seq<char>>, order: Seq<usize>) -> bool {
    forall|i: int, j: int|
        0 <= i < j < order.len() && natural_order(
            keys[#[trigger] order[i] as int],
            keys[#[trigger] order[j] as int],
        ) == Order::Equal ==> order[i] < order[j]
}

/// The order of a stable sort of `keys`: a permutation of the positions of
/// `keys` that lists them in natural order, ties in their order in `keys`.
pub open spec fn is_stable_sort_order(keys: Seq<Seq<char>>, order: Seq<usize>) -> bool {
    &&& is_permutation(order, keys.len())
    &&& sorted_by_key(keys, order)
    &&& stable_by_key(keys, order)
}

/// Inserting key `i` after every key that does not sort after it and before
/// every key that does keeps a stable sort order.
proof fn lemma_insert_keeps_sorted(ks: Seq<Seq<char>>, old_order: Seq<usize>, lo: int, i: usize)
    requires
        i < ks.len(),
        is_permutation(old_order, i as nat),
        sorted_by_key(ks, old_order),
        stable_by_key(ks, old_order),
        0 <= lo <= old_order.len(),
        forall|m: int|
            0 <= m < lo ==> natural_order(ks[i as int], ks[#[trigger] old_order[m] as int])
                != Order::Less,
        forall|m: int|
            lo <= m < old_order.len() ==> natural_order(
                ks[i as int],
                ks[#[trigger] old_order[m] as int],
            ) == Order::Less,
    ensures
        is_permutation(old_order.insert(lo, i), (i + 1) as nat),
        sorted_by_key(ks, old_order.insert(lo, i)),
        stable_by_key(ks, old_order.insert(lo, i)),
{
    let ki = ks[i as int];
    let no = old_order.insert(lo, i);
    assert forall|a: int, b: int| 0 <= a < b < no.len() implies natural_order(
        ks[#[trigger] no[a] as int],
        ks[#[trigger] no[b] as int],
    ) != Order::Greater && (natural_order(ks[no[a] as int], ks[no[b] as int]) == Order::Equal
        ==> no[a] < no[b]) by {
        if b == lo {
            lemma_natural_order_antisymmetric(ki, ks[no[a] as int]);
        } else if a == lo {
            assert(no[b] == old_order[b - 1]);
        } else {
            let a0 = if a < lo {
                a
            } else {
                a - 1
            };
            let b0 = if b < lo {
                b
            } else {
                b - 1
            };
            assert(no[a] == old_order[a0]);
            assert(no[b] == old_order[b0]);
        }
    }
    assert forall|a: int, b: int| 0 <= a < b < no.len() implies #[trigger] no[a]
        != #[trigger] no[b] by {
        if a != lo && b != lo {
            let a0 = if a < lo {
                a
            } else {
                a - 1
            };
            let b0 = if b < lo {
                b
            } else {
                b - 1
            };
            assert(no[a] == old_order[a0]);
            assert(no[b] == old_order[b0]);
        } else if a == lo {
            assert(no[b] == old_order[b - 1]);
        } else {
            assert(no[a] == old_order[a]);
        }
    }
    assert forall|a: int| 0 <= a < no.len() implies #[trigger] no[a] < i + 1 by {
        if a < lo {
            assert(no[a] == old_order[a]);
        } else if a > lo {
            assert(no[a] == old_order[a - 1]);
        }
    }
}

/// The positions of `keys` in the order of a stable natural sort.
pub fn natural_sort_order(keys: &Vec<Vec<char>>) -> (order: Vec<usize>)
    ensures
        is_stable_sort_order(keys@.map_values(|k: Vec<char>| k@), order@),
{
    let ghost ks = keys@.map_values(|k: Vec<char>| k@);
    let mut order: Vec<usize> = Vec::new();
    let n = keys.len();
    for i in 0..n
        invariant
            n == keys.len(),
            ks == keys@.map_values(|k: Vec<char>| k@),
            is_permutation(order@, i as nat),
            sorted_by_key(ks, order@),
            stable_by_key(ks, order@),
    {
        let ghost ki = ks[i as int];
        assert(keys@[i as int]@ == ki);
        // find the first position whose key sorts strictly after key i
        let mut lo: usize = 0;
        let mut hi: usize = order.len();
        while lo < hi
            invariant
                n == keys.len(),
                ks == keys@.map_values(|k: Vec<char>| k@),
                ki == ks[i as int],
                i < n,
                is_permutation(order@, i as nat),
                sorted_by_key(ks, order@),
                0 <= lo <= hi <= order.len(),
                forall|m: int|
                    0 <= m < lo ==> natural_order(ki, ks[#[trigger] order@[m] as int])
                        != Order::Less,
                forall|m: int|
                    hi <= m < order.len() ==> natural_order(ki, ks[#[trigger] order@[m] as int])
                        == Order::Less,
            decreases hi - lo,
        {
            let mid = lo + (hi - lo) / 2;
            let om = order[mid];
            assert(keys@[om as int]@ == ks[om as int]);
            let c = compare_natural(&keys[i], &keys[om]);
            match c {
                Order::Less => {
                    assert forall|m: int| mid <= m < order.len() implies natural_order(
                        ki,
                        ks[#[trigger] order@[m] as int],
                    ) == Order::Less by {
                        if m > mid {
                            lemma_natural_order_transitive(
                                ki,
                                ks[om as int],
                                ks[order@[m] as int],
                            );
                        }
                    }
                    hi = mid;
                },
                _ => {
                    assert forall|m: int| 0 <= m < mid + 1 implies natural_order(
                        ki,
                        ks[#[trigger] order@[m] as int],
                    ) != Order::Less by {
                        lemma_natural_order_antisymmetric(ki, ks[om as int]);
                        lemma_natural_order_antisymmetric(ki, ks[order@[m] as int]);
                        if m < mid {
                            lemma_natural_order_transitive(
                                ks[order@[m] as int],
                                ks[om as int],
                                ki,
                            );
                        }
                    }
                    lo = mid + 1;
                },
            }
        }
        let ghost old_order = order@;
        order.insert(lo, i);
        proof {
            lemma_insert_keeps_sorted(ks, old_order, lo as int, i);
        }
    }
    order
}

} // verus!
