//! Stable sorting by keys.
//!
//! The order of a list of keys is a list of positions: a permutation that
//! names, place by place, where the keys stand.  Ties are broken by position,
//! so the order of a list is unique.

use vstd::prelude::*;

verus! {

/// Whether the key at position `a` comes before the key at position `b`:
/// it is better (smaller, or larger where `descending`), or as good and
/// earlier in the list.
pub open spec fn precedes(keys: Seq<u128>, descending: bool, a: int, b: int) -> bool {
    if keys[a] == keys[b] {
        a < b
    } else if descending {
        keys[a] > keys[b]
    } else {
        keys[a] < keys[b]
    }
}

/// Whether the key `a` is strictly worse than the key `b`.
fn worse(a: u128, b: u128, descending: bool) -> (is_worse: bool)
    ensures
        is_worse == (if descending {
            a < b
        } else {
            a > b
        }),
{
    if descending {
        a < b
    } else {
        a > b
    }
}

/// Whether `order` names each of the first `n` positions exactly once.
pub open spec fn is_permutation(order: Seq<usize>, n: int) -> bool {
    &&& order.len() == n
    &&& order.no_duplicates()
    &&& forall|k: int| 0 <= k < order.len() ==> (#[trigger] order[k]) < n
    &&& forall|p: usize| p < n ==> #[trigger] order.contains(p)
}

/// Whether `order` is the stable order of the keys.
pub open spec fn is_sorted_order(keys: Seq<u128>, descending: bool, order: Seq<usize>) -> bool {
    &&& is_permutation(order, keys.len() as int)
    &&& forall|k: int, l: int|
        0 <= k < l < order.len() ==> precedes(keys, descending, #[trigger] order[k] as int, #[trigger] order[l] as int)
}

/// Sorts the positions of the keys by key, ascending or descending, keeping
/// equal keys in the order in which they stand.
pub fn sorted_order(keys: &Vec<u128>, descending: bool) -> (order: Vec<usize>)
    ensures
        is_sorted_order(keys@, descending, order@),
{
    let mut order: Vec<usize> = Vec::new();
    let mut i: usize = 0;
    while i < keys.len()
        invariant
            i <= keys@.len(),
            order@.len() == i,
            order@.no_duplicates(),
            forall|k: int| 0 <= k < order@.len() ==> (#[trigger] order@[k]) < i,
            forall|p: usize| p < i ==> #[trigger] order@.contains(p),
            forall|k: int, l: int|
                0 <= k < l < order@.len() ==> precedes(
                    keys@,
                    descending,
                    #[trigger] order@[k] as int,
                    #[trigger] order@[l] as int,
                ),
        decreases keys@.len() - i,
    {
        let key: u128 = keys[i];
        let mut at: usize = 0;
        while at < order.len() && !worse(keys[order[at]], key, descending)
            invariant
                at <= order@.len(),
                order@.len() == i,
                i < keys@.len(),
                key == keys@[i as int],
                forall|k: int| 0 <= k < order@.len() ==> (#[trigger] order@[k]) < i,
                forall|k: int| 0 <= k < at ==> precedes(keys@, descending, #[trigger] order@[k] as int, i as int),
            decreases order@.len() - at,
        {
            at = at + 1;
        }
        let ghost before = order@;
        order.insert(at, i);
        proof {
            assert(order@ == before.insert(at as int, i));
            assert forall|k: int| 0 <= k < order@.len() implies (#[trigger] order@[k]) < i + 1 by {
                if k < at {
                    assert(order@[k] == before[k]);
                } else if k > at {
                    assert(order@[k] == before[k - 1]);
                }
            }
            assert forall|k: int, l: int| 0 <= k < l < order@.len() implies precedes(
                keys@,
                descending,
                #[trigger] order@[k] as int,
                #[trigger] order@[l] as int,
            ) by {
                if l < at {
                    assert(order@[k] == before[k] && order@[l] == before[l]);
                } else if l == at {
                    assert(order@[k] == before[k]);
                } else if k < at {
                    assert(order@[k] == before[k] && order@[l] == before[l - 1]);
                    assert(precedes(keys@, descending, before[k] as int, before[l - 1] as int));
                } else if k == at {
                    assert(order@[l] == before[l - 1]);
                    assert(at <= l - 1);
                    if at < l - 1 {
                        assert(precedes(keys@, descending, before[at as int] as int, before[l - 1] as int));
                    }
                } else {
                    assert(order@[k] == before[k - 1] && order@[l] == before[l - 1]);
                    assert(precedes(keys@, descending, before[k - 1] as int, before[l - 1] as int));
                }
            }
            assert(order@.no_duplicates()) by {
                assert forall|k: int, l: int| 0 <= k < l < order@.len() implies order@[k] != order@[l] by {
                    let a = if k < at { k } else { k - 1 };
                    let b = if l < at { l } else { l - 1 };
                    if k != at && l != at {
                        assert(order@[k] == before[a] && order@[l] == before[b]);
                    } else if k == at {
                        assert(order@[l] == before[b]);
                    } else {
                        assert(order@[k] == before[a]);
                    }
                }
            }
            assert forall|p: usize| p < i + 1 implies #[trigger] order@.contains(p) by {
                if p < i {
                    assert(before.contains(p));
                    let k = choose|k: int| 0 <= k < before.len() && before[k] == p;
                    if k < at {
                        assert(order@[k] == p);
                    } else {
                        assert(order@[k + 1] == p);
                    }
                } else {
                    assert(order@[at as int] == i);
                }
            }
        }
        i = i + 1;
    }
    order
}

/// Rearranges `items` by an order of their positions.
pub fn arrange(items: &Vec<usize>, order: &Vec<usize>) -> (arranged: Vec<usize>)
    requires
        is_permutation(order@, items@.len() as int),
    ensures
        arranged@.len() == items@.len(),
        forall|k: int| 0 <= k < arranged@.len() ==> #[trigger] arranged@[k] == items@[order@[k] as int],
        forall|x: usize| items@.contains(x) <==> arranged@.contains(x),
        items@.no_duplicates() ==> arranged@.no_duplicates(),
{
    let mut arranged: Vec<usize> = Vec::new();
    let mut k: usize = 0;
    while k < order.len()
        invariant
            k <= order@.len(),
            is_permutation(order@, items@.len() as int),
            arranged@.len() == k,
            forall|j: int| 0 <= j < k ==> #[trigger] arranged@[j] == items@[order@[j] as int],
        decreases order@.len() - k,
    {
        arranged.push(items[order[k]]);
        k = k + 1;
    }
    proof {
        assert forall|x: usize| items@.contains(x) <==> arranged@.contains(x) by {
            if items@.contains(x) {
                let p = choose|p: int| 0 <= p < items@.len() && items@[p] == x;
                assert(order@.contains(p as usize));
                let j = choose|j: int| 0 <= j < order@.len() && order@[j] == p as usize;
                assert(arranged@[j] == x);
            }
            if arranged@.contains(x) {
                let j = choose|j: int| 0 <= j < arranged@.len() && arranged@[j] == x;
                assert(items@[order@[j] as int] == x);
            }
        }
        if items@.no_duplicates() {
            assert forall|a: int, b: int| 0 <= a < b < arranged@.len() implies arranged@[a] != arranged@[b] by {
                assert(order@[a] != order@[b]);
            }
        }
    }
    arranged
}

/// A list without duplicates of numbers below `n` has at most `n` entries.
pub proof fn lemma_distinct_bounded(list: Seq<usize>, n: nat)
    requires
        list.no_duplicates(),
        forall|k: int| 0 <= k < list.len() ==> (#[trigger] list[k]) < n,
    ensures
        list.len() <= n,
    decreases n,
{
    if list.len() > 0 {
        if n == 0 {
            assert(list[0] < 0);
        } else if list.contains((n - 1) as usize) {
            let at = choose|at: int| 0 <= at < list.len() && list[at] == (n - 1) as usize;
            let rest = list.remove(at);
            assert forall|k: int| 0 <= k < rest.len() implies (#[trigger] rest[k]) < n - 1 by {
                if k < at {
                    assert(rest[k] == list[k]);
                } else {
                    assert(rest[k] == list[k + 1]);
                }
            }
            assert forall|a: int, b: int| 0 <= a < b < rest.len() implies rest[a] != rest[b] by {
                let x = if a < at { a } else { a + 1 };
                let y = if b < at { b } else { b + 1 };
                assert(rest[a] == list[x] && rest[b] == list[y]);
            }
            lemma_distinct_bounded(rest, (n - 1) as nat);
        } else {
            assert forall|k: int| 0 <= k < list.len() implies (#[trigger] list[k]) < n - 1 by {
                assert(list.contains(list[k]));
            }
            lemma_distinct_bounded(list, (n - 1) as nat);
        }
    }
}

} // verus!
