//! Orders of clip indices: the identity order, sorting by a key, and what
//! follows from an order being a rearrangement of another.

use vstd::prelude::*;

verus! {

/// `order` names every index below `n` exactly once.
pub open spec fn is_order(order: Seq<usize>, n: int) -> bool {
    &&& order.len() == n
    &&& order.no_duplicates()
    &&& forall|k: int| 0 <= k < order.len() ==> (#[trigger] order[k]) < n
}

/// The order 0, 1, 2, ... below `n`.
pub open spec fn identity(n: nat) -> Seq<usize> {
    Seq::new(n, |i: int| i as usize)
}

/// `order` is sorted by ascending key.
pub open spec fn sorted_by(order: Seq<usize>, keys: Seq<i64>) -> bool {
    forall|a: int, b: int|
        0 <= a <= b < order.len() ==> keys[#[trigger] order[a] as int] <= keys[#[trigger] order[b] as int]
}

/// The indices 0, 1, 2, ... below `n`, in that order.
pub fn identity_order(n: usize) -> (order: Vec<usize>)
    ensures
        order@ == identity(n as nat),
        is_order(order@, n as int),
{
    let mut order: Vec<usize> = Vec::new();
    let mut i: usize = 0;
    while i < n
        invariant
            i <= n,
            order@.len() == i,
            forall|k: int| 0 <= k < i ==> order@[k] == k,
        decreases n - i,
    {
        order.push(i);
        i += 1;
    }
    assert(order@ =~= identity(n as nat));
    order
}

/// A rearrangement of an order is an order.
pub proof fn lemma_rearranged_order(before: Seq<usize>, after: Seq<usize>, n: int)
    requires
        is_order(before, n),
        after.to_multiset() == before.to_multiset(),
    ensures
        is_order(after, n),
{
    broadcast use vstd::multiset::group_multiset_axioms;

    before.to_multiset_ensures();
    after.to_multiset_ensures();
    before.lemma_multiset_has_no_duplicates();
    after.lemma_multiset_has_no_duplicates_conv();
    assert forall|k: int| 0 <= k < after.len() implies (#[trigger] after[k]) < n by {
        assert(after.contains(after[k]));
        assert(before.to_multiset().count(after[k]) > 0);
        assert(before.contains(after[k]));
    }
}

/// Every index below `n` stands somewhere in an order of `n`: `n` different
/// values below `n` leave none out.
pub proof fn lemma_order_covers(order: Seq<usize>, n: int, i: int)
    requires
        is_order(order, n),
        0 <= i < n <= usize::MAX,
    ensures
        exists|k: int| 0 <= k < n && order[k] == i,
{
    if forall|k: int| 0 <= k < n ==> order[k] != i {
        let values = order.to_set();
        order.unique_seq_to_set();
        let below = Set::new(|x: usize| x < n && x != i);
        let all = Set::new(|x: usize| x < n);
        lemma_below_count(n as nat);
        assert(all.contains(i as usize));
        assert(below =~= all.remove(i as usize));
        assert(values.subset_of(below)) by {
            assert forall|x: usize| values.contains(x) implies below.contains(x) by {
                let k = choose|k: int| 0 <= k < order.len() && order[k] == x;
                assert(order[k] < n);
            }
        }
        vstd::set_lib::lemma_len_subset(values, below);
        assert(false);
    }
}

/// There are `n` machine integers below `n`.
proof fn lemma_below_count(n: nat)
    requires
        n <= usize::MAX + 1,
    ensures
        Set::new(|x: usize| x < n).finite(),
        Set::new(|x: usize| x < n).len() == n,
    decreases n,
{
    let all = Set::new(|x: usize| x < n);
    if n == 0 {
        assert(all =~= Set::<usize>::empty());
    } else {
        lemma_below_count((n - 1) as nat);
        let fewer = Set::new(|x: usize| x < n - 1);
        assert(all =~= fewer.insert((n - 1) as usize));
    }
}

/// The values at the first `t` indices that `order` names, together.
pub open spec fn picked_sum(order: Seq<usize>, vals: Seq<int>, t: int) -> int
    decreases t,
{
    if t <= 0 {
        0
    } else {
        picked_sum(order, vals, t - 1) + vals[order[t - 1] as int]
    }
}

/// The first `n` values together.
pub open spec fn plain_total(vals: Seq<int>, n: int) -> int
    decreases n,
{
    if n <= 0 {
        0
    } else {
        plain_total(vals, n - 1) + vals[n - 1]
    }
}

proof fn lemma_picked_agree(a: Seq<usize>, b: Seq<usize>, vals: Seq<int>, wals: Seq<int>, t: int)
    requires
        0 <= t <= a.len(),
        t <= b.len(),
        forall|k: int| 0 <= k < t ==> a[k] == b[k] && vals[a[k] as int] == wals[a[k] as int],
    ensures
        picked_sum(a, vals, t) == picked_sum(b, wals, t),
    decreases t,
{
    if t > 0 {
        lemma_picked_agree(a, b, vals, wals, t - 1);
    }
}

proof fn lemma_plain_agree(vals: Seq<int>, wals: Seq<int>, n: int)
    requires
        0 <= n <= vals.len(),
        n <= wals.len(),
        forall|k: int| 0 <= k < n ==> vals[k] == wals[k],
    ensures
        plain_total(vals, n) == plain_total(wals, n),
    decreases n,
{
    if n > 0 {
        lemma_plain_agree(vals, wals, n - 1);
    }
}

proof fn lemma_picked_remove(order: Seq<usize>, vals: Seq<int>, t: int, m: int)
    requires
        0 <= t < m <= order.len(),
    ensures
        picked_sum(order, vals, m) == picked_sum(order.remove(t), vals, m - 1) + vals[order[t] as int],
    decreases m,
{
    let shorter = order.remove(t);
    if m == t + 1 {
        lemma_picked_agree(order, shorter, vals, vals, t);
    } else {
        lemma_picked_remove(order, vals, t, m - 1);
        assert(shorter[m - 2] == order[m - 1]);
    }
}

/// Summing over an order is summing over all indices: the order in which
/// values are added does not change their sum.
pub proof fn lemma_order_sum(order: Seq<usize>, vals: Seq<int>, n: int)
    requires
        is_order(order, n),
        vals.len() == n,
        n <= usize::MAX,
    ensures
        picked_sum(order, vals, n) == plain_total(vals, n),
    decreases n,
{
    if n > 0 {
        lemma_order_covers(order, n, n - 1);
        let t = choose|k: int| 0 <= k < n && order[k] == n - 1;
        let shorter = order.remove(t);
        let fewer = vals.take(n - 1);
        assert(is_order(shorter, n - 1)) by {
            assert forall|k: int| 0 <= k < shorter.len() implies (#[trigger] shorter[k]) < n - 1 by {
                if k < t {
                    assert(shorter[k] == order[k]);
                } else {
                    assert(shorter[k] == order[k + 1]);
                }
            }
            assert forall|i: int, j: int|
                0 <= i < shorter.len() && 0 <= j < shorter.len() && i != j implies shorter[i]
                != shorter[j] by {
                let oi = if i < t {
                    i
                } else {
                    i + 1
                };
                let oj = if j < t {
                    j
                } else {
                    j + 1
                };
                assert(shorter[i] == order[oi] && shorter[j] == order[oj]);
            }
        }
        lemma_picked_remove(order, vals, t, n);
        lemma_picked_agree(shorter, shorter, vals, fewer, n - 1);
        lemma_plain_agree(vals, fewer, n - 1);
        lemma_order_sum(shorter, fewer, n - 1);
    }
}

/// Sorts `order` by ascending key with the standard library's unstable
/// sort, `<[usize]>::sort_unstable_by_key`. Afterwards `order` holds the
/// same indices as before, each as often as before, and the keys do not
/// fall from one place to the next. Which of two indices with equal keys
/// comes first is not stated.
#[verifier::external_body]
pub(crate) fn sort_by_key(order: &mut Vec<usize>, keys: &Vec<i64>)
    requires
        forall|k: int| 0 <= k < old(order)@.len() ==> (#[trigger] old(order)@[k]) < keys@.len(),
    ensures
        final(order)@.to_multiset() == old(order)@.to_multiset(),
        sorted_by(final(order)@, keys@),
{
    order.sort_unstable_by_key(|i| keys[*i]);
}

/// The lists name only indices below `n`, and none of them twice.
pub open spec fn lists_distinct(lists: Seq<Seq<usize>>, n: int) -> bool {
    &&& forall|g: int, k: int|
        0 <= g < lists.len() && 0 <= k < lists[g].len() ==> (#[trigger] lists[g][k]) < n
    &&& forall|g: int, k: int, h: int, l: int|
        0 <= g < lists.len() && 0 <= k < lists[g].len() && 0 <= h < lists.len() && 0 <= l
            < lists[h].len() && (g != h || k != l) ==> (#[trigger] lists[g][k])
            != (#[trigger] lists[h][l])
}

/// Index `i` stands in list `g` before place `k`, or in an earlier list.
pub open spec fn taken_before(lists: Seq<Seq<usize>>, g: int, k: int, i: int) -> bool {
    exists|h: int, l: int|
        0 <= h < lists.len() && 0 <= l < lists[h].len() && (h < g || (h == g && l < k))
            && (#[trigger] lists[h][l]) == i
}

/// Every item in a slot of its own, so that items can be taken out in any
/// order.
pub(crate) fn into_slots<T>(items: Vec<T>) -> (slots: Vec<Option<T>>)
    ensures
        slots@.len() == items@.len(),
        forall|i: int| 0 <= i < items@.len() ==> slots@[i] == Some(items@[i]),
{
    let mut slots: Vec<Option<T>> = Vec::new();
    for item in it: items
        invariant
            slots@.len() == it.index(),
            it.seq() == items@,
            forall|i: int| 0 <= i < it.index() ==> slots@[i] == Some(items@[i]),
    {
        slots.push(Some(item));
    }
    slots
}

/// The items in the order that `order` names them: place `t` of the result
/// holds the item that stood at `order[t]`.
pub fn take_in_order<T>(items: Vec<T>, order: &Vec<usize>) -> (out: Vec<T>)
    requires
        order@.no_duplicates(),
        forall|t: int| 0 <= t < order@.len() ==> (#[trigger] order@[t]) < items@.len(),
    ensures
        out@.len() == order@.len(),
        forall|t: int| 0 <= t < order@.len() ==> (#[trigger] out@[t]) == items@[order@[t] as int],
{
    let mut slots = into_slots(items);
    let mut out: Vec<T> = Vec::new();
    let mut t: usize = 0;
    while t < order.len()
        invariant
            t <= order@.len(),
            order@.no_duplicates(),
            forall|k: int| 0 <= k < order@.len() ==> (#[trigger] order@[k]) < items@.len(),
            slots@.len() == items@.len(),
            out@.len() == t,
            forall|k: int| 0 <= k < t ==> (#[trigger] out@[k]) == items@[order@[k] as int],
            forall|i: int|
                0 <= i < slots@.len() ==> (#[trigger] slots@[i]) == (if exists|k: int|
                    0 <= k < t && order@[k] == i {
                    None
                } else {
                    Some(items@[i])
                }),
        decreases order@.len() - t,
    {
        let at = order[t];
        let ghost before = slots@;
        let got = slots[at].take();
        match got {
            Some(item) => {
                out.push(item);
            },
            None => {
                proof {
                    let k = choose|k: int| 0 <= k < t && order@[k] == at;
                    assert(order@[k] == order@[t as int]);
                    assert(false);
                }
            },
        }
        proof {
            assert forall|i: int| 0 <= i < slots@.len() implies (#[trigger] slots@[i]) == (if exists|
                k: int,
            |
                0 <= k < t + 1 && order@[k] == i {
                None
            } else {
                Some(items@[i])
            }) by {
                if i == at {
                    assert(order@[t as int] == i);
                } else {
                    assert(slots@[i] == before[i]);
                    if exists|k: int| 0 <= k < t + 1 && order@[k] == i {
                        let k = choose|k: int| 0 <= k < t + 1 && order@[k] == i;
                        assert(k < t);
                    }
                }
            }
        }
        t += 1;
    }
    out
}

/// The items dealt into lists: place `k` of list `g` of the result holds the
/// item that stood at `lists[g][k]`.
pub fn take_by_lists<T>(items: Vec<T>, lists: &Vec<Vec<usize>>) -> (out: Vec<Vec<T>>)
    requires
        lists_distinct(lists.deep_view(), items@.len() as int),
    ensures
        out@.len() == lists@.len(),
        forall|g: int| 0 <= g < lists@.len() ==> (#[trigger] out@[g])@.len() == lists@[g]@.len(),
        forall|g: int, k: int|
            0 <= g < lists@.len() && 0 <= k < lists@[g]@.len() ==> (#[trigger] out@[g]@[k])
                == items@[lists@[g]@[k] as int],
{
    let ghost names = lists.deep_view();
    proof {
        assert forall|g: int| 0 <= g < lists@.len() implies (#[trigger] names[g]) == lists@[g]@ by {
            assert(lists@[g].deep_view() =~= lists@[g]@);
        }
    }
    let mut slots = into_slots(items);
    let mut out: Vec<Vec<T>> = Vec::new();
    let mut g: usize = 0;
    while g < lists.len()
        invariant
            g <= lists@.len(),
            names.len() == lists@.len(),
            forall|h: int| 0 <= h < lists@.len() ==> (#[trigger] names[h]) == lists@[h]@,
            lists_distinct(names, items@.len() as int),
            slots@.len() == items@.len(),
            out@.len() == g,
            forall|h: int| 0 <= h < g ==> (#[trigger] out@[h])@.len() == lists@[h]@.len(),
            forall|h: int, k: int|
                0 <= h < g && 0 <= k < lists@[h]@.len() ==> (#[trigger] out@[h]@[k])
                    == items@[lists@[h]@[k] as int],
            forall|i: int|
                0 <= i < slots@.len() ==> (#[trigger] slots@[i]) == (if taken_before(
                    names,
                    g as int,
                    0,
                    i,
                ) {
                    None
                } else {
                    Some(items@[i])
                }),
        decreases lists@.len() - g,
    {
        let list = &lists[g];
        let mut row: Vec<T> = Vec::new();
        let mut k: usize = 0;
        while k < list.len()
            invariant
                k <= list@.len(),
                g < lists@.len(),
                list@ == lists@[g as int]@,
                names.len() == lists@.len(),
                forall|h: int| 0 <= h < lists@.len() ==> (#[trigger] names[h]) == lists@[h]@,
                lists_distinct(names, items@.len() as int),
                slots@.len() == items@.len(),
                row@.len() == k,
                forall|l: int| 0 <= l < k ==> (#[trigger] row@[l]) == items@[list@[l] as int],
                forall|i: int|
                    0 <= i < slots@.len() ==> (#[trigger] slots@[i]) == (if taken_before(
                        names,
                        g as int,
                        k as int,
                        i,
                    ) {
                        None
                    } else {
                        Some(items@[i])
                    }),
            decreases list@.len() - k,
        {
            let at = list[k];
            let ghost before = slots@;
            assert(names[g as int][k as int] == at);
            let got = slots[at].take();
            match got {
                Some(item) => {
                    row.push(item);
                },
                None => {
                    proof {
                        let (h, l) = choose|h: int, l: int|
                            0 <= h < names.len() && 0 <= l < names[h].len() && (h < g || (h == g
                                && l < k)) && (#[trigger] names[h][l]) == at;
                        assert(names[h][l] == names[g as int][k as int]);
                        assert(false);
                    }
                },
            }
            proof {
                assert forall|i: int| 0 <= i < slots@.len() implies (#[trigger] slots@[i]) == (
                if taken_before(names, g as int, k as int + 1, i) {
                    None
                } else {
                    Some(items@[i])
                }) by {
                    if i == at {
                        assert(names[g as int][k as int] == i);
                    } else {
                        assert(slots@[i] == before[i]);
                        if taken_before(names, g as int, k as int + 1, i) {
                            let (h, l) = choose|h: int, l: int|
                                0 <= h < names.len() && 0 <= l < names[h].len() && (h < g || (h
                                    == g && l < k + 1)) && (#[trigger] names[h][l]) == i;
                            assert(names[h][l] == i);
                            assert(h < g || (h == g && l < k));
                        }
                        if taken_before(names, g as int, k as int, i) {
                            let (h, l) = choose|h: int, l: int|
                                0 <= h < names.len() && 0 <= l < names[h].len() && (h < g || (h
                                    == g && l < k)) && (#[trigger] names[h][l]) == i;
                            assert(names[h][l] == i);
                        }
                    }
                }
            }
            k += 1;
        }
        out.push(row);
        proof {
            assert forall|i: int| 0 <= i < slots@.len() implies (#[trigger] slots@[i]) == (
            if taken_before(names, g as int + 1, 0, i) {
                None
            } else {
                Some(items@[i])
            }) by {
                if taken_before(names, g as int + 1, 0, i) {
                    let (h, l) = choose|h: int, l: int|
                        0 <= h < names.len() && 0 <= l < names[h].len() && (h < g + 1 || (h == g
                            + 1 && l < 0)) && (#[trigger] names[h][l]) == i;
                    assert(names[h][l] == i);
                    assert(h < g || (h == g && l < list@.len()));
                }
                if taken_before(names, g as int, list@.len() as int, i) {
                    let (h, l) = choose|h: int, l: int|
                        0 <= h < names.len() && 0 <= l < names[h].len() && (h < g || (h == g && l
                            < list@.len())) && (#[trigger] names[h][l]) == i;
                    assert(names[h][l] == i);
                }
            }
        }
        g += 1;
    }
    out
}

/// The order turned round: where `order` names `p` at place `t`, the
/// result names `t` at place `p`.
pub fn inverse_order(order: &Vec<usize>) -> (inv: Vec<usize>)
    requires
        is_order(order@, order@.len() as int),
    ensures
        is_order(inv@, order@.len() as int),
        forall|t: int| 0 <= t < order@.len() ==> inv@[(#[trigger] order@[t]) as int] == t,
        forall|p: int| 0 <= p < order@.len() ==> order@[(#[trigger] inv@[p]) as int] == p,
{
    let n = order.len();
    let mut inv: Vec<usize> = Vec::new();
    let mut i: usize = 0;
    while i < n
        invariant
            i <= n,
            inv@.len() == i,
        decreases n - i,
    {
        inv.push(0);
        i += 1;
    }
    let mut t: usize = 0;
    while t < n
        invariant
            t <= n,
            n == order@.len(),
            inv@.len() == n,
            is_order(order@, n as int),
            forall|k: int| 0 <= k < t ==> inv@[(#[trigger] order@[k]) as int] == k,
        decreases n - t,
    {
        inv.set(order[t], t);
        assert forall|k: int| 0 <= k < t + 1 implies inv@[(#[trigger] order@[k]) as int] == k by {
            if k < t {
                assert(order@[k] != order@[t as int]);
            }
        }
        t += 1;
    }
    proof {
        assert forall|p: int| 0 <= p < n implies (#[trigger] inv@[p]) < n && order@[inv@[p] as int]
            == p by {
            lemma_order_covers(order@, n as int, p);
            let k = choose|k: int| 0 <= k < n && order@[k] == p;
            assert(inv@[order@[k] as int] == k);
        }
        assert forall|p: int, q: int| 0 <= p < n && 0 <= q < n && p != q implies inv@[p]
            != inv@[q] by {
            assert(order@[inv@[p] as int] == p);
            assert(order@[inv@[q] as int] == q);
        }
    }
    inv
}

} // verus!
