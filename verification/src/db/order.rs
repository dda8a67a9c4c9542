//! Stable ordering of rows by an integer key.
use vstd::prelude::*;

verus! {

/// `order` lists indices below `n`, each once, by rising key and with ties in index order.
pub open spec fn is_stable_order(order: Seq<int>, keys: Seq<int>, n: int) -> bool {
    &&& order.len() == n
    &&& forall|k: int| 0 <= k < order.len() ==> 0 <= #[trigger] order[k] < n
    &&& forall|j: int, k: int| 0 <= j < k < order.len() ==> #[trigger] order[j]
        != #[trigger] order[k]
    &&& forall|j: int, k: int|
        0 <= j < k < order.len() ==> keys[#[trigger] order[j]] < keys[#[trigger] order[k]] || (
        keys[order[j]] == keys[order[k]] && order[j] < order[k])
}

/// The indices of `keys` by rising key, equal keys in their given order.
pub open spec fn stable_order(keys: Seq<int>) -> Seq<int> {
    choose|order: Seq<int>| is_stable_order(order, keys, keys.len() as int)
}

/// `i` placed into `order` behind every index whose key is not greater than its own.
spec fn placed(order: Seq<int>, keys: Seq<int>, i: int) -> Seq<int>
    decreases order.len(),
{
    if order.len() == 0 || keys[order.last()] <= keys[i] {
        order.push(i)
    } else {
        placed(order.drop_last(), keys, i).push(order.last())
    }
}

/// The indices of `keys` by rising key, equal keys in their given order, for the first `n` keys.
spec fn order_upto(keys: Seq<int>, n: int) -> Seq<int>
    decreases n,
{
    if n <= 0 {
        Seq::empty()
    } else {
        placed(order_upto(keys, n - 1), keys, n - 1)
    }
}

proof fn lemma_placed(order: Seq<int>, keys: Seq<int>, i: int)
    requires
        is_stable_order(order, keys, i),
    ensures
        is_stable_order(placed(order, keys, i), keys, i + 1),
{
    lemma_placed_at(order, keys, i, order.len() as int);
    let pos = place_of(order, keys, i);
    lemma_place_bounds(order, keys, i);
    let out = placed(order, keys, i);
    assert(out == order.insert(pos, i));
    assert forall|j: int, k: int| 0 <= j < k < out.len() implies (keys[#[trigger] out[j]]
        < keys[#[trigger] out[k]] || (keys[out[j]] == keys[out[k]] && out[j] < out[k])) && out[j]
        != out[k] by {
        if k < pos {
            assert(out[j] == order[j] && out[k] == order[k]);
        } else if k == pos {
            assert(out[j] == order[j]);
            if j < pos - 1 {
                assert(order[j] != order[pos - 1]);
            }
        } else if j < pos {
            assert(out[j] == order[j] && out[k] == order[k - 1]);
        } else if j == pos {
            assert(out[k] == order[k - 1]);
            if k - 1 > pos {
                assert(order[pos] != order[k - 1]);
            }
        } else {
            assert(out[j] == order[j - 1] && out[k] == order[k - 1]);
        }
    }
    assert forall|k: int| 0 <= k < out.len() implies 0 <= #[trigger] out[k] < i + 1 by {
        if k < pos {
            assert(out[k] == order[k]);
        } else if k > pos {
            assert(out[k] == order[k - 1]);
        }
    }
}

/// Where [`placed`] puts a new index.
spec fn place_of(order: Seq<int>, keys: Seq<int>, i: int) -> int
    decreases order.len(),
{
    if order.len() == 0 || keys[order.last()] <= keys[i] {
        order.len() as int
    } else {
        place_of(order.drop_last(), keys, i)
    }
}

proof fn lemma_place_bounds(order: Seq<int>, keys: Seq<int>, i: int)
    ensures
        0 <= place_of(order, keys, i) <= order.len(),
        place_of(order, keys, i) > 0 ==> keys[order[place_of(order, keys, i) - 1]] <= keys[i],
        forall|k: int|
            place_of(order, keys, i) <= k < order.len() ==> keys[i] < keys[#[trigger] order[k]],
        placed(order, keys, i) == order.insert(place_of(order, keys, i), i),
    decreases order.len(),
{
    let pos = place_of(order, keys, i);
    if order.len() == 0 || keys[order.last()] <= keys[i] {
        assert(order.push(i) =~= order.insert(pos, i));
    } else {
        let rest = order.drop_last();
        lemma_place_bounds(rest, keys, i);
        assert(rest.insert(pos, i).push(order.last()) =~= order.insert(pos, i));
        assert forall|k: int| pos <= k < order.len() implies keys[i] < keys[#[trigger] order[k]] by {
            if k < rest.len() {
                assert(rest[k] == order[k]);
            }
        }
        if pos > 0 {
            assert(rest[pos - 1] == order[pos - 1]);
        }
    }
}

/// [`placed`] inserts at [`place_of`], which lies at or below any `upto` behind which all keys
/// are greater.
proof fn lemma_placed_at(order: Seq<int>, keys: Seq<int>, i: int, upto: int)
    requires
        0 <= upto <= order.len(),
        forall|k: int| upto <= k < order.len() ==> keys[i] < keys[#[trigger] order[k]],
    ensures
        placed(order, keys, i) == order.insert(place_of(order, keys, i), i),
        place_of(order, keys, i) <= upto,
        upto > 0 && keys[order[upto - 1]] <= keys[i] ==> place_of(order, keys, i) == upto,
        upto == 0 ==> place_of(order, keys, i) == 0,
{
    lemma_place_bounds(order, keys, i);
    let pos = place_of(order, keys, i);
    if pos > upto {
        assert(keys[i] < keys[order[pos - 1]]);
    }
    if upto > 0 && keys[order[upto - 1]] <= keys[i] && pos < upto {
        assert(keys[i] < keys[order[upto - 1]]);
    }
}

proof fn lemma_order_upto(keys: Seq<int>, n: int)
    requires
        0 <= n <= keys.len(),
    ensures
        is_stable_order(order_upto(keys, n), keys, n),
    decreases n,
{
    if n > 0 {
        lemma_order_upto(keys, n - 1);
        lemma_placed(order_upto(keys, n - 1), keys, n - 1);
    }
}

/// Ordering loses and repeats nothing, keys rise, and equal keys keep their order.
pub proof fn law_stable_order(keys: Seq<int>)
    ensures
        is_stable_order(stable_order(keys), keys, keys.len() as int),
{
    lemma_order_upto(keys, keys.len() as int);
}

proof fn lemma_order_lists_all(order: Seq<int>, keys: Seq<int>, i: int)
    requires
        is_stable_order(order, keys, keys.len() as int),
        0 <= i < keys.len(),
    ensures
        order.contains(i),
{
    let n = keys.len() as int;
    let range = vstd::set_lib::set_int_range(0, n);
    vstd::set_lib::lemma_int_range(0, n);
    assert(order.no_duplicates());
    order.unique_seq_to_set();
    assert forall|x: int| order.to_set().contains(x) implies range.contains(x) by {
        let k = choose|k: int| 0 <= k < order.len() && order[k] == x;
        assert(0 <= order[k] < n);
    }
    vstd::set_lib::lemma_subset_equality(order.to_set(), range);
    assert(range.contains(i));
}

proof fn lemma_same_start(a: Seq<int>, b: Seq<int>, keys: Seq<int>, k: int)
    requires
        is_stable_order(a, keys, keys.len() as int),
        is_stable_order(b, keys, keys.len() as int),
        0 <= k <= keys.len(),
    ensures
        forall|j: int| 0 <= j < k ==> a[j] == b[j],
    decreases k,
{
    if k > 0 {
        let l = k - 1;
        lemma_same_start(a, b, keys, l);
        lemma_order_lists_all(a, keys, b[l]);
        lemma_order_lists_all(b, keys, a[l]);
        let x = choose|x: int| 0 <= x < a.len() && a[x] == b[l];
        let y = choose|y: int| 0 <= y < b.len() && b[y] == a[l];
        if x < l {
            assert(b[x] != b[l]);
        }
        if y < l {
            assert(a[y] != a[l]);
        }
    }
}

/// There is one such order.
pub proof fn law_one_stable_order(order: Seq<int>, keys: Seq<int>)
    requires
        is_stable_order(order, keys, keys.len() as int),
    ensures
        order == stable_order(keys),
{
    law_stable_order(keys);
    lemma_same_start(order, stable_order(keys), keys, keys.len() as int);
    assert(order =~= stable_order(keys));
}

/// `rows` in the order of `order`.
pub open spec fn arranged<A>(rows: Seq<A>, order: Seq<int>) -> Seq<A> {
    Seq::new(order.len(), |k: int| rows[order[k]])
}

/// Rows arranged by [`stable_order`] are the rows they were, each as often as before.
pub proof fn law_ordering_permutes<A>(rows: Seq<A>, keys: Seq<int>)
    requires
        rows.len() == keys.len(),
    ensures
        arranged(rows, stable_order(keys)).to_multiset() == rows.to_multiset(),
{
    lemma_order_upto(keys, keys.len() as int);
    law_one_stable_order(order_upto(keys, keys.len() as int), keys);
    lemma_arranged_upto(rows, keys, keys.len() as int);
    assert(rows.take(keys.len() as int) =~= rows);
}

proof fn lemma_arranged_upto<A>(rows: Seq<A>, keys: Seq<int>, n: int)
    requires
        0 <= n <= keys.len(),
        rows.len() == keys.len(),
    ensures
        arranged(rows, order_upto(keys, n)).to_multiset() == rows.take(n).to_multiset(),
    decreases n,
{
    broadcast use vstd::seq_lib::group_to_multiset_ensures;

    if n == 0 {
        assert(arranged(rows, order_upto(keys, n)) =~= rows.take(n));
    } else {
        let order = order_upto(keys, n - 1);
        lemma_arranged_upto(rows, keys, n - 1);
        lemma_place_bounds(order, keys, n - 1);
        let pos = place_of(order, keys, n - 1);
        let was = arranged(rows, order);
        assert(arranged(rows, order_upto(keys, n)) =~= was.insert(pos, rows[n - 1]));
        assert(rows.take(n) =~= rows.take(n - 1).push(rows[n - 1]));
    }
}

/// The integers a vector of machine integers holds.
pub open spec fn as_ints(v: Seq<i64>) -> Seq<int> {
    Seq::new(v.len(), |i: int| v[i] as int)
}

/// The integers a vector of indices holds.
pub open spec fn as_indices(v: Seq<usize>) -> Seq<int> {
    Seq::new(v.len(), |i: int| v[i] as int)
}

/// Sorts the indices of `keys` by rising key, equal keys in their given order.
pub fn sort_indices(keys: &Vec<i64>) -> (order: Vec<usize>)
    ensures
        as_indices(order@) == stable_order(as_ints(keys@)),
{
    let ghost ks = as_ints(keys@);
    let mut order: Vec<usize> = Vec::new();
    let mut n: usize = 0;
    assert(as_indices(order@) =~= order_upto(ks, 0));
    while n < keys.len()
        invariant
            n <= keys.len(),
            ks == as_ints(keys@),
            as_indices(order@) == order_upto(ks, n as int),
        decreases keys.len() - n,
    {
        let ghost before = as_indices(order@);
        proof {
            lemma_order_upto(ks, n as int);
            assert forall|k: int| 0 <= k < order@.len() implies #[trigger] order@[k]
                < keys.len() by {
                assert(before[k] < n);
            }
        }
        let mut pos: usize = order.len();
        while pos > 0 && keys[order[pos - 1]] > keys[n]
            invariant
                pos <= order.len(),
                n < keys.len(),
                ks == as_ints(keys@),
                before == as_indices(order@),
                is_stable_order(before, ks, n as int),
                forall|k: int| pos <= k < order.len() ==> ks[n as int] < ks[#[trigger] before[k]],
                forall|k: int| 0 <= k < order@.len() ==> #[trigger] order@[k] == before[k],
                forall|k: int| 0 <= k < order@.len() ==> #[trigger] order@[k] < keys.len(),
            decreases pos,
        {
            pos -= 1;
            assert(ks[n as int] < ks[before[pos as int]]);
        }
        proof {
            lemma_placed_at(before, ks, n as int, pos as int);
        }
        order.insert(pos, n);
        assert(as_indices(order@) =~= before.insert(pos as int, n as int));
        n += 1;
    }
    proof {
        lemma_order_upto(ks, n as int);
        law_one_stable_order(as_indices(order@), ks);
    }
    order
}

/// Sorted indices name every place once, by rising key, equal keys in their given order.
pub proof fn law_sorted_indices(keys: Seq<i64>, order: Seq<usize>, i: int)
    requires
        as_indices(order) == stable_order(as_ints(keys)),
    ensures
        order.len() == keys.len(),
        forall|k: int| 0 <= k < order.len() ==> #[trigger] order[k] < keys.len(),
        0 <= i < keys.len() ==> exists|k: int| 0 <= k < order.len() && #[trigger] order[k] == i,
        forall|j: int, k: int|
            0 <= j < k < order.len() ==> keys[(#[trigger] order[j]) as int] < keys[(
            #[trigger] order[k]) as int] || (keys[order[j] as int] == keys[order[k] as int]
                && order[j] < order[k]),
{
    let ks = as_ints(keys);
    let at = as_indices(order);
    law_stable_order(ks);
    assert forall|k: int| 0 <= k < order.len() implies #[trigger] order[k] < keys.len() by {
        assert(0 <= at[k] < ks.len());
    }
    if 0 <= i < keys.len() {
        lemma_order_lists_all(at, ks, i);
        let k = choose|k: int| 0 <= k < at.len() && at[k] == i;
        assert(order[k] == i);
    }
    assert forall|j: int, k: int| 0 <= j < k < order.len() implies keys[(
    #[trigger] order[j]) as int] < keys[(#[trigger] order[k]) as int] || (keys[order[j] as int]
        == keys[order[k] as int] && order[j] < order[k]) by {
        assert(at[j] == order[j] && at[k] == order[k]);
        assert(ks[at[j]] == keys[order[j] as int] && ks[at[k]] == keys[order[k] as int]);
    }
}

} // verus!
