//! Tables of byte strings by key, as sequences of pairs.
use vstd::prelude::*;

verus! {

/// The pairs as a map; a later pair supersedes an earlier one of the same key.
pub open spec fn pair_map<K>(pairs: Seq<(K, Seq<u8>)>) -> Map<K, Seq<u8>>
    decreases pairs.len(),
{
    if pairs.len() == 0 {
        Map::empty()
    } else {
        pair_map(pairs.drop_last()).insert(pairs.last().0, pairs.last().1)
    }
}

/// No two pairs share a key.
pub open spec fn distinct_keys<K>(pairs: Seq<(K, Seq<u8>)>) -> bool {
    forall|i: int, j: int|
        0 <= i < j < pairs.len() ==> (#[trigger] pairs[i]).0 != (#[trigger] pairs[j]).0
}

/// The map holds each pair, nothing else, and as many keys as there are pairs.
pub proof fn lemma_pair_map<K>(pairs: Seq<(K, Seq<u8>)>)
    requires
        distinct_keys(pairs),
    ensures
        forall|i: int|
            0 <= i < pairs.len() ==> pair_map(pairs).contains_key((#[trigger] pairs[i]).0)
                && pair_map(pairs)[pairs[i].0] == pairs[i].1,
        forall|k: K| #[trigger]
            pair_map(pairs).contains_key(k) ==> exists|i: int|
                0 <= i < pairs.len() && (#[trigger] pairs[i]).0 == k,
        pair_map(pairs).dom().finite(),
        pair_map(pairs).len() == pairs.len(),
    decreases pairs.len(),
{
    let m = pair_map(pairs);
    if pairs.len() > 0 {
        let t = pairs.drop_last();
        let n = pair_map(t);
        assert forall|i: int, j: int| 0 <= i < j < t.len() implies (#[trigger] t[i]).0 != (
        #[trigger] t[j]).0 by {
            assert(pairs[i] == t[i] && pairs[j] == t[j]);
        }
        lemma_pair_map(t);
        assert forall|i: int| 0 <= i < pairs.len() implies m.contains_key((#[trigger] pairs[i]).0)
            && m[pairs[i].0] == pairs[i].1 by {
            if i < t.len() {
                assert(t[i] == pairs[i]);
                assert(pairs[i].0 != pairs[pairs.len() - 1].0);
            }
        }
        assert forall|k: K| #[trigger] m.contains_key(k) implies exists|i: int|
            0 <= i < pairs.len() && (#[trigger] pairs[i]).0 == k by {
            if k == pairs.last().0 {
                assert(pairs[pairs.len() - 1].0 == k);
            } else {
                assert(n.contains_key(k));
                let i = choose|i: int| 0 <= i < t.len() && (#[trigger] t[i]).0 == k;
                assert(pairs[i].0 == k);
            }
        }
        if n.contains_key(pairs.last().0) {
            let i = choose|i: int| 0 <= i < t.len() && (#[trigger] t[i]).0 == pairs.last().0;
            assert(pairs[i].0 != pairs[pairs.len() - 1].0);
        }
        assert(m.dom() =~= n.dom().insert(pairs.last().0));
    } else {
        assert(m.dom() =~= Set::<K>::empty());
    }
}

/// Two tables of distinct keys with the same pairs in another order are the same map.
pub proof fn lemma_same_pairs<K>(a: Seq<(K, Seq<u8>)>, m: Map<K, Seq<u8>>)
    requires
        distinct_keys(a),
        forall|i: int|
            0 <= i < a.len() ==> m.contains_key((#[trigger] a[i]).0) && m[a[i].0] == a[i].1,
        forall|k: K| #[trigger]
            m.contains_key(k) ==> exists|i: int| 0 <= i < a.len() && (#[trigger] a[i]).0 == k,
    ensures
        pair_map(a) == m,
{
    lemma_pair_map(a);
    let n = pair_map(a);
    assert forall|k: K| #[trigger] n.contains_key(k) == m.contains_key(k) by {
        if m.contains_key(k) {
            let i = choose|i: int| 0 <= i < a.len() && (#[trigger] a[i]).0 == k;
            assert(n.contains_key(a[i].0));
        }
        if n.contains_key(k) {
            let i = choose|i: int| 0 <= i < a.len() && (#[trigger] a[i]).0 == k;
            assert(m.contains_key(a[i].0));
        }
    }
    assert forall|k: K| #[trigger] n.contains_key(k) implies n[k] == m[k] by {
        let i = choose|i: int| 0 <= i < a.len() && (#[trigger] a[i]).0 == k;
        assert(n[a[i].0] == a[i].1);
    }
    assert(n =~= m);
}

/// Giving a key that is there another value.
pub proof fn lemma_pair_update<K>(pairs: Seq<(K, Seq<u8>)>, i: int, value: Seq<u8>)
    requires
        distinct_keys(pairs),
        0 <= i < pairs.len(),
    ensures
        distinct_keys(pairs.update(i, (pairs[i].0, value))),
        pair_map(pairs.update(i, (pairs[i].0, value))) == pair_map(pairs).insert(pairs[i].0, value),
{
    let key = pairs[i].0;
    let out = pairs.update(i, (key, value));
    let m = pair_map(pairs).insert(key, value);
    lemma_pair_map(pairs);
    assert forall|a: int, b: int| 0 <= a < b < out.len() implies (#[trigger] out[a]).0 != (
    #[trigger] out[b]).0 by {
        assert(pairs[a].0 != pairs[b].0);
    }
    assert forall|a: int| 0 <= a < out.len() implies m.contains_key((#[trigger] out[a]).0)
        && m[out[a].0] == out[a].1 by {
        if a < i {
            assert(pairs[a].0 != pairs[i].0);
        } else if a > i {
            assert(pairs[i].0 != pairs[a].0);
        }
    }
    assert forall|k: K| #[trigger] m.contains_key(k) implies exists|a: int|
        0 <= a < out.len() && (#[trigger] out[a]).0 == k by {
        if k == key {
            assert(out[i].0 == k);
        } else {
            assert(pair_map(pairs).contains_key(k));
            let a = choose|a: int| 0 <= a < pairs.len() && (#[trigger] pairs[a]).0 == k;
            assert(out[a].0 == k);
        }
    }
    lemma_same_pairs(out, m);
}

/// Adding a key that is not there.
pub proof fn lemma_pair_insert<K>(pairs: Seq<(K, Seq<u8>)>, i: int, key: K, value: Seq<u8>)
    requires
        distinct_keys(pairs),
        0 <= i <= pairs.len(),
        forall|j: int| 0 <= j < pairs.len() ==> (#[trigger] pairs[j]).0 != key,
    ensures
        distinct_keys(pairs.insert(i, (key, value))),
        pair_map(pairs.insert(i, (key, value))) == pair_map(pairs).insert(key, value),
{
    let out = pairs.insert(i, (key, value));
    let m = pair_map(pairs).insert(key, value);
    lemma_pair_map(pairs);
    assert forall|a: int| 0 <= a < out.len() implies #[trigger] out[a] == if a < i {
        pairs[a]
    } else if a == i {
        (key, value)
    } else {
        pairs[a - 1]
    } by {}
    assert forall|k: K| #[trigger] m.contains_key(k) implies exists|a: int|
        0 <= a < out.len() && (#[trigger] out[a]).0 == k by {
        if k == key {
            assert(out[i].0 == k);
        } else {
            assert(pair_map(pairs).contains_key(k));
            let a = choose|a: int| 0 <= a < pairs.len() && (#[trigger] pairs[a]).0 == k;
            if a < i {
                assert(out[a].0 == k);
            } else {
                assert(out[a + 1].0 == k);
            }
        }
    }
    lemma_same_pairs(out, m);
}

/// Removing a key that is there.
pub proof fn lemma_pair_remove<K>(pairs: Seq<(K, Seq<u8>)>, i: int)
    requires
        distinct_keys(pairs),
        0 <= i < pairs.len(),
    ensures
        distinct_keys(pairs.remove(i)),
        pair_map(pairs.remove(i)) == pair_map(pairs).remove(pairs[i].0),
{
    let out = pairs.remove(i);
    let m = pair_map(pairs).remove(pairs[i].0);
    lemma_pair_map(pairs);
    assert forall|a: int| 0 <= a < out.len() implies #[trigger] out[a] == if a < i {
        pairs[a]
    } else {
        pairs[a + 1]
    } by {}
    assert forall|k: K| #[trigger] m.contains_key(k) implies exists|a: int|
        0 <= a < out.len() && (#[trigger] out[a]).0 == k by {
        assert(pair_map(pairs).contains_key(k));
        let a = choose|a: int| 0 <= a < pairs.len() && (#[trigger] pairs[a]).0 == k;
        if a < i {
            assert(out[a].0 == k);
        } else {
            assert(out[a - 1].0 == k);
        }
    }
    lemma_same_pairs(out, m);
}

} // verus!
