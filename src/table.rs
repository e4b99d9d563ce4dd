//! Maps given by a sequence of unique keys beside a sequence of values.
use vstd::prelude::*;

verus! {

/// No key occurs twice.
pub open spec fn unique<K>(keys: Seq<K>) -> bool {
    forall|i: int, j: int|
        0 <= i < keys.len() && 0 <= j < keys.len() && #[trigger] keys[i] == #[trigger] keys[j]
            ==> i == j
}

/// Where `k` stands among `keys`.
pub open spec fn position<K>(keys: Seq<K>, k: K) -> int {
    choose|i: int| 0 <= i < keys.len() && keys[i] == k
}

/// The map that pairs each of `keys` with the value at the same place.
pub open spec fn table<K, V>(keys: Seq<K>, vals: Seq<V>) -> Map<K, V> {
    Map::new(|k: K| keys.contains(k), |k: K| vals[position(keys, k)])
}

pub proof fn lemma_table_get<K, V>(keys: Seq<K>, vals: Seq<V>, i: int)
    requires
        unique(keys),
        keys.len() == vals.len(),
        0 <= i < keys.len(),
    ensures
        table(keys, vals).contains_key(keys[i]),
        table(keys, vals)[keys[i]] == vals[i],
{
    assert(keys.contains(keys[i]));
    let p = position(keys, keys[i]);
    assert(keys[p] == keys[i]);
}

pub proof fn lemma_table_update<K, V>(keys: Seq<K>, vals: Seq<V>, i: int, v: V)
    requires
        unique(keys),
        keys.len() == vals.len(),
        0 <= i < keys.len(),
    ensures
        table(keys, vals.update(i, v)) == table(keys, vals).insert(keys[i], v),
{
    let m = table(keys, vals.update(i, v));
    let n = table(keys, vals).insert(keys[i], v);
    assert forall|k: K| #[trigger] m.contains_key(k) == n.contains_key(k) by {
        if k == keys[i] {
            assert(keys.contains(k));
        }
    }
    assert forall|k: K| m.contains_key(k) implies #[trigger] m[k] == n[k] by {
        let p = position(keys, k);
        assert(keys[p] == k);
        if k != keys[i] {
            assert(p != i);
        }
    }
    assert(m =~= n);
}

pub proof fn lemma_table_insert<K, V>(keys: Seq<K>, vals: Seq<V>, p: int, k: K, v: V)
    requires
        unique(keys),
        keys.len() == vals.len(),
        0 <= p <= keys.len(),
        !keys.contains(k),
    ensures
        unique(keys.insert(p, k)),
        table(keys.insert(p, k), vals.insert(p, v)) == table(keys, vals).insert(k, v),
{
    let ks = keys.insert(p, k);
    let vs = vals.insert(p, v);
    assert forall|i: int, j: int|
        0 <= i < ks.len() && 0 <= j < ks.len() && #[trigger] ks[i] == #[trigger] ks[j] implies i
        == j by {
        if i < p && j > p {
            assert(keys[i] == keys[j - 1]);
        } else if i > p && j < p {
            assert(keys[i - 1] == keys[j]);
        } else if i == p && j != p {
            if j < p {
                assert(keys[j] == k);
            } else {
                assert(keys[j - 1] == k);
            }
        } else if j == p && i != p {
            if i < p {
                assert(keys[i] == k);
            } else {
                assert(keys[i - 1] == k);
            }
        } else if i < p && j < p {
            assert(keys[i] == keys[j]);
        } else if i > p && j > p {
            assert(keys[i - 1] == keys[j - 1]);
        }
    }
    let m = table(ks, vs);
    let n = table(keys, vals).insert(k, v);
    assert forall|x: K| #[trigger] m.contains_key(x) == n.contains_key(x) by {
        if ks.contains(x) {
            let q = choose|q: int| 0 <= q < ks.len() && ks[q] == x;
            if q < p {
                assert(keys[q] == x);
            } else if q > p {
                assert(keys[q - 1] == x);
            }
        }
        if keys.contains(x) {
            let q = choose|q: int| 0 <= q < keys.len() && keys[q] == x;
            if q < p {
                assert(ks[q] == x);
            } else {
                assert(ks[q + 1] == x);
            }
        }
        if x == k {
            assert(ks[p] == x);
        }
    }
    assert forall|x: K| m.contains_key(x) implies #[trigger] m[x] == n[x] by {
        let q = position(ks, x);
        assert(ks[q] == x);
        if x != k {
            let r = position(keys, x);
            assert(keys.contains(x)) by {
                if q < p {
                    assert(keys[q] == x);
                } else {
                    assert(keys[q - 1] == x);
                }
            }
            assert(keys[r] == x);
            if r < p {
                assert(ks[r] == x);
            } else {
                assert(ks[r + 1] == x);
            }
        } else {
            assert(ks[p] == k);
        }
    }
    assert(m =~= n);
}

} // verus!
