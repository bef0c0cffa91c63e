//! Finite maps kept as two parallel sequences, of keys and of values.

use vstd::prelude::*;

verus! {

/// The map that sends each key to the value at the same position.
pub open spec fn assoc<V>(keys: Seq<Seq<char>>, vals: Seq<V>) -> Map<Seq<char>, V> {
    Map::new(|k: Seq<char>| keys.contains(k), |k: Seq<char>| vals[keys.index_of(k)])
}

pub proof fn lemma_assoc_at<V>(keys: Seq<Seq<char>>, vals: Seq<V>, i: int)
    requires
        keys.no_duplicates(),
        0 <= i < keys.len(),
    ensures
        assoc(keys, vals).contains_key(keys[i]),
        assoc(keys, vals)[keys[i]] == vals[i],
{
    assert(keys.contains(keys[i]));
    let j = keys.index_of(keys[i]);
    assert(keys[j] == keys[i]);
}

/// A map with the given keys and values is the one that the sequences make.
pub proof fn lemma_assoc_is<V>(keys: Seq<Seq<char>>, vals: Seq<V>, m: Map<Seq<char>, V>)
    requires
        keys.no_duplicates(),
        keys.len() == vals.len(),
        forall|k: Seq<char>| m.contains_key(k) <==> #[trigger] keys.contains(k),
        forall|i: int| 0 <= i < keys.len() ==> m[#[trigger] keys[i]] == vals[i],
    ensures
        assoc(keys, vals) == m,
{
    assert forall|k: Seq<char>| #[trigger] m.contains_key(k) implies assoc(keys, vals)[k] == m[k] by {
        assert(keys.contains(k));
        let i = keys.index_of(k);
        assert(keys[i] == k);
    }
    assert(assoc(keys, vals) =~= m);
}

pub proof fn lemma_assoc_update<V>(keys: Seq<Seq<char>>, vals: Seq<V>, i: int, v: V)
    requires
        keys.no_duplicates(),
        keys.len() == vals.len(),
        0 <= i < keys.len(),
    ensures
        assoc(keys, vals.update(i, v)) == assoc(keys, vals).insert(keys[i], v),
{
    let m = assoc(keys, vals).insert(keys[i], v);
    assert(keys.contains(keys[i]));
    assert forall|j: int| 0 <= j < keys.len() implies m[#[trigger] keys[j]] == vals.update(
        i,
        v,
    )[j] by {
        lemma_assoc_at(keys, vals, j);
    }
    lemma_assoc_is(keys, vals.update(i, v), m);
}

pub proof fn lemma_assoc_insert<V>(
    keys: Seq<Seq<char>>,
    vals: Seq<V>,
    at: int,
    k: Seq<char>,
    v: V,
)
    requires
        keys.no_duplicates(),
        keys.len() == vals.len(),
        0 <= at <= keys.len(),
        !keys.contains(k),
    ensures
        keys.insert(at, k).no_duplicates(),
        assoc(keys.insert(at, k), vals.insert(at, v)) == assoc(keys, vals).insert(k, v),
{
    let k2 = keys.insert(at, k);
    let v2 = vals.insert(at, v);
    let m = assoc(keys, vals).insert(k, v);
    assert forall|i: int, j: int| 0 <= i < k2.len() && 0 <= j < k2.len() && i != j implies k2[i]
        != k2[j] by {
        let a = if i < at { i } else { i - 1 };
        let b = if j < at { j } else { j - 1 };
        if i != at {
            assert(k2[i] == keys[a]);
            assert(keys.contains(keys[a]));
        }
        if j != at {
            assert(k2[j] == keys[b]);
            assert(keys.contains(keys[b]));
        }
    }
    assert forall|x: Seq<char>| m.contains_key(x) <==> #[trigger] k2.contains(x) by {
        if m.contains_key(x) {
            if x == k {
                assert(k2[at] == x);
            } else {
                let i = keys.index_of(x);
                assert(keys.contains(x));
                assert(keys[i] == x);
                assert(k2[if i < at { i } else { i + 1 }] == x);
            }
        }
        if k2.contains(x) {
            let i = k2.index_of(x);
            assert(k2[i] == x);
            if i != at {
                assert(keys[if i < at { i } else { i - 1 }] == x);
            }
        }
    }
    assert forall|i: int| 0 <= i < k2.len() implies m[#[trigger] k2[i]] == v2[i] by {
        if i != at {
            let a = if i < at { i } else { i - 1 };
            assert(k2[i] == keys[a]);
            lemma_assoc_at(keys, vals, a);
            assert(keys.contains(keys[a]));
        }
    }
    lemma_assoc_is(k2, v2, m);
}

pub proof fn lemma_assoc_remove<V>(keys: Seq<Seq<char>>, vals: Seq<V>, at: int)
    requires
        keys.no_duplicates(),
        keys.len() == vals.len(),
        0 <= at < keys.len(),
    ensures
        keys.remove(at).no_duplicates(),
        assoc(keys.remove(at), vals.remove(at)) == assoc(keys, vals).remove(keys[at]),
{
    let k2 = keys.remove(at);
    let v2 = vals.remove(at);
    let m = assoc(keys, vals).remove(keys[at]);
    assert forall|i: int, j: int| 0 <= i < k2.len() && 0 <= j < k2.len() && i != j implies k2[i]
        != k2[j] by {
        let a = if i < at { i } else { i + 1 };
        let b = if j < at { j } else { j + 1 };
        assert(k2[i] == keys[a]);
        assert(k2[j] == keys[b]);
    }
    assert forall|x: Seq<char>| m.contains_key(x) <==> #[trigger] k2.contains(x) by {
        if m.contains_key(x) {
            assert(keys.contains(x));
            let i = keys.index_of(x);
            assert(keys[i] == x);
            assert(k2[if i < at { i } else { i - 1 }] == x);
        }
        if k2.contains(x) {
            let i = k2.index_of(x);
            assert(k2[i] == x);
            let a = if i < at { i } else { i + 1 };
            assert(keys[a] == x);
            assert(keys.contains(x));
        }
    }
    assert forall|i: int| 0 <= i < k2.len() implies m[#[trigger] k2[i]] == v2[i] by {
        let a = if i < at { i } else { i + 1 };
        assert(k2[i] == keys[a]);
        lemma_assoc_at(keys, vals, a);
    }
    lemma_assoc_is(k2, v2, m);
}

} // verus!
