//! Lists of keys and values, read as maps.
use vstd::prelude::*;

verus! {

/// Whether `key` is among the keys of `pairs`.
pub open spec fn has_key<K, V>(pairs: Seq<(K, V)>, key: K) -> bool {
    exists|i: int| 0 <= i < pairs.len() && (#[trigger] pairs[i]).0 == key
}

/// Where `key` stands in `pairs`.
pub open spec fn position<K, V>(pairs: Seq<(K, V)>, key: K) -> int {
    choose|i: int| 0 <= i < pairs.len() && (#[trigger] pairs[i]).0 == key
}

/// Whether no key occurs twice.
pub open spec fn distinct<K, V>(pairs: Seq<(K, V)>) -> bool {
    forall|i: int, j: int| 0 <= i < j < pairs.len() ==> (#[trigger] pairs[i]).0 != (#[trigger] pairs[j]).0
}

/// The map that `pairs` list.
pub open spec fn collect<K, V>(pairs: Seq<(K, V)>) -> Map<K, V> {
    Map::new(|key: K| has_key(pairs, key), |key: K| pairs[position(pairs, key)].1)
}

pub proof fn lemma_lookup<K, V>(pairs: Seq<(K, V)>, i: int)
    requires
        distinct(pairs),
        0 <= i < pairs.len(),
    ensures
        collect(pairs).dom().contains(pairs[i].0),
        collect(pairs)[pairs[i].0] == pairs[i].1,
{
    let key = pairs[i].0;
    assert(has_key(pairs, key));
    let j = position(pairs, key);
    assert(0 <= j < pairs.len() && pairs[j].0 == key);
}

pub proof fn lemma_insert<K, V>(pairs: Seq<(K, V)>, at: int, key: K, value: V)
    requires
        distinct(pairs),
        0 <= at <= pairs.len(),
        !has_key(pairs, key),
    ensures
        distinct(pairs.insert(at, (key, value))),
        collect(pairs.insert(at, (key, value))) == collect(pairs).insert(key, value),
{
    let after = pairs.insert(at, (key, value));
    assert(after[at] == (key, value));
    assert forall|i: int| 0 <= i < pairs.len() implies #[trigger] pairs[i] == after[if i < at {
        i
    } else {
        i + 1
    }] by {}
    assert forall|i: int, j: int| 0 <= i < j < after.len() implies (#[trigger] after[i]).0 != (
    #[trigger] after[j]).0 by {
        let a = if i < at { i } else { i - 1 };
        let b = if j < at { j } else { j - 1 };
        if i != at {
            assert(after[i] == pairs[a]);
        }
        if j != at {
            assert(after[j] == pairs[b]);
        }
    }
    lemma_lookup(after, at);
    assert forall|k: K| has_key(after, k) == (has_key(pairs, k) || k == key) by {
        if has_key(pairs, k) {
            let i = position(pairs, k);
            assert(pairs[i] == after[if i < at { i } else { i + 1 }]);
        }
        if has_key(after, k) && k != key {
            let i = position(after, k);
            assert(after[i] == pairs[if i < at { i } else { i - 1 }]);
        }
    }
    assert forall|k: K| has_key(pairs, k) implies collect(after)[k] == #[trigger] collect(
        pairs,
    )[k] by {
        let i = position(pairs, k);
        let j = if i < at { i } else { i + 1 };
        assert(pairs[i] == after[j]);
        lemma_lookup(pairs, i);
        lemma_lookup(after, j);
    }
    assert(collect(after) =~= collect(pairs).insert(key, value));
}

pub proof fn lemma_update<K, V>(pairs: Seq<(K, V)>, at: int, value: V)
    requires
        distinct(pairs),
        0 <= at < pairs.len(),
    ensures
        distinct(pairs.update(at, (pairs[at].0, value))),
        collect(pairs.update(at, (pairs[at].0, value))) == collect(pairs).insert(
            pairs[at].0,
            value,
        ),
{
    let key = pairs[at].0;
    let after = pairs.update(at, (key, value));
    assert(forall|i: int| 0 <= i < pairs.len() ==> (#[trigger] after[i]).0 == pairs[i].0);
    assert forall|i: int, j: int| 0 <= i < j < after.len() implies (#[trigger] after[i]).0 != (
    #[trigger] after[j]).0 by {
        assert(pairs[i].0 != pairs[j].0);
    }
    assert forall|k: K| has_key(after, k) == has_key(pairs, k) by {
        if has_key(pairs, k) {
            let i = position(pairs, k);
            assert(after[i].0 == pairs[i].0);
        }
        if has_key(after, k) {
            let i = position(after, k);
            assert(after[i].0 == pairs[i].0);
        }
    }
    assert(has_key(pairs, key));
    lemma_lookup(after, at);
    assert forall|k: K| has_key(pairs, k) && k != key implies collect(after)[k]
        == #[trigger] collect(pairs)[k] by {
        let i = position(pairs, k);
        assert(after[i] == pairs[i]);
        lemma_lookup(pairs, i);
        lemma_lookup(after, i);
    }
    assert(collect(after) =~= collect(pairs).insert(key, value));
}

pub proof fn lemma_remove<K, V>(pairs: Seq<(K, V)>, at: int)
    requires
        distinct(pairs),
        0 <= at < pairs.len(),
    ensures
        distinct(pairs.remove(at)),
        collect(pairs.remove(at)) == collect(pairs).remove(pairs[at].0),
{
    let key = pairs[at].0;
    let after = pairs.remove(at);
    assert forall|i: int| 0 <= i < after.len() implies #[trigger] after[i] == pairs[if i < at {
        i
    } else {
        i + 1
    }] by {}
    assert forall|i: int, j: int| 0 <= i < j < after.len() implies (#[trigger] after[i]).0 != (
    #[trigger] after[j]).0 by {
        assert(pairs[if i < at { i } else { i + 1 }].0 != pairs[if j < at { j } else { j + 1 }].0);
    }
    assert forall|k: K| has_key(after, k) == (has_key(pairs, k) && k != key) by {
        if has_key(pairs, k) && k != key {
            let i = position(pairs, k);
            assert(pairs[i] == after[if i < at { i } else { i - 1 }]);
        }
        if has_key(after, k) {
            let i = position(after, k);
            assert(after[i] == pairs[if i < at { i } else { i + 1 }]);
        }
    }
    assert forall|k: K| has_key(after, k) implies collect(after)[k] == #[trigger] collect(
        pairs,
    )[k] by {
        let i = position(after, k);
        let j = if i < at { i } else { i + 1 };
        assert(after[i] == pairs[j]);
        lemma_lookup(after, i);
        lemma_lookup(pairs, j);
    }
    assert(collect(after) =~= collect(pairs).remove(key));
}

} // verus!
