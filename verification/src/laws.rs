use vstd::prelude::*;

use crate::Node;
use crate::Trie;

verus! {

/// Representation transitions are transparent: what a node stores depends
/// only on its byte-to-child mapping, never on which layout encodes it. Two
/// nodes with equal branch maps answer every lookup identically; since an
/// upgrade preserves the branch map exactly, no lookup can observe it.
pub proof fn lemma_spec_get_branches<T>(n1: Node<T>, n2: Node<T>, key: Seq<u8>, term: u8)
    requires
        n1.branches() == n2.branches(),
    ensures
        n1.spec_get(key, term) == n2.spec_get(key, term),
{
}

/// Round-trip: inserting `v` at key `k` and then looking `k` up yields
/// exactly `v`, whatever the container held before. The hypothesis is
/// `insert`'s postcondition on the views, and the conclusion drives `get`'s
/// postcondition.
pub proof fn lemma_insert_get_round_trip<T>(pre: Trie<T>, post: Trie<T>, k: Seq<u8>, v: T)
    requires
        post@ == pre@.insert(k, v),
    ensures
        post@.contains_key(k),
        post@[k] == v,
{
}

/// Displacement: inserting `v1` and then `v2` at the same key `k` leaves `v2`
/// stored, and the middle state — whose value at `k` is what the second
/// `insert` returns as displaced — holds exactly `v1`.
pub proof fn lemma_insert_displacement<T>(
    t0: Trie<T>,
    t1: Trie<T>,
    t2: Trie<T>,
    k: Seq<u8>,
    v1: T,
    v2: T,
)
    requires
        t1@ == t0@.insert(k, v1),
        t2@ == t1@.insert(k, v2),
    ensures
        t1@.contains_key(k),
        t1@[k] == v1,
        t2@.contains_key(k),
        t2@[k] == v2,
{
}

/// Prefix independence: inserting values at two different keys, one of which
/// may be a strict prefix of the other, in either order, leaves both stored
/// simultaneously with their own values.
pub proof fn lemma_prefix_independence<T>(
    t0: Trie<T>,
    t2: Trie<T>,
    k1: Seq<u8>,
    k2: Seq<u8>,
    v1: T,
    v2: T,
)
    requires
        k1 != k2,
        t2@ == t0@.insert(k1, v1).insert(k2, v2) || t2@ == t0@.insert(k2, v2).insert(k1, v1),
    ensures
        t2@.contains_key(k1),
        t2@[k1] == v1,
        t2@.contains_key(k2),
        t2@[k2] == v2,
{
}

/// A freshly constructed container stores nothing: looking up any key at all
/// yields nothing.
pub proof fn lemma_fresh_container_empty<T>(t: Trie<T>)
    requires
        t@ == Map::<Seq<u8>, T>::empty(),
    ensures
        forall|k: Seq<u8>| !t@.contains_key(k),
{
}

/// The batch's keys are pairwise distinct.
pub open spec fn distinct_keys<T>(batch: Seq<(Seq<u8>, T)>) -> bool {
    forall|i: int, j: int| #![trigger batch[i], batch[j]]
        0 <= i < j < batch.len() ==> batch[i].0 != batch[j].0
}

/// The container state reached by inserting every pair of `batch` in order,
/// starting from state `m`: each step is `insert`'s postcondition on views.
pub open spec fn insert_batch<T>(m: Map<Seq<u8>, T>, batch: Seq<(Seq<u8>, T)>) -> Map<Seq<u8>, T>
    decreases batch.len(),
{
    if batch.len() == 0 {
        m
    } else {
        insert_batch(m, batch.drop_last()).insert(batch.last().0, batch.last().1)
    }
}

/// Each pair of a distinct-keyed batch ends up stored: the batch never
/// overwrites its own entries.
proof fn lemma_insert_batch_hit<T>(m: Map<Seq<u8>, T>, batch: Seq<(Seq<u8>, T)>, i: int)
    requires
        distinct_keys(batch),
        0 <= i < batch.len(),
    ensures
        insert_batch(m, batch).contains_key(batch[i].0),
        insert_batch(m, batch)[batch[i].0] == batch[i].1,
    decreases batch.len(),
{
    if i < batch.len() - 1 {
        assert forall|x: int, y: int| #![trigger batch.drop_last()[x], batch.drop_last()[y]]
            0 <= x < y < batch.drop_last().len() implies batch.drop_last()[x].0
            != batch.drop_last()[y].0 by {
            assert(batch.drop_last()[x] == batch[x] && batch.drop_last()[y] == batch[y]);
        }
        lemma_insert_batch_hit(m, batch.drop_last(), i);
        assert(batch.drop_last()[i] == batch[i]);
        assert(batch.last() == batch[batch.len() - 1]);
        assert(batch.last().0 != batch[i].0);
    }
}

/// A key outside the batch is untouched by inserting the batch.
proof fn lemma_insert_batch_miss<T>(m: Map<Seq<u8>, T>, batch: Seq<(Seq<u8>, T)>, k: Seq<u8>)
    requires
        forall|i: int| #![trigger batch[i]] 0 <= i < batch.len() ==> batch[i].0 != k,
    ensures
        insert_batch(m, batch).contains_key(k) == m.contains_key(k),
        m.contains_key(k) ==> insert_batch(m, batch)[k] == m[k],
    decreases batch.len(),
{
    if batch.len() > 0 {
        assert forall|i: int| #![trigger batch.drop_last()[i]]
            0 <= i < batch.drop_last().len() implies batch.drop_last()[i].0 != k by {
            assert(batch.drop_last()[i] == batch[i]);
        }
        lemma_insert_batch_miss(m, batch.drop_last(), k);
        assert(batch.last() == batch[batch.len() - 1]);
    }
}

/// Order independence: inserting the same batch of distinct-keyed pairs in
/// any order produces the same container state, as observed by `get` on
/// every key. `b2` ranges over every permutation of `b1`, phrased as
/// multiset equality.
pub proof fn lemma_insert_batch_order_independent<T>(
    m: Map<Seq<u8>, T>,
    b1: Seq<(Seq<u8>, T)>,
    b2: Seq<(Seq<u8>, T)>,
)
    requires
        distinct_keys(b1),
        b1.to_multiset() == b2.to_multiset(),
    ensures
        insert_batch(m, b1) == insert_batch(m, b2),
{
    broadcast use vstd::seq_lib::group_to_multiset_ensures;

    assert(b1.no_duplicates()) by {
        assert forall|i: int, j: int|
            0 <= i < b1.len() && 0 <= j < b1.len() && i != j implies b1[i] != b1[j] by {
            if i < j {
                assert(b1[i].0 != b1[j].0);
            } else {
                assert(b1[j].0 != b1[i].0);
            }
        }
    }
    b1.lemma_multiset_has_no_duplicates();
    b2.lemma_multiset_has_no_duplicates_conv();
    assert(distinct_keys(b2)) by {
        assert forall|i: int, j: int| #![trigger b2[i], b2[j]]
            0 <= i < j < b2.len() implies b2[i].0 != b2[j].0 by {
            if b2[i].0 == b2[j].0 {
                assert(b2[i] != b2[j]);
                assert(b2.contains(b2[i]) && b2.contains(b2[j]));
                assert(b2.to_multiset().count(b2[i]) > 0 && b2.to_multiset().count(b2[j]) > 0);
                assert(b1.to_multiset().count(b2[i]) > 0 && b1.to_multiset().count(b2[j]) > 0);
                assert(b1.contains(b2[i]) && b1.contains(b2[j]));
                let x = choose|x: int| 0 <= x < b1.len() && b1[x] == b2[i];
                let y = choose|y: int| 0 <= y < b1.len() && b1[y] == b2[j];
                assert(x != y);
                if x < y {
                    assert(b1[x].0 != b1[y].0);
                } else {
                    assert(b1[y].0 != b1[x].0);
                }
            }
        }
    }
    assert forall|k: Seq<u8>|
        insert_batch(m, b1).contains_key(k) == insert_batch(m, b2).contains_key(k) by {
        if exists|i: int| 0 <= i < b1.len() && b1[i].0 == k {
            let i = choose|i: int| 0 <= i < b1.len() && b1[i].0 == k;
            lemma_insert_batch_hit(m, b1, i);
            assert(b1.contains(b1[i]));
            assert(b1.to_multiset().count(b1[i]) > 0);
            assert(b2.to_multiset().count(b1[i]) > 0);
            assert(b2.contains(b1[i]));
            let j = choose|j: int| 0 <= j < b2.len() && b2[j] == b1[i];
            lemma_insert_batch_hit(m, b2, j);
        } else {
            assert forall|i: int| #![trigger b1[i]] 0 <= i < b1.len() implies b1[i].0 != k by {}
            lemma_insert_batch_miss(m, b1, k);
            assert forall|j: int| #![trigger b2[j]] 0 <= j < b2.len() implies b2[j].0 != k by {
                if b2[j].0 == k {
                    assert(b2.contains(b2[j]));
                    assert(b2.to_multiset().count(b2[j]) > 0);
                    assert(b1.to_multiset().count(b2[j]) > 0);
                    assert(b1.contains(b2[j]));
                    let x = choose|x: int| 0 <= x < b1.len() && b1[x] == b2[j];
                    assert(b1[x].0 == k);
                }
            }
            lemma_insert_batch_miss(m, b2, k);
        }
    }
    assert forall|k: Seq<u8>| insert_batch(m, b1).contains_key(k) implies insert_batch(m, b1)[k]
        == insert_batch(m, b2)[k] by {
        if exists|i: int| 0 <= i < b1.len() && b1[i].0 == k {
            let i = choose|i: int| 0 <= i < b1.len() && b1[i].0 == k;
            lemma_insert_batch_hit(m, b1, i);
            assert(b1.contains(b1[i]));
            assert(b1.to_multiset().count(b1[i]) > 0);
            assert(b2.to_multiset().count(b1[i]) > 0);
            assert(b2.contains(b1[i]));
            let j = choose|j: int| 0 <= j < b2.len() && b2[j] == b1[i];
            lemma_insert_batch_hit(m, b2, j);
        } else {
            assert forall|i: int| #![trigger b1[i]] 0 <= i < b1.len() implies b1[i].0 != k by {}
            lemma_insert_batch_miss(m, b1, k);
            assert forall|j: int| #![trigger b2[j]] 0 <= j < b2.len() implies b2[j].0 != k by {
                if b2[j].0 == k {
                    assert(b2.contains(b2[j]));
                    assert(b2.to_multiset().count(b2[j]) > 0);
                    assert(b1.to_multiset().count(b2[j]) > 0);
                    assert(b1.contains(b2[j]));
                    let x = choose|x: int| 0 <= x < b1.len() && b1[x] == b2[j];
                    assert(b1[x].0 == k);
                }
            }
            lemma_insert_batch_miss(m, b2, k);
        }
    }
    assert(insert_batch(m, b1) =~= insert_batch(m, b2));
}

} // verus!
