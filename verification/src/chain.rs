use crate::model::without;
use crate::store::{Handle, LruEntry};
use vstd::prelude::*;

verus! {

/// The handle at position `i` of the chain, if there is such a position.
pub open spec fn link_at(chain: Seq<Handle>, i: int) -> Option<Handle> {
    if 0 <= i < chain.len() {
        Some(chain[i])
    } else {
        None
    }
}

/// The entry at position `i` of the chain is live and names its two
/// neighbours in the chain, or nothing where it stands at an end.
pub open spec fn node_linked<T>(
    chain: Seq<Handle>,
    nodes: Map<Handle, LruEntry<T>>,
    i: int,
) -> bool {
    &&& nodes.contains_key(chain[i])
    &&& nodes[chain[i]].prev == link_at(chain, i - 1)
    &&& nodes[chain[i]].next == link_at(chain, i + 1)
}

/// The chain is a proper doubly linked list over `nodes`, with no entry in it
/// twice.
pub open spec fn all_linked<T>(chain: Seq<Handle>, nodes: Map<Handle, LruEntry<T>>) -> bool {
    &&& chain.no_duplicates()
    &&& forall|i: int| 0 <= i < chain.len() ==> #[trigger] node_linked(chain, nodes, i)
}

/// The index holds one key per live entry, and each key leads to the entry
/// that carries it.
pub open spec fn index_exact<T>(
    index: Map<Seq<char>, Handle>,
    nodes: Map<Handle, LruEntry<T>>,
) -> bool {
    &&& forall|k: Seq<char>| #[trigger]
        index.contains_key(k) ==> nodes.contains_key(index[k]) && nodes[index[k]].key@ == k
    &&& forall|h: Handle| #[trigger]
        nodes.contains_key(h) ==> index.contains_key(nodes[h].key@) && index[nodes[h].key@] == h
}

/// The keys of the chained entries, in chain order.
pub open spec fn keys_of<T>(chain: Seq<Handle>, nodes: Map<Handle, LruEntry<T>>) -> Seq<
    Seq<char>,
> {
    Seq::new(chain.len(), |i: int| nodes[chain[i]].key@)
}

/// The value under each indexed key.
pub open spec fn values_of<T>(
    index: Map<Seq<char>, Handle>,
    nodes: Map<Handle, LruEntry<T>>,
) -> Map<Seq<char>, T> {
    Map::new(|k: Seq<char>| index.contains_key(k), |k: Seq<char>| nodes[index[k]].data)
}

/// `after` holds the same entries as `before`, with the same keys and values;
/// only links may differ.
pub open spec fn same_payload<T>(
    before: Map<Handle, LruEntry<T>>,
    after: Map<Handle, LruEntry<T>>,
) -> bool {
    &&& before.dom() =~= after.dom()
    &&& forall|h: Handle| #[trigger]
        before.contains_key(h) ==> after[h].key == before[h].key && after[h].data
            == before[h].data
}

/// The entries after the one at position `i` of the chain has been unlinked:
/// its neighbours name each other, everything else is as before.
pub open spec fn unlinked<T>(
    chain: Seq<Handle>,
    nodes: Map<Handle, LruEntry<T>>,
    i: int,
) -> Map<Handle, LruEntry<T>> {
    let bridged = if i > 0 {
        let p = chain[i - 1];
        nodes.insert(
            p,
            (LruEntry {
                key: nodes[p].key,
                data: nodes[p].data,
                next: link_at(chain, i + 1),
                prev: nodes[p].prev,
            }),
        )
    } else {
        nodes
    };
    if i + 1 < chain.len() {
        let n = chain[i + 1];
        bridged.insert(
            n,
            (LruEntry {
                key: bridged[n].key,
                data: bridged[n].data,
                next: bridged[n].next,
                prev: link_at(chain, i - 1),
            }),
        )
    } else {
        bridged
    }
}

/// The entries after `handle` has been linked in before the first entry of
/// the chain.
pub open spec fn relinked<T>(
    chain: Seq<Handle>,
    nodes: Map<Handle, LruEntry<T>>,
    handle: Handle,
) -> Map<Handle, LruEntry<T>> {
    let fronted = nodes.insert(
        handle,
        (LruEntry {
            key: nodes[handle].key,
            data: nodes[handle].data,
            next: link_at(chain, 0),
            prev: None,
        }),
    );
    if chain.len() > 0 {
        let f = chain[0];
        fronted.insert(
            f,
            (LruEntry {
                key: fronted[f].key,
                data: fronted[f].data,
                next: fronted[f].next,
                prev: Some(handle),
            }),
        )
    } else {
        fronted
    }
}

/// Unlinking one entry leaves a properly linked chain of all the others.
pub proof fn lemma_unlink<T>(chain: Seq<Handle>, nodes: Map<Handle, LruEntry<T>>, i: int)
    requires
        all_linked(chain, nodes),
        0 <= i < chain.len(),
    ensures
        all_linked(chain.remove(i), unlinked(chain, nodes, i)),
        same_payload(nodes, unlinked(chain, nodes, i)),
        !chain.remove(i).contains(chain[i]),
        forall|h: Handle| chain.contains(h) && h != chain[i] ==> chain.remove(i).contains(h),
        link_at(chain.remove(i), 0) == if i == 0 {
            link_at(chain, 1)
        } else {
            link_at(chain, 0)
        },
        link_at(chain.remove(i), chain.remove(i).len() - 1) == if i == chain.len() - 1 {
            link_at(chain, i - 1)
        } else {
            link_at(chain, chain.len() - 1)
        },
{
    let rest = chain.remove(i);
    let after = unlinked(chain, nodes, i);
    if i > 0 {
        assert(node_linked(chain, nodes, i - 1));
    }
    if i + 1 < chain.len() {
        assert(node_linked(chain, nodes, i + 1));
    }
    assert(same_payload(nodes, after));
    assert forall|j: int| 0 <= j < rest.len() implies #[trigger] node_linked(rest, after, j) by {
        if j < i {
            assert(rest[j] == chain[j]);
            assert(node_linked(chain, nodes, j));
        } else {
            assert(rest[j] == chain[j + 1]);
            assert(node_linked(chain, nodes, j + 1));
        }
    }
    assert forall|h: Handle| chain.contains(h) && h != chain[i] implies rest.contains(h) by {
        let j = chain.index_of(h);
        if j < i {
            assert(rest[j] == h);
        } else {
            assert(rest[j - 1] == h);
        }
    }
}

/// Linking a live entry that is not in the chain in at the front gives a
/// properly linked chain that starts with it.
pub proof fn lemma_link_front<T>(
    chain: Seq<Handle>,
    nodes: Map<Handle, LruEntry<T>>,
    handle: Handle,
)
    requires
        all_linked(chain, nodes),
        nodes.contains_key(handle),
        !chain.contains(handle),
    ensures
        all_linked(seq![handle] + chain, relinked(chain, nodes, handle)),
        same_payload(nodes, relinked(chain, nodes, handle)),
        keys_of(seq![handle] + chain, relinked(chain, nodes, handle)) == seq![
            nodes[handle].key@,
        ] + keys_of(chain, nodes),
{
    let grown = seq![handle] + chain;
    let after = relinked(chain, nodes, handle);
    if chain.len() > 0 {
        assert(node_linked(chain, nodes, 0));
    }
    assert(same_payload(nodes, after));
    assert forall|j: int| 0 <= j < grown.len() implies #[trigger] node_linked(grown, after, j) by {
        if j > 0 {
            assert(grown[j] == chain[j - 1]);
            assert(node_linked(chain, nodes, j - 1));
        }
    }
    assert forall|a: int, b: int|
        0 <= a < grown.len() && 0 <= b < grown.len() && a != b implies grown[a] != grown[b] by {
        if a > 0 {
            assert(grown[a] == chain[a - 1]);
        }
        if b > 0 {
            assert(grown[b] == chain[b - 1]);
        }
    }
    assert forall|j: int| 0 <= j < grown.len() implies keys_of(grown, after)[j] == (seq![
        nodes[handle].key@,
    ] + keys_of(chain, nodes))[j] by {
        if j > 0 {
            assert(grown[j] == chain[j - 1]);
            assert(node_linked(chain, nodes, j - 1));
        }
    }
    assert(keys_of(grown, after) =~= seq![nodes[handle].key@] + keys_of(chain, nodes));
}

/// An exact index stays exact while the entries keep their keys, and the
/// values under the keys stay what they were while the entries keep their
/// values.
pub proof fn lemma_payload_keeps_index<T>(
    index: Map<Seq<char>, Handle>,
    before: Map<Handle, LruEntry<T>>,
    after: Map<Handle, LruEntry<T>>,
)
    requires
        index_exact(index, before),
        same_payload(before, after),
    ensures
        index_exact(index, after),
        values_of(index, after) == values_of(index, before),
{
    assert forall|h: Handle| #[trigger] after.contains_key(h) implies index.contains_key(
        after[h].key@,
    ) && index[after[h].key@] == h by {
        assert(before.contains_key(h));
    }
    assert(values_of(index, after) =~= values_of(index, before));
}

/// Under an exact index the keys along a chain without repeats are distinct.
pub proof fn lemma_keys_distinct<T>(
    index: Map<Seq<char>, Handle>,
    chain: Seq<Handle>,
    nodes: Map<Handle, LruEntry<T>>,
)
    requires
        index_exact(index, nodes),
        all_linked(chain, nodes),
    ensures
        keys_of(chain, nodes).no_duplicates(),
{
    let keys = keys_of(chain, nodes);
    assert forall|a: int, b: int|
        0 <= a < keys.len() && 0 <= b < keys.len() && a != b implies keys[a] != keys[b] by {
        assert(node_linked(chain, nodes, a));
        assert(node_linked(chain, nodes, b));
    }
}

/// Unlinking the entry at position `i` takes its key, and no other, out of
/// the key order.
pub proof fn lemma_unlink_keys<T>(
    index: Map<Seq<char>, Handle>,
    chain: Seq<Handle>,
    nodes: Map<Handle, LruEntry<T>>,
    i: int,
)
    requires
        index_exact(index, nodes),
        all_linked(chain, nodes),
        0 <= i < chain.len(),
    ensures
        keys_of(chain.remove(i), unlinked(chain, nodes, i)) == without(
            keys_of(chain, nodes),
            nodes[chain[i]].key@,
        ),
{
    let keys = keys_of(chain, nodes);
    let key = nodes[chain[i]].key@;
    lemma_keys_distinct(index, chain, nodes);
    lemma_unlink(chain, nodes, i);
    assert(keys[i] == key);
    assert(keys.contains(key));
    assert(keys.index_of(key) == i);
    let rest = chain.remove(i);
    let after = unlinked(chain, nodes, i);
    assert forall|j: int| 0 <= j < rest.len() implies keys_of(rest, after)[j] == keys.remove(
        i,
    )[j] by {
        if j < i {
            assert(rest[j] == chain[j]);
            assert(node_linked(chain, nodes, j));
        } else {
            assert(rest[j] == chain[j + 1]);
            assert(node_linked(chain, nodes, j + 1));
        }
    }
    assert(keys_of(rest, after) =~= keys.remove(i));
}

} // verus!
