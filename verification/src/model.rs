use vstd::prelude::*;

verus! {

/// `order` with `key` taken out, if it is there.
pub open spec fn without(order: Seq<Seq<char>>, key: Seq<char>) -> Seq<Seq<char>> {
    if order.contains(key) {
        order.remove(order.index_of(key))
    } else {
        order
    }
}

/// `order` with `key` moved, or added, to the front.
pub open spec fn promoted(order: Seq<Seq<char>>, key: Seq<char>) -> Seq<Seq<char>> {
    seq![key] + without(order, key)
}

/// What a cache holds, as mathematics: the keys from most to least recently
/// used, and the value under each key.
pub struct CacheView<T> {
    pub order: Seq<Seq<char>>,
    pub map: Map<Seq<char>, T>,
}

/// One call on a cache, as mathematics.
pub enum Step<T> {
    Insert { key: Seq<char>, value: T },
    Get { key: Seq<char> },
    Remove { key: Seq<char> },
}

impl<T> CacheView<T> {
    /// Every key stands once in the order, and the order lists exactly the
    /// keys that have a value.
    pub open spec fn consistent(self) -> bool {
        &&& self.order.no_duplicates()
        &&& self.order.to_set() == self.map.dom()
    }

    /// The cache that holds nothing.
    pub open spec fn empty() -> Self {
        CacheView { order: Seq::empty(), map: Map::empty() }
    }

    /// The cache after `key` has been used: it stands at the front, the
    /// values are as before.
    pub open spec fn touched(self, key: Seq<char>) -> Self {
        CacheView { order: promoted(self.order, key), map: self.map }
    }

    /// The cache after `value` has been stored under `key`.
    pub open spec fn inserted(self, key: Seq<char>, value: T) -> Self {
        CacheView { order: promoted(self.order, key), map: self.map.insert(key, value) }
    }

    /// The cache after `key` has been removed.
    pub open spec fn removed(self, key: Seq<char>) -> Self {
        CacheView { order: without(self.order, key), map: self.map.remove(key) }
    }

    /// The cache after one call. A `Get` or a `Remove` of a key that the cache
    /// does not hold fails and leaves it as it was.
    pub open spec fn step(self, step: Step<T>) -> Self {
        match step {
            Step::Insert { key, value } => self.inserted(key, value),
            Step::Get { key } => if self.map.contains_key(key) {
                self.touched(key)
            } else {
                self
            },
            Step::Remove { key } => if self.map.contains_key(key) {
                self.removed(key)
            } else {
                self
            },
        }
    }

    /// The cache after a run of calls, first to last.
    pub open spec fn run(self, steps: Seq<Step<T>>) -> Self
        decreases steps.len(),
    {
        if steps.len() == 0 {
            self
        } else {
            self.run(steps.drop_last()).step(steps.last())
        }
    }

    /// The cache after `key` has been used `times` times in a row.
    pub open spec fn touched_repeatedly(self, key: Seq<char>, times: nat) -> Self
        decreases times,
    {
        if times == 0 {
            self
        } else {
            self.touched(key).touched_repeatedly(key, (times - 1) as nat)
        }
    }
}

/// Taking a key out of an order without repeats removes its one occurrence
/// and leaves every other key where it stood relative to the rest.
pub proof fn lemma_without(order: Seq<Seq<char>>, key: Seq<char>)
    requires
        order.no_duplicates(),
    ensures
        without(order, key).no_duplicates(),
        !without(order, key).contains(key),
        without(order, key).to_set() == order.to_set().remove(key),
        without(order, key).len() == if order.contains(key) {
            order.len() - 1
        } else {
            order.len() as int
        },
{
    let rest = without(order, key);
    if order.contains(key) {
        let i = order.index_of(key);
        assert forall|k: Seq<char>| rest.contains(k) <==> order.contains(k) && k != key by {
            if rest.contains(k) {
                let j = rest.index_of(k);
                if j < i {
                    assert(order[j] == k);
                } else {
                    assert(order[j + 1] == k);
                }
            }
            if order.contains(k) && k != key {
                let j = order.index_of(k);
                if j < i {
                    assert(rest[j] == k);
                } else {
                    assert(rest[j - 1] == k);
                }
            }
        }
    }
    assert(rest.to_set() =~= order.to_set().remove(key));
}

/// Moving a key to the front of an order without repeats gives an order
/// without repeats that starts with the key and holds, besides it, what the
/// order held.
pub proof fn lemma_promoted(order: Seq<Seq<char>>, key: Seq<char>)
    requires
        order.no_duplicates(),
    ensures
        promoted(order, key).no_duplicates(),
        promoted(order, key)[0] == key,
        promoted(order, key).to_set() == order.to_set().insert(key),
        promoted(order, key).len() == if order.contains(key) {
            order.len()
        } else {
            order.len() + 1
        },
{
    lemma_without(order, key);
    let rest = without(order, key);
    let moved = promoted(order, key);
    assert forall|a: int, b: int|
        0 <= a < moved.len() && 0 <= b < moved.len() && a != b implies moved[a] != moved[b] by {
        if a > 0 {
            assert(moved[a] == rest[a - 1]);
        }
        if b > 0 {
            assert(moved[b] == rest[b - 1]);
        }
    }
    assert forall|k: Seq<char>| moved.contains(k) <==> rest.contains(k) || k == key by {
        if moved.contains(k) {
            let j = moved.index_of(k);
            if j > 0 {
                assert(rest[j - 1] == k);
            }
        }
        if rest.contains(k) {
            assert(moved[rest.index_of(k) + 1] == k);
        }
        if k == key {
            assert(moved[0] == k);
        }
    }
    assert(moved.to_set() =~= order.to_set().insert(key));
}

/// A key that already stands at the front stays there, and nothing else
/// moves.
pub proof fn lemma_promoted_front(order: Seq<Seq<char>>, key: Seq<char>)
    requires
        order.no_duplicates(),
        order.len() > 0,
        order[0] == key,
    ensures
        promoted(order, key) == order,
{
    assert(order.contains(key));
    assert(order.index_of(key) == 0);
    assert(promoted(order, key) =~= order);
}

} // verus!
