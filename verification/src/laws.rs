use crate::model::{lemma_promoted, lemma_promoted_front, lemma_without, CacheView, Step};
use vstd::prelude::*;

verus! {

/// Using a key keeps the cache consistent.
pub proof fn lemma_touched_consistent<T>(view: CacheView<T>, key: Seq<char>)
    requires
        view.consistent(),
        view.map.contains_key(key),
    ensures
        view.touched(key).consistent(),
{
    lemma_promoted(view.order, key);
    assert(view.order.to_set().insert(key) =~= view.order.to_set());
}

/// Storing a value keeps the cache consistent.
pub proof fn lemma_inserted_consistent<T>(view: CacheView<T>, key: Seq<char>, value: T)
    requires
        view.consistent(),
    ensures
        view.inserted(key, value).consistent(),
{
    lemma_promoted(view.order, key);
    assert(view.map.insert(key, value).dom() =~= view.map.dom().insert(key));
}

/// Removing a key keeps the cache consistent.
pub proof fn lemma_removed_consistent<T>(view: CacheView<T>, key: Seq<char>)
    requires
        view.consistent(),
    ensures
        view.removed(key).consistent(),
{
    lemma_without(view.order, key);
    assert(view.map.remove(key).dom() =~= view.map.dom().remove(key));
}

/// Whatever calls are made on an empty cache, and in whatever order, the
/// cache stays consistent: every key stands once in the order of use, and the
/// order lists exactly the keys that have a value.
pub proof fn lemma_run_consistent<T>(steps: Seq<Step<T>>)
    ensures
        CacheView::<T>::empty().run(steps).consistent(),
    decreases steps.len(),
{
    let start = CacheView::<T>::empty();
    if steps.len() == 0 {
        assert(start.order.to_set() =~= start.map.dom());
    } else {
        lemma_run_consistent(steps.drop_last());
        let before = start.run(steps.drop_last());
        match steps.last() {
            Step::Insert { key, value } => lemma_inserted_consistent(before, key, value),
            Step::Get { key } => if before.map.contains_key(key) {
                lemma_touched_consistent(before, key);
            },
            Step::Remove { key } => if before.map.contains_key(key) {
                lemma_removed_consistent(before, key);
            },
        }
    }
}

/// A key that has just been used is the most recently used key; the cache
/// holds the same keys, as many as before, with the same values.
pub proof fn lemma_touch_promotes<T>(view: CacheView<T>, key: Seq<char>)
    requires
        view.consistent(),
        view.map.contains_key(key),
    ensures
        view.touched(key).order[0] == key,
        view.touched(key).order.len() == view.order.len(),
        view.touched(key).order.to_set() == view.order.to_set(),
        view.touched(key).map == view.map,
{
    lemma_promoted(view.order, key);
    assert(view.order.to_set().contains(key));
    assert(view.order.to_set().insert(key) =~= view.order.to_set());
}

/// A key under which a value has just been stored is the most recently used
/// key and has that value; every other key has the value it had.
pub proof fn lemma_insert_promotes<T>(view: CacheView<T>, key: Seq<char>, value: T)
    requires
        view.consistent(),
    ensures
        view.inserted(key, value).order[0] == key,
        view.inserted(key, value).map[key] == value,
        forall|other: Seq<char>|
            other != key && view.map.contains_key(other) ==> view.inserted(key, value).map[other]
                == view.map[other],
        view.inserted(key, value).order.len() == if view.map.contains_key(key) {
            view.order.len()
        } else {
            view.order.len() + 1
        },
{
    lemma_promoted(view.order, key);
    assert(view.order.contains(key) <==> view.order.to_set().contains(key));
}

/// Using the key that is the most recently used already changes nothing.
pub proof fn lemma_touch_front_is_noop<T>(view: CacheView<T>, key: Seq<char>)
    requires
        view.consistent(),
        view.order.len() > 0,
        view.order[0] == key,
    ensures
        view.touched(key) == view,
{
    lemma_promoted_front(view.order, key);
}

/// Removing a key that the cache does not hold changes nothing.
pub proof fn lemma_remove_absent<T>(view: CacheView<T>, key: Seq<char>)
    requires
        view.consistent(),
        !view.map.contains_key(key),
    ensures
        view.removed(key) == view,
{
    assert(!view.order.to_set().contains(key));
    assert(!view.order.contains(key));
    assert(view.map.remove(key) =~= view.map);
}

/// Once a key has been removed the cache does not hold it, so that removing
/// it again changes nothing.
pub proof fn lemma_remove_twice<T>(view: CacheView<T>, key: Seq<char>)
    requires
        view.consistent(),
    ensures
        !view.removed(key).map.contains_key(key),
        !view.removed(key).order.contains(key),
        view.removed(key).removed(key) == view.removed(key),
{
    lemma_removed_consistent(view, key);
    lemma_without(view.order, key);
    lemma_remove_absent(view.removed(key), key);
}

/// A cache that holds one key holds that one key, unchanged, however often
/// the key is used.
pub proof fn lemma_single_key_stable<T>(key: Seq<char>, value: T, times: nat)
    ensures
        CacheView::<T>::empty().inserted(key, value).order == seq![key],
        CacheView::<T>::empty().inserted(key, value).touched_repeatedly(key, times)
            == CacheView::<T>::empty().inserted(key, value),
    decreases times,
{
    let one = CacheView::<T>::empty().inserted(key, value);
    assert(!Seq::<Seq<char>>::empty().contains(key));
    assert(one.order =~= seq![key]);
    if times > 0 {
        assert(one.map.dom() =~= set![key]);
        assert(one.order.to_set() =~= set![key]) by {
            assert forall|k: Seq<char>| one.order.to_set().contains(k) <==> k == key by {
                if k == key {
                    assert(one.order[0] == k);
                }
            }
        }
        lemma_touch_front_is_noop(one, key);
        lemma_single_key_stable(key, value, (times - 1) as nat);
    }
}

/// Storing a second value under a key leaves the key in the cache once, at
/// the front, with the second value: the first store might as well not have
/// happened.
pub proof fn lemma_insert_overwrites<T>(view: CacheView<T>, key: Seq<char>, first: T, second: T)
    requires
        view.consistent(),
    ensures
        view.inserted(key, first).inserted(key, second) == view.inserted(key, second),
        view.inserted(key, first).inserted(key, second).map[key] == second,
        view.inserted(key, first).inserted(key, second).order[0] == key,
        forall|i: int|
            0 < i < view.inserted(key, first).inserted(key, second).order.len() ==> view.inserted(
                key,
                first,
            ).inserted(key, second).order[i] != key,
{
    let once = view.inserted(key, first);
    let twice = once.inserted(key, second);
    lemma_inserted_consistent(view, key, first);
    lemma_promoted(view.order, key);
    lemma_promoted_front(once.order, key);
    assert(twice.order == once.order);
    assert(twice.map =~= view.map.insert(key, second));
    assert forall|i: int| 0 < i < twice.order.len() implies twice.order[i] != key by {
        assert(twice.order[0] == key);
    }
}

} // verus!
