use crate::chain::{
    all_linked, index_exact, keys_of, lemma_keys_distinct, lemma_link_front,
    lemma_payload_keeps_index, lemma_unlink, lemma_unlink_keys, link_at, node_linked, relinked,
    same_payload, unlinked, values_of,
};
use crate::error::CacheError;
use crate::model::{lemma_promoted_front, without, CacheView};
use crate::store::{Handle, LruEntry, NodeStore};
use vstd::hash_map::StringHashMap;
use vstd::prelude::*;

verus! {

/// A key-value store that keeps its entries in order of last use.
///
/// The entries live in a [`NodeStore`]; an index finds the handle of a key,
/// and the entries are chained through their `prev` and `next` handles from
/// `front` (most recently used) to `back` (least recently used).
pub struct LruCache<T> {
    cache: StringHashMap<Handle>,
    store: NodeStore<T>,
    front: Option<Handle>,
    back: Option<Handle>,
    chain: Ghost<Seq<Handle>>,
}

impl<T> View for LruCache<T> {
    type V = CacheView<T>;

    /// The keys along the chain, and the value that the index leads to from
    /// each key.
    open spec fn view(&self) -> CacheView<T> {
        CacheView {
            order: keys_of(self.chain(), self.nodes()),
            map: values_of(self.index(), self.nodes()),
        }
    }
}

impl<T> LruCache<T> {
    /// The store that owns the entries.
    pub closed spec fn arena(&self) -> NodeStore<T> {
        self.store
    }

    /// The live entries, by handle.
    pub open spec fn nodes(&self) -> Map<Handle, LruEntry<T>> {
        self.arena()@
    }

    /// The handles of the chained entries, front first.
    pub closed spec fn chain(&self) -> Seq<Handle> {
        self.chain@
    }

    /// The handle that the index holds for each key.
    pub closed spec fn index(&self) -> Map<Seq<char>, Handle> {
        self.cache@
    }

    /// The handle kept as the front of the chain.
    pub closed spec fn head(&self) -> Option<Handle> {
        self.front
    }

    /// The handle kept as the back of the chain.
    pub closed spec fn tail(&self) -> Option<Handle> {
        self.back
    }

    /// The handle named an entry of this cache that has since been removed.
    /// Such a handle never names an entry again.
    pub open spec fn retired(&self, handle: Handle) -> bool {
        self.arena().is_retired(handle)
    }

    /// The chain is a proper doubly linked list over live entries, `head` and
    /// `tail` name its two ends (and nothing where it is empty), and the index
    /// is exact.
    pub open spec fn sound(&self) -> bool {
        &&& self.arena().wf()
        &&& all_linked(self.chain(), self.nodes())
        &&& self.head() == link_at(self.chain(), 0)
        &&& self.tail() == link_at(self.chain(), self.chain().len() - 1)
        &&& index_exact(self.index(), self.nodes())
    }

    /// The invariant of the cache: it is sound, and the chain visits every
    /// live entry.
    pub open spec fn wf(&self) -> bool {
        &&& self.sound()
        &&& forall|h: Handle| #[trigger] self.nodes().contains_key(h) ==> self.chain().contains(h)
    }

    /// The state between `close_gap` and `attach_front`: as `wf`, but the live
    /// entry `out` is not in the chain.
    pub open spec fn wf_except(&self, out: Handle) -> bool {
        &&& self.sound()
        &&& self.nodes().contains_key(out)
        &&& !self.chain().contains(out)
        &&& forall|h: Handle| #[trigger]
            self.nodes().contains_key(h) && h != out ==> self.chain().contains(h)
    }

    /// In a well-formed cache each key stands once in the order, the order
    /// lists exactly the keys that have a value, and the chain is as long as
    /// the order.
    pub proof fn lemma_view_consistent(&self)
        requires
            self.wf(),
        ensures
            self@.consistent(),
            self@.order.len() == self.chain().len(),
            self@.map.dom() == self.index().dom(),
    {
        lemma_keys_distinct(self.index(), self.chain(), self.nodes());
        let order = self@.order;
        assert forall|k: Seq<char>| order.to_set().contains(k) <==> self@.map.dom().contains(
            k,
        ) by {
            if order.contains(k) {
                assert(node_linked(self.chain(), self.nodes(), order.index_of(k)));
            }
            if self.index().contains_key(k) {
                let h = self.index()[k];
                assert(self.chain().contains(h));
                assert(order[self.chain().index_of(h)] == k);
            }
        }
        assert(order.to_set() =~= self@.map.dom());
        assert(self@.map.dom() =~= self.index().dom());
    }

    /// In a cache that is not empty the front entry carries the most recently
    /// used key and has no `prev`, and the back entry carries the least
    /// recently used key and has no `next`. An empty cache has neither front
    /// nor back.
    pub proof fn lemma_ends(&self)
        requires
            self.wf(),
        ensures
            self@.order.len() == 0 ==> self.head() is None && self.tail() is None,
            self@.order.len() > 0 ==> {
                &&& self.head() == Some(self.chain().first())
                &&& self.nodes()[self.chain().first()].key@ == self@.order.first()
                &&& self.nodes()[self.chain().first()].prev is None
                &&& self.tail() == Some(self.chain().last())
                &&& self.nodes()[self.chain().last()].key@ == self@.order.last()
                &&& self.nodes()[self.chain().last()].next is None
            },
    {
        if self.chain().len() > 0 {
            assert(node_linked(self.chain(), self.nodes(), 0));
            assert(node_linked(self.chain(), self.nodes(), self.chain().len() - 1));
        }
    }

    /// No handle that the cache still uses is retired.
    pub proof fn lemma_retired_is_unused(&self, handle: Handle)
        requires
            self.retired(handle),
        ensures
            !self.nodes().contains_key(handle),
    {
        self.arena().lemma_retired_is_dead(handle);
    }

    /// A cache with exactly one entry names it as front and as back, and the
    /// entry has neither `prev` nor `next`: it is not linked to itself.
    pub proof fn lemma_single_entry_unlinked(&self)
        requires
            self.wf(),
            self@.order.len() == 1,
        ensures
            self.head() == Some(self.chain()[0]),
            self.tail() == self.head(),
            self.nodes()[self.chain()[0]].key@ == self@.order[0],
            self.nodes()[self.chain()[0]].prev is None,
            self.nodes()[self.chain()[0]].next is None,
    {
        assert(node_linked(self.chain(), self.nodes(), 0));
    }

    /// An empty cache.
    pub fn new() -> (cache: LruCache<T>)
        ensures
            cache.wf(),
            cache@ == CacheView::<T>::empty(),
    {
        let cache = LruCache {
            cache: StringHashMap::new(),
            store: NodeStore::new(),
            front: None,
            back: None,
            chain: Ghost(Seq::empty()),
        };
        assert(cache@.order =~= Seq::<Seq<char>>::empty());
        assert(cache@.map =~= Map::<Seq<char>, T>::empty());
        cache
    }

    /// Unlinks the entry that `handle` names from the chain: its neighbours
    /// are joined to each other, and the front and the back move inwards
    /// where the entry stood at an end. The entry stays in the store and in
    /// the index, with its own links as they were, so that `attach_front` can
    /// link it in again; until then the cache admits no other call. A handle
    /// that names no entry of the cache gives `InvalidHandle` and changes
    /// nothing.
    pub fn close_gap(&mut self, handle: Handle) -> (res: Result<(), CacheError>)
        requires
            old(self).wf(),
        ensures
            match res {
                Ok(_) => {
                    let i = old(self).chain().index_of(handle);
                    &&& old(self).chain().contains(handle)
                    &&& final(self).wf_except(handle)
                    &&& final(self).chain() == old(self).chain().remove(i)
                    &&& final(self).nodes() == unlinked(old(self).chain(), old(self).nodes(), i)
                    &&& final(self).index() == old(self).index()
                    &&& final(self)@.map == old(self)@.map
                    &&& final(self)@.order == without(
                        old(self)@.order,
                        old(self).nodes()[handle].key@,
                    )
                    &&& forall|h: Handle| final(self).retired(h) <==> old(self).retired(h)
                },
                Err(e) => {
                    &&& e == CacheError::InvalidHandle
                    &&& !old(self).chain().contains(handle)
                    &&& *final(self) == *old(self)
                },
            },
    {
        let (prev, next) = match self.store.resolve(handle) {
            Ok(entry) => (entry.prev, entry.next),
            Err(e) => {
                proof {
                    if self.chain@.contains(handle) {
                        assert(node_linked(self.chain@, self.store@, self.chain@.index_of(handle)));
                    }
                }
                return Err(e);
            },
        };
        let ghost chain = self.chain@;
        let ghost i = chain.index_of(handle);
        let ghost before = self.store@;
        proof {
            assert(chain.contains(handle));
            assert(node_linked(chain, before, i));
        }
        match prev {
            Some(p) => {
                assert(node_linked(chain, before, i - 1));
                let entry = self.store.resolve_mut(p).unwrap();
                entry.next = next;
            },
            None => {
                self.front = next;
            },
        }
        match next {
            Some(n) => {
                assert(node_linked(chain, before, i + 1));
                let entry = self.store.resolve_mut(n).unwrap();
                entry.prev = prev;
            },
            None => {
                self.back = prev;
            },
        }
        self.chain = Ghost(chain.remove(i));
        proof {
            assert(self.store@ =~= unlinked(chain, before, i));
            lemma_unlink(chain, before, i);
            lemma_payload_keeps_index(self.cache@, before, self.store@);
            lemma_unlink_keys(self.cache@, chain, before, i);
            assert forall|h: Handle| #[trigger]
                self.store@.contains_key(h) && h != handle implies self.chain@.contains(h) by {
                assert(before.contains_key(h));
                assert(chain.contains(h));
            }
        }
        Ok(())
    }

    /// Links the entry that `handle` names in as the new front: it gets no
    /// `prev`, the former front becomes its `next` and names it as `prev`, and
    /// where the chain was empty it becomes the back as well.
    pub fn attach_front(&mut self, handle: Handle)
        requires
            old(self).wf_except(handle),
        ensures
            final(self).wf(),
            final(self).chain() == seq![handle] + old(self).chain(),
            final(self).nodes() == relinked(old(self).chain(), old(self).nodes(), handle),
            final(self).index() == old(self).index(),
            final(self)@.map == old(self)@.map,
            final(self)@.order == seq![old(self).nodes()[handle].key@] + old(self)@.order,
            forall|h: Handle| final(self).retired(h) <==> old(self).retired(h),
    {
        let ghost chain = self.chain@;
        let ghost before = self.store@;
        let follower = self.front;
        let entry = self.store.resolve_mut(handle).unwrap();
        entry.prev = None;
        entry.next = follower;
        match follower {
            Some(f) => {
                assert(node_linked(chain, before, 0));
                let entry = self.store.resolve_mut(f).unwrap();
                entry.prev = Some(handle);
            },
            None => {
                self.back = Some(handle);
            },
        }
        self.front = Some(handle);
        self.chain = Ghost(seq![handle] + chain);
        proof {
            assert(self.store@ =~= relinked(chain, before, handle));
            lemma_link_front(chain, before, handle);
            lemma_payload_keeps_index(self.cache@, before, self.store@);
            assert forall|h: Handle| #[trigger]
                self.store@.contains_key(h) implies self.chain@.contains(h) by {
                assert(before.contains_key(h));
                if h == handle {
                    assert(self.chain@[0] == h);
                } else {
                    let j = chain.index_of(h);
                    assert(chain.contains(h));
                    assert(self.chain@[j + 1] == h);
                }
            }
        }
    }

    /// Makes the entry that `handle` names the front of the chain. An entry
    /// that is the front already is left alone; any other is unlinked and
    /// linked in again at the front. Either way the chain and the links are
    /// what unlinking and linking in again give. A handle that names no entry
    /// of the cache gives `InvalidHandle` and changes nothing.
    pub fn promote(&mut self, handle: Handle) -> (res: Result<(), CacheError>)
        requires
            old(self).wf(),
        ensures
            match res {
                Ok(_) => {
                    let i = old(self).chain().index_of(handle);
                    let rest = old(self).chain().remove(i);
                    &&& old(self).chain().contains(handle)
                    &&& final(self).wf()
                    &&& final(self).chain() == seq![handle] + rest
                    &&& final(self).nodes() == relinked(
                        rest,
                        unlinked(old(self).chain(), old(self).nodes(), i),
                        handle,
                    )
                    &&& same_payload(old(self).nodes(), final(self).nodes())
                    &&& final(self).index() == old(self).index()
                    &&& final(self)@ == old(self)@.touched(old(self).nodes()[handle].key@)
                    &&& forall|h: Handle| final(self).retired(h) <==> old(self).retired(h)
                },
                Err(e) => {
                    &&& e == CacheError::InvalidHandle
                    &&& !old(self).chain().contains(handle)
                    &&& *final(self) == *old(self)
                },
            },
    {
        let at_front = match self.front {
            Some(f) => f == handle,
            None => false,
        };
        if at_front {
            proof {
                let chain = self.chain@;
                let nodes = self.store@;
                assert(chain[0] == handle);
                assert(chain.index_of(handle) == 0);
                assert(node_linked(chain, nodes, 0));
                if chain.len() > 1 {
                    assert(node_linked(chain, nodes, 1));
                }
                lemma_unlink(chain, nodes, 0);
                assert(seq![handle] + chain.remove(0) =~= chain);
                assert(relinked(chain.remove(0), unlinked(chain, nodes, 0), handle) =~= nodes);
                lemma_keys_distinct(self.cache@, chain, nodes);
                lemma_promoted_front(self@.order, nodes[handle].key@);
            }
            return Ok(());
        }
        let ghost before = self.store@;
        let ghost chain = self.chain@;
        match self.close_gap(handle) {
            Ok(_) => {},
            Err(e) => {
                return Err(e);
            },
        }
        self.attach_front(handle);
        proof {
            let i = chain.index_of(handle);
            lemma_unlink(chain, before, i);
            lemma_link_front(chain.remove(i), unlinked(chain, before, i), handle);
        }
        Ok(())
    }

    /// The handle of the entry that carries `key`, if the cache holds the key.
    pub fn handle_of(&self, key: &str) -> (found: Option<Handle>)
        requires
            self.wf(),
        ensures
            match found {
                Some(handle) => {
                    &&& self@.map.contains_key(key@)
                    &&& self.index().contains_key(key@)
                    &&& self.index()[key@] == handle
                    &&& self.chain().contains(handle)
                    &&& self.nodes()[handle].key@ == key@
                    &&& self.nodes()[handle].data == self@.map[key@]
                },
                None => !self@.map.contains_key(key@) && !self.index().contains_key(key@),
            },
    {
        match self.cache.get(key) {
            Some(handle) => Some(*handle),
            None => None,
        }
    }

    /// The entry that `handle` names, with its key, its value and its links,
    /// or `InvalidHandle` if the cache holds no such entry.
    pub fn entry(&self, handle: Handle) -> (res: Result<&LruEntry<T>, CacheError>)
        ensures
            match res {
                Ok(entry) => self.nodes().contains_key(handle) && *entry == self.nodes()[handle],
                Err(e) => e == CacheError::InvalidHandle && !self.nodes().contains_key(handle),
            },
    {
        self.store.resolve(handle)
    }

    /// The handle of the most recently used entry, if there is any entry.
    pub fn front(&self) -> (handle: Option<Handle>)
        ensures
            handle == self.head(),
    {
        self.front
    }

    /// The handle of the least recently used entry, if there is any entry.
    pub fn back(&self) -> (handle: Option<Handle>)
        ensures
            handle == self.tail(),
    {
        self.back
    }

    /// Looks `key` up and makes it the most recently used key. A key that the
    /// cache does not hold gives `NotFound` and changes nothing.
    pub fn get(&mut self, key: String) -> (res: Result<&T, CacheError>)
        requires
            old(self).wf(),
        ensures
            final(self).wf(),
            match res {
                Ok(value) => {
                    &&& old(self)@.map.contains_key(key@)
                    &&& *value == old(self)@.map[key@]
                    &&& final(self)@ == old(self)@.touched(key@)
                    &&& final(self)@.order[0] == key@
                    &&& forall|h: Handle| final(self).retired(h) <==> old(self).retired(h)
                },
                Err(e) => {
                    &&& e == CacheError::NotFound
                    &&& !old(self)@.map.contains_key(key@)
                    &&& *final(self) == *old(self)
                },
            },
    {
        let handle = match self.handle_of(key.as_str()) {
            Some(handle) => handle,
            None => {
                return Err(CacheError::NotFound);
            },
        };
        self.promote(handle).unwrap();
        Ok(&self.store.resolve(handle).unwrap().data)
    }

    /// Stores `data` under `key` and makes `key` the most recently used key.
    /// Returns the value that `key` had before, if it had one.
    pub fn insert(&mut self, key: String, data: T) -> (previous: Option<T>)
        requires
            old(self).wf(),
        ensures
            final(self).wf(),
            final(self)@ == old(self)@.inserted(key@, data),
            final(self)@.order[0] == key@,
            forall|h: Handle| final(self).retired(h) <==> old(self).retired(h),
            previous == if old(self)@.map.contains_key(key@) {
                Some(old(self)@.map[key@])
            } else {
                None
            },
    {
        match self.handle_of(key.as_str()) {
            Some(handle) => {
                self.promote(handle).unwrap();
                let ghost before = self.store@;
                let mut data = data;
                let entry = self.store.resolve_mut(handle).unwrap();
                core::mem::swap(&mut entry.data, &mut data);
                proof {
                    assert forall|j: int| 0 <= j < self.chain@.len() implies #[trigger] node_linked(
                        self.chain@,
                        self.store@,
                        j,
                    ) by {
                        assert(node_linked(self.chain@, before, j));
                    }
                    assert(self@.order =~= keys_of(self.chain@, before));
                    assert(self@.map =~= old(self)@.map.insert(key@, entry.data));
                }
                Some(data)
            },
            None => {
                let ghost chain = self.chain@;
                let ghost before = self.store@;
                let handle = self.store.allocate(key.clone(), data);
                self.cache.insert(key, handle);
                proof {
                    assert forall|j: int| 0 <= j < chain.len() implies #[trigger] node_linked(
                        chain,
                        self.store@,
                        j,
                    ) by {
                        assert(node_linked(chain, before, j));
                    }
                    assert(!chain.contains(handle)) by {
                        if chain.contains(handle) {
                            assert(node_linked(chain, before, chain.index_of(handle)));
                        }
                    }
                    assert(without(old(self)@.order, key@) == old(self)@.order) by {
                        if old(self)@.order.contains(key@) {
                            assert(node_linked(chain, before, old(self)@.order.index_of(key@)));
                        }
                    }
                    assert(self@.order =~= old(self)@.order);
                    assert(self@.map =~= old(self)@.map.insert(key@, data));
                }
                self.attach_front(handle);
                None
            },
        }
    }

    /// Removes `key` and returns its value. A key that the cache does not hold
    /// gives `NotFound` and changes nothing.
    pub fn remove(&mut self, key: String) -> (res: Result<T, CacheError>)
        requires
            old(self).wf(),
        ensures
            final(self).wf(),
            match res {
                Ok(value) => {
                    &&& old(self)@.map.contains_key(key@)
                    &&& value == old(self)@.map[key@]
                    &&& final(self)@ == old(self)@.removed(key@)
                    &&& forall|h: Handle|
                        final(self).retired(h) <==> old(self).retired(h) || h == old(
                            self,
                        ).index()[key@]
                },
                Err(e) => {
                    &&& e == CacheError::NotFound
                    &&& !old(self)@.map.contains_key(key@)
                    &&& *final(self) == *old(self)
                },
            },
    {
        let handle = match self.handle_of(key.as_str()) {
            Some(handle) => handle,
            None => {
                return Err(CacheError::NotFound);
            },
        };
        self.close_gap(handle).unwrap();
        let ghost chain = self.chain@;
        let ghost before = self.store@;
        self.cache.remove(key.as_str());
        let entry = self.store.free(handle).unwrap();
        proof {
            assert forall|j: int| 0 <= j < chain.len() implies #[trigger] node_linked(
                chain,
                self.store@,
                j,
            ) by {
                assert(node_linked(chain, before, j));
            }
            assert(self@.order =~= keys_of(chain, before));
            assert(self@.map =~= old(self)@.map.remove(key@));
        }
        Ok(entry.data)
    }

    /// The least recently used key, if the cache holds any key. The order of
    /// use does not change.
    pub fn peek_lru(&self) -> (oldest: Option<&String>)
        requires
            self.wf(),
        ensures
            match oldest {
                Some(key) => self@.order.len() > 0 && key@ == self@.order.last(),
                None => self@.order.len() == 0,
            },
    {
        match self.back {
            Some(handle) => {
                assert(node_linked(self.chain@, self.store@, self.chain@.len() - 1));
                Some(&self.store.resolve(handle).unwrap().key)
            },
            None => None,
        }
    }

    /// How many keys the cache holds.
    pub fn len(&self) -> (n: usize)
        requires
            self.wf(),
        ensures
            n == self@.order.len(),
            n == self@.map.len(),
    {
        proof {
            self.lemma_view_consistent();
            self@.order.unique_seq_to_set();
        }
        self.cache.len()
    }

    /// Whether the cache holds no key.
    pub fn is_empty(&self) -> (empty: bool)
        requires
            self.wf(),
        ensures
            empty == (self@.order.len() == 0),
    {
        self.len() == 0
    }

    /// Whether the cache holds `key`. The order of use does not change.
    pub fn contains_key(&self, key: &str) -> (held: bool)
        requires
            self.wf(),
        ensures
            held == self@.map.contains_key(key@),
    {
        self.cache.contains_key(key)
    }

    /// The keys from most to least recently used, read off the chain by
    /// following `next` from the front.
    pub fn keys(&self) -> (keys: Vec<String>)
        requires
            self.wf(),
        ensures
            keys@.len() == self@.order.len(),
            forall|j: int| 0 <= j < keys@.len() ==> (#[trigger] keys@[j])@ == self@.order[j],
    {
        let mut keys: Vec<String> = Vec::new();
        let mut cursor = self.front;
        let ghost mut i: int = 0;
        while cursor.is_some()
            invariant
                self.wf(),
                0 <= i <= self.chain@.len(),
                cursor == link_at(self.chain@, i),
                keys@.len() == i,
                forall|j: int| 0 <= j < i ==> (#[trigger] keys@[j])@ == self@.order[j],
            decreases self.chain@.len() - i,
        {
            let handle = cursor.unwrap();
            assert(node_linked(self.chain@, self.store@, i));
            let entry = self.store.resolve(handle).unwrap();
            keys.push(entry.key.clone());
            cursor = entry.next;
            proof {
                i = i + 1;
            }
        }
        keys
    }

    /// The keys from least to most recently used, read off the chain by
    /// following `prev` from the back.
    pub fn keys_from_back(&self) -> (keys: Vec<String>)
        requires
            self.wf(),
        ensures
            keys@.len() == self@.order.len(),
            forall|j: int|
                0 <= j < keys@.len() ==> (#[trigger] keys@[j])@ == self@.order[keys@.len() - 1
                    - j],
    {
        let mut keys: Vec<String> = Vec::new();
        let mut cursor = self.back;
        let ghost mut i: int = 0;
        let ghost n = self.chain@.len() as int;
        while cursor.is_some()
            invariant
                self.wf(),
                n == self.chain@.len(),
                0 <= i <= n,
                cursor == link_at(self.chain@, n - 1 - i),
                keys@.len() == i,
                forall|j: int| 0 <= j < i ==> (#[trigger] keys@[j])@ == self@.order[n - 1 - j],
            decreases n - i,
        {
            let handle = cursor.unwrap();
            assert(node_linked(self.chain@, self.store@, n - 1 - i));
            let entry = self.store.resolve(handle).unwrap();
            keys.push(entry.key.clone());
            cursor = entry.prev;
            proof {
                i = i + 1;
            }
        }
        keys
    }
}

} // verus!
