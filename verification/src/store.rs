use crate::error::CacheError;
use vstd::prelude::*;

verus! {

/// Identifies one entry of a [`NodeStore`]: the slot it lives in and the
/// generation the slot had when the entry was put there.
#[derive(Clone, Copy, Debug, PartialEq, Eq, Structural)]
pub struct Handle {
    pub index: usize,
    pub generation: u64,
}

/// A node of the recency chain: a key, its value, and the handles of its
/// neighbours. `prev` points towards the front (more recently used), `next`
/// towards the back.
pub struct LruEntry<T> {
    pub key: String,
    pub data: T,
    pub next: Option<Handle>,
    pub prev: Option<Handle>,
}

/// One cell of the arena. The generation counts how many entries the cell has
/// already seen leave.
struct Slot<T> {
    generation: u64,
    entry: Option<LruEntry<T>>,
}

/// An arena that owns every entry and hands out handles to them.
pub struct NodeStore<T> {
    slots: Vec<Slot<T>>,
    free: Vec<usize>,
}

impl<T> View for NodeStore<T> {
    type V = Map<Handle, LruEntry<T>>;

    /// The live entries, by handle.
    closed spec fn view(&self) -> Map<Handle, LruEntry<T>> {
        Map::new(
            |h: Handle| self.occupied(h),
            |h: Handle| self.slots@[h.index as int].entry.unwrap(),
        )
    }
}

impl<T> NodeStore<T> {
    spec fn occupied(&self, h: Handle) -> bool {
        &&& h.index < self.slots@.len()
        &&& self.slots@[h.index as int].generation == h.generation
        &&& self.slots@[h.index as int].entry is Some
    }

    /// The handle named an entry that has since been freed.
    pub closed spec fn is_retired(&self, h: Handle) -> bool {
        &&& h.index < self.slots@.len()
        &&& h.generation < self.slots@[h.index as int].generation
    }

    /// The free list names vacant, reusable slots, each once.
    pub closed spec fn wf(&self) -> bool {
        &&& forall|i: int|
            0 <= i < self.free@.len() ==> {
                &&& (#[trigger] self.free@[i]) < self.slots@.len()
                &&& self.slots@[self.free@[i] as int].entry is None
                &&& self.slots@[self.free@[i] as int].generation < u64::MAX
            }
        &&& forall|i: int, j: int|
            0 <= i < j < self.free@.len() ==> self.free@[i] != self.free@[j]
        &&& forall|i: int|
            0 <= i < self.slots@.len() && (#[trigger] self.slots@[i]).entry is Some
                ==> self.slots@[i].generation < u64::MAX
    }

    /// A retired handle is never live.
    pub proof fn lemma_retired_is_dead(&self, h: Handle)
        requires
            self.is_retired(h),
        ensures
            !self@.contains_key(h),
    {
    }

    /// An empty store.
    pub fn new() -> (store: Self)
        ensures
            store.wf(),
            store@ == Map::<Handle, LruEntry<T>>::empty(),
            forall|h: Handle| !store.is_retired(h),
    {
        let store = NodeStore { slots: Vec::new(), free: Vec::new() };
        assert(store@ =~= Map::<Handle, LruEntry<T>>::empty());
        store
    }

    /// Whether `handle` names a live entry.
    pub fn is_live(&self, handle: Handle) -> (live: bool)
        ensures
            live == self@.contains_key(handle),
    {
        handle.index < self.slots.len() && self.slots[handle.index].generation
            == handle.generation && self.slots[handle.index].entry.is_some()
    }

    /// Stores a new entry with no neighbours and returns its handle, which is
    /// neither live nor retired before the call.
    pub fn allocate(&mut self, key: String, value: T) -> (handle: Handle)
        requires
            old(self).wf(),
        ensures
            final(self).wf(),
            !old(self)@.contains_key(handle),
            !old(self).is_retired(handle),
            final(self)@ == old(self)@.insert(
                handle,
                (LruEntry { key, data: value, next: None, prev: None }),
            ),
            forall|h: Handle| old(self).is_retired(h) <==> final(self).is_retired(h),
    {
        let entry = LruEntry { key, data: value, next: None, prev: None };
        match self.free.pop() {
            Some(index) => {
                let generation = self.slots[index].generation;
                self.slots[index].entry = Some(entry);
                let handle = Handle { index, generation };
                assert(self@ =~= old(self)@.insert(handle, entry));
                handle
            },
            None => {
                let index = self.slots.len();
                self.slots.push(Slot { generation: 0, entry: Some(entry) });
                let handle = Handle { index, generation: 0 };
                assert(self@ =~= old(self)@.insert(handle, entry));
                handle
            },
        }
    }

    /// The entry that `handle` names, or `InvalidHandle` if it names none.
    pub fn resolve(&self, handle: Handle) -> (res: Result<&LruEntry<T>, CacheError>)
        ensures
            match res {
                Ok(entry) => self@.contains_key(handle) && *entry == self@[handle],
                Err(e) => e == CacheError::InvalidHandle && !self@.contains_key(handle),
            },
    {
        if handle.index < self.slots.len() && self.slots[handle.index].generation
            == handle.generation {
            match &self.slots[handle.index].entry {
                Some(entry) => Ok(entry),
                None => Err(CacheError::InvalidHandle),
            }
        } else {
            Err(CacheError::InvalidHandle)
        }
    }

    /// Mutable access to the entry that `handle` names, or `InvalidHandle` if
    /// it names none. Whatever the caller writes through the reference is what
    /// the store then holds under `handle`; nothing else changes.
    pub fn resolve_mut(&mut self, handle: Handle) -> (res: Result<&mut LruEntry<T>, CacheError>)
        requires
            old(self).wf(),
        ensures
            final(self).wf(),
            forall|h: Handle| old(self).is_retired(h) <==> final(self).is_retired(h),
            match res {
                Ok(entry) => {
                    &&& old(self)@.contains_key(handle)
                    &&& *entry == old(self)@[handle]
                    &&& final(self)@ =~= old(self)@.insert(handle, *final(entry))
                },
                Err(e) => {
                    &&& e == CacheError::InvalidHandle
                    &&& !old(self)@.contains_key(handle)
                    &&& *final(self) == *old(self)
                },
            },
    {
        if !self.is_live(handle) {
            return Err(CacheError::InvalidHandle);
        }
        match &mut self.slots[handle.index].entry {
            Some(entry) => Ok(entry),
            None => Err(CacheError::InvalidHandle),
        }
    }

    /// Takes the entry that `handle` names out of the store. The handle is
    /// retired for good: no later `allocate` returns it again. A handle that
    /// names no live entry gives `InvalidHandle` and changes nothing.
    pub fn free(&mut self, handle: Handle) -> (res: Result<LruEntry<T>, CacheError>)
        requires
            old(self).wf(),
        ensures
            final(self).wf(),
            match res {
                Ok(entry) => {
                    &&& old(self)@.contains_key(handle)
                    &&& entry == old(self)@[handle]
                    &&& final(self)@ == old(self)@.remove(handle)
                    &&& forall|h: Handle|
                        final(self).is_retired(h) <==> old(self).is_retired(h) || h == handle
                },
                Err(e) => {
                    &&& e == CacheError::InvalidHandle
                    &&& !old(self)@.contains_key(handle)
                    &&& *final(self) == *old(self)
                },
            },
    {
        if !self.is_live(handle) {
            return Err(CacheError::InvalidHandle);
        }
        let slot = &mut self.slots[handle.index];
        let taken = slot.entry.take();
        slot.generation = slot.generation + 1;
        let reusable = slot.generation < u64::MAX;
        if reusable {
            self.free.push(handle.index);
        }
        assert(self@ =~= old(self)@.remove(handle));
        match taken {
            Some(entry) => Ok(entry),
            None => Err(CacheError::InvalidHandle),
        }
    }
}

} // verus!
