//! Occupied-or-vacant entry handles for [`crate::MultiKeyMap`].
//!
//! A handle resolves a key once: `Occupied` carries the key together with
//! the slot it was aliased to, `Vacant` retains ownership of the key for a
//! later insertion.  The insert-or-modify operations take the map they were
//! resolved against and demand, as a precondition, that the handle still
//! matches it.

use std::hash::Hash;
use vstd::prelude::*;

use crate::MultiKeyMap;

verus! {

/// A view into a single key of a [`MultiKeyMap`], resolved once.
pub enum Entry<K> {
    Occupied(OccupiedEntry<K>),
    Vacant(VacantEntry<K>),
}

/// A handle for a key that is present in the alias table.
pub struct OccupiedEntry<K> {
    key: K,
    idx: u128,
}

/// A handle for a key that is absent from the alias table, retaining
/// ownership of the key for a later insertion.
pub struct VacantEntry<K> {
    key: K,
}

impl<K> OccupiedEntry<K> {
    /// The key this handle was built for.
    pub closed spec fn spec_key(self) -> K {
        self.key
    }

    /// The slot the key was aliased to when the handle was built.
    pub closed spec fn slot(self) -> u128 {
        self.idx
    }

    /// The handle matches `m`: its key is still aliased to its slot, and
    /// that slot holds a live group.
    pub open spec fn in_map<V>(self, m: MultiKeyMap<K, V>) -> bool where K: Eq + Hash {
        &&& m.spec_contains_key(self.spec_key())
        &&& m.slot_of(self.spec_key()) == self.slot()
        &&& m.groups().contains_key(self.slot())
    }

    pub(crate) fn new_resolved(key: K, idx: u128) -> (result: Self)
        ensures
            result.spec_key() == key,
            result.slot() == idx,
    {
        OccupiedEntry { key, idx }
    }

    /// The key this handle was built for.
    pub fn key(&self) -> (result: &K)
        ensures
            *result == self.spec_key(),
    {
        &self.key
    }

    /// A reference to the value of the group the key is aliased to.
    pub fn get<'a, V>(&self, map: &'a MultiKeyMap<K, V>) -> (result: &'a V) where K: Eq + Hash
        requires
            map.wf(),
            self.in_map(*map),
        ensures
            *result == map.value_of(self.spec_key()),
    {
        map.get(&self.key).unwrap()
    }

    /// A mutable reference to the value of the group the key is aliased to.
    /// Writing through it changes the group's value; the count and every
    /// alias stay as they were.
    pub fn get_mut<'a, V>(&self, map: &'a mut MultiKeyMap<K, V>) -> (result:
        &'a mut V) where K: Eq + Hash
        requires
            old(map).wf(),
            self.in_map(*old(map)),
        ensures
            *result == old(map).value_of(self.spec_key()),
            final(map).wf(),
            final(map).aliases() == old(map).aliases(),
            final(map).counter() == old(map).counter(),
            final(map).groups() == old(map).groups().insert(
                self.slot(),
                (old(map).count_of(self.spec_key()), *final(result)),
            ),
    {
        map.get_mut(&self.key).unwrap()
    }

    /// Consumes the handle and hands back a mutable reference to the value
    /// of the group the key is aliased to, with the borrow of the map.
    pub fn into_mut<'a, V>(self, map: &'a mut MultiKeyMap<K, V>) -> (result:
        &'a mut V) where K: Eq + Hash
        requires
            old(map).wf(),
            self.in_map(*old(map)),
        ensures
            *result == old(map).value_of(self.spec_key()),
            final(map).wf(),
            final(map).aliases() == old(map).aliases(),
            final(map).counter() == old(map).counter(),
            final(map).groups() == old(map).groups().insert(
                self.slot(),
                (old(map).count_of(self.spec_key()), *final(result)),
            ),
    {
        map.get_mut(&self.key).unwrap()
    }

    /// Removes the key, respecting the reference count, exactly as
    /// [`MultiKeyMap::remove`] does: the value comes back only when this key
    /// was the sole owner of its group.
    pub fn remove<V>(self, map: &mut MultiKeyMap<K, V>) -> (result: Option<V>) where K: Eq + Hash
        requires
            old(map).wf(),
            self.in_map(*old(map)),
        ensures
            final(map).wf(),
            final(map).counter() == old(map).counter(),
            final(map).aliases() == old(map).aliases().remove(self.spec_key()),
            old(map).count_of(self.spec_key()) == 1 ==> {
                &&& result == Some(old(map).value_of(self.spec_key()))
                &&& final(map).groups() == old(map).groups().remove(self.slot())
            },
            old(map).count_of(self.spec_key()) != 1 ==> {
                &&& result is None
                &&& final(map).groups() == old(map).groups().insert(
                    self.slot(),
                    (
                        (old(map).count_of(self.spec_key()) - 1) as usize,
                        old(map).value_of(self.spec_key()),
                    ),
                )
            },
    {
        map.remove(&self.key)
    }

    /// Removes the key's group unconditionally at the slot level, whatever
    /// its remaining reference count, together with this one alias, and
    /// returns the owned key and the group's value if one existed.  Any
    /// other alias of the same former group is left dangling; this
    /// deliberately differs from the count-respecting [`Self::remove`].
    pub fn remove_entry<V>(self, map: &mut MultiKeyMap<K, V>) -> (result: (
        K,
        Option<V>,
    )) where K: Eq + Hash
        requires
            old(map).wf(),
            old(map).spec_contains_key(self.spec_key()),
            old(map).slot_of(self.spec_key()) == self.slot(),
        ensures
            final(map).wf(),
            result.0 == self.spec_key(),
            result.1 == if old(map).groups().contains_key(self.slot()) {
                Some(old(map).value_of(self.spec_key()))
            } else {
                None::<V>
            },
            final(map).aliases() == old(map).aliases().remove(self.spec_key()),
            final(map).groups() == old(map).groups().remove(self.slot()),
            final(map).counter() == old(map).counter(),
    {
        let value = map.evict_slot(&self.key, self.idx);
        (self.key, value)
    }
}

impl<K> VacantEntry<K> {
    /// The key this handle was built for.
    pub closed spec fn spec_key(self) -> K {
        self.key
    }

    pub(crate) fn new_pending(key: K) -> (result: Self)
        ensures
            result.spec_key() == key,
    {
        VacantEntry { key }
    }

    /// The key this handle was built for.
    pub fn key(&self) -> (result: &K)
        ensures
            *result == self.spec_key(),
    {
        &self.key
    }

    /// Takes ownership of the key back out of the handle.
    pub fn into_key(self) -> (result: K)
        ensures
            result == self.spec_key(),
    {
        self.key
    }

    /// Inserts `value` as a brand-new sole-owned group aliased to the
    /// pending key, and returns a reference to the stored value.
    pub fn insert<'a, V>(self, map: &'a mut MultiKeyMap<K, V>, value: V) -> (result:
        &'a V) where K: Eq + Hash
        requires
            old(map).wf(),
            !old(map).spec_contains_key(self.spec_key()),
            old(map).counter() < u128::MAX,
        ensures
            final(map).wf(),
            final(map).aliases() == old(map).aliases().insert(self.spec_key(), old(map).counter()),
            final(map).groups() == old(map).groups().insert(old(map).counter(), (1usize, value)),
            final(map).counter() == old(map).counter() + 1,
            *result == value,
    {
        map.insert_new(self.key, value)
    }
}

impl<K> Entry<K> {
    /// The key this handle was built for, in either state.
    pub open spec fn spec_key(self) -> K {
        match self {
            Entry::Occupied(e) => e.spec_key(),
            Entry::Vacant(e) => e.spec_key(),
        }
    }

    /// The handle still matches `m`: an occupied handle names a live slot
    /// its key is aliased to, a vacant handle names an absent key.
    pub open spec fn resolves<V>(self, m: MultiKeyMap<K, V>) -> bool where K: Eq + Hash {
        match self {
            Entry::Occupied(e) => e.in_map(m),
            Entry::Vacant(e) => !m.spec_contains_key(e.spec_key()),
        }
    }

    /// The key this handle was built for, in either state.
    pub fn key(&self) -> (result: &K)
        ensures
            *result == self.spec_key(),
    {
        match self {
            Entry::Occupied(e) => e.key(),
            Entry::Vacant(e) => e.key(),
        }
    }

    /// If occupied, replaces the group's value with what `f` makes of it and
    /// stays occupied; if vacant, does nothing.
    pub fn and_modify<V, F: FnOnce(V) -> V>(self, map: &mut MultiKeyMap<K, V>, f: F) -> (result:
        Self) where K: Eq + Hash
        requires
            old(map).wf(),
            self.resolves(*old(map)),
            self matches Entry::Occupied(e) ==> call_requires(
                f,
                (old(map).value_of(e.spec_key()),),
            ),
        ensures
            result == self,
            final(map).wf(),
            match self {
                Entry::Vacant(_) => *final(map) == *old(map),
                Entry::Occupied(e) => {
                    &&& final(map).aliases() == old(map).aliases()
                    &&& final(map).counter() == old(map).counter()
                    &&& exists|r: V|
                        #[trigger] call_ensures(f, (old(map).value_of(e.spec_key()),), r)
                            && final(map).groups() == old(map).groups().insert(
                            e.slot(),
                            (old(map).count_of(e.spec_key()), r),
                        )
                },
            },
    {
        if let Entry::Occupied(e) = &self {
            map.apply_at_slot(e.idx, f);
        }
        self
    }

    /// Returns a reference to the existing value when occupied; otherwise
    /// inserts `v` as a brand-new sole-owned group for the pending key.
    pub fn or_insert<'a, V>(self, map: &'a mut MultiKeyMap<K, V>, v: V) -> (result:
        &'a V) where K: Eq + Hash
        requires
            old(map).wf(),
            self.resolves(*old(map)),
            self matches Entry::Vacant(_) ==> old(map).counter() < u128::MAX,
        ensures
            final(map).wf(),
            match self {
                Entry::Occupied(e) => *final(map) == *old(map) && *result == old(map).value_of(
                    e.spec_key(),
                ),
                Entry::Vacant(e) => {
                    &&& final(map).aliases() == old(map).aliases().insert(
                        e.spec_key(),
                        old(map).counter(),
                    )
                    &&& final(map).groups() == old(map).groups().insert(
                        old(map).counter(),
                        (1usize, v),
                    )
                    &&& final(map).counter() == old(map).counter() + 1
                    &&& *result == v
                },
            },
    {
        match self {
            Entry::Occupied(e) => map.get(&e.key).unwrap(),
            Entry::Vacant(e) => map.insert_new(e.key, v),
        }
    }

    /// Like [`Self::or_insert`], but the value is computed only on the
    /// vacant path.
    pub fn or_insert_with<'a, V, F: FnOnce() -> V>(
        self,
        map: &'a mut MultiKeyMap<K, V>,
        f: F,
    ) -> (result: &'a V) where K: Eq + Hash
        requires
            old(map).wf(),
            self.resolves(*old(map)),
            self matches Entry::Vacant(_) ==> old(map).counter() < u128::MAX && call_requires(
                f,
                (),
            ),
        ensures
            final(map).wf(),
            match self {
                Entry::Occupied(e) => *final(map) == *old(map) && *result == old(map).value_of(
                    e.spec_key(),
                ),
                Entry::Vacant(e) => exists|val: V|
                    {
                        &&& #[trigger] call_ensures(f, (), val)
                        &&& final(map).aliases() == old(map).aliases().insert(
                            e.spec_key(),
                            old(map).counter(),
                        )
                        &&& final(map).groups() == old(map).groups().insert(
                            old(map).counter(),
                            (1usize, val),
                        )
                        &&& final(map).counter() == old(map).counter() + 1
                        &&& *result == val
                    },
            },
    {
        match self {
            Entry::Occupied(e) => map.get(&e.key).unwrap(),
            Entry::Vacant(e) => {
                let val = f();
                map.insert_new(e.key, val)
            },
        }
    }

    /// Like [`Self::or_insert_with`], but `f` receives the pending key.
    pub fn or_insert_with_key<'a, V, F: FnOnce(&K) -> V>(
        self,
        map: &'a mut MultiKeyMap<K, V>,
        f: F,
    ) -> (result: &'a V) where K: Eq + Hash
        requires
            old(map).wf(),
            self.resolves(*old(map)),
            self matches Entry::Vacant(e) ==> old(map).counter() < u128::MAX && call_requires(
                f,
                (&e.spec_key(),),
            ),
        ensures
            final(map).wf(),
            match self {
                Entry::Occupied(e) => *final(map) == *old(map) && *result == old(map).value_of(
                    e.spec_key(),
                ),
                Entry::Vacant(e) => exists|val: V|
                    {
                        &&& #[trigger] call_ensures(f, (&e.spec_key(),), val)
                        &&& final(map).aliases() == old(map).aliases().insert(
                            e.spec_key(),
                            old(map).counter(),
                        )
                        &&& final(map).groups() == old(map).groups().insert(
                            old(map).counter(),
                            (1usize, val),
                        )
                        &&& final(map).counter() == old(map).counter() + 1
                        &&& *result == val
                    },
            },
    {
        match self {
            Entry::Occupied(e) => map.get(&e.key).unwrap(),
            Entry::Vacant(e) => {
                let val = f(&e.key);
                map.insert_new(e.key, val)
            },
        }
    }

    /// Like [`Self::or_insert`], with the default value of `V` on the
    /// vacant path.
    pub fn or_default<'a, V: Default>(self, map: &'a mut MultiKeyMap<K, V>) -> (result:
        &'a V) where K: Eq + Hash
        requires
            old(map).wf(),
            self.resolves(*old(map)),
            self matches Entry::Vacant(_) ==> old(map).counter() < u128::MAX,
        ensures
            final(map).wf(),
            match self {
                Entry::Occupied(e) => *final(map) == *old(map) && *result == old(map).value_of(
                    e.spec_key(),
                ),
                Entry::Vacant(e) => {
                    &&& final(map).aliases() == old(map).aliases().insert(
                        e.spec_key(),
                        old(map).counter(),
                    )
                    &&& final(map).groups() == old(map).groups().insert(
                        old(map).counter(),
                        (1usize, *result),
                    )
                    &&& final(map).counter() == old(map).counter() + 1
                },
            },
    {
        match self {
            Entry::Occupied(e) => map.get(&e.key).unwrap(),
            Entry::Vacant(e) => {
                let val = V::default();
                map.insert_new(e.key, val)
            },
        }
    }
}

} // verus!
