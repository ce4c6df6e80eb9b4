//! A map in which several keys ("aliases") may resolve to one shared value.
//!
//! Values live in a group table keyed by a never-reused slot identifier and
//! carry a reference count; a separate alias table maps each user key to the
//! slot of its group.  The count of a live group always equals the number of
//! alias entries that target its slot.
//!
//! Two operations can leave an alias entry behind whose slot no longer holds
//! a group: evicting a sole owner during [`MultiKeyMap::insert_many`], and
//! the unconditional [`entry::OccupiedEntry::remove_entry`].  Such a
//! *dangling* key is still reported by `contains_key` but resolves to
//! nothing.  The read-only operations (`get`, `get_mut`, the iterators)
//! treat a dangling key defensively, as absent; the mutating operations
//! instead demand, as a precondition ([`MultiKeyMap::live_key`]), that the
//! keys they touch are not dangling.

use std::collections::HashMap;
use vstd::prelude::*;
use vstd::std_specs::hash::obeys_key_model;
use vstd::std_specs::iter::IteratorSpec;

pub mod entry;
pub mod iter;

use crate::entry::{Entry, OccupiedEntry, VacantEntry};

verus! {

broadcast use {
    vstd::std_specs::hash::group_hash_axioms,
    vstd::set::group_set_axioms,
    vstd::map::group_map_axioms,
};

/// One step of any specified iterator: hands out the head of the remaining
/// sequence, or `None` once it is exhausted.
fn iter_next<I: Iterator>(iterator: &mut I) -> (result: Option<I::Item>)
    ensures
        (*final(iterator)).obeys_prophetic_iter_laws() == (*old(iterator)).obeys_prophetic_iter_laws(),
        (*final(iterator)).obeys_prophetic_iter_laws() ==> ({
            if (*old(iterator)).remaining().len() > 0 {
                &&& (*final(iterator)).remaining() == (*old(iterator)).remaining().drop_first()
                &&& result == Some((*old(iterator)).remaining()[0])
            } else {
                &&& (*final(iterator)).remaining() == (*old(iterator)).remaining()
                &&& result is None
            }
        }),
{
    iterator.next()
}

/// Relies on `HashMap::into_keys`: consuming the map yields every key of
/// the map exactly once, in some order.
#[verifier::external_body]
fn map_into_keys<Key, Value>(m: HashMap<Key, Value>) -> (result: Vec<Key>)
    ensures
        result@.to_set() == m@.dom(),
        result@.no_duplicates(),
        result@.len() == m@.dom().len(),
{
    m.into_keys().collect()
}

/// Relies on `HashMap::into_values`: consuming the map yields the value of
/// every entry exactly once, in some order; only the payload component of
/// each entry is kept.
#[verifier::external_body]
fn map_into_group_values<Key, C, Value>(m: HashMap<Key, (C, Value)>) -> (result: Vec<Value>)
    ensures
        result@.len() == m@.dom().len(),
        forall|j: int|
            #![trigger result@[j]]
            0 <= j < result@.len() ==> exists|k: Key| #[trigger]
                m@.dom().contains(k) && m@[k].1 == result@[j],
        forall|k: Key| #[trigger] m@.dom().contains(k) ==> result@.contains(m@[k].1),
{
    m.into_values().map(|group| group.1).collect()
}

/// The set of keys of the alias table `al` that target the slot `i`.
pub open spec fn alias_targets<K>(al: Map<K, u128>, i: u128) -> Set<K> {
    al.dom().filter(|k: K| al[k] == i)
}

/// Redirecting one key changes exactly the target sets of the slot it now
/// names and the slot it may have named before.
pub proof fn lemma_alias_targets_insert<K>(al: Map<K, u128>, k: K, c: u128, i: u128)
    ensures
        i == c ==> alias_targets(al.insert(k, c), i) == alias_targets(al, i).insert(k),
        i != c ==> alias_targets(al.insert(k, c), i) == alias_targets(al, i).remove(k),
{
    if i == c {
        assert(alias_targets(al.insert(k, c), i) =~= alias_targets(al, i).insert(k));
    } else {
        assert(alias_targets(al.insert(k, c), i) =~= alias_targets(al, i).remove(k));
    }
}

/// Removing one key removes it from every target set and changes nothing else.
pub proof fn lemma_alias_targets_remove<K>(al: Map<K, u128>, k: K, i: u128)
    ensures
        alias_targets(al.remove(k), i) == alias_targets(al, i).remove(k),
{
    assert(alias_targets(al.remove(k), i) =~= alias_targets(al, i).remove(k));
}

/// The targets of a slot form a subset of the alias table's keys.
pub proof fn lemma_alias_targets_finite<K>(al: Map<K, u128>, i: u128)
    requires
        al.dom().finite(),
    ensures
        alias_targets(al, i).finite(),
        alias_targets(al, i).len() <= al.dom().len(),
{
    let f = |k: K| al[k] == i;
    al.dom().lemma_len_filter(f);
    assert(alias_targets(al, i) =~= al.dom().filter(f));
}

/// The alias table `al` after pointing every key of `ks`, in order, at the
/// slot `idx`.
pub open spec fn with_aliases<K>(al: Map<K, u128>, ks: Seq<K>, idx: u128) -> Map<K, u128>
    decreases ks.len(),
{
    if ks.len() == 0 {
        al
    } else {
        with_aliases(al.insert(ks[0], idx), ks.drop_first(), idx)
    }
}

/// The two tables and the sequence of returned values after removing every
/// key of `ks` in order, each removal respecting the reference count: a sole
/// owner's group is deleted and its value collected, a shared group merely
/// loses one count.
pub open spec fn removed_state<K, V>(
    al: Map<K, u128>,
    gr: Map<u128, (usize, V)>,
    ks: Seq<K>,
) -> (Map<K, u128>, Map<u128, (usize, V)>, Seq<V>)
    decreases ks.len(),
{
    if ks.len() == 0 {
        (al, gr, Seq::<V>::empty())
    } else {
        let k = ks[0];
        if al.contains_key(k) && gr.contains_key(al[k]) {
            let i = al[k];
            if gr[i].0 == 1 {
                let rest = removed_state(al.remove(k), gr.remove(i), ks.drop_first());
                (rest.0, rest.1, seq![gr[i].1] + rest.2)
            } else {
                let rest = removed_state(
                    al.remove(k),
                    gr.insert(i, ((gr[i].0 - 1) as usize, gr[i].1)),
                    ks.drop_first(),
                );
                (rest.0, rest.1, rest.2)
            }
        } else {
            removed_state(al, gr, ks.drop_first())
        }
    }
}

/// The two tables, the count contributed to a fresh slot `c`, and the
/// sequence of displaced values, after a batch insertion walks the keys `ks`
/// in order: an absent key joins the fresh slot; a key sharing its old group
/// leaves it (one count less) and joins the fresh slot; a key solely owning
/// its old group has that group evicted outright, its value collected, and
/// the key is not re-pointed, leaving its alias entry dangling.
pub open spec fn batched_state<K, V>(
    al: Map<K, u128>,
    gr: Map<u128, (usize, V)>,
    c: u128,
    ks: Seq<K>,
) -> (Map<K, u128>, Map<u128, (usize, V)>, nat, Seq<V>)
    decreases ks.len(),
{
    if ks.len() == 0 {
        (al, gr, 0nat, Seq::<V>::empty())
    } else {
        let k = ks[0];
        if al.contains_key(k) {
            let i = al[k];
            if gr[i].0 <= 1 {
                let rest = batched_state(al, gr.remove(i), c, ks.drop_first());
                (rest.0, rest.1, rest.2, seq![gr[i].1] + rest.3)
            } else {
                let rest = batched_state(
                    al.insert(k, c),
                    gr.insert(i, ((gr[i].0 - 1) as usize, gr[i].1)),
                    c,
                    ks.drop_first(),
                );
                (rest.0, rest.1, rest.2 + 1, rest.3)
            }
        } else {
            let rest = batched_state(al.insert(k, c), gr, c, ks.drop_first());
            (rest.0, rest.1, rest.2 + 1, rest.3)
        }
    }
}

/// A map in which several keys may resolve to one shared, reference-counted
/// value.
///
/// Each stored value forms a *group*: one slot in the group table, holding the
/// value together with the number of keys currently aliased to it.  Inserting
/// over a shared key detaches the key into a fresh group instead of
/// overwriting the shared value.
#[derive(Clone)]
pub struct MultiKeyMap<K, V> where K: Eq + std::hash::Hash {
    keys: HashMap<K, u128>,
    data: HashMap<u128, (usize, V)>,
    max_index: u128,
}

impl<K, V> MultiKeyMap<K, V> where K: Eq + std::hash::Hash {
    /// The alias table: each key maps to the slot of its group.
    pub closed spec fn aliases(self) -> Map<K, u128> {
        self.keys@
    }

    /// The group table: each live slot maps to its reference count and value.
    pub closed spec fn groups(self) -> Map<u128, (usize, V)> {
        self.data@
    }

    /// The next slot identifier to be handed out; slots are never reused.
    pub closed spec fn counter(self) -> u128 {
        self.max_index
    }

    /// Whether `k` is present in the alias table.
    pub open spec fn spec_contains_key(self, k: K) -> bool {
        self.aliases().contains_key(k)
    }

    /// The slot that `k` is aliased to (meaningful only when present).
    pub open spec fn slot_of(self, k: K) -> u128 {
        self.aliases()[k]
    }

    /// Whether `k` is present and its slot holds a live group.
    pub open spec fn has_live_slot(self, k: K) -> bool {
        self.spec_contains_key(k) && self.groups().contains_key(self.slot_of(k))
    }

    /// The reference count of `k`'s group (meaningful only when live).
    pub open spec fn count_of(self, k: K) -> usize {
        self.groups()[self.slot_of(k)].0
    }

    /// The value of `k`'s group (meaningful only when live).
    pub open spec fn value_of(self, k: K) -> V {
        self.groups()[self.slot_of(k)].1
    }

    /// What a lookup of `k` observes: the value of its group, when present
    /// and live.
    pub open spec fn spec_get(self, k: K) -> Option<V> {
        if self.has_live_slot(k) {
            Some(self.value_of(k))
        } else {
            None
        }
    }

    /// `v` is the value of some live group.
    pub open spec fn is_group_value(self, v: V) -> bool {
        exists|i: u128| #[trigger] self.groups().dom().contains(i) && self.groups()[i].1 == v
    }

    /// `k` is either absent or aliased to a live group.  A key can dangle
    /// only through the batch-insert eviction path or unconditional entry
    /// removal; every other operation demands live inputs.
    pub open spec fn live_key(self, k: K) -> bool {
        self.spec_contains_key(k) ==> self.groups().contains_key(self.slot_of(k))
    }

    /// Every key of the alias table is aliased to a live group.
    pub open spec fn all_live(self) -> bool {
        forall|k: K| self.live_key(k)
    }

    /// Well-formedness: slots never exceed the counter, and the reference
    /// count of every live group equals the number of keys targeting it.
    pub open spec fn wf(self) -> bool {
        &&& obeys_key_model::<K>()
        &&& self.aliases().dom().finite()
        &&& self.groups().dom().finite()
        &&& forall|k: K| #[trigger]
            self.aliases().contains_key(k) ==> self.aliases()[k] < self.counter()
        &&& forall|i: u128| #[trigger] self.groups().contains_key(i) ==> i < self.counter()
        &&& forall|i: u128| #[trigger]
            self.groups().contains_key(i) ==> self.groups()[i].0 as nat == alias_targets(
                self.aliases(),
                i,
            ).len()
    }

    /// Creates an empty map.
    pub fn new() -> (result: Self)
        requires
            obeys_key_model::<K>(),
        ensures
            result.wf(),
            result.all_live(),
            result.aliases() == Map::<K, u128>::empty(),
            result.groups() == Map::<u128, (usize, V)>::empty(),
            result.counter() == 0,
    {
        MultiKeyMap { keys: HashMap::new(), data: HashMap::new(), max_index: 0 }
    }

    /// Returns true iff the alias table has an entry for `k`.
    pub fn contains_key(&self, k: &K) -> (result: bool)
        requires
            self.wf(),
        ensures
            result == self.spec_contains_key(*k),
    {
        self.keys.contains_key(k)
    }

    /// Returns a reference to the value shared by `k`'s group, or `None` when
    /// `k` is absent (or, defensively, when its slot is no longer live).
    pub fn get<'a>(&'a self, k: &K) -> (result: Option<&'a V>)
        requires
            self.wf(),
        ensures
            match result {
                Some(v) => self.spec_get(*k) == Some(*v),
                None => self.spec_get(*k) is None,
            },
    {
        match self.keys.get(k) {
            None => None,
            Some(idx) => match self.data.get(idx) {
                None => None,
                Some(group) => Some(&group.1),
            },
        }
    }

    /// Returns a mutable reference to the value shared by `k`'s group, or
    /// `None` when `k` is absent (or, defensively, when its slot is no
    /// longer live).  Writing through the reference changes the group's
    /// value; the count and every alias stay as they were.
    pub fn get_mut<'a>(&'a mut self, k: &K) -> (result: Option<&'a mut V>)
        requires
            old(self).wf(),
        ensures
            match result {
                None => {
                    &&& old(self).spec_get(*k) is None
                    &&& *final(self) == *old(self)
                },
                Some(vr) => {
                    &&& old(self).spec_get(*k) == Some(*vr)
                    &&& final(self).wf()
                    &&& final(self).aliases() == old(self).aliases()
                    &&& final(self).counter() == old(self).counter()
                    &&& final(self).groups() == old(self).groups().insert(
                        old(self).slot_of(*k),
                        (old(self).count_of(*k), *final(vr)),
                    )
                },
            },
    {
        let idx: u128 = match self.keys.get(k) {
            Some(i) => *i,
            None => {
                return None;
            },
        };
        if !self.data.contains_key(&idx) {
            return None;
        }
        match self.data.entry(idx) {
            std::collections::hash_map::Entry::Occupied(occupied) => {
                let group = occupied.into_mut();
                Some(&mut group.1)
            },
            std::collections::hash_map::Entry::Vacant(_) => {
                proof {
                    assert(false);
                }
                None
            },
        }
    }

    /// Inserts `v` at `k`.
    ///
    /// An absent key receives a fresh sole-owned group and `None` is
    /// returned.  A key that solely owns its group has the value overwritten
    /// in place and the previous value is returned.  A key that shares its
    /// group detaches: the old group's count drops by one, the key is
    /// redirected to a fresh sole-owned group, and `None` is returned, since
    /// no prior value was exclusively this key's.
    pub fn insert(&mut self, k: K, v: V) -> (result: Option<V>)
        requires
            old(self).wf(),
            old(self).live_key(k),
            !(old(self).spec_contains_key(k) && old(self).count_of(k) <= 1) ==> old(self).counter()
                < u128::MAX,
        ensures
            final(self).wf(),
            forall|k2: K| old(self).live_key(k2) ==> final(self).live_key(k2),
            !old(self).spec_contains_key(k) ==> {
                &&& result is None
                &&& final(self).aliases() == old(self).aliases().insert(k, old(self).counter())
                &&& final(self).groups() == old(self).groups().insert(
                    old(self).counter(),
                    (1usize, v),
                )
                &&& final(self).counter() == old(self).counter() + 1
            },
            old(self).spec_contains_key(k) && old(self).count_of(k) <= 1 ==> {
                &&& result == Some(old(self).value_of(k))
                &&& final(self).aliases() == old(self).aliases()
                &&& final(self).groups() == old(self).groups().insert(
                    old(self).slot_of(k),
                    (1usize, v),
                )
                &&& final(self).counter() == old(self).counter()
            },
            old(self).spec_contains_key(k) && old(self).count_of(k) > 1 ==> {
                &&& result is None
                &&& final(self).aliases() == old(self).aliases().insert(k, old(self).counter())
                &&& final(self).groups() == old(self).groups().insert(
                    old(self).slot_of(k),
                    ((old(self).count_of(k) - 1) as usize, old(self).value_of(k)),
                ).insert(old(self).counter(), (1usize, v))
                &&& final(self).counter() == old(self).counter() + 1
            },
    {
        if self.keys.contains_key(&k) {
            let idx: u128 = *self.keys.get(&k).unwrap();
            let group = self.data.remove(&idx).unwrap();
            let (count, old_v) = group;
            proof {
                lemma_alias_targets_finite(old(self).aliases(), idx);
                assert(alias_targets(old(self).aliases(), idx).contains(k));
            }
            if count <= 1 {
                self.data.insert(idx, (1, v));
                proof {
                    assert(self.groups() =~= old(self).groups().insert(idx, (1usize, v)));
                    self.lemma_wf_after_sole_overwrite(*old(self), k, idx, v);
                }
                Some(old_v)
            } else {
                self.data.insert(idx, (count - 1, old_v));
                let new_idx = self.max_index;
                self.max_index = new_idx + 1;
                self.keys.insert(k, new_idx);
                self.data.insert(new_idx, (1, v));
                proof {
                    assert(self.groups() =~= old(self).groups().insert(
                        idx,
                        ((old(self).count_of(k) - 1) as usize, old(self).value_of(k)),
                    ).insert(new_idx, (1usize, v)));
                    self.lemma_wf_after_detach(*old(self), k, idx, new_idx, v);
                }
                None
            }
        } else {
            let new_idx = self.max_index;
            self.max_index = new_idx + 1;
            self.keys.insert(k, new_idx);
            self.data.insert(new_idx, (1, v));
            proof {
                self.lemma_wf_after_fresh_insert(*old(self), k, new_idx, v);
            }
            None
        }
    }

    /// After overwriting the value of a sole-owned group in place, the
    /// invariant still holds and no live key went dangling.
    proof fn lemma_wf_after_sole_overwrite(self, pre: Self, k: K, idx: u128, v: V)
        requires
            pre.wf(),
            pre.spec_contains_key(k),
            pre.slot_of(k) == idx,
            pre.groups().contains_key(idx),
            self.aliases() == pre.aliases(),
            self.groups() == pre.groups().insert(idx, (1usize, v)),
            self.counter() == pre.counter(),
            pre.count_of(k) <= 1,
        ensures
            self.wf(),
            forall|k2: K| pre.live_key(k2) ==> self.live_key(k2),
    {
        assert(alias_targets(pre.aliases(), idx).contains(k));
        lemma_alias_targets_finite(pre.aliases(), idx);
        assert forall|i: u128| #[trigger] self.groups().contains_key(i) implies self.groups()[i].0
            as nat == alias_targets(self.aliases(), i).len() by {}
    }

    /// After a fresh insertion of an absent key, the invariant still holds
    /// and no live key went dangling.
    proof fn lemma_wf_after_fresh_insert(self, pre: Self, k: K, c: u128, v: V)
        requires
            pre.wf(),
            !pre.spec_contains_key(k),
            c == pre.counter(),
            c < u128::MAX,
            self.aliases() == pre.aliases().insert(k, c),
            self.groups() == pre.groups().insert(c, (1usize, v)),
            self.counter() == c + 1,
        ensures
            self.wf(),
            forall|k2: K| pre.live_key(k2) ==> self.live_key(k2),
    {
        assert(alias_targets(pre.aliases(), c) =~= Set::<K>::empty());
        assert forall|i: u128| #[trigger] self.groups().contains_key(i) implies self.groups()[i].0
            as nat == alias_targets(self.aliases(), i).len() by {
            lemma_alias_targets_insert(pre.aliases(), k, c, i);
            lemma_alias_targets_finite(pre.aliases(), i);
            if i != c {
                assert(!alias_targets(pre.aliases(), i).contains(k));
            }
        }
    }

    /// After detaching a shared key onto a fresh sole-owned group, the
    /// invariant still holds and no live key went dangling.
    proof fn lemma_wf_after_detach(self, pre: Self, k: K, idx: u128, c: u128, v: V)
        requires
            pre.wf(),
            pre.spec_contains_key(k),
            pre.slot_of(k) == idx,
            pre.groups().contains_key(idx),
            pre.count_of(k) > 1,
            c == pre.counter(),
            c < u128::MAX,
            self.aliases() == pre.aliases().insert(k, c),
            self.groups() == pre.groups().insert(
                idx,
                ((pre.count_of(k) - 1) as usize, pre.value_of(k)),
            ).insert(c, (1usize, v)),
            self.counter() == c + 1,
        ensures
            self.wf(),
            forall|k2: K| pre.live_key(k2) ==> self.live_key(k2),
    {
        assert(alias_targets(pre.aliases(), c) =~= Set::<K>::empty());
        assert(alias_targets(pre.aliases(), idx).contains(k));
        assert forall|i: u128| #[trigger] self.groups().contains_key(i) implies self.groups()[i].0
            as nat == alias_targets(self.aliases(), i).len() by {
            lemma_alias_targets_insert(pre.aliases(), k, c, i);
            lemma_alias_targets_finite(pre.aliases(), i);
            if i != c && i != idx {
                assert(!alias_targets(pre.aliases(), i).contains(k));
            }
        }
    }

    /// Removes the key `k`.
    ///
    /// When `k` solely owns its group, the group is deleted and its value
    /// returned.  When the group is shared, only this alias is deleted, the
    /// count drops by one, and `None` is returned.  An absent key is a no-op
    /// returning `None`.
    pub fn remove(&mut self, k: &K) -> (result: Option<V>)
        requires
            old(self).wf(),
            old(self).live_key(*k),
        ensures
            final(self).wf(),
            forall|k2: K| old(self).live_key(k2) ==> final(self).live_key(k2),
            !old(self).spec_contains_key(*k) ==> result is None && *final(self) == *old(self),
            old(self).spec_contains_key(*k) && old(self).count_of(*k) == 1 ==> {
                &&& result == Some(old(self).value_of(*k))
                &&& final(self).aliases() == old(self).aliases().remove(*k)
                &&& final(self).groups() == old(self).groups().remove(old(self).slot_of(*k))
                &&& final(self).counter() == old(self).counter()
            },
            old(self).spec_contains_key(*k) && old(self).count_of(*k) != 1 ==> {
                &&& result is None
                &&& final(self).aliases() == old(self).aliases().remove(*k)
                &&& final(self).groups() == old(self).groups().insert(
                    old(self).slot_of(*k),
                    ((old(self).count_of(*k) - 1) as usize, old(self).value_of(*k)),
                )
                &&& final(self).counter() == old(self).counter()
            },
    {
        if self.keys.contains_key(k) {
            let idx: u128 = *self.keys.get(k).unwrap();
            let group = self.data.remove(&idx).unwrap();
            let (count, val) = group;
            proof {
                lemma_alias_targets_finite(old(self).aliases(), idx);
                assert(alias_targets(old(self).aliases(), idx).contains(*k));
            }
            if count == 1 {
                self.keys.remove(k);
                proof {
                    self.lemma_wf_after_last_removal(*old(self), *k, idx);
                }
                Some(val)
            } else {
                self.data.insert(idx, (count - 1, val));
                self.keys.remove(k);
                proof {
                    assert(self.groups() =~= old(self).groups().insert(
                        idx,
                        ((old(self).count_of(*k) - 1) as usize, old(self).value_of(*k)),
                    ));
                    self.lemma_wf_after_shared_removal(*old(self), *k, idx);
                }
                None
            }
        } else {
            None
        }
    }

    /// After deleting a sole-owned group together with its only alias, the
    /// invariant still holds and no other live key went dangling.
    proof fn lemma_wf_after_last_removal(self, pre: Self, k: K, idx: u128)
        requires
            pre.wf(),
            pre.spec_contains_key(k),
            pre.slot_of(k) == idx,
            pre.groups().contains_key(idx),
            pre.count_of(k) == 1,
            self.aliases() == pre.aliases().remove(k),
            self.groups() == pre.groups().remove(idx),
            self.counter() == pre.counter(),
        ensures
            self.wf(),
            forall|k2: K| pre.live_key(k2) ==> self.live_key(k2),
    {
        lemma_alias_targets_finite(pre.aliases(), idx);
        assert(alias_targets(pre.aliases(), idx).contains(k));
        assert forall|i: u128| #[trigger] self.groups().contains_key(i) implies self.groups()[i].0
            as nat == alias_targets(self.aliases(), i).len() by {
            lemma_alias_targets_remove(pre.aliases(), k, i);
            lemma_alias_targets_finite(pre.aliases(), i);
            assert(!alias_targets(pre.aliases(), i).contains(k));
        }
        assert forall|k2: K| pre.live_key(k2) implies self.live_key(k2) by {
            if self.spec_contains_key(k2) && self.slot_of(k2) == idx {
                assert(alias_targets(pre.aliases(), idx).contains(k2));
                assert(alias_targets(pre.aliases(), idx).remove(k).contains(k2));
                assert(alias_targets(pre.aliases(), idx).remove(k).len() == 0);
            }
        }
    }

    /// After deleting one alias of a shared group, the invariant still holds
    /// and no live key went dangling.
    proof fn lemma_wf_after_shared_removal(self, pre: Self, k: K, idx: u128)
        requires
            pre.wf(),
            pre.spec_contains_key(k),
            pre.slot_of(k) == idx,
            pre.groups().contains_key(idx),
            pre.count_of(k) > 1,
            self.aliases() == pre.aliases().remove(k),
            self.groups() == pre.groups().insert(
                idx,
                ((pre.count_of(k) - 1) as usize, pre.value_of(k)),
            ),
            self.counter() == pre.counter(),
        ensures
            self.wf(),
            forall|k2: K| pre.live_key(k2) ==> self.live_key(k2),
    {
        lemma_alias_targets_finite(pre.aliases(), idx);
        assert(alias_targets(pre.aliases(), idx).contains(k));
        assert forall|i: u128| #[trigger] self.groups().contains_key(i) implies self.groups()[i].0
            as nat == alias_targets(self.aliases(), i).len() by {
            lemma_alias_targets_remove(pre.aliases(), k, i);
            lemma_alias_targets_finite(pre.aliases(), i);
            if i != idx {
                assert(!alias_targets(pre.aliases(), i).contains(k));
            }
        }
    }

    /// Attempts to add `new_key` as a further alias of the group of `k`.
    ///
    /// On success the group's count rises by one and a reference to the
    /// shared value is returned.  When `k` is absent the call fails closed:
    /// `new_key` is handed back unconsumed.
    pub fn alias<'a>(&'a mut self, k: &K, new_key: K) -> (result: Result<&'a V, K>)
        requires
            old(self).wf(),
            old(self).spec_contains_key(*k) ==> {
                &&& old(self).live_key(*k)
                &&& !old(self).spec_contains_key(new_key)
                &&& old(self).aliases().dom().len() < usize::MAX
            },
        ensures
            final(self).wf(),
            forall|k2: K| old(self).live_key(k2) ==> final(self).live_key(k2),
            !old(self).spec_contains_key(*k) ==> match result {
                Result::Err(rejected) => rejected == new_key && *final(self) == *old(self),
                Result::Ok(_) => false,
            },
            old(self).spec_contains_key(*k) ==> match result {
                Result::Ok(v) => {
                    &&& *v == old(self).value_of(*k)
                    &&& final(self).aliases() == old(self).aliases().insert(
                        new_key,
                        old(self).slot_of(*k),
                    )
                    &&& final(self).groups() == old(self).groups().insert(
                        old(self).slot_of(*k),
                        ((old(self).count_of(*k) + 1) as usize, old(self).value_of(*k)),
                    )
                    &&& final(self).counter() == old(self).counter()
                },
                Result::Err(_) => false,
            },
    {
        if self.keys.contains_key(k) {
            let idx: u128 = *self.keys.get(k).unwrap();
            let group = self.data.remove(&idx).unwrap();
            let (count, val) = group;
            proof {
                lemma_alias_targets_finite(old(self).aliases(), idx);
                assert(alias_targets(old(self).aliases(), idx).contains(*k));
            }
            self.data.insert(idx, (count + 1, val));
            self.keys.insert(new_key, idx);
            proof {
                assert(self.groups() =~= old(self).groups().insert(
                    idx,
                    ((old(self).count_of(*k) + 1) as usize, old(self).value_of(*k)),
                ));
                self.lemma_wf_after_alias(*old(self), *k, new_key, idx);
            }
            let group_ref = self.data.get(&idx).unwrap();
            Ok(&group_ref.1)
        } else {
            Err(new_key)
        }
    }

    /// After pointing a fresh key at an existing group and bumping its
    /// count, the invariant still holds and no live key went dangling.
    proof fn lemma_wf_after_alias(self, pre: Self, k: K, new_key: K, idx: u128)
        requires
            pre.wf(),
            pre.spec_contains_key(k),
            pre.slot_of(k) == idx,
            pre.groups().contains_key(idx),
            !pre.spec_contains_key(new_key),
            pre.count_of(k) < usize::MAX,
            self.aliases() == pre.aliases().insert(new_key, idx),
            self.groups() == pre.groups().insert(
                idx,
                ((pre.count_of(k) + 1) as usize, pre.value_of(k)),
            ),
            self.counter() == pre.counter(),
        ensures
            self.wf(),
            forall|k2: K| pre.live_key(k2) ==> self.live_key(k2),
    {
        assert forall|i: u128| #[trigger] self.groups().contains_key(i) implies self.groups()[i].0
            as nat == alias_targets(self.aliases(), i).len() by {
            lemma_alias_targets_insert(pre.aliases(), new_key, idx, i);
            lemma_alias_targets_finite(pre.aliases(), i);
            if i == idx {
                assert(!alias_targets(pre.aliases(), idx).contains(new_key));
            } else {
                assert(!alias_targets(pre.aliases(), i).contains(new_key));
            }
        }
    }

    /// Attempts to add every key of `new_keys`, in order, as a further alias
    /// of the group of `k`.
    ///
    /// On success the group's count rises once per key and a reference to the
    /// shared value is returned.  When `k` is absent the whole batch is
    /// handed back unconsumed.
    pub fn alias_many<'a>(&'a mut self, k: &K, new_keys: Vec<K>) -> (result: Result<&'a V, Vec<K>>)
        requires
            old(self).wf(),
            old(self).spec_contains_key(*k) ==> {
                &&& old(self).live_key(*k)
                &&& new_keys@.no_duplicates()
                &&& forall|j: int|
                    0 <= j < new_keys@.len() ==> !old(self).spec_contains_key(new_keys@[j])
                &&& old(self).aliases().dom().len() + new_keys@.len() <= usize::MAX
            },
        ensures
            final(self).wf(),
            forall|k2: K| old(self).live_key(k2) ==> final(self).live_key(k2),
            !old(self).spec_contains_key(*k) ==> match result {
                Result::Err(rejected) => rejected == new_keys && *final(self) == *old(self),
                Result::Ok(_) => false,
            },
            old(self).spec_contains_key(*k) ==> match result {
                Result::Ok(v) => {
                    &&& *v == old(self).value_of(*k)
                    &&& final(self).aliases() == with_aliases(
                        old(self).aliases(),
                        new_keys@,
                        old(self).slot_of(*k),
                    )
                    &&& final(self).groups() == old(self).groups().insert(
                        old(self).slot_of(*k),
                        (
                            (old(self).count_of(*k) + new_keys@.len()) as usize,
                            old(self).value_of(*k),
                        ),
                    )
                    &&& final(self).counter() == old(self).counter()
                },
                Result::Err(_) => false,
            },
    {
        if !self.keys.contains_key(k) {
            return Err(new_keys);
        }
        let ghost orig = new_keys@;
        let ghost idx = old(self).slot_of(*k);
        proof {
            lemma_alias_targets_finite(old(self).aliases(), idx);
            assert(alias_targets(old(self).aliases(), idx).contains(*k));
            assert(old(self).groups().insert(
                idx,
                ((old(self).count_of(*k) + orig.len() - orig.len()) as usize, old(
                    self,
                ).value_of(*k)),
            ) =~= old(self).groups());
        }
        let mut pending = new_keys;
        while pending.len() > 0
            invariant
                self.wf(),
                self.spec_contains_key(*k),
                self.live_key(*k),
                self.slot_of(*k) == idx,
                self.counter() == old(self).counter(),
                old(self).wf(),
                old(self).spec_contains_key(*k),
                old(self).live_key(*k),
                old(self).slot_of(*k) == idx,
                orig.no_duplicates(),
                old(self).aliases().dom().len() + orig.len() <= usize::MAX,
                pending@.len() <= orig.len(),
                pending@.no_duplicates(),
                forall|j: int| 0 <= j < pending@.len() ==> !self.spec_contains_key(pending@[j]),
                forall|k2: K| old(self).live_key(k2) ==> self.live_key(k2),
                with_aliases(old(self).aliases(), orig, idx) == with_aliases(
                    self.aliases(),
                    pending@,
                    idx,
                ),
                self.groups() == old(self).groups().insert(
                    idx,
                    (
                        (old(self).count_of(*k) + orig.len() - pending@.len()) as usize,
                        old(self).value_of(*k),
                    ),
                ),
                self.aliases().dom().len() == old(self).aliases().dom().len() + orig.len()
                    - pending@.len(),
            decreases pending@.len(),
        {
            let ghost pre = *self;
            let ghost pending_pre = pending@;
            let a = pending.remove(0);
            proof {
                assert(pending@ =~= pending_pre.drop_first());
                assert forall|i1: int, j1: int|
                    0 <= i1 < j1 < pending@.len() implies pending@[i1] != pending@[j1] by {
                    assert(pending_pre[i1 + 1] != pending_pre[j1 + 1]);
                }
                lemma_alias_targets_finite(self.aliases(), idx);
                lemma_alias_targets_finite(old(self).aliases(), idx);
                assert(alias_targets(old(self).aliases(), idx).contains(*k));
                assert(old(self).groups().contains_key(idx));
                assert(self.count_of(*k) == (old(self).count_of(*k) + orig.len()
                    - pending_pre.len()) as usize);
            }
            match self.alias(k, a) {
                Ok(_) => (),
                Err(_) => {
                    proof {
                        assert(false);
                    }
                },
            }
            proof {
                assert(self.groups() =~= old(self).groups().insert(
                    idx,
                    (
                        (old(self).count_of(*k) + orig.len() - pending@.len()) as usize,
                        old(self).value_of(*k),
                    ),
                ));
                assert(with_aliases(pre.aliases(), pending_pre, idx) == with_aliases(
                    self.aliases(),
                    pending@,
                    idx,
                ));
            }
        }
        proof {
            assert(with_aliases(self.aliases(), pending@, idx) == self.aliases());
            assert(self.groups() =~= old(self).groups().insert(
                idx,
                ((old(self).count_of(*k) + orig.len()) as usize, old(self).value_of(*k)),
            ));
        }
        let idx_exec: u128 = *self.keys.get(k).unwrap();
        let group_ref = self.data.get(&idx_exec).unwrap();
        Ok(&group_ref.1)
    }

    /// Inserts one fresh group holding `v` and walks the keys of `ks` in
    /// order: an absent key becomes an owner of the fresh group; a key
    /// sharing an old group leaves it and becomes an owner of the fresh
    /// group; a key solely owning its old group has that group evicted and
    /// its value collected into the returned sequence — such a key is not
    /// re-pointed at the fresh group and its alias entry is left dangling.
    pub fn insert_many(&mut self, ks: Vec<K>, v: V) -> (result: Vec<V>)
        requires
            old(self).wf(),
            old(self).counter() < u128::MAX,
            ks@.no_duplicates(),
            forall|j: int| 0 <= j < ks@.len() ==> old(self).live_key(ks@[j]),
        ensures
            final(self).wf(),
            ({
                let outcome = batched_state(
                    old(self).aliases(),
                    old(self).groups(),
                    old(self).counter(),
                    ks@,
                );
                &&& final(self).aliases() == outcome.0
                &&& final(self).groups() == outcome.1.insert(
                    old(self).counter(),
                    (outcome.2 as usize, v),
                )
                &&& final(self).counter() == old(self).counter() + 1
                &&& result@ == outcome.3
            }),
    {
        let ghost orig = ks@;
        let ghost c = old(self).counter();
        let ghost full = batched_state(old(self).aliases(), old(self).groups(), c, orig);
        let mut pending = ks;
        let total = pending.len();
        proof {
            assert(orig.len() == total);
        }
        let mut bumped: Vec<V> = Vec::new();
        let new_idx = self.max_index;
        self.max_index = new_idx + 1;
        let mut new_count: usize = 0;
        proof {
            assert(alias_targets(old(self).aliases(), c) =~= Set::<K>::empty());
            assert(bumped@ + full.3 =~= full.3);
        }
        while pending.len() > 0
            invariant
                obeys_key_model::<K>(),
                self.counter() == c + 1,
                c < u128::MAX,
                new_idx == c,
                self.aliases().dom().finite(),
                self.groups().dom().finite(),
                !self.groups().contains_key(c),
                forall|k2: K| #[trigger]
                    self.aliases().contains_key(k2) ==> self.aliases()[k2] <= c,
                forall|i: u128| #[trigger] self.groups().contains_key(i) ==> i < c,
                forall|i: u128| #[trigger]
                    self.groups().contains_key(i) ==> self.groups()[i].0 as nat == alias_targets(
                        self.aliases(),
                        i,
                    ).len(),
                new_count as nat == alias_targets(self.aliases(), c).len(),
                new_count + pending@.len() <= orig.len(),
                orig.len() <= usize::MAX,
                pending@.no_duplicates(),
                forall|j: int|
                    0 <= j < pending@.len() ==> (self.aliases().contains_key(pending@[j])
                        ==> self.groups().contains_key(self.aliases()[pending@[j]])),
                ({
                    let rest = batched_state(self.aliases(), self.groups(), c, pending@);
                    &&& full.0 == rest.0
                    &&& full.1 == rest.1
                    &&& full.2 == new_count + rest.2
                    &&& full.3 == bumped@ + rest.3
                }),
            decreases pending@.len(),
        {
            let ghost al_pre = self.aliases();
            let ghost gr_pre = self.groups();
            let ghost pending_pre = pending@;
            let ghost bumped_pre = bumped@;
            let k = pending.remove(0);
            proof {
                assert(pending@ =~= pending_pre.drop_first());
                assert forall|i1: int, j1: int|
                    0 <= i1 < j1 < pending@.len() implies pending@[i1] != pending@[j1] by {
                    assert(pending_pre[i1 + 1] != pending_pre[j1 + 1]);
                }
            }
            if self.keys.contains_key(&k) {
                let idx: u128 = *self.keys.get(&k).unwrap();
                let group = self.data.remove(&idx).unwrap();
                let (count, val) = group;
                proof {
                    lemma_alias_targets_finite(al_pre, idx);
                    assert(alias_targets(al_pre, idx).contains(k));
                }
                if count <= 1 {
                    bumped.push(val);
                    proof {
                        assert(alias_targets(al_pre, idx).len() == 1);
                        assert forall|j: int|
                            0 <= j < pending@.len() && self.aliases().contains_key(
                                pending@[j],
                            ) implies self.groups().contains_key(self.aliases()[pending@[j]]) by {
                            if self.aliases()[pending@[j]] == idx {
                                assert(alias_targets(al_pre, idx).contains(pending@[j]));
                                assert(alias_targets(al_pre, idx).remove(k).contains(pending@[j]));
                                assert(alias_targets(al_pre, idx).remove(k).len() == 0);
                            }
                        }
                        assert(bumped_pre + (seq![val] + batched_state(
                            self.aliases(),
                            self.groups(),
                            c,
                            pending@,
                        ).3) =~= bumped@ + batched_state(
                            self.aliases(),
                            self.groups(),
                            c,
                            pending@,
                        ).3);
                    }
                } else {
                    self.data.insert(idx, (count - 1, val));
                    new_count = new_count + 1;
                    self.keys.insert(k, new_idx);
                    proof {
                        assert(self.groups() =~= gr_pre.insert(
                            idx,
                            ((count - 1) as usize, val),
                        ));
                        assert forall|i: u128| #[trigger]
                            self.groups().contains_key(i) implies self.groups()[i].0 as nat
                            == alias_targets(self.aliases(), i).len() by {
                            lemma_alias_targets_insert(al_pre, k, c, i);
                            lemma_alias_targets_finite(al_pre, i);
                            if i != c && i != idx {
                                assert(!alias_targets(al_pre, i).contains(k));
                            }
                        }
                        lemma_alias_targets_insert(al_pre, k, c, c);
                        assert(!alias_targets(al_pre, c).contains(k));
                    }
                }
            } else {
                new_count = new_count + 1;
                self.keys.insert(k, new_idx);
                proof {
                    assert forall|i: u128| #[trigger]
                        self.groups().contains_key(i) implies self.groups()[i].0 as nat
                        == alias_targets(self.aliases(), i).len() by {
                        lemma_alias_targets_insert(al_pre, k, c, i);
                        lemma_alias_targets_finite(al_pre, i);
                        assert(!alias_targets(al_pre, i).contains(k));
                    }
                    lemma_alias_targets_insert(al_pre, k, c, c);
                    assert(!alias_targets(al_pre, c).contains(k));
                }
            }
        }
        self.data.insert(new_idx, (new_count, v));
        proof {
            assert(full.3 =~= bumped@);
            assert forall|i: u128| #[trigger]
                self.groups().contains_key(i) implies self.groups()[i].0 as nat == alias_targets(
                self.aliases(),
                i,
            ).len() by {}
        }
        bumped
    }

    /// Every key of the alias table, in the table's own (arbitrary) order.
    pub fn keys<'a>(&'a self) -> (result: Vec<&'a K>)
        requires
            self.wf(),
        ensures
            result@.len() == self.aliases().dom().len(),
            result@.unref().no_duplicates(),
            result@.unref().to_set() == self.aliases().dom(),
    {
        let mut out: Vec<&K> = Vec::new();
        let mut key_iter = self.keys.keys();
        let ghost all = key_iter.remaining();
        proof {
            assert(key_iter == vstd::std_specs::hash::spec_keys_iter(&self.keys));
            assert(vstd::std_specs::hash::spec_keys_iter(&self.keys).remaining() == all);
            assert(key_iter.remaining() =~= all.skip(0));
        }
        loop
            invariant
                self.wf(),
                0 <= out@.len() <= all.len(),
                key_iter.remaining() == all.skip(out@.len() as int),
                all.unref().to_set() == self.aliases().dom(),
                all.no_duplicates(),
                all.len() == self.aliases().dom().len(),
                forall|j: int| 0 <= j < out@.len() ==> out@[j] == all[j],
            ensures
                out@.len() == all.len(),
            decreases self.aliases().dom().len() - out@.len(),
        {
            match iter_next(&mut key_iter) {
                Some(k_ref) => {
                    out.push(k_ref);
                    proof {
                        assert(key_iter.remaining() =~= all.skip(out@.len() as int));
                    }
                },
                None => {
                    break ;
                },
            }
        }
        proof {
            assert(out@ =~= all);
            assert(out@.unref() =~= all.unref());
            assert forall|j1: int, j2: int|
                0 <= j1 < j2 < all.unref().len() implies all.unref()[j1] != all.unref()[j2] by {
                assert(all[j1] != all[j2]);
            }
        }
        out
    }

    /// Consumes the map and hands out every key of the alias table, in some
    /// order, each exactly once.
    pub fn into_keys(self) -> (result: Vec<K>)
        ensures
            result@.to_set() == self.aliases().dom(),
            result@.no_duplicates(),
            result@.len() == self.aliases().dom().len(),
    {
        map_into_keys(self.keys)
    }

    /// Consumes the map and hands out every stored value, one per group
    /// (not per key), in some order.
    pub fn into_values(self) -> (result: Vec<V>)
        ensures
            result@.len() == self.groups().dom().len(),
            forall|j: int|
                #![trigger result@[j]]
                0 <= j < result@.len() ==> self.is_group_value(result@[j]),
            forall|i: u128| #[trigger]
                self.groups().contains_key(i) ==> result@.contains(self.groups()[i].1),
    {
        let ghost me = self;
        let result = map_into_group_values(self.data);
        proof {
            assert forall|j: int| #![trigger result@[j]] 0 <= j < result@.len() implies me.is_group_value(
                result@[j],
            ) by {
                let k0 = choose|k: u128| #[trigger]
                    me.data@.dom().contains(k) && me.data@[k].1 == result@[j];
                assert(me.groups().dom().contains(k0) && me.groups()[k0].1 == result@[j]);
            }
        }
        result
    }

    /// Every stored value, one per group (not per key), in the group
    /// table's own (arbitrary) order.  A group left without aliases by the
    /// batch-insert eviction path still appears here while it exists.
    pub fn values<'a>(&'a self) -> (result: Vec<&'a V>)
        requires
            self.wf(),
        ensures
            result@.len() == self.groups().dom().len(),
            forall|j: int|
                #![trigger result@[j]]
                0 <= j < result@.len() ==> self.is_group_value(*result@[j]),
            forall|i: u128| #[trigger]
                self.groups().contains_key(i) ==> exists|j: int|
                    #![auto]
                    0 <= j < result@.len() && *result@[j] == self.groups()[i].1,
    {
        let mut out: Vec<&V> = Vec::new();
        let mut value_iter = self.data.values();
        let ghost all = value_iter.remaining();
        proof {
            assert(value_iter == vstd::std_specs::hash::spec_values_iter(&self.data));
            assert(vstd::std_specs::hash::spec_values_iter(&self.data).remaining() == all);
            assert(value_iter.remaining() =~= all.skip(0));
        }
        loop
            invariant
                self.wf(),
                0 <= out@.len() <= all.len(),
                value_iter.remaining() == all.skip(out@.len() as int),
                all.unref().to_set() == self.groups().values(),
                all.len() == self.groups().dom().len(),
                forall|j: int| 0 <= j < out@.len() ==> *out@[j] == all[j].1,
            ensures
                out@.len() == all.len(),
            decreases self.groups().dom().len() - out@.len(),
        {
            match iter_next(&mut value_iter) {
                Some(group_ref) => {
                    out.push(&group_ref.1);
                    proof {
                        assert(value_iter.remaining() =~= all.skip(out@.len() as int));
                    }
                },
                None => {
                    break ;
                },
            }
        }
        proof {
            assert forall|j: int| #![trigger out@[j]] 0 <= j < out@.len() implies self.is_group_value(
                *out@[j],
            ) by {
                assert(all.unref()[j] == *all[j]);
                assert(all.unref().to_set().contains(*all[j]));
                assert(self.groups().values().contains(*all[j]));
                let i0 = choose|i: u128| #[trigger]
                    self.groups().dom().contains(i) && self.groups()[i] == *all[j];
                assert(self.groups().dom().contains(i0) && self.groups()[i0].1 == *out@[j]);
            }
            assert forall|i: u128| #[trigger] self.groups().contains_key(i) implies exists|j: int|
                #![auto]
                0 <= j < out@.len() && *out@[j] == self.groups()[i].1 by {
                assert(self.groups().values().contains(self.groups()[i]));
                assert(all.unref().to_set().contains(self.groups()[i]));
                let j = choose|j: int|
                    0 <= j < all.unref().len() && all.unref()[j] == self.groups()[i];
                assert(*out@[j] == self.groups()[i].1);
            }
        }
        out
    }

    /// Rewrites every stored value in place, replacing each group's value
    /// with what `f` makes of it; counts and aliases stay as they were.
    pub fn values_mut<F: Fn(V) -> V>(&mut self, f: &F)
        requires
            old(self).wf(),
            forall|i: u128| #[trigger]
                old(self).groups().contains_key(i) ==> call_requires(
                    *f,
                    (old(self).groups()[i].1,),
                ),
        ensures
            final(self).wf(),
            final(self).aliases() == old(self).aliases(),
            final(self).counter() == old(self).counter(),
            final(self).groups().dom() == old(self).groups().dom(),
            forall|i: u128| #[trigger]
                old(self).groups().contains_key(i) ==> final(self).groups()[i].0
                    == old(self).groups()[i].0 && exists|r: V|
                    #[trigger] call_ensures(*f, (old(self).groups()[i].1,), r)
                        && final(self).groups()[i].1 == r,
    {
        let mut ids: Vec<u128> = Vec::new();
        let mut id_iter = self.data.keys();
        let ghost all = id_iter.remaining();
        proof {
            assert(id_iter == vstd::std_specs::hash::spec_keys_iter(&self.data));
            assert(vstd::std_specs::hash::spec_keys_iter(&self.data).remaining() == all);
            assert(id_iter.remaining() =~= all.skip(0));
        }
        loop
            invariant
                self.wf(),
                *self == *old(self),
                0 <= ids@.len() <= all.len(),
                id_iter.remaining() == all.skip(ids@.len() as int),
                all.unref().to_set() == self.groups().dom(),
                all.no_duplicates(),
                all.len() == self.groups().dom().len(),
                forall|j: int| 0 <= j < ids@.len() ==> ids@[j] == *all[j],
            ensures
                ids@.len() == all.len(),
                *self == *old(self),
                forall|j: int| 0 <= j < ids@.len() ==> ids@[j] == *all[j],
            decreases self.groups().dom().len() - ids@.len(),
        {
            match iter_next(&mut id_iter) {
                Some(id_ref) => {
                    ids.push(*id_ref);
                    proof {
                        assert(id_iter.remaining() =~= all.skip(ids@.len() as int));
                    }
                },
                None => {
                    break ;
                },
            }
        }
        proof {
            assert forall|j1: int, j2: int|
                0 <= j1 < j2 < ids@.len() implies ids@[j1] != ids@[j2] by {
                assert(all[j1] != all[j2]);
            }
            assert forall|j: int|
                0 <= j < ids@.len() implies self.groups().contains_key(ids@[j]) by {
                assert(all.unref()[j] == *all[j]);
                assert(all.unref().to_set().contains(*all[j]));
            }
            assert forall|i: u128| #[trigger]
                self.groups().contains_key(i) implies exists|j: int|
                #![auto]
                0 <= j < ids@.len() && ids@[j] == i by {
                assert(all.unref().to_set().contains(i));
                let j = choose|j: int| 0 <= j < all.unref().len() && all.unref()[j] == i;
                assert(ids@[j] == i);
            }
        }
        let ghost mut done: Set<u128> = Set::empty();
        let mut j: usize = 0;
        while j < ids.len()
            invariant
                j <= ids.len(),
                old(self).wf(),
                forall|i: u128| #[trigger]
                    old(self).groups().contains_key(i) ==> call_requires(
                        *f,
                        (old(self).groups()[i].1,),
                    ),
                ids@.no_duplicates(),
                forall|jj: int| 0 <= jj < ids@.len() ==> old(self).groups().contains_key(ids@[jj]),
                forall|i: u128| #[trigger]
                    old(self).groups().contains_key(i) ==> exists|jj: int|
                        #![auto]
                        0 <= jj < ids@.len() && ids@[jj] == i,
                forall|jj: int| 0 <= jj < j ==> done.contains(ids@[jj]),
                forall|i: u128| #[trigger]
                    done.contains(i) ==> exists|jj: int| #![auto] 0 <= jj < j && ids@[jj] == i,
                self.wf(),
                self.aliases() == old(self).aliases(),
                self.counter() == old(self).counter(),
                self.groups().dom() == old(self).groups().dom(),
                forall|i: u128| #[trigger]
                    old(self).groups().contains_key(i) ==> self.groups()[i].0
                        == old(self).groups()[i].0,
                forall|i: u128| #[trigger]
                    old(self).groups().contains_key(i) && done.contains(i) ==> exists|r: V|
                        #[trigger] call_ensures(*f, (old(self).groups()[i].1,), r)
                            && self.groups()[i].1 == r,
                forall|i: u128| #[trigger]
                    old(self).groups().contains_key(i) && !done.contains(i) ==> self.groups()[i]
                        == old(self).groups()[i],
            decreases ids@.len() - j,
        {
            let idx: u128 = ids[j];
            proof {
                if done.contains(idx) {
                    let jj = choose|jj: int| #![auto] 0 <= jj < j && ids@[jj] == idx;
                    assert(ids@[jj] == ids@[j as int]);
                    assert(false);
                }
            }
            let group = self.data.remove(&idx).unwrap();
            let (count, val) = group;
            let new_val = (*f)(val);
            self.data.insert(idx, (count, new_val));
            proof {
                done = done.insert(idx);
                assert(self.groups().dom() =~= old(self).groups().dom());
            }
            j = j + 1;
        }
        proof {
            assert forall|i: u128| #[trigger]
                old(self).groups().contains_key(i) implies done.contains(i) by {
                let jj = choose|jj: int| #![auto] 0 <= jj < ids@.len() && ids@[jj] == i;
            }
        }
    }

    /// One `(key, value)` pair per alias table entry whose slot is live, in
    /// the alias table's own (arbitrary) order: a value shared by several
    /// keys appears once per key.  Entries whose slot is no longer live are
    /// skipped.
    pub(crate) fn live_pairs<'a>(&'a self) -> (result: Vec<(&'a K, &'a V)>)
        requires
            self.wf(),
        ensures
            crate::iter::pairs_match(result@, *self),
    {
        let mut out: Vec<(&K, &V)> = Vec::new();
        let mut pair_iter = self.keys.iter();
        let ghost all = pair_iter.remaining();
        let ghost taken: int = 0;
        proof {
            assert(pair_iter == vstd::std_specs::hash::spec_hash_map_iter(&self.keys));
            assert(vstd::std_specs::hash::spec_hash_map_iter(&self.keys).remaining() == all);
            assert(pair_iter.remaining() =~= all.skip(0));
        }
        loop
            invariant
                self.wf(),
                0 <= taken <= all.len(),
                pair_iter.remaining() == all.skip(taken),
                all.no_duplicates(),
                all.len() == self.aliases().dom().len(),
                forall|j2: int|
                    #![trigger all[j2]]
                    0 <= j2 < all.len() ==> self.spec_contains_key(*all[j2].0) && self.slot_of(
                        *all[j2].0,
                    ) == *all[j2].1,
                forall|k: K| #[trigger]
                    self.spec_contains_key(k) ==> all.contains((&k, &self.aliases()[k])),
                forall|j3: int|
                    #![trigger out@[j3]]
                    0 <= j3 < out@.len() ==> self.has_live_slot(*out@[j3].0) && *out@[j3].1
                        == self.value_of(*out@[j3].0),
                forall|j3: int|
                    #![trigger out@[j3]]
                    0 <= j3 < out@.len() ==> exists|j2: int|
                        #![auto]
                        0 <= j2 < taken && *out@[j3].0 == *all[j2].0,
                forall|j31: int, j32: int|
                    0 <= j31 < j32 < out@.len() ==> *out@[j31].0 != *out@[j32].0,
                forall|j2: int|
                    #![trigger all[j2]]
                    0 <= j2 < taken && self.has_live_slot(*all[j2].0) ==> exists|j3: int|
                        #![auto]
                        0 <= j3 < out@.len() && *out@[j3].0 == *all[j2].0,
            ensures
                taken == all.len(),
            decreases self.aliases().dom().len() - taken,
        {
            match iter_next(&mut pair_iter) {
                Some(pair) => {
                    let (k_ref, idx_ref) = pair;
                    let ghost prior = out@;
                    proof {
                        assert(pair == all[taken]);
                    }
                    match self.data.get(idx_ref) {
                        Some(group) => {
                            proof {
                                assert forall|j3: int|
                                    0 <= j3 < out@.len() implies *out@[j3].0 != *k_ref by {
                                    let j2 = choose|j2: int|
                                        0 <= j2 < taken && *out@[j3].0 == *all[j2].0;
                                    if *all[j2].0 == *all[taken].0 {
                                        assert(*all[j2].1 == self.slot_of(*all[j2].0));
                                        assert(*all[taken].1 == self.slot_of(*all[taken].0));
                                        assert(all[j2] == all[taken]);
                                    }
                                }
                            }
                            out.push((k_ref, &group.1));
                            proof {
                                assert(*out@[out@.len() - 1].0 == *all[taken].0);
                            }
                        },
                        None => {
                            proof {
                                assert(!self.has_live_slot(*all[taken].0));
                            }
                        },
                    }
                    proof {
                        taken = taken + 1;
                        assert(pair_iter.remaining() =~= all.skip(taken));
                        assert forall|j2: int|
                            #![trigger all[j2]]
                            0 <= j2 < taken && self.has_live_slot(*all[j2].0) implies exists|
                            j3: int,
                        |
                            #![auto]
                            0 <= j3 < out@.len() && *out@[j3].0 == *all[j2].0 by {
                            if j2 < taken - 1 {
                                let j3 = choose|j3: int|
                                    #![auto]
                                    0 <= j3 < prior.len() && *prior[j3].0 == *all[j2].0;
                                assert(*out@[j3].0 == *all[j2].0);
                            }
                        }
                    }
                },
                None => {
                    break ;
                },
            }
        }
        proof {
            assert forall|k: K| #[trigger] self.has_live_slot(k) implies exists|j3: int|
                #![auto]
                0 <= j3 < out@.len() && *out@[j3].0 == k by {
                assert(all.contains((&k, &self.aliases()[k])));
                let j2 = choose|j2: int| 0 <= j2 < all.len() && all[j2] == (&k, &self.aliases()[k]);
                assert(self.has_live_slot(*all[j2].0));
            }
        }
        out
    }

    /// An iterator-like snapshot over all key/value pairs; a value shared
    /// by several keys is visited once per key.
    pub fn iter<'a>(&'a self) -> (result: crate::iter::Iter<'a, K, V>)
        requires
            self.wf(),
        ensures
            result.inv(),
            result.remaining_pairs() == result.all_pairs(),
            crate::iter::pairs_match(result.all_pairs(), *self),
    {
        crate::iter::Iter::new(self)
    }

    /// Creates a fresh sole-owned group holding `v` and aliases the absent
    /// key `k` to it, returning a reference to the stored value.
    pub(crate) fn insert_new<'a>(&'a mut self, k: K, v: V) -> (result: &'a V)
        requires
            old(self).wf(),
            !old(self).spec_contains_key(k),
            old(self).counter() < u128::MAX,
        ensures
            final(self).wf(),
            forall|k2: K| old(self).live_key(k2) ==> final(self).live_key(k2),
            final(self).aliases() == old(self).aliases().insert(k, old(self).counter()),
            final(self).groups() == old(self).groups().insert(old(self).counter(), (1usize, v)),
            final(self).counter() == old(self).counter() + 1,
            *result == v,
    {
        let new_idx = self.max_index;
        self.max_index = new_idx + 1;
        self.keys.insert(k, new_idx);
        self.data.insert(new_idx, (1, v));
        proof {
            self.lemma_wf_after_fresh_insert(*old(self), k, new_idx, v);
        }
        let group_ref = self.data.get(&new_idx).unwrap();
        &group_ref.1
    }

    /// Replaces the value of the live group at slot `idx` with what `f`
    /// makes of it; the group's count and every alias stay as they were.
    pub(crate) fn apply_at_slot<F: FnOnce(V) -> V>(&mut self, idx: u128, f: F)
        requires
            old(self).wf(),
            old(self).groups().contains_key(idx),
            call_requires(f, (old(self).groups()[idx].1,)),
        ensures
            final(self).wf(),
            forall|k2: K| old(self).live_key(k2) ==> final(self).live_key(k2),
            final(self).aliases() == old(self).aliases(),
            final(self).counter() == old(self).counter(),
            exists|r: V|
                #[trigger] call_ensures(f, (old(self).groups()[idx].1,), r) && final(self).groups()
                    == old(self).groups().insert(idx, (old(self).groups()[idx].0, r)),
    {
        let group = self.data.remove(&idx).unwrap();
        let (count, val) = group;
        let new_val = f(val);
        self.data.insert(idx, (count, new_val));
        proof {
            assert(self.groups() =~= old(self).groups().insert(
                idx,
                (old(self).groups()[idx].0, new_val),
            ));
            assert forall|i: u128| #[trigger]
                self.groups().contains_key(i) implies self.groups()[i].0 as nat == alias_targets(
                self.aliases(),
                i,
            ).len() by {}
        }
    }

    /// Deletes the group at slot `idx` outright, whatever its count, along
    /// with the single alias `k`; any other alias of that group is left
    /// dangling.
    pub(crate) fn evict_slot(&mut self, k: &K, idx: u128) -> (result: Option<V>)
        requires
            old(self).wf(),
            old(self).spec_contains_key(*k),
            old(self).slot_of(*k) == idx,
        ensures
            final(self).wf(),
            final(self).aliases() == old(self).aliases().remove(*k),
            final(self).groups() == old(self).groups().remove(idx),
            final(self).counter() == old(self).counter(),
            result == if old(self).groups().contains_key(idx) {
                Some(old(self).groups()[idx].1)
            } else {
                None::<V>
            },
    {
        let value = match self.data.remove(&idx) {
            Some(group) => Some(group.1),
            None => None,
        };
        self.keys.remove(k);
        proof {
            assert forall|i: u128| #[trigger]
                self.groups().contains_key(i) implies self.groups()[i].0 as nat == alias_targets(
                self.aliases(),
                i,
            ).len() by {
                lemma_alias_targets_remove(old(self).aliases(), *k, i);
                lemma_alias_targets_finite(old(self).aliases(), i);
                assert(!alias_targets(old(self).aliases(), i).contains(*k));
            }
        }
        value
    }

    /// Resolves `k` once: an `Occupied` handle carrying the key and its slot
    /// when an alias exists, else a `Vacant` handle retaining the key.
    pub fn entry(&self, k: K) -> (result: Entry<K>)
        requires
            self.wf(),
        ensures
            match result {
                Entry::Occupied(e) => {
                    &&& self.spec_contains_key(k)
                    &&& e.spec_key() == k
                    &&& e.slot() == self.slot_of(k)
                },
                Entry::Vacant(e) => !self.spec_contains_key(k) && e.spec_key() == k,
            },
    {
        match self.keys.get(&k) {
            Some(idx) => {
                let i: u128 = *idx;
                Entry::Occupied(OccupiedEntry::new_resolved(k, i))
            },
            None => Entry::Vacant(VacantEntry::new_pending(k)),
        }
    }

    /// Removes every key of `ks` in order, collecting the values of the
    /// groups that became fully vacated, in order.
    pub fn remove_many(&mut self, ks: &Vec<K>) -> (result: Vec<V>)
        requires
            old(self).wf(),
            forall|j: int| 0 <= j < ks@.len() ==> old(self).live_key(ks@[j]),
        ensures
            final(self).wf(),
            forall|k2: K| old(self).live_key(k2) ==> final(self).live_key(k2),
            ({
                let outcome = removed_state(old(self).aliases(), old(self).groups(), ks@);
                &&& final(self).aliases() == outcome.0
                &&& final(self).groups() == outcome.1
                &&& final(self).counter() == old(self).counter()
                &&& result@ == outcome.2
            }),
    {
        let mut bumped: Vec<V> = Vec::new();
        let ghost full = removed_state(old(self).aliases(), old(self).groups(), ks@);
        proof {
            assert(ks@.skip(0) =~= ks@);
            assert(bumped@ + full.2 =~= full.2);
        }
        let mut i: usize = 0;
        while i < ks.len()
            invariant
                i <= ks.len(),
                self.wf(),
                self.counter() == old(self).counter(),
                old(self).wf(),
                forall|j: int| 0 <= j < ks@.len() ==> old(self).live_key(ks@[j]),
                forall|k2: K| old(self).live_key(k2) ==> self.live_key(k2),
                full == removed_state(old(self).aliases(), old(self).groups(), ks@),
                ({
                    let rest = removed_state(self.aliases(), self.groups(), ks@.skip(i as int));
                    &&& full.0 == rest.0
                    &&& full.1 == rest.1
                    &&& full.2 == bumped@ + rest.2
                }),
            decreases ks.len() - i,
        {
            let ghost pre = *self;
            let ghost rest_pre = removed_state(pre.aliases(), pre.groups(), ks@.skip(i as int));
            let ghost bumped_pre = bumped@;
            match self.remove(&ks[i]) {
                Some(val) => bumped.push(val),
                None => (),
            }
            proof {
                assert(ks@.skip(i as int)[0] == ks@[i as int]);
                assert(ks@.skip(i as int).drop_first() =~= ks@.skip(i as int + 1));
                let k0 = ks@[i as int];
                let rest = removed_state(self.aliases(), self.groups(), ks@.skip(i as int + 1));
                if pre.spec_contains_key(k0) && pre.count_of(k0) == 1 {
                    assert(rest_pre.2 == seq![pre.value_of(k0)] + rest.2);
                    assert(bumped_pre + rest_pre.2 =~= bumped@ + rest.2);
                } else {
                    assert(bumped@ == bumped_pre);
                }
            }
            i = i + 1;
        }
        proof {
            assert(ks@.skip(ks@.len() as int) =~= Seq::<K>::empty());
            assert(full.2 =~= bumped@ + Seq::<V>::empty());
            assert(full.2 =~= bumped@);
        }
        bumped
    }
}

/// Nominal invariant: as long as every alias of `m` is live — which only
/// the batch-insert eviction path and unconditional entry removal can
/// break — a key the map contains always resolves to a value.
pub proof fn lemma_contained_key_resolves<K, V>(m: MultiKeyMap<K, V>, k: K) where
    K: Eq + std::hash::Hash,

    requires
        m.wf(),
        m.all_live(),
        m.spec_contains_key(k),
    ensures
        m.spec_get(k) is Some,
{
    assert(m.live_key(k));
}

/// A live group's reference count always equals the number of aliases
/// currently targeting its slot.
pub proof fn lemma_count_matches_aliases<K, V>(m: MultiKeyMap<K, V>, i: u128) where
    K: Eq + std::hash::Hash,

    requires
        m.wf(),
        m.groups().contains_key(i),
    ensures
        m.groups()[i].0 as nat == alias_targets(m.aliases(), i).len(),
{
}

/// Reading is idempotent: any two results that a lookup of the same key on
/// the same map may return are equal, since each is pinned to `spec_get`.
pub proof fn lemma_read_idempotent<K, V>(
    m: MultiKeyMap<K, V>,
    k: K,
    r1: Option<V>,
    r2: Option<V>,
) where K: Eq + std::hash::Hash
    requires
        r1 == m.spec_get(k),
        r2 == m.spec_get(k),
    ensures
        r1 == r2,
{
}

} // verus!
