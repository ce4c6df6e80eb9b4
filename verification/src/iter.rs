//! Pair iteration over [`crate::MultiKeyMap`]: one pair per alias table
//! entry, resolved through the group table.

use std::hash::Hash;
use vstd::prelude::*;

use crate::MultiKeyMap;

verus! {

/// The sequence `pairs` holds exactly one `(key, value)` pair for every
/// alias table entry of `m` whose slot is live, each key once, each paired
/// with its group's value.
pub open spec fn pairs_match<K, V>(pairs: Seq<(&K, &V)>, m: MultiKeyMap<K, V>) -> bool where
    K: Eq + Hash,
 {
    &&& forall|j: int|
        #![trigger pairs[j]]
        0 <= j < pairs.len() ==> m.has_live_slot(*pairs[j].0) && *pairs[j].1 == m.value_of(
            *pairs[j].0,
        )
    &&& forall|j1: int, j2: int| 0 <= j1 < j2 < pairs.len() ==> *pairs[j1].0 != *pairs[j2].0
    &&& forall|k: K| #[trigger]
        m.has_live_slot(k) ==> exists|j: int| #![auto] 0 <= j < pairs.len() && *pairs[j].0 == k
}

/// A snapshot of all key/value pairs of a [`MultiKeyMap`], one per alias
/// table entry, handed out in order by [`Iter::next`].
///
/// A value shared by several keys appears once per key.  Alias entries whose
/// slot is no longer live are skipped.
pub struct Iter<'a, K, V> {
    pairs: Vec<(&'a K, &'a V)>,
    pos: usize,
}

impl<'a, K, V> Iter<'a, K, V> {
    /// Resolves every alias of `map` through the group table, taking a
    /// snapshot of all live key/value pairs.
    pub fn new(map: &'a MultiKeyMap<K, V>) -> (result: Self) where K: Eq + Hash
        requires
            map.wf(),
        ensures
            result.inv(),
            result.remaining_pairs() == result.all_pairs(),
            pairs_match(result.all_pairs(), *map),
    {
        let pairs = map.live_pairs();
        let result = Iter { pairs, pos: 0 };
        proof {
            assert(result.remaining_pairs() =~= result.all_pairs());
        }
        result
    }
    /// The pairs this iterator will still hand out.
    pub closed spec fn remaining_pairs(self) -> Seq<(&'a K, &'a V)> {
        self.pairs@.skip(self.pos as int)
    }

    /// All pairs the iterator was built over.
    pub closed spec fn all_pairs(self) -> Seq<(&'a K, &'a V)> {
        self.pairs@
    }

    /// Position bookkeeping: the cursor never runs past the end.
    pub closed spec fn inv(self) -> bool {
        self.pos <= self.pairs@.len()
    }

    /// Hands out the next pair, or `None` when all pairs were visited.
    pub fn next(&mut self) -> (result: Option<(&'a K, &'a V)>)
        requires
            old(self).inv(),
        ensures
            final(self).inv(),
            final(self).all_pairs() == old(self).all_pairs(),
            match result {
                Some(pair) => old(self).remaining_pairs().len() > 0 && pair == old(
                    self,
                ).remaining_pairs()[0] && final(self).remaining_pairs() == old(
                    self,
                ).remaining_pairs().drop_first(),
                None => old(self).remaining_pairs().len() == 0 && final(self).remaining_pairs()
                    == old(self).remaining_pairs(),
            },
    {
        if self.pos < self.pairs.len() {
            let pair = self.pairs[self.pos];
            self.pos = self.pos + 1;
            assert(self.remaining_pairs() =~= old(self).remaining_pairs().drop_first());
            Some(pair)
        } else {
            assert(self.remaining_pairs() =~= old(self).remaining_pairs());
            None
        }
    }
}

} // verus!
