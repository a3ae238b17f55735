//! The cache of entries already seen.
//!
//! Two elements with the same timestamp count as the same entry, so the
//! cache is a set of timestamps. It grows as entries are offered and shrinks
//! as the window moves on.

use crate::item::{Element, ElementView};
use std::collections::HashSet;
use vstd::prelude::*;

verus! {

broadcast use vstd::std_specs::hash::group_hash_axioms;

/// The entries seen within the window, each known by its timestamp.
pub struct DedupCache {
    seen: HashSet<i64>,
}

impl View for DedupCache {
    type V = Set<i64>;

    closed spec fn view(&self) -> Set<i64> {
        self.seen@
    }
}

/// The timestamps of `seen` that lie after `cutoff`.
pub open spec fn after(seen: Set<i64>, cutoff: i64) -> Set<i64> {
    seen.filter(|t: i64| t > cutoff)
}

/// What the cache holds once the entries have been offered in turn.
pub open spec fn offered(seen: Set<i64>, entries: Seq<ElementView>) -> Set<i64>
    decreases entries.len(),
{
    if entries.len() == 0 {
        seen
    } else {
        offered(seen, entries.drop_last()).insert(entries.last().timestamp())
    }
}

/// Offers only add to the cache.
pub proof fn lemma_offered_grows(seen: Set<i64>, entries: Seq<ElementView>, t: i64)
    requires
        seen.contains(t),
    ensures
        offered(seen, entries).contains(t),
    decreases entries.len(),
{
    if entries.len() > 0 {
        lemma_offered_grows(seen, entries.drop_last(), t);
    }
}

/// An entry that is offered a second time, with or without other offers in
/// between but with no eviction, is in the cache by then: where the first
/// offer answered that the entry was new, the second answers that it is
/// not. What counts is the timestamp alone.
pub proof fn lemma_offer_twice(
    seen: Set<i64>,
    first: ElementView,
    between: Seq<ElementView>,
    again: ElementView,
)
    requires
        first.timestamp() == again.timestamp(),
    ensures
        offered(seen.insert(first.timestamp()), between).contains(again.timestamp()),
        offered(seen.insert(first.timestamp()), between).insert(again.timestamp()) == offered(
            seen.insert(first.timestamp()),
            between,
        ),
{
    let later = offered(seen.insert(first.timestamp()), between);
    lemma_offered_grows(seen.insert(first.timestamp()), between, first.timestamp());
    assert(later.insert(again.timestamp()) =~= later);
}

impl DedupCache {
    /// The empty cache.
    pub fn new() -> (cache: DedupCache)
        ensures
            cache@ == Set::<i64>::empty(),
    {
        DedupCache { seen: HashSet::new() }
    }

    /// The number of entries in the cache.
    pub fn len(&self) -> (n: usize)
        ensures
            n == self@.len(),
    {
        self.seen.len()
    }

    /// Whether an entry with this timestamp is in the cache.
    pub fn contains(&self, timestamp: i64) -> (r: bool)
        ensures
            r == self@.contains(timestamp),
    {
        self.seen.contains(&timestamp)
    }

    /// Records the entry unless an entry with the same timestamp is there
    /// already, and tells whether it was new. `warm` is false in the first
    /// cycle only; an entry is recorded the same way in every cycle, and
    /// who offers it announces it only where it was new and `warm` holds.
    #[allow(unused_variables)]
    pub fn offer(&mut self, entry: &Element, warm: bool) -> (inserted: bool)
        ensures
            inserted == !old(self)@.contains(entry@.timestamp()),
            final(self)@ == old(self)@.insert(entry@.timestamp()),
    {
        self.seen.insert(entry.timestamp())
    }

    /// Removes every entry whose timestamp is `cutoff` or earlier.
    pub fn evict(&mut self, cutoff: i64)
        ensures
            final(self)@ == after(old(self)@, cutoff),
            forall|t: i64| final(self)@.contains(t) ==> t > cutoff,
    {
        let mut kept: HashSet<i64> = HashSet::new();
        let ghost all = self.seen@;
        let ghost mut visited: Set<i64> = Set::empty();
        let keys = self.seen.iter();
        proof {
            assert(kept@ =~= after(visited, cutoff));
        }
        for t in it: keys
            invariant
                it.seq().unref().to_set() == all,
                visited == it.seq().unref().take(it.index()).to_set(),
                kept@ == after(visited, cutoff),
                it.index() == it.seq().len() ==> visited == all,
        {
            let stamp: i64 = *t;
            let ghost order = it.seq().unref();
            let ghost i = it.index();
            proof {
                assert(order[i] == stamp);
                let prev = order.take(i);
                let next = order.take(i + 1);
                assert forall|s: i64|
                    next.to_set().contains(s) <==> visited.insert(stamp).contains(s) by {
                    if next.contains(s) {
                        let k = choose|k: int| 0 <= k < next.len() && next[k] == s;
                        if k < i {
                            assert(prev[k] == s);
                        }
                    }
                    if visited.contains(s) {
                        let k = choose|k: int| 0 <= k < prev.len() && prev[k] == s;
                        assert(next[k] == s);
                    }
                    if s == stamp {
                        assert(next[i] == s);
                    }
                }
                assert(order.take(i + 1).to_set() =~= visited.insert(stamp));
                if i + 1 == order.len() {
                    assert(order.take(i + 1) =~= order);
                }
                visited = visited.insert(stamp);
            }
            if stamp > cutoff {
                kept.insert(stamp);
            }
            proof {
                assert(kept@ =~= after(visited, cutoff));
            }
        }
        self.seen = kept;
    }
}

} // verus!
