//! The counted variant of the garbage-collected store: a decaying per-key
//! counter over the same slot-binning engine as the map variant.

use vstd::prelude::*;
use vstd::laws_eq::obeys_concrete_eq;
use crate::garbage::Duration;
use crate::garbage::map::GcMap;
use core::hash::Hash;

verus! {

/// A per-key counter whose counts expire in bulk, one time slot at a time.
///
/// Touching a key creates it with count one or moves its existing count into
/// the slot of the supplied timestamp while incrementing it, so the whole
/// count decays to nothing once the key goes untouched for a time-to-live.
pub struct GcCounted<K>
where
    K: Eq + Hash,
{
    map: GcMap<K, u64>,
}

impl<K> GcCounted<K>
where
    K: Eq + Hash,
{
    /// The time-to-live, in milliseconds.
    pub closed spec fn ttl_ms(self) -> u64 {
        self.map.ttl_ms()
    }

    /// The slot width, in milliseconds.
    pub closed spec fn slot_width_ms(self) -> u64 {
        self.map.slot_width_ms()
    }

    /// The slot id a timestamp is routed to.
    pub open spec fn slot_of_time(self, time_ms: u64) -> u64
        recommends
            self.slot_width_ms() > 0,
    {
        time_ms / self.slot_width_ms()
    }

    /// The oldest slot id still live when `gc` runs at `time_ms`.
    pub open spec fn cutoff_of_time(self, time_ms: u64) -> u64
        recommends
            self.slot_width_ms() > 0,
    {
        let ttl_slots = self.ttl_ms() / self.slot_width_ms();
        if self.slot_of_time(time_ms) >= ttl_slots {
            (self.slot_of_time(time_ms) - ttl_slots) as u64
        } else {
            0
        }
    }

    /// `k` currently has a live count.
    pub closed spec fn contains_key(self, k: K) -> bool {
        self.map.contains_key(k)
    }

    /// The slot id that the count for `k` currently lives in.
    pub closed spec fn slot_of_key(self, k: K) -> u64 {
        self.map.slot_of_key(k)
    }

    /// The count for `k`: zero when no live count exists.
    pub closed spec fn count_of(self, k: K) -> u64 {
        if self.map.contains_key(k) {
            self.map.value_of(k)
        } else {
            0
        }
    }

    /// Well-formedness of the underlying slot structure.
    pub closed spec fn wf(self) -> bool {
        self.map.wf()
    }

    /// Creates an empty counter with the given time-to-live and slot width.
    pub fn new(value_ttl_ms: Duration, gc_slot_duration_ms: Duration) -> (r: Self)
        requires
            value_ttl_ms.wf(),
            gc_slot_duration_ms.wf(),
        ensures
            r.wf(),
            r.ttl_ms() == value_ttl_ms.spec_get(),
            r.slot_width_ms() == gc_slot_duration_ms.spec_get(),
            forall|k: K| !r.contains_key(k) && r.count_of(k) == 0,
    {
        GcCounted { map: GcMap::new(value_ttl_ms, gc_slot_duration_ms) }
    }

    /// The live count for a key, zero when none; like the map variant's
    /// lookup it never consults the clock.
    pub fn get_count(&self, key: &K) -> (r: u64)
        requires
            self.wf(),
        ensures
            obeys_concrete_eq::<K>() ==> r == self.count_of(*key),
    {
        match self.map.get_value(key) {
            Some(c) => *c,
            None => 0,
        }
    }

    /// Counts one more sighting of a key: a fresh key gets count one, a live
    /// count moves to the slot of `current_time_ms` (refreshing its
    /// time-to-live) and grows by one, saturating at the largest count.
    pub fn increment(&mut self, key: K, current_time_ms: u64)
        requires
            old(self).wf(),
        ensures
            final(self).wf(),
            final(self).ttl_ms() == old(self).ttl_ms(),
            final(self).slot_width_ms() == old(self).slot_width_ms(),
            obeys_concrete_eq::<K>() ==> {
                &&& final(self).contains_key(key)
                &&& final(self).slot_of_key(key) == old(self).slot_of_time(current_time_ms)
                &&& final(self).count_of(key) == (if old(self).count_of(key) == u64::MAX {
                    u64::MAX
                } else {
                    (old(self).count_of(key) + 1) as u64
                })
                &&& forall|k: K|
                    k != key ==> (#[trigger] final(self).contains_key(k)
                        <==> old(self).contains_key(k))
                &&& forall|k: K|
                    k != key && #[trigger] old(self).contains_key(k)
                        ==> final(self).slot_of_key(k) == old(self).slot_of_key(k)
                            && final(self).count_of(k) == old(self).count_of(k)
            },
    {
        let prior: u64 = match self.map.get_value(&key) {
            Some(c) => *c,
            None => 0,
        };
        let next: u64 = if prior == u64::MAX {
            prior
        } else {
            prior + 1
        };
        self.map.set_value(key, next, current_time_ms);
    }

    /// Removes the count for a key, if one is live.
    pub fn remove_key(&mut self, key: &K)
        requires
            old(self).wf(),
        ensures
            final(self).wf(),
            final(self).ttl_ms() == old(self).ttl_ms(),
            final(self).slot_width_ms() == old(self).slot_width_ms(),
            obeys_concrete_eq::<K>() ==> {
                &&& !final(self).contains_key(*key)
                &&& final(self).count_of(*key) == 0
                &&& forall|k: K|
                    k != *key ==> (#[trigger] final(self).contains_key(k)
                        <==> old(self).contains_key(k))
                &&& forall|k: K|
                    k != *key && #[trigger] old(self).contains_key(k)
                        ==> final(self).slot_of_key(k) == old(self).slot_of_key(k)
                            && final(self).count_of(k) == old(self).count_of(k)
            },
    {
        self.map.remove_value(key);
    }

    /// Sweeps every slot older than the cutoff, exactly as the map variant
    /// does: counts still at or past the cutoff survive unchanged.
    pub fn gc(&mut self, current_time_ms: u64)
        requires
            old(self).wf(),
        ensures
            final(self).wf(),
            final(self).ttl_ms() == old(self).ttl_ms(),
            final(self).slot_width_ms() == old(self).slot_width_ms(),
            obeys_concrete_eq::<K>() ==> {
                &&& forall|k: K|
                    #[trigger] old(self).contains_key(k)
                        && old(self).slot_of_key(k) >= old(self).cutoff_of_time(current_time_ms)
                        ==> final(self).contains_key(k)
                            && final(self).slot_of_key(k) == old(self).slot_of_key(k)
                            && final(self).count_of(k) == old(self).count_of(k)
                &&& forall|k: K|
                    #[trigger] old(self).contains_key(k)
                        && old(self).slot_of_key(k) < old(self).cutoff_of_time(current_time_ms)
                        ==> !final(self).contains_key(k) && final(self).count_of(k) == 0
                &&& forall|k: K| #[trigger] final(self).contains_key(k) ==> old(self).contains_key(k)
            },
    {
        self.map.gc(current_time_ms);
    }
}

} // verus!
