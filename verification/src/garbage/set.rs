//! The set variant of the garbage-collected store: membership only, over the
//! same slot-binning engine as the map variant.

use vstd::prelude::*;
use vstd::laws_eq::obeys_concrete_eq;
use crate::garbage::Duration;
use crate::garbage::map::GcMap;
use core::hash::Hash;

verus! {

/// A set of keys whose members expire in bulk, one time slot at a time.
///
/// Touching a key refreshes it: the member moves to the slot of the supplied
/// timestamp, so only members untouched for a whole time-to-live are swept.
pub struct GcSet<K>
where
    K: Eq + Hash,
{
    map: GcMap<K, ()>,
}

impl<K> GcSet<K>
where
    K: Eq + Hash,
{
    /// The time-to-live, in milliseconds.
    pub closed spec fn ttl_ms(self) -> u64 {
        self.map.ttl_ms()
    }

    /// The slot width, in milliseconds.
    pub closed spec fn slot_width_ms(self) -> u64 {
        self.map.slot_width_ms()
    }

    /// The slot id a timestamp is routed to.
    pub open spec fn slot_of_time(self, time_ms: u64) -> u64
        recommends
            self.slot_width_ms() > 0,
    {
        time_ms / self.slot_width_ms()
    }

    /// The oldest slot id still live when `gc` runs at `time_ms`.
    pub open spec fn cutoff_of_time(self, time_ms: u64) -> u64
        recommends
            self.slot_width_ms() > 0,
    {
        let ttl_slots = self.ttl_ms() / self.slot_width_ms();
        if self.slot_of_time(time_ms) >= ttl_slots {
            (self.slot_of_time(time_ms) - ttl_slots) as u64
        } else {
            0
        }
    }

    /// `k` is currently a member.
    pub closed spec fn contains_key(self, k: K) -> bool {
        self.map.contains_key(k)
    }

    /// The slot id that member `k` currently lives in.
    pub closed spec fn slot_of_key(self, k: K) -> u64 {
        self.map.slot_of_key(k)
    }

    /// Well-formedness of the underlying slot structure.
    pub closed spec fn wf(self) -> bool {
        self.map.wf()
    }

    /// Creates an empty set with the given time-to-live and slot width.
    pub fn new(value_ttl_ms: Duration, gc_slot_duration_ms: Duration) -> (r: Self)
        requires
            value_ttl_ms.wf(),
            gc_slot_duration_ms.wf(),
        ensures
            r.wf(),
            r.ttl_ms() == value_ttl_ms.spec_get(),
            r.slot_width_ms() == gc_slot_duration_ms.spec_get(),
            forall|k: K| !r.contains_key(k),
    {
        GcSet { map: GcMap::new(value_ttl_ms, gc_slot_duration_ms) }
    }

    /// Membership test across all live slots; like the map variant's lookup
    /// it never consults the clock.
    pub fn contains(&self, key: &K) -> (r: bool)
        requires
            self.wf(),
        ensures
            obeys_concrete_eq::<K>() ==> r == self.contains_key(*key),
    {
        self.map.get_value(key).is_some()
    }

    /// Inserts a key, or refreshes it: the member moves to the slot of
    /// `current_time_ms`, whatever slot held it before.
    pub fn set_key(&mut self, key: K, current_time_ms: u64)
        requires
            old(self).wf(),
        ensures
            final(self).wf(),
            final(self).ttl_ms() == old(self).ttl_ms(),
            final(self).slot_width_ms() == old(self).slot_width_ms(),
            obeys_concrete_eq::<K>() ==> {
                &&& final(self).contains_key(key)
                &&& final(self).slot_of_key(key) == old(self).slot_of_time(current_time_ms)
                &&& forall|k: K|
                    k != key ==> (#[trigger] final(self).contains_key(k)
                        <==> old(self).contains_key(k))
                &&& forall|k: K|
                    k != key && #[trigger] old(self).contains_key(k)
                        ==> final(self).slot_of_key(k) == old(self).slot_of_key(k)
            },
    {
        self.map.set_value(key, (), current_time_ms);
    }

    /// Removes a key, if it is a member.
    pub fn remove_key(&mut self, key: &K)
        requires
            old(self).wf(),
        ensures
            final(self).wf(),
            final(self).ttl_ms() == old(self).ttl_ms(),
            final(self).slot_width_ms() == old(self).slot_width_ms(),
            obeys_concrete_eq::<K>() ==> {
                &&& !final(self).contains_key(*key)
                &&& forall|k: K|
                    k != *key ==> (#[trigger] final(self).contains_key(k)
                        <==> old(self).contains_key(k))
                &&& forall|k: K|
                    k != *key && #[trigger] old(self).contains_key(k)
                        ==> final(self).slot_of_key(k) == old(self).slot_of_key(k)
            },
    {
        self.map.remove_value(key);
    }

    /// Sweeps every slot older than the cutoff, exactly as the map variant
    /// does: members still at or past the cutoff survive with their slot.
    pub fn gc(&mut self, current_time_ms: u64)
        requires
            old(self).wf(),
        ensures
            final(self).wf(),
            final(self).ttl_ms() == old(self).ttl_ms(),
            final(self).slot_width_ms() == old(self).slot_width_ms(),
            obeys_concrete_eq::<K>() ==> {
                &&& forall|k: K|
                    #[trigger] old(self).contains_key(k)
                        && old(self).slot_of_key(k) >= old(self).cutoff_of_time(current_time_ms)
                        ==> final(self).contains_key(k)
                            && final(self).slot_of_key(k) == old(self).slot_of_key(k)
                &&& forall|k: K|
                    #[trigger] old(self).contains_key(k)
                        && old(self).slot_of_key(k) < old(self).cutoff_of_time(current_time_ms)
                        ==> !final(self).contains_key(k)
                &&& forall|k: K| #[trigger] final(self).contains_key(k) ==> old(self).contains_key(k)
            },
    {
        self.map.gc(current_time_ms);
    }
}

} // verus!
