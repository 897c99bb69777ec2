//! The map variant of the garbage-collected store: one value per key,
//! entries binned into time slots and reclaimed a whole slot at a time.

use vstd::prelude::*;
use vstd::laws_eq::obeys_concrete_eq;
use vstd::std_specs::cmp::PartialEqSpec;
use vstd::arithmetic::div_mod::{
    lemma_div_is_ordered, lemma_fundamental_div_mod, lemma_fundamental_div_mod_converse,
    lemma_mod_bound,
};
use crate::garbage::Duration;
use core::hash::Hash;

verus! {

/// One time slot: the slot id together with the entries inserted while that
/// slot was current. Within a well-formed store the entry keys are distinct.
struct Bucket<K, V> {
    slot: u64,
    entries: Vec<(K, V)>,
}

impl<K, V> Bucket<K, V> {
    /// Some entry of this bucket carries `k`.
    spec fn has_key(self, k: K) -> bool {
        exists|j: int| 0 <= j < self.entries@.len() && (#[trigger] self.entries@[j]).0 == k
    }

    /// The position of the entry carrying `k`, when one exists.
    spec fn key_index(self, k: K) -> int {
        choose|j: int| 0 <= j < self.entries@.len() && (#[trigger] self.entries@[j]).0 == k
    }

    /// The value stored beside `k`, when `k` is present.
    spec fn val_of(self, k: K) -> V {
        self.entries@[self.key_index(k)].1
    }

    /// No two entries carry the same key.
    spec fn keys_unique(self) -> bool {
        forall|j1: int, j2: int|
            0 <= j1 < self.entries@.len() && 0 <= j2 < self.entries@.len()
                && (#[trigger] self.entries@[j1]).0 == (#[trigger] self.entries@[j2]).0
                ==> j1 == j2
    }
}

impl<K: PartialEq, V> Bucket<K, V> {
    /// Scans the entries for `key` and reports the position of the match.
    #[verifier::loop_isolation(false)]
    fn find(&self, key: &K) -> (r: Option<usize>)
        ensures
            r matches Option::Some(j) ==> j < self.entries@.len(),
            obeys_concrete_eq::<K>() ==> match r {
                Option::Some(j) => self.entries@[j as int].0 == *key,
                Option::None => !self.has_key(*key),
            },
    {
        proof {
            lemma_eq_unfold::<K>();
        }
        let m = self.entries.len();
        let mut j: usize = 0;
        while j < m
            invariant
                j <= m,
                obeys_concrete_eq::<K>() ==> forall|b: int|
                    0 <= b < j ==> (#[trigger] self.entries@[b]).0 != *key,
            decreases m - j,
        {
            if self.entries[j].0 == *key {
                return Some(j);
            }
            j += 1;
        }
        None
    }
}

/// What removing the entry at position `j` by a swap with the last entry does
/// to a bucket whose keys are distinct: the key at `j` is gone, every other
/// key keeps its value, and no key appears that was not there before.
proof fn lemma_swap_remove_effect<K, V>(b_old: Bucket<K, V>, b_new: Bucket<K, V>, j: int, key: K)
    requires
        0 <= j < b_old.entries@.len(),
        b_new.entries@ == b_old.entries@.update(j, b_old.entries@.last()).drop_last(),
        b_old.entries@[j].0 == key,
        b_old.keys_unique(),
    ensures
        b_new.keys_unique(),
        !b_new.has_key(key),
        forall|k: K| #[trigger] b_new.has_key(k) ==> b_old.has_key(k),
        forall|k: K| k != key ==> (#[trigger] b_new.has_key(k) <==> b_old.has_key(k)),
        forall|k: K|
            k != key && #[trigger] b_old.has_key(k) ==> b_new.val_of(k) == b_old.val_of(k),
{
    let so = b_old.entries@;
    let sn = b_new.entries@;
    assert(sn.len() == so.len() - 1);
    assert forall|m: int| 0 <= m < sn.len() implies #[trigger] sn[m] == (if m == j {
        so[so.len() - 1]
    } else {
        so[m]
    }) by {}
    assert forall|m: int| 0 <= m < sn.len() implies (#[trigger] sn[m]).0 != key by {
        if m == j {
            assert(sn[m] == so[so.len() - 1]);
            if so[so.len() - 1].0 == key {
                assert(so.len() - 1 == j);
            }
        }
    }
    assert forall|k: K| k != key && #[trigger] b_old.has_key(k) implies b_new.has_key(k)
        && b_new.val_of(k) == b_old.val_of(k) by {
        let jo = b_old.key_index(k);
        assert(0 <= jo < so.len() && so[jo].0 == k);
        let m = if jo == so.len() - 1 {
            j
        } else {
            jo
        };
        assert(jo != j);
        assert(0 <= m < sn.len() && sn[m] == so[jo]);
        assert(b_new.has_key(k));
        let jn = b_new.key_index(k);
        assert(0 <= jn < sn.len() && sn[jn].0 == k);
        let back = if jn == j {
            so.len() - 1
        } else {
            jn
        };
        assert(sn[jn] == so[back]);
        assert(back == jo);
    }
}

/// What appending an entry for a fresh key does to a bucket whose keys are
/// distinct: the key is now present with the given value and every other key
/// is untouched.
proof fn lemma_push_effect<K, V>(b_old: Bucket<K, V>, b_new: Bucket<K, V>, key: K, value: V)
    requires
        b_new.entries@ == b_old.entries@.push((key, value)),
        b_old.keys_unique(),
        !b_old.has_key(key),
    ensures
        b_new.keys_unique(),
        b_new.has_key(key),
        b_new.val_of(key) == value,
        forall|k: K| #[trigger] b_new.has_key(k) ==> b_old.has_key(k) || k == key,
        forall|k: K| k != key ==> (#[trigger] b_new.has_key(k) <==> b_old.has_key(k)),
        forall|k: K|
            k != key && #[trigger] b_old.has_key(k) ==> b_new.val_of(k) == b_old.val_of(k),
{
    let so = b_old.entries@;
    let sn = b_new.entries@;
    assert(sn.len() == so.len() + 1);
    assert(sn[so.len() as int] == (key, value));
    assert forall|m: int| 0 <= m < so.len() implies #[trigger] sn[m] == so[m] by {}
    assert(b_new.has_key(key));
    let ji = b_new.key_index(key);
    assert(0 <= ji < sn.len() && sn[ji].0 == key);
    assert(ji == so.len() as int);
    assert(b_new.val_of(key) == value);
    assert forall|k: K| k != key && #[trigger] b_old.has_key(k) implies b_new.has_key(k)
        && b_new.val_of(k) == b_old.val_of(k) by {
        let jo = b_old.key_index(k);
        assert(0 <= jo < so.len() && so[jo].0 == k);
        assert(sn[jo] == so[jo]);
        assert(b_new.has_key(k));
        let jn = b_new.key_index(k);
        assert(0 <= jn < sn.len() && sn[jn].0 == k);
        assert(jn != so.len() as int);
        assert(sn[jn] == so[jn]);
        assert(jn == jo);
    }
}

/// Unfolds what a well-behaved `==` on `T` means for the spec-level equality
/// that the store's contracts are stated over.
proof fn lemma_eq_unfold<T: PartialEq>()
    ensures
        obeys_concrete_eq::<T>() ==> T::obeys_eq_spec()
            && (forall|x: T, y: T| #[trigger] x.eq_spec(&y) <==> x == y),
{
    reveal(vstd::laws_eq::obeys_concrete_eq);
}

/// A keyed store whose entries expire in bulk, one time slot at a time.
///
/// Entries are binned by insertion time into slots of `gc_slot_duration_ms`
/// milliseconds; `gc` drops every slot that ended more than `value_ttl_ms`
/// milliseconds before the supplied current time. Reads never consult the
/// clock: a key stays observable until a `gc` call sweeps its slot.
pub struct GcMap<K, V>
where
    K: Eq + Hash,
    V: Eq + Hash,
{
    /// The number of milliseconds a value is valid for.
    value_ttl_ms: Duration,
    /// The width of one garbage collection slot, in milliseconds.
    gc_slot_duration_ms: Duration,
    /// The live slots, newest first, each holding the entries routed to it.
    value_lifetimes: Vec<Bucket<K, V>>,
}

impl<K, V> GcMap<K, V>
where
    K: Eq + Hash,
    V: Eq + Hash,
{
    /// The time-to-live, in milliseconds.
    pub closed spec fn ttl_ms(self) -> u64 {
        self.value_ttl_ms.spec_get()
    }

    /// The slot width, in milliseconds.
    pub closed spec fn slot_width_ms(self) -> u64 {
        self.gc_slot_duration_ms.spec_get()
    }

    /// The slot id a timestamp is routed to: floor division by the width.
    pub open spec fn slot_of_time(self, time_ms: u64) -> u64
        recommends
            self.slot_width_ms() > 0,
    {
        time_ms / self.slot_width_ms()
    }

    /// The oldest slot id still live when `gc` runs at `time_ms`: the current
    /// slot minus the time-to-live measured in slots, floored at zero.
    pub open spec fn cutoff_of_time(self, time_ms: u64) -> u64
        recommends
            self.slot_width_ms() > 0,
    {
        let ttl_slots = self.ttl_ms() / self.slot_width_ms();
        if self.slot_of_time(time_ms) >= ttl_slots {
            (self.slot_of_time(time_ms) - ttl_slots) as u64
        } else {
            0
        }
    }

    spec fn buckets(self) -> Seq<Bucket<K, V>> {
        self.value_lifetimes@
    }

    /// How many slots currently hold entries (or held some and were not yet
    /// swept).
    pub closed spec fn num_buckets(self) -> int {
        self.buckets().len() as int
    }

    spec fn bkt(self, i: int) -> Bucket<K, V> {
        self.buckets()[i]
    }

    /// Some live slot carries `k`.
    pub closed spec fn contains_key(self, k: K) -> bool {
        exists|i: int| 0 <= i < self.num_buckets() && (#[trigger] self.bkt(i)).has_key(k)
    }

    /// The `i`-th newest live slot carries `k`.
    pub closed spec fn slot_holds_key(self, i: int, k: K) -> bool {
        0 <= i < self.num_buckets() && self.bkt(i).has_key(k)
    }

    spec fn bucket_of_key(self, k: K) -> int {
        choose|i: int| 0 <= i < self.num_buckets() && (#[trigger] self.bkt(i)).has_key(k)
    }

    /// The slot id of the `i`-th newest live slot.
    pub closed spec fn slot_at(self, i: int) -> u64 {
        self.bkt(i).slot
    }

    /// The slot id that `k` currently lives in, when `k` is present.
    pub closed spec fn slot_of_key(self, k: K) -> u64 {
        self.bkt(self.bucket_of_key(k)).slot
    }

    /// The value stored for `k`, when `k` is present.
    pub closed spec fn value_of(self, k: K) -> V {
        self.bkt(self.bucket_of_key(k)).val_of(k)
    }

    /// Key uniqueness: entry keys are distinct within each slot, and no key
    /// occurs in two slots.
    spec fn keys_ok(self) -> bool {
        &&& forall|i: int| 0 <= i < self.num_buckets() ==> (#[trigger] self.bkt(i)).keys_unique()
        &&& forall|i1: int, i2: int, k: K|
            0 <= i1 < self.num_buckets() && 0 <= i2 < self.num_buckets()
                && #[trigger] self.bkt(i1).has_key(k) && #[trigger] self.bkt(i2).has_key(k)
                ==> i1 == i2
    }

    /// Well-formedness: positive durations, slots strictly newest-first, and
    /// — whenever `==` on the key type agrees with spec equality — each key
    /// present in at most one place.
    pub closed spec fn wf(self) -> bool {
        &&& self.value_ttl_ms.wf()
        &&& self.gc_slot_duration_ms.wf()
        &&& forall|i1: int, i2: int|
            0 <= i1 < i2 < self.num_buckets()
                ==> (#[trigger] self.bkt(i1)).slot > (#[trigger] self.bkt(i2)).slot
        &&& obeys_concrete_eq::<K>() ==> self.keys_ok()
    }

    /// Creates an empty store with the given time-to-live and slot width.
    pub fn new(value_ttl_ms: Duration, gc_slot_duration_ms: Duration) -> (r: Self)
        requires
            value_ttl_ms.wf(),
            gc_slot_duration_ms.wf(),
        ensures
            r.wf(),
            r.ttl_ms() == value_ttl_ms.spec_get(),
            r.slot_width_ms() == gc_slot_duration_ms.spec_get(),
            r.num_buckets() == 0,
            forall|k: K| !r.contains_key(k),
    {
        GcMap { value_ttl_ms, gc_slot_duration_ms, value_lifetimes: Vec::new() }
    }

    /// With keys unique, a key found in slot `i` is the one occurrence the
    /// lookup specs speak of.
    proof fn lemma_lookup_at(self, k: K, i: int)
        requires
            self.keys_ok(),
            0 <= i < self.num_buckets(),
            self.bkt(i).has_key(k),
        ensures
            self.contains_key(k),
            self.bucket_of_key(k) == i,
            self.slot_of_key(k) == self.bkt(i).slot,
            self.value_of(k) == self.bkt(i).val_of(k),
    {
        assert(self.contains_key(k));
        let c = self.bucket_of_key(k);
        assert(0 <= c < self.num_buckets() && self.bkt(c).has_key(k));
    }

    /// Scans the slots newest first and reports where `key` lives: the slot
    /// position and the entry position inside it.
    #[verifier::loop_isolation(false)]
    fn locate(&self, key: &K) -> (r: Option<(usize, usize)>)
        ensures
            r matches Option::Some(p) ==> p.0 < self.num_buckets()
                && p.1 < self.bkt(p.0 as int).entries@.len(),
            obeys_concrete_eq::<K>() ==> match r {
                Option::Some(p) => self.bkt(p.0 as int).entries@[p.1 as int].0 == *key,
                Option::None => !self.contains_key(*key),
            },
    {
        let n = self.value_lifetimes.len();
        let mut i: usize = 0;
        while i < n
            invariant
                i <= n,
                obeys_concrete_eq::<K>() ==> forall|a: int|
                    0 <= a < i ==> !(#[trigger] self.bkt(a)).has_key(*key),
            decreases n - i,
        {
            match self.value_lifetimes[i].find(key) {
                Some(j) => {
                    return Some((i, j));
                }
                None => {}
            }
            i += 1;
        }
        None
    }

    /// Looks a key up across all live slots, newest slot first, without
    /// consulting the clock: an entry whose slot has not been swept is
    /// returned even if its nominal time-to-live has elapsed.
    pub fn get_value(&self, key: &K) -> (r: Option<&V>)
        requires
            self.wf(),
        ensures
            obeys_concrete_eq::<K>() ==> match r {
                Option::Some(v) => self.contains_key(*key) && *v == self.value_of(*key),
                Option::None => !self.contains_key(*key),
            },
    {
        match self.locate(key) {
            Some((i, j)) => {
                proof {
                    if obeys_concrete_eq::<K>() {
                        assert(self.bkt(i as int).has_key(*key));
                        self.lemma_lookup_at(*key, i as int);
                        let w = self.bkt(i as int).key_index(*key);
                        assert(0 <= w < self.bkt(i as int).entries@.len()
                            && self.bkt(i as int).entries@[w].0 == *key);
                        assert(w == j as int);
                    }
                }
                Some(&self.value_lifetimes[i].entries[j].1)
            }
            None => None,
        }
    }

    /// Removes the entry for a key, if one is live. The slot itself stays,
    /// possibly empty, until `gc` sweeps it.
    pub fn remove_value(&mut self, key: &K)
        requires
            old(self).wf(),
        ensures
            final(self).wf(),
            final(self).ttl_ms() == old(self).ttl_ms(),
            final(self).slot_width_ms() == old(self).slot_width_ms(),
            final(self).num_buckets() == old(self).num_buckets(),
            forall|i: int|
                0 <= i < old(self).num_buckets()
                    ==> final(self).slot_at(i) == old(self).slot_at(i),
            obeys_concrete_eq::<K>() ==> {
                &&& !final(self).contains_key(*key)
                &&& forall|k: K|
                    k != *key ==> (#[trigger] final(self).contains_key(k)
                        <==> old(self).contains_key(k))
                &&& forall|k: K|
                    k != *key && #[trigger] old(self).contains_key(k)
                        ==> final(self).slot_of_key(k) == old(self).slot_of_key(k)
                            && final(self).value_of(k) == old(self).value_of(k)
            },
    {
        match self.locate(key) {
            Some((i, j)) => {
                let ghost bs_old = self.value_lifetimes@;
                let mut b = self.value_lifetimes.remove(i);
                let ghost b_old = b;
                b.entries.swap_remove(j);
                let ghost b_new = b;
                self.value_lifetimes.insert(i, b);
                proof {
                    let ii = i as int;
                    assert(self.value_lifetimes@ =~= bs_old.update(ii, b_new));
                    assert(b_new.slot == b_old.slot);
                    assert forall|a: int| 0 <= a < old(self).num_buckets() implies
                        #[trigger] self.slot_at(a) == old(self).slot_at(a) by {
                        assert(self.bkt(a).slot == bs_old[a].slot);
                    }
                    assert forall|i1: int, i2: int| 0 <= i1 < i2 < self.num_buckets() implies
                        (#[trigger] self.bkt(i1)).slot > (#[trigger] self.bkt(i2)).slot by {
                        assert(self.bkt(i1).slot == old(self).bkt(i1).slot);
                        assert(self.bkt(i2).slot == old(self).bkt(i2).slot);
                    }
                    if obeys_concrete_eq::<K>() {
                        assert(old(self).bkt(ii).keys_unique());
                        lemma_swap_remove_effect(b_old, b_new, j as int, *key);
                        assert forall|a: int, k: K|
                            0 <= a < self.num_buckets() && #[trigger] self.bkt(a).has_key(k)
                                implies old(self).bkt(a).has_key(k) by {
                            if a != ii {
                                assert(self.bkt(a) == old(self).bkt(a));
                            }
                        }
                        assert forall|a: int| 0 <= a < self.num_buckets() implies
                            (#[trigger] self.bkt(a)).keys_unique() by {
                            if a == ii {
                                assert(self.bkt(a) == b_new);
                            } else {
                                assert(self.bkt(a) == old(self).bkt(a));
                                assert(old(self).bkt(a).keys_unique());
                            }
                        }
                        assert forall|a1: int, a2: int, k: K|
                            0 <= a1 < self.num_buckets() && 0 <= a2 < self.num_buckets()
                                && #[trigger] self.bkt(a1).has_key(k)
                                && #[trigger] self.bkt(a2).has_key(k) implies a1 == a2 by {
                            assert(old(self).bkt(a1).has_key(k));
                            assert(old(self).bkt(a2).has_key(k));
                        }
                        assert(self.keys_ok());
                        assert(!self.contains_key(*key)) by {
                            if self.contains_key(*key) {
                                let c = self.bucket_of_key(*key);
                                assert(self.bkt(c).has_key(*key));
                                assert(old(self).bkt(c).has_key(*key));
                                assert(old(self).bkt(ii).has_key(*key));
                                assert(c == ii);
                            }
                        }
                        assert forall|k: K| k != *key && #[trigger] old(self).contains_key(k)
                            implies self.contains_key(k)
                                && self.slot_of_key(k) == old(self).slot_of_key(k)
                                && self.value_of(k) == old(self).value_of(k) by {
                            let c = old(self).bucket_of_key(k);
                            assert(0 <= c < old(self).num_buckets()
                                && old(self).bkt(c).has_key(k));
                            old(self).lemma_lookup_at(k, c);
                            assert(self.bkt(c).has_key(k));
                            self.lemma_lookup_at(k, c);
                            if c != ii {
                                assert(self.bkt(c) == old(self).bkt(c));
                            }
                        }
                        assert forall|k: K| k != *key && #[trigger] self.contains_key(k)
                            implies old(self).contains_key(k) by {
                            let c = self.bucket_of_key(k);
                            assert(self.bkt(c).has_key(k));
                            assert(old(self).bkt(c).has_key(k));
                        }
                    }
                }
            }
            None => {}
        }
    }

    /// Inserts or overwrites the value for a key, routing the entry to the
    /// slot `current_time_ms / slot width`. Any prior occurrence of the key,
    /// in whatever slot, is removed first, so a key lives in one slot only.
    #[verifier::loop_isolation(false)]
    pub fn set_value(&mut self, key: K, value: V, current_time_ms: u64)
        requires
            old(self).wf(),
        ensures
            final(self).wf(),
            final(self).ttl_ms() == old(self).ttl_ms(),
            final(self).slot_width_ms() == old(self).slot_width_ms(),
            obeys_concrete_eq::<K>() ==> {
                &&& final(self).contains_key(key)
                &&& final(self).value_of(key) == value
                &&& final(self).slot_of_key(key) == old(self).slot_of_time(current_time_ms)
                &&& forall|k: K|
                    k != key ==> (#[trigger] final(self).contains_key(k)
                        <==> old(self).contains_key(k))
                &&& forall|k: K|
                    k != key && #[trigger] old(self).contains_key(k)
                        ==> final(self).slot_of_key(k) == old(self).slot_of_key(k)
                            && final(self).value_of(k) == old(self).value_of(k)
            },
    {
        self.remove_value(&key);
        let ghost mid = *self;
        let slot = current_time_ms / self.gc_slot_duration_ms.get();
        let n = self.value_lifetimes.len();
        let mut p: usize = 0;
        while p < n && slot < self.value_lifetimes[p].slot
            invariant
                p <= n,
                forall|a: int| 0 <= a < p ==> (#[trigger] self.bkt(a)).slot > slot,
            decreases n - p,
        {
            p += 1;
        }
        proof {
            assert forall|a: int| p <= a < n implies (#[trigger] self.bkt(a)).slot <= slot by {
                if a > p as int {
                    assert(self.bkt(a).slot < self.bkt(p as int).slot);
                }
            }
        }
        if p < n && self.value_lifetimes[p].slot == slot {
            let ghost bs_mid = self.value_lifetimes@;
            let mut b = self.value_lifetimes.remove(p);
            let ghost b_old = b;
            b.entries.push((key, value));
            let ghost b_new = b;
            self.value_lifetimes.insert(p, b);
            proof {
                let pp = p as int;
                assert(self.value_lifetimes@ =~= bs_mid.update(pp, b_new));
                assert(b_new.slot == b_old.slot);
                assert forall|i1: int, i2: int| 0 <= i1 < i2 < self.num_buckets() implies
                    (#[trigger] self.bkt(i1)).slot > (#[trigger] self.bkt(i2)).slot by {
                    assert(self.bkt(i1).slot == mid.bkt(i1).slot);
                    assert(self.bkt(i2).slot == mid.bkt(i2).slot);
                }
                if obeys_concrete_eq::<K>() {
                    assert(mid.bkt(pp).keys_unique());
                    assert(!b_old.has_key(key)) by {
                        if b_old.has_key(key) {
                            assert(mid.contains_key(key));
                        }
                    }
                    lemma_push_effect(b_old, b_new, key, value);
                    assert forall|a: int, k: K|
                        0 <= a < self.num_buckets() && #[trigger] self.bkt(a).has_key(k)
                            implies mid.bkt(a).has_key(k) || k == key by {
                        if a != pp {
                            assert(self.bkt(a) == mid.bkt(a));
                        }
                    }
                    assert forall|a: int| 0 <= a < self.num_buckets() implies
                        (#[trigger] self.bkt(a)).keys_unique() by {
                        if a == pp {
                            assert(self.bkt(a) == b_new);
                        } else {
                            assert(self.bkt(a) == mid.bkt(a));
                            assert(mid.bkt(a).keys_unique());
                        }
                    }
                    assert forall|a1: int, a2: int, k: K|
                        0 <= a1 < self.num_buckets() && 0 <= a2 < self.num_buckets()
                            && #[trigger] self.bkt(a1).has_key(k)
                            && #[trigger] self.bkt(a2).has_key(k) implies a1 == a2 by {
                        if k == key {
                            if a1 != pp {
                                assert(mid.bkt(a1).has_key(key));
                                assert(mid.contains_key(key));
                            }
                            if a2 != pp {
                                assert(mid.bkt(a2).has_key(key));
                                assert(mid.contains_key(key));
                            }
                        } else {
                            assert(mid.bkt(a1).has_key(k));
                            assert(mid.bkt(a2).has_key(k));
                        }
                    }
                    assert(self.keys_ok());
                    assert(self.bkt(pp) == b_new);
                    self.lemma_lookup_at(key, pp);
                    assert forall|k: K| k != key && #[trigger] mid.contains_key(k)
                        implies self.contains_key(k)
                            && self.slot_of_key(k) == mid.slot_of_key(k)
                            && self.value_of(k) == mid.value_of(k) by {
                        let c = mid.bucket_of_key(k);
                        assert(0 <= c < mid.num_buckets() && mid.bkt(c).has_key(k));
                        mid.lemma_lookup_at(k, c);
                        if c != pp {
                            assert(self.bkt(c) == mid.bkt(c));
                        }
                        assert(self.bkt(c).has_key(k));
                        self.lemma_lookup_at(k, c);
                    }
                    assert forall|k: K| k != key && #[trigger] self.contains_key(k)
                        implies mid.contains_key(k) by {
                        let c = self.bucket_of_key(k);
                        assert(self.bkt(c).has_key(k));
                        assert(mid.bkt(c).has_key(k));
                    }
                }
            }
        } else {
            let ghost bs_mid = self.value_lifetimes@;
            let mut entries: Vec<(K, V)> = Vec::new();
            entries.push((key, value));
            let nb = Bucket { slot, entries };
            let ghost nb_g = nb;
            self.value_lifetimes.insert(p, nb);
            proof {
                let pp = p as int;
                let bs = self.value_lifetimes@;
                assert(bs == bs_mid.insert(pp, nb_g));
                assert(bs.len() == bs_mid.len() + 1);
                assert forall|a: int| 0 <= a < bs.len() implies #[trigger] self.bkt(a) == (if a
                    < pp {
                    mid.bkt(a)
                } else if a == pp {
                    nb_g
                } else {
                    mid.bkt(a - 1)
                }) by {}
                assert(nb_g.entries@ =~= Seq::<(K, V)>::empty().push((key, value)));
                assert(nb_g.entries@.len() == 1 && nb_g.entries@[0] == (key, value));
                assert(nb_g.keys_unique());
                assert(nb_g.has_key(key));
                assert(nb_g.val_of(key) == value) by {
                    let w = nb_g.key_index(key);
                    assert(0 <= w < 1 && nb_g.entries@[w].0 == key);
                }
                assert forall|i1: int, i2: int| 0 <= i1 < i2 < self.num_buckets() implies
                    (#[trigger] self.bkt(i1)).slot > (#[trigger] self.bkt(i2)).slot by {
                    if i2 == pp {
                        assert(self.bkt(i1) == mid.bkt(i1));
                        assert(mid.bkt(i1).slot > slot);
                    } else if i1 == pp {
                        assert(self.bkt(i2) == mid.bkt(i2 - 1));
                        assert(mid.bkt(i2 - 1).slot <= slot);
                        assert(mid.bkt(i2 - 1).slot != slot);
                    }
                }
                if obeys_concrete_eq::<K>() {
                    assert forall|a: int| 0 <= a < self.num_buckets() implies
                        (#[trigger] self.bkt(a)).keys_unique() by {}
                    assert forall|a1: int, a2: int, k: K|
                        0 <= a1 < self.num_buckets() && 0 <= a2 < self.num_buckets()
                            && #[trigger] self.bkt(a1).has_key(k)
                            && #[trigger] self.bkt(a2).has_key(k) implies a1 == a2 by {
                        if a1 != pp && a2 != pp {
                            let m1 = if a1 < pp { a1 } else { a1 - 1 };
                            let m2 = if a2 < pp { a2 } else { a2 - 1 };
                            assert(mid.bkt(m1).has_key(k));
                            assert(mid.bkt(m2).has_key(k));
                            assert(m1 == m2);
                        } else if a1 == pp && a2 != pp {
                            assert(k == key);
                            let m2 = if a2 < pp { a2 } else { a2 - 1 };
                            assert(mid.bkt(m2).has_key(key));
                            assert(mid.contains_key(key));
                        } else if a2 == pp && a1 != pp {
                            assert(k == key);
                            let m1 = if a1 < pp { a1 } else { a1 - 1 };
                            assert(mid.bkt(m1).has_key(key));
                            assert(mid.contains_key(key));
                        }
                    }
                    assert(self.keys_ok());
                    assert(self.bkt(pp) == nb_g);
                    self.lemma_lookup_at(key, pp);
                    assert forall|k: K| k != key && #[trigger] mid.contains_key(k)
                        implies self.contains_key(k)
                            && self.slot_of_key(k) == mid.slot_of_key(k)
                            && self.value_of(k) == mid.value_of(k) by {
                        let c = mid.bucket_of_key(k);
                        assert(0 <= c < mid.num_buckets() && mid.bkt(c).has_key(k));
                        mid.lemma_lookup_at(k, c);
                        let c2 = if c < pp { c } else { c + 1 };
                        assert(self.bkt(c2) == mid.bkt(c));
                        assert(self.bkt(c2).has_key(k));
                        self.lemma_lookup_at(k, c2);
                    }
                    assert forall|k: K| k != key && #[trigger] self.contains_key(k)
                        implies mid.contains_key(k) by {
                        let c = self.bucket_of_key(k);
                        assert(self.bkt(c).has_key(k));
                        assert(c != pp);
                        let m = if c < pp { c } else { c - 1 };
                        assert(mid.bkt(m).has_key(k));
                    }
                }
            }
        }
        proof {
            if obeys_concrete_eq::<K>() {
                assert forall|k: K| k != key implies (#[trigger] self.contains_key(k)
                    <==> old(self).contains_key(k)) by {
                    assert(mid.contains_key(k) <==> old(self).contains_key(k));
                    assert(self.contains_key(k) <==> mid.contains_key(k));
                }
                assert forall|k: K| k != key && #[trigger] old(self).contains_key(k) implies
                    self.slot_of_key(k) == old(self).slot_of_key(k)
                        && self.value_of(k) == old(self).value_of(k) by {
                    assert(mid.contains_key(k));
                    assert(mid.slot_of_key(k) == old(self).slot_of_key(k)
                        && mid.value_of(k) == old(self).value_of(k));
                    assert(self.slot_of_key(k) == mid.slot_of_key(k)
                        && self.value_of(k) == mid.value_of(k));
                }
            }
        }
    }

    /// Sweeps every slot that ended more than the time-to-live before
    /// `current_time_ms`, oldest first, stopping at the first slot still
    /// young enough. The cutoff saturates at slot zero, so a sweep shortly
    /// after construction removes nothing rather than underflowing.
    #[verifier::loop_isolation(false)]
    pub fn gc(&mut self, current_time_ms: u64)
        requires
            old(self).wf(),
        ensures
            final(self).wf(),
            final(self).ttl_ms() == old(self).ttl_ms(),
            final(self).slot_width_ms() == old(self).slot_width_ms(),
            final(self).num_buckets() <= old(self).num_buckets(),
            forall|i: int|
                0 <= i < final(self).num_buckets()
                    ==> final(self).slot_at(i) == old(self).slot_at(i),
            forall|i: int|
                0 <= i < old(self).num_buckets()
                    ==> (i < final(self).num_buckets()
                        <==> old(self).slot_at(i) >= old(self).cutoff_of_time(current_time_ms)),
            obeys_concrete_eq::<K>() ==> {
                &&& forall|k: K|
                    #[trigger] old(self).contains_key(k)
                        && old(self).slot_of_key(k) >= old(self).cutoff_of_time(current_time_ms)
                        ==> final(self).contains_key(k)
                            && final(self).slot_of_key(k) == old(self).slot_of_key(k)
                            && final(self).value_of(k) == old(self).value_of(k)
                &&& forall|k: K|
                    #[trigger] old(self).contains_key(k)
                        && old(self).slot_of_key(k) < old(self).cutoff_of_time(current_time_ms)
                        ==> !final(self).contains_key(k)
                &&& forall|k: K| #[trigger] final(self).contains_key(k) ==> old(self).contains_key(k)
            },
    {
        let gc_slot = current_time_ms / self.gc_slot_duration_ms.get();
        let ttl_slots = self.value_ttl_ms.get() / self.gc_slot_duration_ms.get();
        let slot_cutoff = if gc_slot >= ttl_slots {
            gc_slot - ttl_slots
        } else {
            0
        };
        assert(slot_cutoff == old(self).cutoff_of_time(current_time_ms));
        while self.value_lifetimes.len() > 0
            && self.value_lifetimes[self.value_lifetimes.len() - 1].slot < slot_cutoff
            invariant
                self.value_ttl_ms == old(self).value_ttl_ms,
                self.gc_slot_duration_ms == old(self).gc_slot_duration_ms,
                self.value_lifetimes@.len() <= old(self).value_lifetimes@.len(),
                self.value_lifetimes@
                    == old(self).value_lifetimes@.take(self.value_lifetimes@.len() as int),
                forall|i: int|
                    self.value_lifetimes@.len() <= i < old(self).num_buckets()
                        ==> old(self).slot_at(i) < slot_cutoff,
            decreases self.value_lifetimes@.len(),
        {
            let ghost len = self.value_lifetimes@.len() as int;
            self.value_lifetimes.pop();
            proof {
                assert(self.value_lifetimes@
                    =~= old(self).value_lifetimes@.take(len - 1));
            }
        }
        proof {
            let num = self.num_buckets();
            assert forall|i: int| 0 <= i < num implies #[trigger] self.bkt(i)
                == old(self).bkt(i) by {}
            assert forall|i: int| 0 <= i < num implies #[trigger] self.slot_at(i)
                == old(self).slot_at(i) by {}
            assert forall|i: int| 0 <= i < old(self).num_buckets() implies (i < num
                <==> old(self).slot_at(i) >= slot_cutoff) by {
                if i < num {
                    if num > 0 {
                        assert(self.bkt(num - 1).slot >= slot_cutoff);
                        if i < num - 1 {
                            assert(old(self).bkt(i).slot > old(self).bkt(num - 1).slot);
                        }
                    }
                }
            }
            if obeys_concrete_eq::<K>() {
                assert forall|k: K|
                    #[trigger] old(self).contains_key(k)
                        && old(self).slot_of_key(k) >= slot_cutoff
                        implies self.contains_key(k)
                            && self.slot_of_key(k) == old(self).slot_of_key(k)
                            && self.value_of(k) == old(self).value_of(k) by {
                    let c = old(self).bucket_of_key(k);
                    assert(0 <= c < old(self).num_buckets() && old(self).bkt(c).has_key(k));
                    old(self).lemma_lookup_at(k, c);
                    assert(old(self).slot_at(c) >= slot_cutoff);
                    assert(c < num);
                    assert(self.bkt(c).has_key(k));
                    self.lemma_lookup_at(k, c);
                }
                assert forall|k: K| #[trigger] self.contains_key(k)
                    implies old(self).contains_key(k) by {
                    let c = self.bucket_of_key(k);
                    assert(self.bkt(c).has_key(k));
                    assert(old(self).bkt(c).has_key(k));
                }
                assert forall|k: K|
                    #[trigger] old(self).contains_key(k)
                        && old(self).slot_of_key(k) < slot_cutoff
                        implies !self.contains_key(k) by {
                    let c = old(self).bucket_of_key(k);
                    assert(0 <= c < old(self).num_buckets() && old(self).bkt(c).has_key(k));
                    old(self).lemma_lookup_at(k, c);
                    assert(old(self).slot_at(c) < slot_cutoff);
                    assert(c >= num);
                    if self.contains_key(k) {
                        let c2 = self.bucket_of_key(k);
                        assert(self.bkt(c2).has_key(k));
                        assert(old(self).bkt(c2).has_key(k));
                        assert(c2 == c);
                    }
                }
            }
        }
    }

    /// Law: with a well-behaved key equality, a key never occupies two live
    /// slots at once — overwriting a key leaves exactly one occurrence.
    pub proof fn lemma_key_in_one_slot(self, k: K, i1: int, i2: int)
        requires
            obeys_concrete_eq::<K>(),
            self.wf(),
            self.slot_holds_key(i1, k),
            self.slot_holds_key(i2, k),
        ensures
            i1 == i2,
    {
    }

    /// Law: a contained key lives in some slot, and that slot's id is the one
    /// `slot_of_key` reports.
    pub proof fn lemma_contained_key_slot(self, k: K)
        requires
            self.contains_key(k),
        ensures
            exists|i: int|
                #[trigger] self.slot_holds_key(i, k) && self.slot_at(i) == self.slot_of_key(k),
    {
        let c = self.bucket_of_key(k);
        assert(self.slot_holds_key(c, k) && self.slot_at(c) == self.slot_of_key(k));
    }

    /// Law: a timestamp's slot brackets it: slot `n` covers exactly the
    /// half-open interval `[n * width, (n + 1) * width)`.
    pub proof fn lemma_slot_interval(self, t: u64)
        requires
            self.wf(),
        ensures
            (self.slot_of_time(t) as int) * (self.slot_width_ms() as int) <= t as int,
            (t as int) < ((self.slot_of_time(t) as int) + 1) * (self.slot_width_ms() as int),
    {
        let w = self.slot_width_ms() as int;
        let t_ = t as int;
        lemma_fundamental_div_mod(t_, w);
        lemma_mod_bound(t_, w);
        assert((self.slot_of_time(t) as int) == t_ / w);
        assert(t_ == w * (t_ / w) + t_ % w);
        assert((t_ / w) * w <= t_ < (t_ / w + 1) * w) by (nonlinear_arith)
            requires
                t_ == w * (t_ / w) + t_ % w,
                0 <= t_ % w < w,
        ;
    }

    /// Law: two timestamps falling in the same width-`w` interval
    /// `[n * w, (n + 1) * w)` are routed to the same slot `n`, so they are
    /// indistinguishable for eviction.
    pub proof fn lemma_same_interval_same_slot(self, t1: u64, t2: u64, n: u64)
        requires
            self.wf(),
            (n as int) * (self.slot_width_ms() as int) <= t1 as int,
            (t1 as int) < ((n as int) + 1) * (self.slot_width_ms() as int),
            (n as int) * (self.slot_width_ms() as int) <= t2 as int,
            (t2 as int) < ((n as int) + 1) * (self.slot_width_ms() as int),
        ensures
            self.slot_of_time(t1) == n,
            self.slot_of_time(t2) == n,
    {
        let w = self.slot_width_ms() as int;
        let n_ = n as int;
        assert(t1 as int == n_ * w + (t1 as int - n_ * w)) by (nonlinear_arith);
        assert(0 <= t1 as int - n_ * w < w) by (nonlinear_arith)
            requires
                n_ * w <= t1 as int && (t1 as int) < (n_ + 1) * w,
        ;
        lemma_fundamental_div_mod_converse(t1 as int, w, n_, t1 as int - n_ * w);
        assert(0 <= t2 as int - n_ * w < w) by (nonlinear_arith)
            requires
                n_ * w <= t2 as int && (t2 as int) < (n_ + 1) * w,
        ;
        lemma_fundamental_div_mod_converse(t2 as int, w, n_, t2 as int - n_ * w);
    }

    /// Law: one whole slot width past the time-to-live, an entry's slot lies
    /// strictly before the sweep cutoff, so a single `gc` there evicts it.
    pub proof fn lemma_expired_slot_cut(self, t: u64, now: u64)
        requires
            self.wf(),
            (t as int) + (self.ttl_ms() as int) + (self.slot_width_ms() as int) <= now as int,
        ensures
            self.slot_of_time(t) < self.cutoff_of_time(now),
    {
        let w = self.slot_width_ms() as int;
        let ttl = self.ttl_ms() as int;
        let t_ = t as int;
        let n_ = now as int;
        let s0 = t_ / w;
        let s = ttl / w;
        let cur = n_ / w;
        lemma_fundamental_div_mod(ttl, w);
        lemma_mod_bound(ttl, w);
        assert(s * w <= ttl) by (nonlinear_arith)
            requires
                ttl == w * s + ttl % w,
                0 <= ttl % w,
        ;
        lemma_fundamental_div_mod(t_, w);
        lemma_mod_bound(t_, w);
        assert(t_ + (s + 1) * w == (s0 + s + 1) * w + t_ % w) by (nonlinear_arith)
            requires
                t_ == w * s0 + t_ % w,
        ;
        lemma_fundamental_div_mod_converse(t_ + (s + 1) * w, w, s0 + s + 1, t_ % w);
        assert(t_ + (s + 1) * w <= n_) by (nonlinear_arith)
            requires
                t_ + ttl + w <= n_,
                s * w <= ttl,
        ;
        lemma_div_is_ordered(t_ + (s + 1) * w, n_, w);
        assert(cur >= s0 + s + 1);
    }

    /// Law: while a timestamp is still at least one slot width inside its
    /// time-to-live, a sweep leaves its slot untouched: no premature
    /// eviction.
    pub proof fn lemma_live_slot_not_cut(self, t: u64, now: u64)
        requires
            self.wf(),
            (now as int) + (self.slot_width_ms() as int) <= (t as int) + (self.ttl_ms() as int),
        ensures
            self.slot_of_time(t) >= self.cutoff_of_time(now),
    {
        let w = self.slot_width_ms() as int;
        let ttl = self.ttl_ms() as int;
        let t_ = t as int;
        let n_ = now as int;
        let s0 = t_ / w;
        let s = ttl / w;
        let cur = n_ / w;
        if self.cutoff_of_time(now) != 0 {
            lemma_fundamental_div_mod(ttl, w);
            lemma_mod_bound(ttl, w);
            assert(ttl <= s * w + w - 1) by (nonlinear_arith)
                requires
                    ttl == w * s + ttl % w,
                    ttl % w < w,
            ;
            lemma_fundamental_div_mod(t_, w);
            lemma_mod_bound(t_, w);
            assert(t_ + s * w == (s0 + s) * w + t_ % w) by (nonlinear_arith)
                requires
                    t_ == w * s0 + t_ % w,
            ;
            lemma_fundamental_div_mod_converse(t_ + s * w, w, s0 + s, t_ % w);
            assert(n_ <= t_ + s * w);
            lemma_div_is_ordered(n_, t_ + s * w, w);
            assert(cur <= s0 + s);
        }
    }

    /// Law: before one whole time-to-live has elapsed since the epoch, the
    /// cutoff saturates at slot zero instead of underflowing, so a sweep
    /// removes nothing.
    pub proof fn lemma_cutoff_saturates(self, now: u64)
        requires
            self.wf(),
            self.slot_of_time(now) < self.ttl_ms() / self.slot_width_ms(),
        ensures
            self.cutoff_of_time(now) == 0,
    {
    }
}

} // verus!
