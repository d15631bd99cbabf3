//! Small, fixed-capacity key/value caches with pluggable eviction policies.
//!
//! Two independent structures are provided:
//! - [`fifo::Queue`], a capacity-bounded map plus an insertion-order
//!   sequence; eviction takes a key from one end of the sequence (front
//!   for FIFO, back for LIFO).
//! - [`RRCache`], a capacity-bounded map plus an unordered key list;
//!   eviction removes a uniformly random resident key by swap-and-pop.

pub mod fifo;

use rand::Rng;
use std::collections::HashMap;
use vstd::prelude::*;

verus! {

/// One resident record of an [`RRCache`]: the stored value together
/// with the key's current slot in the cache's key list.
#[derive(Debug)]
pub struct Entry<V> {
    value: V,
    idx: usize,
}

impl<V> Entry<V> {
    /// The stored value.
    pub closed spec fn val(self) -> V {
        self.value
    }

    /// The key's current slot in the cache's key list.
    pub closed spec fn slot(self) -> nat {
        self.idx as nat
    }

    /// Creates a record holding `value`, slotted at `idx` in the key
    /// list.
    pub fn new(value: V, idx: usize) -> (e: Entry<V>)
        ensures
            e.val() == value,
            e.slot() == idx as nat,
    {
        Entry { value, idx }
    }
}

/// Relies on rand's `Rng::gen_range` on the thread-local generator: for
/// the non-empty range `0..len` it returns a uniformly drawn value of
/// that range; it panics only on an empty range, which the precondition
/// rules out. Nothing beyond membership in the range can be promised of
/// a random draw.
#[verifier::external_body]
fn random_index_below(len: usize) -> (r: usize)
    requires
        len > 0,
    ensures
        r < len,
{
    rand::thread_rng().gen_range(0..len)
}

/// Random Replacement cache: when full, it randomly selects a resident
/// entry and discards it to make space. The policy keeps no information
/// about the access history.
#[derive(Debug)]
pub struct RRCache<V> {
    entry_map: HashMap<u64, Entry<V>>,
    keys: Vec<u64>,
    capacity: usize,
}

impl<V> RRCache<V> {
    /// The resident records, with their key-list slots.
    pub closed spec fn records(self) -> Map<u64, Entry<V>> {
        self.entry_map@
    }

    /// The resident key/value pairs.
    pub open spec fn entries(self) -> Map<u64, V> {
        self.records().map_values(|e: Entry<V>| e.val())
    }

    /// The key population that eviction samples from, one slot per
    /// resident key.
    pub closed spec fn key_seq(self) -> Seq<u64> {
        self.keys@
    }

    /// The capacity chosen at construction.
    pub closed spec fn cap(self) -> nat {
        self.capacity as nat
    }

    /// Every resident record's stored slot points back at its own key:
    /// swap-and-pop removal must never corrupt this reverse index.
    pub open spec fn slots_consistent(self) -> bool {
        forall|k: u64| #[trigger]
            self.records().contains_key(k) ==> {
                &&& self.records()[k].slot() < self.key_seq().len()
                &&& self.key_seq()[self.records()[k].slot() as int] == k
            }
    }

    /// Well-formed: the key list holds exactly the resident keys, once
    /// each, every record's slot points back at its key, and the number
    /// of residents never exceeds the capacity.
    pub open spec fn wf(self) -> bool {
        &&& self.key_seq().no_duplicates()
        &&& forall|k: u64|
            #![trigger self.records().dom().contains(k)]
            #![trigger self.key_seq().contains(k)]
            self.records().contains_key(k) <==> self.key_seq().contains(k)
        &&& self.entries().dom() == self.records().dom()
        &&& self.records().len() == self.key_seq().len()
        &&& self.records().len() <= self.cap()
        &&& self.slots_consistent()
    }

    /// The value view ranges over exactly the resident keys.
    pub proof fn lemma_entries_dom(self)
        ensures
            self.entries().dom() =~= self.records().dom(),
    {
    }

    /// Creates an empty cache with the given capacity. Capacity zero is
    /// legal but degenerate: every `set` of a new key fails.
    pub fn new(capacity: usize) -> (c: RRCache<V>)
        ensures
            c.wf(),
            c.entries() == Map::<u64, V>::empty(),
            c.key_seq() == Seq::<u64>::empty(),
            c.cap() == capacity as nat,
    {
        let c = RRCache { entry_map: HashMap::with_capacity(capacity), keys: Vec::new(), capacity };
        proof {
            c.lemma_entries_dom();
            assert(c.records().dom() =~= Set::<u64>::empty());
            assert(c.entries() =~= Map::<u64, V>::empty());
        }
        c
    }

    /// Looks the key up; no side effect, and no influence on future
    /// eviction odds (the policy is memoryless by design).
    pub fn get(&mut self, key: u64) -> (r: Option<&V>)
        ensures
            *final(self) == *old(self),
            match r {
                Some(v) => old(self).entries().contains_key(key) && *v == old(self).entries()[key],
                None => !old(self).entries().contains_key(key),
            },
    {
        proof {
            self.lemma_entries_dom();
        }
        match self.entry_map.get(&key) {
            Some(e) => Some(&e.value),
            None => None,
        }
    }

    /// Removes one uniformly chosen resident key by swap-and-pop: the
    /// victim's slot is swapped with the last slot, the swapped-in key's
    /// stored slot is updated, the key list shrinks by one, and the
    /// victim's record leaves the map.
    fn evict_random(&mut self)
        requires
            old(self).wf(),
            old(self).key_seq().len() > 0,
        ensures
            final(self).wf(),
            final(self).cap() == old(self).cap(),
            final(self).key_seq().len() == old(self).key_seq().len() - 1,
            exists|i: int|
                #![trigger old(self).key_seq()[i]]
                {
                    &&& 0 <= i < old(self).key_seq().len()
                    &&& final(self).entries() == old(self).entries().remove(old(self).key_seq()[i])
                    &&& final(self).key_seq() == old(self).key_seq().update(
                        i,
                        old(self).key_seq().last(),
                    ).drop_last()
                },
    {
        let len = self.keys.len();
        let i = random_index_below(len);
        let victim = self.keys[i];
        let moved = self.keys[len - 1];
        proof {
            assert(old(self).key_seq().contains(victim));
            assert(old(self).key_seq().contains(moved));
        }
        self.keys.swap_remove(i);
        self.entry_map.remove(&victim);
        if i < len - 1 {
            proof {
                assert(moved != victim);
            }
            let en = self.entry_map.remove(&moved).unwrap();
            self.entry_map.insert(moved, Entry::new(en.value, i));
        }
        proof {
            let s = old(self).key_seq();
            let s2 = self.key_seq();
            let ii = i as int;
            assert(s2 == s.update(ii, s.last()).drop_last());
            assert(!s2.contains(victim) && forall|k: u64| #[trigger]
                s2.contains(k) <==> (s.contains(k) && k != victim)) by {
                assert forall|k: u64| #[trigger] s2.contains(k) implies (s.contains(k) && k
                    != victim) by {
                    let p = choose|p: int| 0 <= p < s2.len() && s2[p] == k;
                    if p == ii {
                        assert(s[s.len() - 1] == k);
                    } else {
                        assert(s[p] == k);
                    }
                    assert(s.contains(k));
                    assert(k != victim) by {
                        if p == ii {
                            assert(ii < s.len() - 1);
                        }
                    }
                }
                assert forall|k: u64| s.contains(k) && k != victim implies #[trigger] s2.contains(
                    k,
                ) by {
                    let p = choose|p: int| 0 <= p < s.len() && s[p] == k;
                    if p == s.len() - 1 {
                        assert(ii < s.len() - 1);
                        assert(s2[ii] == k);
                    } else if p == ii {
                        assert(false);
                    } else {
                        assert(s2[p] == k);
                    }
                }
            }
            assert(s2.no_duplicates()) by {
                assert forall|p: int, q: int| 0 <= p < q < s2.len() implies s2[p] != s2[q] by {
                    assert(s2[p] == if p == ii {
                        s[s.len() - 1]
                    } else {
                        s[p]
                    });
                    assert(s2[q] == if q == ii {
                        s[s.len() - 1]
                    } else {
                        s[q]
                    });
                }
            }
            assert(self.entries() =~= old(self).entries().remove(victim));
            assert(self.records().len() == s2.len()) by {
                assert(self.records().dom() =~= old(self).records().dom().remove(victim));
                old(self).records().lemma_remove_key_len(victim);
            }
            assert(self.slots_consistent()) by {
                assert forall|k: u64| #[trigger] self.records().contains_key(k) implies {
                    &&& self.records()[k].slot() < s2.len()
                    &&& s2[self.records()[k].slot() as int] == k
                } by {
                    if k == moved && ii < s.len() - 1 {
                        assert(s2[ii] == moved);
                    } else {
                        let sl = old(self).records()[k].slot() as int;
                        assert(s[sl] == k);
                        assert(sl != ii);
                        assert(sl != s.len() - 1);
                        assert(s2[sl] == k);
                    }
                }
            }
            assert(old(self).key_seq()[ii] == victim);
            self.lemma_entries_dom();
        }
    }

    /// Inserts or updates a key. An already-resident key only has its
    /// value replaced in place: no eviction, and its slot is untouched.
    /// A new key joins the key population after a uniformly random
    /// resident key is evicted if the cache is full. Returns `false`,
    /// leaving the cache unchanged, only when a new key cannot be
    /// admitted because the capacity is zero.
    pub fn set(&mut self, key: u64, value: V) -> (ok: bool)
        requires
            old(self).wf(),
        ensures
            final(self).wf(),
            final(self).cap() == old(self).cap(),
            final(self).entries().len() <= final(self).cap(),
            ok <==> (old(self).entries().contains_key(key) || old(self).cap() > 0),
            old(self).entries().contains_key(key) ==> {
                &&& final(self).entries() == old(self).entries().insert(key, value)
                &&& final(self).entries().dom() == old(self).entries().dom()
                &&& final(self).key_seq() == old(self).key_seq()
            },
            !old(self).entries().contains_key(key) && old(self).entries().len() < old(self).cap()
                ==> {
                &&& final(self).entries() == old(self).entries().insert(key, value)
                &&& final(self).key_seq() == old(self).key_seq().push(key)
            },
            !old(self).entries().contains_key(key) && old(self).entries().len() == old(self).cap()
                && old(self).cap() > 0 ==> exists|i: int|
                #![trigger old(self).key_seq()[i]]
                {
                    &&& 0 <= i < old(self).key_seq().len()
                    &&& final(self).entries() == old(self).entries().remove(
                        old(self).key_seq()[i],
                    ).insert(key, value)
                    &&& final(self).key_seq() == old(self).key_seq().update(
                        i,
                        old(self).key_seq().last(),
                    ).drop_last().push(key)
                },
            !ok ==> {
                &&& final(self).entries() == old(self).entries()
                &&& final(self).key_seq() == old(self).key_seq()
            },
    {
        proof {
            old(self).lemma_entries_dom();
        }
        if self.entry_map.contains_key(&key) {
            let idx = self.entry_map.get(&key).unwrap().idx;
            self.entry_map.insert(key, Entry::new(value, idx));
            proof {
                self.lemma_entries_dom();
                assert(self.entries() =~= old(self).entries().insert(key, value));
                assert(self.entries().dom() =~= old(self).entries().dom());
                assert(self.records().dom() =~= old(self).records().dom());
                assert(self.slots_consistent()) by {
                    assert forall|k: u64| #[trigger] self.records().contains_key(k) implies {
                        &&& self.records()[k].slot() < self.key_seq().len()
                        &&& self.key_seq()[self.records()[k].slot() as int] == k
                    } by {
                        if k != key {
                            assert(self.records()[k] == old(self).records()[k]);
                        }
                    }
                }
            }
            return true;
        }
        if self.entry_map.len() == self.capacity {
            if self.capacity == 0 {
                return false;
            }
            self.evict_random();
        }
        let ghost mid = *self;
        let idx_new = self.keys.len();
        self.keys.push(key);
        self.entry_map.insert(key, Entry::new(value, idx_new));
        proof {
            mid.lemma_entries_dom();
            let s = mid.key_seq();
            let s2 = self.key_seq();
            assert(s2 == s.push(key));
            assert(!s.contains(key));
            assert(self.entries() =~= mid.entries().insert(key, value));
            assert(self.records().dom() =~= mid.records().dom().insert(key));
            assert(forall|k: u64| #[trigger]
                s2.contains(k) <==> (s.contains(k) || k == key)) by {
                assert forall|k: u64| #[trigger] s2.contains(k) implies (s.contains(k) || k
                    == key) by {
                    let p = choose|p: int| 0 <= p < s2.len() && s2[p] == k;
                    if p < s.len() {
                        assert(s[p] == k);
                    }
                }
                assert forall|k: u64| s.contains(k) || k == key implies #[trigger] s2.contains(
                    k,
                ) by {
                    if k == key {
                        assert(s2[s2.len() - 1] == k);
                    } else {
                        let p = choose|p: int| 0 <= p < s.len() && s[p] == k;
                        assert(s2[p] == k);
                    }
                }
            }
            assert(s2.no_duplicates());
            assert(self.slots_consistent()) by {
                assert forall|k: u64| #[trigger] self.records().contains_key(k) implies {
                    &&& self.records()[k].slot() < s2.len()
                    &&& s2[self.records()[k].slot() as int] == k
                } by {
                    if k != key {
                        assert(mid.records().contains_key(k));
                        let sl = mid.records()[k].slot() as int;
                        assert(s[sl] == k);
                        assert(s2[sl] == k);
                    } else {
                        assert(s2[s.len() as int] == key);
                    }
                }
            }
            self.lemma_entries_dom();
            if !(old(self).entries().len() < old(self).cap()) {
                let i = choose|i: int|
                    #![trigger old(self).key_seq()[i]]
                    {
                        &&& 0 <= i < old(self).key_seq().len()
                        &&& mid.entries() == old(self).entries().remove(old(self).key_seq()[i])
                        &&& mid.key_seq() == old(self).key_seq().update(
                            i,
                            old(self).key_seq().last(),
                        ).drop_last()
                    };
                assert(old(self).key_seq()[i] == old(self).key_seq()[i]);
            }
        }
        true
    }
}

} // verus!
