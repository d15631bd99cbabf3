//! Ordered eviction queue: a fixed-capacity key/value cache that evicts
//! in insertion order, from the end selected by its [`Kind`].

use std::collections::HashMap;
use std::collections::VecDeque;
use vstd::prelude::*;

verus! {

/// Eviction policy of a [`Queue`]: FIFO evicts the earliest-inserted
/// resident key, LIFO the most recently inserted one. The policy only
/// selects which end of the insertion order is evicted; new keys are
/// always appended at the back.
pub enum Kind {
    FIFO,
    LIFO,
}

/// The queue evicts keys in the order they were added, without any
/// regard to how often or how many times they were accessed before.
pub struct Queue<V> {
    entry_map: HashMap<u64, V>,
    keys: VecDeque<u64>,
    kind: Kind,
    capacity: usize,
}

/// The key evicted from `order` under policy `kind`: the front for FIFO,
/// the back for LIFO.
pub open spec fn victim_key(order: Seq<u64>, kind: Kind) -> u64 {
    match kind {
        Kind::FIFO => order.first(),
        Kind::LIFO => order.last(),
    }
}

/// The insertion order after one eviction under policy `kind`.
pub open spec fn shrunk_order(order: Seq<u64>, kind: Kind) -> Seq<u64> {
    match kind {
        Kind::FIFO => order.drop_first(),
        Kind::LIFO => order.drop_last(),
    }
}

/// How one `set` call transforms the insertion order of a queue with the
/// given capacity and policy: an already-resident key leaves the order
/// unchanged, a new key is appended, after an eviction if the queue is
/// full. With capacity zero a new key cannot be admitted at all.
pub open spec fn order_step(order: Seq<u64>, capacity: nat, kind: Kind, key: u64) -> Seq<u64> {
    if order.contains(key) {
        order
    } else if order.len() < capacity {
        order.push(key)
    } else if capacity > 0 {
        shrunk_order(order, kind).push(key)
    } else {
        order
    }
}

/// The insertion order reached from an empty queue of the given capacity
/// and policy by one `set` call per key of `keys`, in order.
pub open spec fn order_run(capacity: nat, kind: Kind, keys: Seq<u64>) -> Seq<u64>
    decreases keys.len(),
{
    if keys.len() == 0 {
        Seq::empty()
    } else {
        order_step(order_run(capacity, kind, keys.drop_last()), capacity, kind, keys.last())
    }
}

/// FIFO keeps a sliding window: after inserting distinct keys into an
/// empty FIFO queue, exactly the last `capacity` of them are resident
/// (all of them while they still fit), in insertion order; the earliest
/// keys are the ones evicted.
pub proof fn lemma_fifo_resident_window(capacity: nat, keys: Seq<u64>)
    requires
        keys.no_duplicates(),
    ensures
        order_run(capacity, Kind::FIFO, keys) == if keys.len() <= capacity {
            keys
        } else {
            keys.skip(keys.len() - capacity)
        },
    decreases keys.len(),
{
    if keys.len() == 0 {
        assert(order_run(capacity, Kind::FIFO, keys) =~= keys);
    } else {
        let prev_keys = keys.drop_last();
        let key = keys.last();
        assert(prev_keys.no_duplicates());
        lemma_fifo_resident_window(capacity, prev_keys);
        let prev = order_run(capacity, Kind::FIFO, prev_keys);
        assert(!prev.contains(key)) by {
            if prev.contains(key) {
                let i = choose|i: int| 0 <= i < prev.len() && prev[i] == key;
                if prev_keys.len() <= capacity {
                    assert(keys[i] == keys[keys.len() - 1]);
                } else {
                    assert(keys[i + prev_keys.len() - capacity] == keys[keys.len() - 1]);
                }
            }
        }
        if keys.len() <= capacity {
            assert(order_step(prev, capacity, Kind::FIFO, key) =~= keys);
        } else if capacity == 0 {
            assert(prev.len() == 0);
            assert(order_step(prev, capacity, Kind::FIFO, key) =~= keys.skip(keys.len() as int));
        } else {
            assert(prev == prev_keys.skip(prev_keys.len() - capacity));
            assert(prev.len() == capacity);
            assert(order_step(prev, capacity, Kind::FIFO, key) == prev.drop_first().push(key));
            assert(prev.drop_first().push(key) =~= keys.skip(keys.len() - capacity));
        }
    }
}

/// LIFO protects the earliest keys: after inserting distinct keys into
/// an empty LIFO queue, once the queue has filled every further key
/// replaces the most recently inserted one, so the residents are the
/// first `capacity - 1` keys followed by the latest key.
pub proof fn lemma_lifo_residents(capacity: nat, keys: Seq<u64>)
    requires
        keys.no_duplicates(),
    ensures
        order_run(capacity, Kind::LIFO, keys) == if keys.len() <= capacity {
            keys
        } else if capacity == 0 {
            Seq::<u64>::empty()
        } else {
            keys.take(capacity - 1).push(keys.last())
        },
    decreases keys.len(),
{
    if keys.len() == 0 {
        assert(order_run(capacity, Kind::LIFO, keys) =~= keys);
    } else {
        let prev_keys = keys.drop_last();
        let key = keys.last();
        assert(prev_keys.no_duplicates());
        lemma_lifo_residents(capacity, prev_keys);
        let prev = order_run(capacity, Kind::LIFO, prev_keys);
        assert(!prev.contains(key)) by {
            if prev.contains(key) {
                let i = choose|i: int| 0 <= i < prev.len() && prev[i] == key;
                if prev_keys.len() <= capacity {
                    assert(keys[i] == keys[keys.len() - 1]);
                } else if i < capacity - 1 {
                    assert(keys[i] == keys[keys.len() - 1]);
                } else {
                    assert(prev[i] == prev_keys.last());
                    assert(keys[keys.len() - 2] == keys[keys.len() - 1]);
                }
            }
        }
        if keys.len() <= capacity {
            assert(order_step(prev, capacity, Kind::LIFO, key) =~= keys);
        } else if capacity == 0 {
            assert(prev.len() == 0);
            assert(order_step(prev, capacity, Kind::LIFO, key) =~= Seq::<u64>::empty());
        } else if keys.len() - 1 <= capacity {
            assert(prev == prev_keys);
            assert(prev.len() == capacity);
            assert(order_step(prev, capacity, Kind::LIFO, key) == prev.drop_last().push(key));
            assert(prev.drop_last().push(key) =~= keys.take(capacity - 1).push(key));
        } else {
            assert(prev == prev_keys.take(capacity - 1).push(prev_keys.last()));
            assert(prev.len() == capacity);
            assert(order_step(prev, capacity, Kind::LIFO, key) == prev.drop_last().push(key));
            assert(prev.drop_last() =~= prev_keys.take(capacity - 1));
            assert(prev_keys.take(capacity - 1) =~= keys.take(capacity - 1));
        }
    }
}

/// Under LIFO, with capacity at least two, the first inserted key stays
/// resident for ever.
pub proof fn lemma_lifo_first_survives(capacity: nat, keys: Seq<u64>)
    requires
        keys.no_duplicates(),
        keys.len() > 0,
        capacity >= 2,
    ensures
        order_run(capacity, Kind::LIFO, keys).contains(keys[0]),
{
    lemma_lifo_residents(capacity, keys);
    let run = order_run(capacity, Kind::LIFO, keys);
    assert(run[0] == keys[0]);
}

/// In a duplicate-free order, one eviction removes exactly the victim:
/// the shrunk order keeps every other element, stays duplicate-free, and
/// is one element shorter.
proof fn lemma_shrunk_order_set(order: Seq<u64>, kind: Kind)
    requires
        order.len() > 0,
        order.no_duplicates(),
    ensures
        !shrunk_order(order, kind).contains(victim_key(order, kind)),
        forall|k: u64| #[trigger]
            shrunk_order(order, kind).contains(k) <==> (order.contains(k) && k != victim_key(
                order,
                kind,
            )),
        shrunk_order(order, kind).no_duplicates(),
        shrunk_order(order, kind).len() == order.len() - 1,
{
    let shr = shrunk_order(order, kind);
    let victim = victim_key(order, kind);
    match kind {
        Kind::FIFO => {
            assert forall|k: u64| #[trigger] shr.contains(k) implies (order.contains(k) && k
                != victim) by {
                let i = choose|i: int| 0 <= i < shr.len() && shr[i] == k;
                assert(order[i + 1] == k);
                assert(order.contains(k));
            }
            assert forall|k: u64| order.contains(k) && k != victim implies #[trigger] shr.contains(
                k,
            ) by {
                let i = choose|i: int| 0 <= i < order.len() && order[i] == k;
                assert(i != 0);
                assert(shr[i - 1] == k);
            }
        },
        Kind::LIFO => {
            assert forall|k: u64| #[trigger] shr.contains(k) implies (order.contains(k) && k
                != victim) by {
                let i = choose|i: int| 0 <= i < shr.len() && shr[i] == k;
                assert(order[i] == k);
                assert(order.contains(k));
            }
            assert forall|k: u64| order.contains(k) && k != victim implies #[trigger] shr.contains(
                k,
            ) by {
                let i = choose|i: int| 0 <= i < order.len() && order[i] == k;
                assert(i != order.len() - 1);
                assert(shr[i] == k);
            }
        },
    }
}

impl<V> Queue<V> {
    /// The resident key/value pairs.
    pub closed spec fn entries(self) -> Map<u64, V> {
        self.entry_map@
    }

    /// The resident keys in insertion order: oldest at the front,
    /// newest at the back.
    pub closed spec fn order(self) -> Seq<u64> {
        self.keys@
    }

    /// The eviction policy chosen at construction.
    pub closed spec fn policy(self) -> Kind {
        self.kind
    }

    /// The capacity chosen at construction.
    pub closed spec fn cap(self) -> nat {
        self.capacity as nat
    }

    /// Well-formed: the insertion order holds exactly the resident keys,
    /// once each, and the number of residents never exceeds the capacity.
    pub open spec fn wf(self) -> bool {
        &&& self.order().no_duplicates()
        &&& forall|k: u64|
            #![trigger self.entries().dom().contains(k)]
            #![trigger self.order().contains(k)]
            self.entries().contains_key(k) <==> self.order().contains(k)
        &&& self.entries().len() == self.order().len()
        &&& self.entries().len() <= self.cap()
    }

    /// Creates an empty queue with the given capacity and policy.
    /// Capacity zero is legal but degenerate: every `set` of a new key
    /// fails.
    pub fn new(capacity: usize, kind: Kind) -> (q: Queue<V>)
        ensures
            q.wf(),
            q.entries() == Map::<u64, V>::empty(),
            q.order() == Seq::<u64>::empty(),
            q.policy() == kind,
            q.cap() == capacity as nat,
    {
        let q = Queue {
            entry_map: HashMap::with_capacity(capacity),
            keys: VecDeque::with_capacity(capacity),
            kind,
            capacity,
        };
        proof {
            assert(q.entries().dom() =~= Set::<u64>::empty());
        }
        q
    }

    /// Inserts or updates a key. An already-resident key only has its
    /// value replaced: no eviction happens and the insertion order is
    /// untouched. A new key is appended at the back of the order, after
    /// evicting the policy's end of the order if the queue is full.
    /// Returns `false`, leaving the queue unchanged, only when a new key
    /// cannot be admitted because the capacity is zero.
    pub fn set(&mut self, key: u64, value: V) -> (ok: bool)
        requires
            old(self).wf(),
        ensures
            final(self).wf(),
            final(self).policy() == old(self).policy(),
            final(self).cap() == old(self).cap(),
            final(self).entries().len() <= final(self).cap(),
            ok <==> (old(self).entries().contains_key(key) || old(self).cap() > 0),
            final(self).order() == order_step(
                old(self).order(),
                old(self).cap(),
                old(self).policy(),
                key,
            ),
            old(self).entries().contains_key(key) ==> {
                &&& final(self).entries() == old(self).entries().insert(key, value)
                &&& final(self).entries().dom() == old(self).entries().dom()
            },
            !old(self).entries().contains_key(key) && old(self).entries().len() < old(self).cap()
                ==> final(self).entries() == old(self).entries().insert(key, value),
            !old(self).entries().contains_key(key) && old(self).entries().len() == old(self).cap()
                && old(self).cap() > 0 ==> final(self).entries() == old(self).entries().remove(
                victim_key(old(self).order(), old(self).policy()),
            ).insert(key, value),
            !ok ==> final(self).entries() == old(self).entries(),
    {
        if self.entry_map.contains_key(&key) {
            self.entry_map.insert(key, value);
            proof {
                assert(self.entries().dom() =~= old(self).entries().dom());
            }
            return true;
        }
        proof {
            assert(!old(self).order().contains(key));
        }
        if self.entry_map.len() == self.capacity {
            let popped = match self.kind {
                Kind::FIFO => self.keys.pop_front(),
                Kind::LIFO => self.keys.pop_back(),
            };
            let victim = match popped {
                Some(v) => v,
                None => {
                    return false;
                },
            };
            proof {
                assert(old(self).order().contains(victim)) by {
                    match old(self).policy() {
                        Kind::FIFO => {
                            assert(old(self).order()[0] == victim);
                        },
                        Kind::LIFO => {
                            assert(old(self).order()[old(self).order().len() - 1] == victim);
                        },
                    }
                }
                assert(self.keys@ == shrunk_order(old(self).order(), old(self).policy()));
            }
            self.entry_map.remove(&victim);
            proof {
                lemma_shrunk_order_set(old(self).order(), old(self).policy());
            }
        }
        self.keys.push_back(key);
        self.entry_map.insert(key, value);
        proof {
            let pre = old(self).order();
            let post = self.keys@;
            let cap = old(self).cap();
            let kind = old(self).policy();
            if old(self).entries().len() < cap {
                assert(post == pre.push(key));
                assert forall|k: u64| self.entries().contains_key(k) <==> #[trigger] post.contains(
                    k,
                ) by {
                    if post.contains(k) {
                        let i = choose|i: int| 0 <= i < post.len() && post[i] == k;
                        if i < pre.len() {
                            assert(pre.contains(k));
                        } else {
                            assert(k == key);
                        }
                    }
                    if self.entries().contains_key(k) {
                        if k == key {
                            assert(post[post.len() - 1] == k);
                        } else {
                            let i = choose|i: int| 0 <= i < pre.len() && pre[i] == k;
                            assert(post[i] == k);
                        }
                    }
                }
                assert(post.no_duplicates());
            } else {
                let shr = shrunk_order(pre, kind);
                assert(post == shr.push(key));
                assert forall|k: u64| self.entries().contains_key(k) <==> #[trigger] post.contains(
                    k,
                ) by {
                    if post.contains(k) {
                        let i = choose|i: int| 0 <= i < post.len() && post[i] == k;
                        if i < shr.len() {
                            assert(shr.contains(k));
                        } else {
                            assert(k == key);
                        }
                    }
                    if self.entries().contains_key(k) {
                        if k == key {
                            assert(post[post.len() - 1] == k);
                        } else {
                            assert(shr.contains(k));
                            let i = choose|i: int| 0 <= i < shr.len() && shr[i] == k;
                            assert(post[i] == k);
                        }
                    }
                }
                assert(!shr.contains(key));
                assert(post.no_duplicates());
            }
        }
        true
    }

    /// Looks the key up; no side effect, and no influence on the
    /// insertion order (this queue has no recency promotion).
    pub fn get(&self, key: u64) -> (r: Option<&V>)
        ensures
            match r {
                Some(v) => self.entries().contains_key(key) && *v == self.entries()[key],
                None => !self.entries().contains_key(key),
            },
    {
        self.entry_map.get(&key)
    }
}

} // verus!
