//! A shared byte budget for cached groups, reclaimed with LRU eviction.
//!
//! Every group registers its cached bytes in a [`Pool`]. When the pool exceeds its
//! capacity, the least-recently-read groups are handed back to the caller to abort,
//! freeing their frames. The latest group of each track is pinned and never evicted,
//! so the live edge always survives memory pressure.
//!
//! A pool is inert by default ([`Pool::unbounded`]): publishers and subscribers that
//! never set a capacity pay only for a few counters. A relay creates one bounded pool
//! and shares it across every origin so the whole process caches into a single budget.

use crate::heap::{slot_le, slot_lt, MinHeap};
use crate::time::{Clock, NANOS_PER_MILLI};
use std::collections::HashMap;
use vstd::multiset::Multiset;
use vstd::prelude::*;

verus! {

/// Fixed bookkeeping charged per cached group on top of its frame payload bytes.
///
/// Covers the group/track slot allocations so a track producing many tiny groups
/// (e.g. one frame per group) is billed roughly for its real footprint instead of
/// just its payload bytes.
pub const ENTRY_OVERHEAD: u64 = 256;

/// Slack before the heap is rebuilt, so a pool holding just a few entries doesn't
/// rebuild on every registration.
pub const COMPACT_SLACK: usize = 64;

/// What the pool knows of one charge, registered or not.
#[derive(Clone, Copy)]
pub struct Record {
    /// Payload bytes plus [`ENTRY_OVERHEAD`] currently charged.
    pub bytes: u64,
    /// Coarse milliseconds since the pool epoch of the last read (or write).
    pub last_access: u64,
    /// Pinned entries (the track's latest group) are skipped by eviction.
    pub pinned: bool,
}

/// A live registration: the heap key it is filed under and the eviction hook.
struct Registration<H> {
    snapshot: u64,
    hook: H,
}

/// A group chosen for eviction, with the hook that aborts it.
pub struct Victim<H> {
    /// The id of the evicted entry.
    pub id: u64,
    /// Aborts the group. Run it with no lock on the pool held.
    pub hook: H,
}

/// The abstract state of a [`Pool`].
#[verifier::ext_equal]
pub ghost struct PoolView<H> {
    /// Total bytes charged, modulo 2^64.
    pub used: u64,
    /// The budget; `u64::MAX` means unbounded.
    pub capacity: u64,
    /// The latest clock reading seen, in milliseconds since the pool epoch.
    pub clock: u64,
    /// The id of the next registration.
    pub next_id: u64,
    /// Every charge that has not been released.
    pub records: Map<u64, Record>,
    /// The eviction candidates, with their hooks.
    pub hooks: Map<u64, H>,
}

/// A pool that nothing was ever charged to.
pub open spec fn fresh_pool<H>(capacity: u64) -> PoolView<H> {
    PoolView {
        used: 0,
        capacity,
        clock: 0,
        next_id: 0,
        records: Map::empty(),
        hooks: Map::empty(),
    }
}

/// The eviction key of an entry: least recently used first, then oldest first.
pub open spec fn age_key(records: Map<u64, Record>, id: u64) -> (u64, u64) {
    (records[id].last_access, id)
}

/// The bytes charged by a list of entries.
pub open spec fn bytes_of(records: Map<u64, Record>, ids: Seq<u64>) -> int
    decreases ids.len(),
{
    if ids.len() == 0 {
        0
    } else {
        bytes_of(records, ids.drop_last()) + records[ids.last()].bytes
    }
}

/// The bytes charged by the entries with an id below `n`.
pub open spec fn charged(records: Map<u64, Record>, n: nat) -> int
    decreases n,
{
    if n == 0 {
        0
    } else {
        let id = (n - 1) as u64;
        charged(records, (n - 1) as nat) + if records.contains_key(id) {
            records[id].bytes as int
        } else {
            0
        }
    }
}

/// A sum reduced modulo 2^64, as the byte counters are.
pub open spec fn wrapped(n: int) -> u64 {
    (n % 0x1_0000_0000_0000_0000) as u64
}

/// The pool clock after a reading of `now`: readings never go back.
pub open spec fn later(clock: u64, now: u64) -> u64 {
    if now > clock {
        now
    } else {
        clock
    }
}

/// The pool after a registration at `now`.
pub open spec fn registered<H>(pool: PoolView<H>, hook: H, now: u64) -> PoolView<H> {
    let clock = later(pool.clock, now);
    PoolView {
        used: wrapped(pool.used + ENTRY_OVERHEAD),
        clock,
        next_id: (pool.next_id + 1) as u64,
        records: pool.records.insert(
            pool.next_id,
            Record { bytes: ENTRY_OVERHEAD, last_access: clock, pinned: false },
        ),
        hooks: pool.hooks.insert(pool.next_id, hook),
        ..pool
    }
}

/// The pool after entry `id` was read or written at `now`.
pub open spec fn touched<H>(pool: PoolView<H>, id: u64, now: u64) -> PoolView<H> {
    if pool.records.contains_key(id) {
        let clock = later(pool.clock, now);
        PoolView {
            clock,
            records: pool.records.insert(id, Record { last_access: clock, ..pool.records[id] }),
            ..pool
        }
    } else {
        pool
    }
}

/// The pool after entry `id` was pinned or unpinned.
pub open spec fn pin_set<H>(pool: PoolView<H>, id: u64, pinned: bool) -> PoolView<H> {
    if pool.records.contains_key(id) {
        PoolView {
            records: pool.records.insert(id, Record { pinned, ..pool.records[id] }),
            ..pool
        }
    } else {
        pool
    }
}

/// The pool after entry `id` charged `n` more bytes.
pub open spec fn added<H>(pool: PoolView<H>, id: u64, n: int) -> PoolView<H> {
    if pool.records.contains_key(id) {
        PoolView {
            used: wrapped(pool.used + n),
            records: pool.records.insert(
                id,
                Record { bytes: wrapped(pool.records[id].bytes + n), ..pool.records[id] },
            ),
            ..pool
        }
    } else {
        pool
    }
}

/// The pool after entry `id` released everything it holds and left the registration.
pub open spec fn cleared<H>(pool: PoolView<H>, id: u64) -> PoolView<H> {
    if pool.records.contains_key(id) {
        PoolView {
            used: wrapped(pool.used - pool.records[id].bytes),
            records: pool.records.insert(id, Record { bytes: 0, ..pool.records[id] }),
            hooks: pool.hooks.remove(id),
            ..pool
        }
    } else {
        pool
    }
}

/// The pool after the charge of entry `id` went away.
pub open spec fn dropped<H>(pool: PoolView<H>, id: u64) -> PoolView<H> {
    if pool.records.contains_key(id) {
        PoolView {
            used: wrapped(pool.used - pool.records[id].bytes),
            records: pool.records.remove(id),
            hooks: pool.hooks.remove(id),
            ..pool
        }
    } else {
        pool
    }
}

/// The hook registered under `id`, if any.
pub open spec fn hook_of<H>(pool: PoolView<H>, id: u64) -> Option<H> {
    if pool.hooks.contains_key(id) {
        Some(pool.hooks[id])
    } else {
        None
    }
}

/// Whether `id` may be evicted: registered and not pinned.
pub open spec fn evictable<H>(pool: PoolView<H>, id: u64) -> bool {
    pool.hooks.contains_key(id) && !pool.records[id].pinned
}

/// Whether `ids` is what an eviction pass over `pool` takes, in order: the least
/// recently used evictable entries, as few as bring the pool back under capacity.
pub open spec fn eviction<H>(pool: PoolView<H>, ids: Seq<u64>) -> bool {
    &&& forall|i: int| 0 <= i < ids.len() ==> evictable(pool, #[trigger] ids[i])
    &&& forall|i: int, j: int|
        0 <= i < j < ids.len() ==> slot_lt(
            age_key(pool.records, #[trigger] ids[i]),
            age_key(pool.records, #[trigger] ids[j]),
        )
    &&& forall|i: int, id: u64|
        #![trigger ids[i], evictable(pool, id)]
        0 <= i < ids.len() && evictable(pool, id) && !ids.contains(id) ==> slot_lt(
            age_key(pool.records, ids[i]),
            age_key(pool.records, id),
        )
    &&& forall|k: int|
        0 <= k < ids.len() ==> pool.used - #[trigger] bytes_of(pool.records, ids.take(k))
            > pool.capacity
    &&& pool.used - bytes_of(pool.records, ids) <= pool.capacity || forall|id: u64| #[trigger]
        evictable(pool, id) ==> ids.contains(id)
}

/// Whether a heap holds one slot for each registered entry, under its last access, and
/// nothing else.
pub open spec fn rebuilt<H>(slots: Multiset<(u64, u64)>, pool: PoolView<H>) -> bool {
    forall|access: u64, id: u64| #[trigger]
        slots.count((access, id)) == if pool.hooks.contains_key(id) && access
            == pool.records[id].last_access {
            1nat
        } else {
            0nat
        }
}

/// How many slots the recency heap of a pool may hold after a compaction.
pub open spec fn slot_limit<H>(pool: PoolView<H>) -> nat {
    2 * pool.hooks.dom().len() + COMPACT_SLACK as nat
}

/// Whether compacting a heap gives another: it is left alone up to the limit, and rebuilt
/// above it.
pub open spec fn compacted<H>(
    before: Multiset<(u64, u64)>,
    after: Multiset<(u64, u64)>,
    pool: PoolView<H>,
) -> bool {
    &&& if before.len() <= slot_limit(pool) {
        after == before
    } else {
        rebuilt(after, pool)
    }
    &&& after.len() <= slot_limit(pool)
}

/// The ids of a list of victims.
pub open spec fn victim_ids<H>(victims: Seq<Victim<H>>) -> Seq<u64> {
    Seq::new(victims.len(), |i: int| victims[i].id)
}

/// A shared byte budget that caches charge into.
///
/// The pool tracks how many payload bytes are cached across every registered group
/// and evicts the least-recently-read groups once `used` exceeds `capacity`. Pinned
/// (latest) groups are never evicted but still count against the budget.
///
/// `H` is the eviction hook: what the caller runs to abort an evicted group.
pub struct Pool<H> {
    used: u64,
    capacity: u64,
    // Reference point for the coarse `last_access` clock.
    time: Clock,
    clock: u64,
    // Min-heap of (last_access snapshot, id). Snapshots go stale when an entry is
    // touched; a popped entry whose current last_access differs is re-pushed with
    // the fresh key instead of being evicted (lazy re-keying).
    heap: MinHeap,
    records: HashMap<u64, Record>,
    entries: HashMap<u64, Registration<H>>,
    next_id: u64,
}

/// Each registered entry is filed in the heap exactly once, under its snapshot, which
/// is no later than its last access.
spec fn filed<H>(
    heap: Multiset<(u64, u64)>,
    entries: Map<u64, Registration<H>>,
    records: Map<u64, Record>,
    next_id: u64,
) -> bool {
    &&& forall|s: u64, id: u64| #[trigger] heap.count((s, id)) > 0 ==> id < next_id
    &&& forall|s: u64, id: u64|
        entries.contains_key(id) ==> #[trigger] heap.count((s, id)) == if s == entries[id].snapshot {
            1nat
        } else {
            0nat
        }
    &&& forall|id: u64| #[trigger]
        entries.contains_key(id) ==> records.contains_key(id) && entries[id].snapshot
            <= records[id].last_access
}

/// Changing one record changes the total by the difference.
proof fn lemma_charged_update(a: Map<u64, Record>, b: Map<u64, Record>, id: u64, n: nat)
    requires
        forall|other: u64|
            other != id ==> (#[trigger] a.contains_key(other) == b.contains_key(other) && (
            a.contains_key(other) ==> a[other] == b[other])),
        n <= u64::MAX,
    ensures
        charged(b, n) - charged(a, n) == if id < n {
            (if b.contains_key(id) {
                b[id].bytes as int
            } else {
                0
            }) - (if a.contains_key(id) {
                a[id].bytes as int
            } else {
                0
            })
        } else {
            0
        },
    decreases n,
{
    if n > 0 {
        lemma_charged_update(a, b, id, (n - 1) as nat);
        assert(a.contains_key((n - 1) as u64) || !a.contains_key((n - 1) as u64));
    }
}

/// The bytes of a longer list of entries.
proof fn lemma_bytes_of_push(records: Map<u64, Record>, ids: Seq<u64>, id: u64)
    ensures
        bytes_of(records, ids.push(id)) == bytes_of(records, ids) + records[id].bytes,
{
    assert(ids.push(id).drop_last() =~= ids);
}

/// Filing a popped entry again under its last access.
proof fn lemma_refile<H>(
    heap: Multiset<(u64, u64)>,
    entries: Map<u64, Registration<H>>,
    records: Map<u64, Record>,
    next_id: u64,
    slot: (u64, u64),
    fresh: Registration<H>,
)
    requires
        filed(heap, entries, records, next_id),
        heap.count(slot) > 0,
        entries.contains_key(slot.1),
        fresh.snapshot == records[slot.1].last_access,
    ensures
        filed(
            heap.remove(slot).insert((fresh.snapshot, slot.1)),
            entries.insert(slot.1, fresh),
            records,
            next_id,
        ),
        entries[slot.1].snapshot == slot.0,
{
    broadcast use vstd::multiset::group_multiset_axioms;

    let id = slot.1;
    let after = heap.remove(slot).insert((fresh.snapshot, id));
    assert(heap.count((slot.0, id)) == 1);
    assert(id < next_id);
    assert forall|s: u64, other: u64| #[trigger] after.count((s, other)) > 0 implies other
        < next_id by {
        assert(heap.count((s, other)) > 0 || (s, other) == (fresh.snapshot, id));
    }
    assert forall|s: u64, other: u64|
        entries.insert(id, fresh).contains_key(other) implies #[trigger] after.count((s, other))
        == if s == entries.insert(id, fresh)[other].snapshot {
        1nat
    } else {
        0nat
    } by {
        assert(heap.count((s, other)) == if s == entries[other].snapshot {
            1nat
        } else {
            0nat
        });
    }
}

/// Discarding the slot of an entry that is gone.
proof fn lemma_discard<H>(
    heap: Multiset<(u64, u64)>,
    entries: Map<u64, Registration<H>>,
    records: Map<u64, Record>,
    next_id: u64,
    slot: (u64, u64),
)
    requires
        filed(heap, entries, records, next_id),
        !entries.contains_key(slot.1),
    ensures
        filed(heap.remove(slot), entries, records, next_id),
{
    broadcast use vstd::multiset::group_multiset_axioms;

    assert forall|s: u64, other: u64| #[trigger]
        heap.remove(slot).count((s, other)) > 0 implies other < next_id by {
        assert(heap.count((s, other)) > 0);
    }
    assert forall|s: u64, other: u64| entries.contains_key(other) implies #[trigger] heap.remove(
        slot,
    ).count((s, other)) == if s == entries[other].snapshot {
        1nat
    } else {
        0nat
    } by {
        assert(heap.count((s, other)) == if s == entries[other].snapshot {
            1nat
        } else {
            0nat
        });
    }
}

impl<H> View for Pool<H> {
    type V = PoolView<H>;

    closed spec fn view(&self) -> PoolView<H> {
        PoolView {
            used: self.used,
            capacity: self.capacity,
            clock: self.clock,
            next_id: self.next_id,
            records: self.records@,
            hooks: self.entries@.map_values(|r: Registration<H>| r.hook),
        }
    }
}

impl<H> Pool<H> {
    /// The pool's invariant.
    pub closed spec fn wf(&self) -> bool {
        &&& self.heap.wf()
        &&& filed(self.heap@, self.entries@, self.records@, self.next_id)
        &&& forall|id: u64| #[trigger]
            self.records@.contains_key(id) ==> id < self.next_id && self.records@[id].last_access
                <= self.clock
        &&& self.used == charged(self.records@, self.next_id as nat) % 0x1_0000_0000_0000_0000
    }

    /// The slots of the recency heap, stale ones included.
    pub closed spec fn slots(&self) -> Multiset<(u64, u64)> {
        self.heap@
    }

    /// The clock that the pool reads.
    pub closed spec fn time(&self) -> Clock {
        self.time
    }

    /// Whether the pool's clock can be read as `now` milliseconds.
    pub open spec fn reads(&self, now: u64) -> bool {
        exists|nanos: u128|
            #[trigger] self.time().reads(nanos) && now == (nanos / NANOS_PER_MILLI)
                % 0x1_0000_0000_0000_0000
    }

    /// How many slots the recency heap holds, stale ones included.
    pub open spec fn heap_slots(&self) -> nat {
        self.slots().len()
    }

    /// Create a pool that evicts once `capacity` bytes are cached.
    ///
    /// The budget counts frame payload bytes (plus a small fixed overhead per
    /// group), not process RSS; leave headroom when sizing it from real memory.
    pub fn new(capacity: u64) -> (r: Self)
        ensures
            r.wf(),
            r@ == fresh_pool::<H>(capacity),
            r.heap_slots() == 0,
    {
        let r = Pool {
            used: 0,
            capacity,
            time: Clock::new(),
            clock: 0,
            heap: MinHeap::new(),
            records: HashMap::new(),
            entries: HashMap::new(),
            next_id: 0,
        };
        assert(r@.hooks =~= Map::<u64, H>::empty());
        r
    }

    /// Create a pool that never evicts. This is the [`Default`].
    pub fn unbounded() -> (r: Self)
        ensures
            r.wf(),
            r@ == fresh_pool::<H>(u64::MAX),
            r.heap_slots() == 0,
    {
        Self::new(u64::MAX)
    }

    /// The configured capacity in bytes, or `None` when unbounded.
    pub fn capacity(&self) -> (r: Option<u64>)
        ensures
            r == if self@.capacity == u64::MAX {
                None
            } else {
                Some(self@.capacity)
            },
    {
        if self.capacity == u64::MAX {
            None
        } else {
            Some(self.capacity)
        }
    }

    /// Bytes currently cached across every registered group.
    pub fn used(&self) -> (r: u64)
        ensures
            r == self@.used,
    {
        self.used
    }

    /// How many entries are registered, and so may be evicted.
    pub fn entry_count(&self) -> (n: usize)
        ensures
            n == self@.hooks.dom().len(),
    {
        broadcast use vstd::std_specs::hash::group_hash_axioms;

        assert(self@.hooks.dom() =~= self.entries@.dom());
        self.entries.len()
    }

    /// How many slots the recency heap holds, stale ones included.
    pub fn slot_count(&self) -> (n: usize)
        ensures
            n == self.heap_slots(),
    {
        self.heap.len()
    }

    /// Milliseconds since the pool was created: a reading of its clock.
    fn now(&self) -> (r: u64)
        ensures
            self.reads(r),
    {
        let now: u64 = self.time.millis();
        proof {
            let nanos = choose|nanos: u128|
                #[trigger] self.time.reads(nanos) && now == (nanos / NANOS_PER_MILLI)
                    % 0x1_0000_0000_0000_0000;
            assert(self.time().reads(nanos));
        }
        now
    }

    /// Move the pool clock forward to `now`; readings never go back.
    fn advance(&mut self, now: u64)
        requires
            old(self).wf(),
        ensures
            final(self).wf(),
            final(self)@ == (PoolView {
                clock: if now > old(self)@.clock { now } else { old(self)@.clock },
                ..old(self)@
            }),
            final(self).heap == old(self).heap,
            final(self).entries == old(self).entries,
            final(self).time() == old(self).time(),
    {
        if now > self.clock {
            self.clock = now;
        }
    }

    /// Drop heap slots whose entry is gone, once they outnumber the live ones.
    ///
    /// Unregistering leaves its heap slot behind to be discarded on a later pop,
    /// but `evict` is the only thing that pops and it returns early while the pool
    /// is under capacity, so an UNBOUNDED pool never pops at all and the heap
    /// would grow without bound. Rebuilding is amortized by the doubling threshold,
    /// so steady-state churn keeps the heap within 2x live.
    fn compact(&mut self)
        requires
            old(self).wf(),
        ensures
            final(self).wf(),
            final(self)@ == old(self)@,
            compacted(old(self).slots(), final(self).slots(), final(self)@),
            final(self).time() == old(self).time(),
    {
        broadcast use vstd::std_specs::hash::group_hash_axioms;
        broadcast use vstd::multiset::group_multiset_axioms;

        let live: usize = self.entries.len();
        let slots: usize = self.heap.len();
        assert(self@.hooks.dom() =~= self.entries@.dom());
        if slots <= COMPACT_SLACK || (slots - COMPACT_SLACK - 1) / 2 < live {
            return;
        }
        let mut stale = MinHeap::new();
        std::mem::swap(&mut stale, &mut self.heap);
        let ghost mut ids: Seq<u64> = Seq::empty();
        assert(stale@.add(self.heap@) =~= stale@);
        loop
            invariant_except_break
                stale.wf(),
            invariant
                self.heap.wf(),
                self.used == old(self).used,
                self.capacity == old(self).capacity,
                self.clock == old(self).clock,
                self.time == old(self).time,
                self.next_id == old(self).next_id,
                self.records@ == old(self).records@,
                self.entries@.dom() == old(self).entries@.dom(),
                self@.hooks == old(self)@.hooks,
                filed(stale@.add(self.heap@), self.entries@, self.records@, self.next_id),
                ids.no_duplicates(),
                ids.len() == self.heap@.len(),
                forall|i: int| 0 <= i < ids.len() ==> self.entries@.contains_key(#[trigger] ids[i]),
                forall|s: u64, id: u64| #[trigger]
                    self.heap@.count((s, id)) > 0 ==> self.entries@.contains_key(id)
                        && self.entries@[id].snapshot == self.records@[id].last_access,
                forall|s: u64, i: int|
                    #![trigger stale@.count((s, ids[i]))]
                    0 <= i < ids.len() ==> stale@.count((s, ids[i])) == 0,
            ensures
                stale@.len() == 0,
            decreases stale@.len(),
        {
            let ghost before = stale@;
            let ghost both = stale@.add(self.heap@);
            let ghost entries = self.entries@;
            match stale.pop() {
                None => {
                    break;
                },
                Some(slot) => {
                    let id: u64 = slot.1;
                    proof {
                        assert(both.remove(slot) =~= stale@.add(self.heap@));
                    }
                    match self.entries.remove(&id) {
                        None => {
                            proof {
                                lemma_discard(both, entries, self.records@, self.next_id, slot);
                                assert(self.entries@ =~= entries);
                            }
                        },
                        Some(reg) => {
                            let access: u64 = match self.records.get(&id) {
                                Some(record) => record.last_access,
                                None => reg.snapshot,
                            };
                            let fresh = Registration { snapshot: access, hook: reg.hook };
                            proof {
                                lemma_refile(both, entries, self.records@, self.next_id, slot, fresh);
                            }
                            self.entries.insert(id, fresh);
                            let ghost heap = self.heap@;
                            self.heap.push((access, id));
                            proof {
                                assert(self.entries@ =~= entries.insert(id, fresh));
                                assert(stale@.add(self.heap@) =~= both.remove(slot).insert(
                                    (access, id),
                                ));
                                assert(self@.hooks =~= old(self)@.hooks);
                                assert forall|s: u64, other: u64| #[trigger]
                                    self.heap@.count((s, other)) > 0 implies self.entries@.contains_key(
                                    other,
                                ) && self.entries@[other].snapshot
                                    == self.records@[other].last_access by {
                                    assert(heap.count((s, other)) > 0 || (s, other) == (access, id));
                                }
                                assert forall|i: int| 0 <= i < ids.len() implies ids[i] != id by {
                                    assert(before.count((slot.0, ids[i])) == 0);
                                }
                                ids = ids.push(id);
                                assert forall|s: u64, i: int|
                                    #![trigger stale@.count((s, ids[i]))]
                                    0 <= i < ids.len() implies stale@.count((s, ids[i])) == 0 by {
                                    if i == ids.len() - 1 {
                                        assert(both.count((s, id)) == if s == entries[id].snapshot {
                                            1nat
                                        } else {
                                            0nat
                                        });
                                        assert(entries[id].snapshot == slot.0);
                                    } else {
                                        assert(before.count((s, ids[i])) == 0);
                                    }
                                }
                            }
                        },
                    }
                },
            }
        }
        proof {
            assert(stale@.add(self.heap@) =~= self.heap@);
            ids.unique_seq_to_set();
            assert(ids.to_set().subset_of(self.entries@.dom()));
            vstd::set_lib::lemma_len_subset(ids.to_set(), self.entries@.dom());
            assert(self@.hooks.dom() =~= self.entries@.dom());
            assert forall|s: u64, id: u64| #[trigger] self.heap@.count((s, id)) == if self@.hooks.contains_key(
                id,
            ) && s == self@.records[id].last_access {
                1nat
            } else {
                0nat
            } by {
                if self.entries@.contains_key(id) {
                    assert(self.heap@.count((self.entries@[id].snapshot, id)) == 1);
                }
            }
        }
    }

    /// Evict least-recently-read groups until the pool is back under capacity.
    ///
    /// The victims leave the pool's registration at once, but keep their charge until
    /// their hook aborts the group and the group's own charge is cleared. The caller
    /// runs the hooks, in order, after it let go of the pool.
    pub fn evict(&mut self) -> (victims: Vec<Victim<H>>)
        requires
            old(self).wf(),
        ensures
            final(self).wf(),
            eviction(old(self)@, victim_ids(victims@)),
            forall|i: int|
                0 <= i < victims@.len() ==> (#[trigger] victims@[i]).hook == old(self)@.hooks[victims@[i].id],
            final(self)@ == (PoolView {
                hooks: old(self)@.hooks.remove_keys(victim_ids(victims@).to_set()),
                ..old(self)@
            }),
            final(self).heap_slots() <= old(self).heap_slots(),
            final(self).time() == old(self).time(),
    {
        broadcast use vstd::std_specs::hash::group_hash_axioms;
        broadcast use vstd::multiset::group_multiset_axioms;
        broadcast use vstd::seq_lib::group_to_multiset_ensures;

        let mut victims: Vec<Victim<H>> = Vec::new();
        let ghost mut ids: Seq<u64> = Seq::empty();
        // Bytes the collected victims will release once aborted.
        let mut freed: u128 = 0;
        // Pinned entries popped this pass; re-pushing them immediately would just
        // pop them again (same key), so they're held aside until the pass ends.
        let mut pinned: Vec<(u64, u64)> = Vec::new();
        let ghost pool = self@;
        assert(self.heap@.add(pinned@.to_multiset()) =~= self.heap@);
        loop
            invariant
                old(self).wf(),
                pool == old(self)@,
                self.heap.wf(),
                self.used == old(self).used,
                self.capacity == old(self).capacity,
                self.clock == old(self).clock,
                self.time == old(self).time,
                self.next_id == old(self).next_id,
                self.records@ == old(self).records@,
                filed(
                    self.heap@.add(pinned@.to_multiset()),
                    self.entries@,
                    self.records@,
                    self.next_id,
                ),
                self.heap@.len() + pinned@.len() <= old(self).heap@.len(),
                ids == victim_ids(victims@),
                self@.hooks == pool.hooks.remove_keys(ids.to_set()),
                self.entries@.dom() == self@.hooks.dom(),
                freed == bytes_of(pool.records, ids),
                freed <= victims@.len() * u64::MAX,
                forall|i: int|
                    0 <= i < victims@.len() ==> (#[trigger] victims@[i]).hook == pool.hooks[victims@[i].id],
                forall|i: int| 0 <= i < ids.len() ==> evictable(pool, #[trigger] ids[i]),
                forall|i: int, j: int|
                    0 <= i < j < ids.len() ==> slot_lt(
                        age_key(pool.records, #[trigger] ids[i]),
                        age_key(pool.records, #[trigger] ids[j]),
                    ),
                forall|i: int, id: u64|
                    #![trigger ids[i], evictable(pool, id)]
                    0 <= i < ids.len() && evictable(pool, id) && !ids.contains(id) ==> slot_lt(
                        age_key(pool.records, ids[i]),
                        age_key(pool.records, id),
                    ),
                forall|k: int|
                    0 <= k < ids.len() ==> pool.used - #[trigger] bytes_of(
                        pool.records,
                        ids.take(k),
                    ) > pool.capacity,
                forall|i: int|
                    0 <= i < pinned@.len() ==> self.entries@.contains_key((#[trigger] pinned@[i]).1)
                        && pool.records[pinned@[i].1].pinned,
            ensures
                pool.used - bytes_of(pool.records, ids) <= pool.capacity || forall|id: u64|
                    #[trigger] evictable(pool, id) ==> ids.contains(id),
            decreases
                    self.entries@.dom().filter(
                        |id: u64| self.entries@[id].snapshot != self.records@[id].last_access,
                    ).len(),
                    self.heap@.len(),
        {
            broadcast use vstd::multiset::group_multiset_axioms;
            broadcast use vstd::seq_lib::group_to_multiset_ensures;

            assert(victims.len() <= usize::MAX);
            if (self.used as u128) <= freed || self.used as u128 - freed <= self.capacity as u128 {
                break;
            }
            let ghost heap = self.heap@;
            let ghost entries = self.entries@;
            let ghost hooks = self@.hooks;
            let ghost all = heap.add(pinned@.to_multiset());
            let ghost outdated = entries.dom().filter(
                |id: u64| entries[id].snapshot != self.records@[id].last_access,
            );
            match self.heap.pop() {
                None => {
                    proof {
                        assert forall|id: u64| #[trigger] evictable(pool, id) implies ids.contains(
                            id,
                        ) by {
                            if !ids.contains(id) {
                                assert(!ids.to_set().contains(id));
                                assert(self@.hooks.contains_key(id));
                                assert(self.entries@.contains_key(id));
                                let slot = (entries[id].snapshot, id);
                                assert(all.count(slot) == 1);
                                assert(heap.count(slot) == 0);
                                vstd::seq_lib::to_multiset_contains(pinned@, slot);
                                assert(pinned@.contains(slot));
                            }
                        }
                    }
                    break;
                },
                Some(slot) => {
                    let id: u64 = slot.1;
                    proof {
                        assert(all.remove(slot) =~= self.heap@.add(pinned@.to_multiset()));
                        assert(all.count(slot) > 0);
                    }
                    match self.entries.remove(&id) {
                        None => {
                            // Already evicted or dropped; discard the stale heap slot.
                            proof {
                                lemma_discard(all, entries, self.records@, self.next_id, slot);
                                assert(self.entries@ =~= entries);
                            }
                        },
                        Some(reg) => {
                            proof {
                                assert(self.records@.contains_key(id));
                                assert(all.count((slot.0, id)) == 1);
                            }
                            let record: Record = match self.records.get(&id) {
                                Some(record) => *record,
                                None => Record { bytes: 0, last_access: 0, pinned: false },
                            };
                            let access: u64 = record.last_access;
                            if access != slot.0 {
                                // Touched since this snapshot; re-key instead of evicting.
                                let fresh = Registration { snapshot: access, hook: reg.hook };
                                proof {
                                    lemma_refile(all, entries, self.records@, self.next_id, slot, fresh);
                                }
                                self.entries.insert(id, fresh);
                                self.heap.push((access, id));
                                proof {
                                    assert(self.entries@ =~= entries.insert(id, fresh));
                                    assert(self.heap@.add(pinned@.to_multiset()) =~= all.remove(
                                        slot,
                                    ).insert((access, id)));
                                    assert(self@.hooks =~= pool.hooks.remove_keys(ids.to_set()));
                                    let now = self.entries@.dom().filter(
                                        |id: u64|
                                            self.entries@[id].snapshot
                                                != self.records@[id].last_access,
                                    );
                                    assert(outdated.contains(id));
                                    assert(now =~= outdated.remove(id));
                                }
                            } else if record.pinned {
                                self.entries.insert(id, reg);
                                let ghost before = pinned@;
                                pinned.push((access, id));
                                proof {
                                    assert(self.entries@ =~= entries);
                                    assert(pinned@.to_multiset() =~= before.to_multiset().insert(
                                        slot,
                                    ));
                                    assert(self.heap@.add(pinned@.to_multiset()) =~= all);
                                }
                            } else {
                                let ghost before = ids;
                                proof {
                                    assert(hooks.contains_key(id) && hooks[id] == reg.hook);
                                    assert(self@.hooks =~= hooks.remove(id));
                                    assert(hooks.remove(id) =~= pool.hooks.remove_keys(
                                        ids.to_set().insert(id),
                                    ));
                                    assert forall|other: u64|
                                        evictable(pool, other) && !ids.contains(other) && other
                                            != id implies slot_lt(
                                        age_key(pool.records, id),
                                        age_key(pool.records, other),
                                    ) by {
                                        assert(!ids.to_set().contains(other));
                                        assert(entries.contains_key(other));
                                        let filed_at = (entries[other].snapshot, other);
                                        assert(all.count(filed_at) == 1);
                                        vstd::seq_lib::to_multiset_contains(pinned@, filed_at);
                                        assert(heap.count(filed_at) > 0);
                                        assert(slot_le(slot, filed_at));
                                    }
                                    lemma_bytes_of_push(pool.records, ids, id);
                                    ids = ids.push(id);
                                    assert forall|k: int| 0 <= k < ids.len() implies pool.used
                                        - #[trigger] bytes_of(pool.records, ids.take(k))
                                        > pool.capacity by {
                                        if k < before.len() {
                                            assert(ids.take(k) =~= before.take(k));
                                        } else {
                                            assert(ids.take(k) =~= before);
                                        }
                                    }
                                    assert(ids.to_set() =~= before.to_set().insert(id)) by {
                                        assert forall|other: u64|
                                            ids.contains(other) == (before.contains(other) || other
                                                == id) by {
                                            if before.contains(other) {
                                                let j = choose|j: int|
                                                    0 <= j < before.len() && before[j] == other;
                                                assert(ids[j] == other);
                                            }
                                            assert(ids[ids.len() - 1] == id);
                                        }
                                    }
                                    assert forall|i: int, other: u64|
                                        #![trigger ids[i], evictable(pool, other)]
                                        0 <= i < ids.len() && evictable(pool, other)
                                            && !ids.contains(other) implies slot_lt(
                                        age_key(pool.records, ids[i]),
                                        age_key(pool.records, other),
                                    ) by {
                                        if before.contains(other) {
                                            let j = choose|j: int|
                                                0 <= j < before.len() && before[j] == other;
                                            assert(ids[j] == other);
                                        }
                                        if other == id {
                                            assert(ids[ids.len() - 1] == id);
                                        }
                                        if i < before.len() {
                                            assert(before[i] == ids[i]);
                                        }
                                    }
                                    assert(pool.hooks.contains_key(id));
                                    assert(evictable(pool, id));
                                    assert(!before.contains(id)) by {
                                        assert(!before.to_set().contains(id));
                                    }
                                    assert forall|i: int| 0 <= i < pinned@.len() implies pinned@[i].1
                                        != id by {
                                    }
                                    let now = self.entries@.dom().filter(
                                        |id: u64|
                                            self.entries@[id].snapshot
                                                != self.records@[id].last_access,
                                    );
                                    assert(now =~= outdated);
                                    assert(filed(
                                        all.remove(slot),
                                        self.entries@,
                                        self.records@,
                                        self.next_id,
                                    ))
                                        by {
                                        lemma_discard(all, self.entries@, self.records@, self.next_id, slot);
                                    }
                                }
                                freed = freed + record.bytes as u128;
                                let ghost taken = victims@;
                                victims.push(Victim { id, hook: reg.hook });
                                proof {
                                    assert(victim_ids(victims@) =~= ids);
                                    assert forall|i: int| 0 <= i < victims@.len() implies (
                                    #[trigger] victims@[i]).hook == pool.hooks[victims@[i].id] by {
                                        if i < taken.len() {
                                            assert(victims@[i] == taken[i]);
                                        }
                                    }
                                }
                            }
                        },
                    }
                },
            }
        }
        let mut k: usize = 0;
        assert(pinned@.skip(0) =~= pinned@);
        while k < pinned.len()
            invariant
                k <= pinned@.len(),
                self.heap.wf(),
                self.used == old(self).used,
                self.capacity == old(self).capacity,
                self.clock == old(self).clock,
                self.time == old(self).time,
                self.next_id == old(self).next_id,
                self.records@ == old(self).records@,
                self@.hooks == pool.hooks.remove_keys(ids.to_set()),
                self.heap@.len() + (pinned@.len() - k) <= old(self).heap@.len(),
                filed(
                    self.heap@.add(pinned@.skip(k as int).to_multiset()),
                    self.entries@,
                    self.records@,
                    self.next_id,
                ),
            decreases pinned@.len() - k,
        {
            broadcast use vstd::multiset::group_multiset_axioms;
            broadcast use vstd::seq_lib::group_to_multiset_ensures;

            let ghost heap = self.heap@;
            let ghost rest = pinned@.skip(k as int);
            self.heap.push(pinned[k]);
            proof {
                assert(rest.skip(1) =~= pinned@.skip(k + 1));
                assert(rest =~= seq![rest[0]] + rest.skip(1));
                vstd::seq_lib::lemma_multiset_commutative(seq![rest[0]], rest.skip(1));
                vstd::seq_lib::to_multiset_build(Seq::<(u64, u64)>::empty(), rest[0]);
                assert(seq![rest[0]] =~= Seq::<(u64, u64)>::empty().push(rest[0]));
                assert(Seq::<(u64, u64)>::empty().to_multiset() =~= Multiset::empty());
                assert(self.heap@.add(rest.skip(1).to_multiset()) =~= heap.add(
                    rest.to_multiset(),
                ));
            }
            k = k + 1;
        }
        proof {
            assert(pinned@.skip(k as int) =~= Seq::<(u64, u64)>::empty());
            assert(self.heap@.add(pinned@.skip(k as int).to_multiset()) =~= self.heap@);
        }
        victims
    }

    /// Change the capacity, evicting immediately if the new capacity is exceeded.
    /// `None` makes the pool unbounded.
    pub fn resize(&mut self, capacity: Option<u64>) -> (victims: Vec<Victim<H>>)
        requires
            old(self).wf(),
        ensures
            final(self).wf(),
            ({
                let pool = PoolView {
                    capacity: match capacity {
                        Some(bytes) => bytes,
                        None => u64::MAX,
                    },
                    ..old(self)@
                };
                &&& eviction(pool, victim_ids(victims@))
                &&& forall|i: int|
                    0 <= i < victims@.len() ==> (#[trigger] victims@[i]).hook
                        == pool.hooks[victims@[i].id]
                &&& final(self)@ == (PoolView {
                    hooks: pool.hooks.remove_keys(victim_ids(victims@).to_set()),
                    ..pool
                })
            }),
            final(self).heap_slots() <= old(self).heap_slots(),
            final(self).time() == old(self).time(),
    {
        self.capacity = match capacity {
            Some(bytes) => bytes,
            None => u64::MAX,
        };
        self.evict()
    }

    /// Register a group, returning the [`Charge`] that tracks its bytes. Reads the
    /// clock.
    ///
    /// `hook` aborts the group (releasing its charge). It is handed back by the
    /// eviction that picks the group, and never after the charge is gone.
    pub fn register(&mut self, hook: H) -> (charge: Charge)
        requires
            old(self).wf(),
            old(self)@.next_id < u64::MAX,
        ensures
            final(self).wf(),
            charge@ == Some(old(self)@.next_id),
            exists|now: u64| #[trigger]
                old(self).reads(now) && final(self)@ == registered(old(self)@, hook, now),
            compacted(
                old(self).slots().insert((final(self)@.clock, old(self)@.next_id)),
                final(self).slots(),
                final(self)@,
            ),
            final(self).heap_slots() <= slot_limit(final(self)@),
            final(self).time() == old(self).time(),
    {
        let now: u64 = self.now();
        self.register_at(hook, now)
    }

    /// Register a group at clock reading `now`.
    pub fn register_at(&mut self, hook: H, now: u64) -> (charge: Charge)
        requires
            old(self).wf(),
            old(self)@.next_id < u64::MAX,
        ensures
            final(self).wf(),
            charge@ == Some(old(self)@.next_id),
            final(self)@ == registered(old(self)@, hook, now),
            compacted(
                old(self).slots().insert((final(self)@.clock, old(self)@.next_id)),
                final(self).slots(),
                final(self)@,
            ),
            final(self).heap_slots() <= slot_limit(final(self)@),
            final(self).time() == old(self).time(),
    {
        broadcast use vstd::std_specs::hash::group_hash_axioms;
        broadcast use vstd::multiset::group_multiset_axioms;

        self.advance(now);
        let id: u64 = self.next_id;
        let access: u64 = self.clock;
        let ghost records = self.records@;
        let ghost entries = self.entries@;
        let ghost heap = self.heap@;
        self.next_id = id + 1;
        self.records.insert(
            id,
            Record { bytes: ENTRY_OVERHEAD, last_access: access, pinned: false },
        );
        self.entries.insert(id, Registration { snapshot: access, hook });
        self.heap.push((access, id));
        self.used = self.used.wrapping_add(ENTRY_OVERHEAD);
        proof {
            lemma_charged_update(records, self.records@, id, id as nat);
            assert(!records.contains_key(id));
            assert forall|s: u64, other: u64| #[trigger]
                self.heap@.count((s, other)) > 0 implies other < self.next_id by {
                assert(heap.count((s, other)) > 0 || (s, other) == (access, id));
            }
            assert forall|s: u64, other: u64|
                self.entries@.contains_key(other) implies #[trigger] self.heap@.count((s, other))
                == if s == self.entries@[other].snapshot {
                1nat
            } else {
                0nat
            } by {
                assert(heap.count((s, other)) == if other != id && s == entries[other].snapshot {
                    1nat
                } else {
                    0nat
                });
            }
            assert(self@ =~= registered(old(self)@, self.entries@[id].hook, now));
            assert(charged(self.records@, (id + 1) as nat) == charged(self.records@, id as nat)
                + ENTRY_OVERHEAD);
        }
        self.compact();
        Charge { id: Some(id) }
    }
}

impl<H> Default for Pool<H> {
    fn default() -> (r: Self)
        ensures
            r.wf(),
            r@ == fresh_pool::<H>(u64::MAX),
            r.heap_slots() == 0,
    {
        Self::unbounded()
    }
}

impl<H> Pool<H> {
    /// Overwrite the record of a held charge, moving `used` by the same difference.
    fn rewrite(&mut self, id: u64, record: Record, used: u64)
        requires
            old(self).wf(),
            old(self)@.records.contains_key(id),
            old(self)@.records[id].last_access <= record.last_access <= old(self)@.clock,
            used == wrapped(
                old(self)@.used + record.bytes - old(self)@.records[id].bytes,
            ),
        ensures
            final(self).wf(),
            final(self)@ == (PoolView {
                used,
                records: old(self)@.records.insert(id, record),
                ..old(self)@
            }),
            final(self).slots() == old(self).slots(),
            final(self).time() == old(self).time(),
    {
        broadcast use vstd::std_specs::hash::group_hash_axioms;

        let ghost records = self.records@;
        self.records.insert(id, record);
        self.used = used;
        proof {
            lemma_charged_update(records, self.records@, id, self.next_id as nat);
            assert(self@.records =~= old(self)@.records.insert(id, record));
            assert(filed(self.heap@, self.entries@, self.records@, self.next_id));
        }
    }

    /// Drop the registration of `id`, handing back its hook.
    fn unregister(&mut self, id: u64) -> (hook: Option<H>)
        requires
            old(self).wf(),
        ensures
            final(self).wf(),
            final(self)@ == (PoolView { hooks: old(self)@.hooks.remove(id), ..old(self)@ }),
            hook == hook_of(old(self)@, id),
            final(self).slots() == old(self).slots(),
            final(self).time() == old(self).time(),
    {
        broadcast use vstd::std_specs::hash::group_hash_axioms;

        let ghost entries = self.entries@;
        let reg = self.entries.remove(&id);
        proof {
            assert(self.entries@ =~= entries.remove(id));
            assert(self@.hooks =~= old(self)@.hooks.remove(id));
        }
        match reg {
            Some(reg) => Some(reg.hook),
            None => None,
        }
    }

    /// The record of a charge that is still held.
    fn record(&self, id: u64) -> (r: Option<Record>)
        ensures
            r == if self@.records.contains_key(id) {
                Some(self@.records[id])
            } else {
                None
            },
    {
        broadcast use vstd::std_specs::hash::group_hash_axioms;

        match self.records.get(&id) {
            Some(record) => Some(*record),
            None => None,
        }
    }
}

/// A handle on an entry's recency and pin, which the track's bookkeeping keeps beside
/// the [`Charge`]. Once the charge is gone every operation is a no-op.
#[derive(Clone, Copy)]
pub struct Entry {
    id: u64,
}

impl View for Entry {
    type V = u64;

    closed spec fn view(&self) -> u64 {
        self.id
    }
}

impl Entry {
    /// Record a read so eviction considers this group recently used. Reads the clock.
    pub fn touch<H>(&self, pool: &mut Pool<H>)
        requires
            old(pool).wf(),
        ensures
            final(pool).wf(),
            exists|now: u64| #[trigger]
                old(pool).reads(now) && final(pool)@ == touched(old(pool)@, self@, now),
            final(pool).slots() == old(pool).slots(),
            final(pool).time() == old(pool).time(),
    {
        let now: u64 = pool.now();
        self.touch_at(pool, now)
    }

    /// Record a read at clock reading `now`.
    pub fn touch_at<H>(&self, pool: &mut Pool<H>, now: u64)
        requires
            old(pool).wf(),
        ensures
            final(pool).wf(),
            final(pool)@ == touched(old(pool)@, self@, now),
            final(pool).slots() == old(pool).slots(),
            final(pool).time() == old(pool).time(),
    {
        match pool.record(self.id) {
            Some(record) => {
                pool.advance(now);
                let access: u64 = pool.clock;
                let used: u64 = pool.used;
                pool.rewrite(self.id, Record { last_access: access, ..record }, used);
            },
            None => {},
        }
    }

    /// Pin or unpin this entry. Pinned entries are immune to eviction.
    pub fn set_pinned<H>(&self, pool: &mut Pool<H>, pinned: bool)
        requires
            old(pool).wf(),
        ensures
            final(pool).wf(),
            final(pool)@ == pin_set(old(pool)@, self@, pinned),
            final(pool).slots() == old(pool).slots(),
            final(pool).time() == old(pool).time(),
    {
        match pool.record(self.id) {
            Some(record) => {
                let used: u64 = pool.used;
                pool.rewrite(self.id, Record { pinned, ..record }, used);
            },
            None => {},
        }
    }
}

/// The owning side of a group's pool registration, held by the group's state.
///
/// `add`/`sub` mirror the group's cached payload bytes into the pool. Releasing (or
/// [`clear`](Self::clear)ing) the charge gives back everything it holds. The default
/// charge is detached: it belongs to no pool and every operation is a no-op.
pub struct Charge {
    id: Option<u64>,
}

impl View for Charge {
    type V = Option<u64>;

    closed spec fn view(&self) -> Option<u64> {
        self.id
    }
}

impl Default for Charge {
    fn default() -> (r: Self)
        ensures
            r@ is None,
    {
        Charge { id: None }
    }
}

impl Charge {
    /// Charge `n` more payload bytes and mark the group recently used. Reads the clock.
    ///
    /// Doesn't evict; callers trigger [`Pool::evict`] after releasing their own locks.
    pub fn add<H>(&self, pool: &mut Pool<H>, n: u64)
        requires
            old(pool).wf(),
        ensures
            final(pool).wf(),
            match self@ {
                Some(id) => exists|now: u64| #[trigger]
                    old(pool).reads(now) && final(pool)@ == touched(
                        added(old(pool)@, id, n as int),
                        id,
                        now,
                    ),
                None => final(pool)@ == old(pool)@,
            },
            final(pool).slots() == old(pool).slots(),
            final(pool).time() == old(pool).time(),
    {
        let now: u64 = pool.now();
        self.add_at(pool, n, now)
    }

    /// Charge `n` more payload bytes at clock reading `now`.
    pub fn add_at<H>(&self, pool: &mut Pool<H>, n: u64, now: u64)
        requires
            old(pool).wf(),
        ensures
            final(pool).wf(),
            final(pool)@ == match self@ {
                Some(id) => touched(added(old(pool)@, id, n as int), id, now),
                None => old(pool)@,
            },
            final(pool).slots() == old(pool).slots(),
            final(pool).time() == old(pool).time(),
    {
        if let Some(id) = self.id {
            match pool.record(id) {
                Some(record) => {
                    let used: u64 = pool.used.wrapping_add(n);
                    let bytes: u64 = record.bytes.wrapping_add(n);
                    pool.rewrite(id, Record { bytes, ..record }, used);
                },
                None => {},
            }
            Entry { id }.touch_at(pool, now);
        }
    }

    /// Release `n` payload bytes (a frame evicted by the group's own cap).
    pub fn sub<H>(&self, pool: &mut Pool<H>, n: u64)
        requires
            old(pool).wf(),
        ensures
            final(pool).wf(),
            final(pool)@ == match self@ {
                Some(id) => added(old(pool)@, id, -n),
                None => old(pool)@,
            },
            final(pool).slots() == old(pool).slots(),
            final(pool).time() == old(pool).time(),
    {
        if let Some(id) = self.id {
            match pool.record(id) {
                Some(record) => {
                    let used: u64 = pool.used.wrapping_sub(n);
                    let bytes: u64 = record.bytes.wrapping_sub(n);
                    pool.rewrite(id, Record { bytes, ..record }, used);
                },
                None => {},
            }
        }
    }

    /// Release everything this charge holds (bytes and overhead) AND drop the
    /// pool's registration. Idempotent; used when the group aborts and clears its
    /// frames.
    ///
    /// The hook comes back so that the caller drops it, and with it the group's
    /// state, after it let go of the pool. A released group holds no bytes and is
    /// closed, so it is not an eviction candidate and has no reason to stay
    /// registered; an unbounded pool, which never evicts, would otherwise keep it
    /// forever.
    pub fn clear<H>(&self, pool: &mut Pool<H>) -> (hook: Option<H>)
        requires
            old(pool).wf(),
        ensures
            final(pool).wf(),
            match self@ {
                Some(id) => final(pool)@ == cleared(old(pool)@, id) && hook == (
                if old(pool)@.records.contains_key(id) {
                    hook_of(old(pool)@, id)
                } else {
                    None
                }) && (if old(pool)@.records.contains_key(id) {
                    compacted(old(pool).slots(), final(pool).slots(), final(pool)@)
                } else {
                    final(pool).slots() == old(pool).slots()
                }),
                None => final(pool)@ == old(pool)@ && hook is None && final(pool).slots() == old(
                    pool,
                ).slots(),
            },
            final(pool).time() == old(pool).time(),
    {
        let id: u64 = match self.id {
            Some(id) => id,
            None => {
                return None;
            },
        };
        match pool.record(id) {
            Some(record) => {
                let used: u64 = pool.used.wrapping_sub(record.bytes);
                pool.rewrite(id, Record { bytes: 0, ..record }, used);
                let hook = pool.unregister(id);
                pool.compact();
                hook
            },
            None => None,
        }
    }

    /// Mark the group recently used (a consumer read a frame). Reads the clock.
    pub fn touch<H>(&self, pool: &mut Pool<H>)
        requires
            old(pool).wf(),
        ensures
            final(pool).wf(),
            match self@ {
                Some(id) => exists|now: u64| #[trigger]
                    old(pool).reads(now) && final(pool)@ == touched(old(pool)@, id, now),
                None => final(pool)@ == old(pool)@,
            },
            final(pool).slots() == old(pool).slots(),
            final(pool).time() == old(pool).time(),
    {
        if let Some(id) = self.id {
            Entry { id }.touch(pool);
        }
    }

    /// The registration entry, for pinning. `None` when detached.
    pub fn entry(&self) -> (r: Option<Entry>)
        ensures
            match self@ {
                Some(id) => r matches Some(entry) && entry@ == id,
                None => r is None,
            },
    {
        match self.id {
            Some(id) => Some(Entry { id }),
            None => None,
        }
    }

    /// End the charge, when its group goes away. The heap slot (if any) goes stale and
    /// is discarded on its next pop.
    pub fn release<H>(self, pool: &mut Pool<H>) -> (hook: Option<H>)
        requires
            old(pool).wf(),
        ensures
            final(pool).wf(),
            match self@ {
                Some(id) => final(pool)@ == dropped(old(pool)@, id) && hook == (
                if old(pool)@.records.contains_key(id) {
                    hook_of(old(pool)@, id)
                } else {
                    None
                }),
                None => final(pool)@ == old(pool)@ && hook is None,
            },
            final(pool).slots() == old(pool).slots(),
            final(pool).time() == old(pool).time(),
    {
        broadcast use vstd::std_specs::hash::group_hash_axioms;

        let id: u64 = match self.id {
            Some(id) => id,
            None => {
                return None;
            },
        };
        match pool.record(id) {
            Some(record) => {
                let hook = pool.unregister(id);
                let ghost records = pool.records@;
                assert(!pool.entries@.contains_key(id)) by {
                    assert(pool@.hooks.dom() =~= pool.entries@.dom());
                }
                pool.records.remove(&id);
                pool.used = pool.used.wrapping_sub(record.bytes);
                proof {
                    assert(pool.records@ =~= records.remove(id));
                    lemma_charged_update(records, pool.records@, id, pool.next_id as nat);
                    assert(pool@ =~= dropped(old(pool)@, id));
                }
                hook
            },
            None => None,
        }
    }
}

// ---------------------------------------------------------------------------
// Laws
// ---------------------------------------------------------------------------

/// `used` is the sum of what every unreleased charge holds, modulo 2^64.
pub proof fn law_used_is_total<H>(pool: Pool<H>)
    requires
        pool.wf(),
    ensures
        pool@.used == wrapped(charged(pool@.records, pool@.next_id as nat)),
{
}

/// Whether one operation on a pool may leave its recency heap as another pool has it: no
/// larger than before, or compacted.
pub open spec fn heap_step<H>(before: Pool<H>, after: Pool<H>) -> bool {
    after.heap_slots() <= before.heap_slots() || after.heap_slots() <= slot_limit(after@)
}

/// Churn keeps the recency heap small: over any sequence of operations on a fresh pool, the
/// heap never holds more than twice the most entries registered at once, plus the slack.
pub proof fn law_churn_keeps_the_heap_bounded<H>(states: Seq<Pool<H>>, most: nat)
    requires
        states.len() > 0,
        states[0].heap_slots() == 0,
        forall|i: int, j: int|
            #![trigger states[i], states[j]]
            0 <= i && j == i + 1 && j < states.len() ==> heap_step(states[i], states[j]),
        forall|i: int| 0 <= i < states.len() ==> (#[trigger] states[i])@.hooks.dom().len() <= most,
    ensures
        forall|i: int|
            0 <= i < states.len() ==> (#[trigger] states[i]).heap_slots() <= 2 * most
                + COMPACT_SLACK,
    decreases states.len(),
{
    if states.len() > 1 {
        let rest = states.drop_last();
        assert(forall|i: int| 0 <= i < rest.len() ==> rest[i] == states[i]);
        law_churn_keeps_the_heap_bounded(rest, most);
        let n = rest.len() as int;
        assert(heap_step(states[n - 1], states[n]));
        assert(rest[n - 1] == states[n - 1]);
        assert forall|i: int| 0 <= i < states.len() implies (#[trigger] states[i]).heap_slots()
            <= 2 * most + COMPACT_SLACK by {
            if i < n {
                assert(rest[i] == states[i]);
            }
        }
    }
}

/// Eviction candidates are charges that were not released.
pub proof fn law_candidates_hold_charges<H>(pool: Pool<H>, id: u64)
    requires
        pool.wf(),
        pool@.hooks.contains_key(id),
    ensures
        pool@.records.contains_key(id),
        id < pool@.next_id,
{
    assert(pool.entries@.contains_key(id));
}

/// Two descriptions of one eviction pass agree: the victims and their order are
/// determined by the pool.
pub proof fn law_eviction_is_deterministic<H>(pool: PoolView<H>, a: Seq<u64>, b: Seq<u64>)
    requires
        eviction(pool, a),
        eviction(pool, b),
    ensures
        a == b,
{
    let n = if a.len() < b.len() {
        a.len() as int
    } else {
        b.len() as int
    };
    assert forall|i: int| 0 <= i < n implies a[i] == b[i] by {
        lemma_same_victim(pool, a, b, i);
    }
    lemma_no_shorter(pool, a, b);
    lemma_no_shorter(pool, b, a);
    assert(a =~= b);
}

proof fn lemma_same_victim<H>(pool: PoolView<H>, a: Seq<u64>, b: Seq<u64>, i: int)
    requires
        eviction(pool, a),
        eviction(pool, b),
        0 <= i < a.len(),
        i < b.len(),
    ensures
        a[i] == b[i],
        forall|j: int| 0 <= j < i ==> a[j] == b[j],
    decreases i,
{
    if i > 0 {
        lemma_same_victim(pool, a, b, i - 1);
    }
    assert(evictable(pool, a[i]) && evictable(pool, b[i]));
    if a[i] != b[i] {
        // Neither list can hold the other's i-th victim any earlier, so each is
        // younger than the other.
        if b.contains(a[i]) {
            let j = choose|j: int| 0 <= j < b.len() && b[j] == a[i];
            if j < i {
                assert(a[j] == b[j]);
                assert(slot_lt(age_key(pool.records, a[j]), age_key(pool.records, a[i])));
            }
            assert(slot_lt(age_key(pool.records, b[i]), age_key(pool.records, b[j])));
        } else {
            assert(slot_lt(age_key(pool.records, b[i]), age_key(pool.records, a[i])));
        }
        if a.contains(b[i]) {
            let j = choose|j: int| 0 <= j < a.len() && a[j] == b[i];
            if j < i {
                assert(a[j] == b[j]);
                assert(slot_lt(age_key(pool.records, b[j]), age_key(pool.records, b[i])));
            }
            assert(slot_lt(age_key(pool.records, a[i]), age_key(pool.records, a[j])));
        } else {
            assert(slot_lt(age_key(pool.records, a[i]), age_key(pool.records, b[i])));
        }
    }
}

proof fn lemma_no_shorter<H>(pool: PoolView<H>, a: Seq<u64>, b: Seq<u64>)
    requires
        eviction(pool, a),
        eviction(pool, b),
    ensures
        a.len() >= b.len(),
{
    if a.len() < b.len() {
        assert forall|i: int| 0 <= i < a.len() implies a[i] == b[i] by {
            lemma_same_victim(pool, a, b, i);
        }
        let n = a.len() as int;
        assert(b.take(n) =~= a);
        assert(pool.used - bytes_of(pool.records, b.take(n)) > pool.capacity);
        assert(evictable(pool, b[n]));
        assert(a.contains(b[n]));
        let j = choose|j: int| 0 <= j < a.len() && a[j] == b[n];
        assert(slot_lt(age_key(pool.records, b[j]), age_key(pool.records, b[n])));
    }
}

/// An unbounded pool never evicts.
pub proof fn law_unbounded_never_evicts<H>(pool: PoolView<H>, ids: Seq<u64>)
    requires
        eviction(pool, ids),
        pool.capacity == u64::MAX,
    ensures
        ids.len() == 0,
{
    law_no_eviction_under_capacity(pool, ids);
}

/// A pool within its capacity evicts nothing.
pub proof fn law_no_eviction_under_capacity<H>(pool: PoolView<H>, ids: Seq<u64>)
    requires
        eviction(pool, ids),
        pool.used <= pool.capacity,
    ensures
        ids.len() == 0,
{
    if ids.len() > 0 {
        assert(bytes_of(pool.records, ids.take(0)) == 0);
    }
}

/// Pinned entries survive every eviction.
pub proof fn law_pinned_entries_survive<H>(pool: PoolView<H>, ids: Seq<u64>, id: u64)
    requires
        eviction(pool, ids),
        pool.records[id].pinned,
    ensures
        !ids.contains(id),
{
}

/// What is evicted was used no later than any unpinned entry that stays.
pub proof fn law_least_recently_used_first<H>(
    pool: PoolView<H>,
    ids: Seq<u64>,
    victim: u64,
    survivor: u64,
)
    requires
        eviction(pool, ids),
        ids.contains(victim),
        evictable(pool, survivor),
        !ids.contains(survivor),
    ensures
        pool.records[victim].last_access <= pool.records[survivor].last_access,
{
    let i = choose|i: int| 0 <= i < ids.len() && ids[i] == victim;
    assert(slot_lt(age_key(pool.records, ids[i]), age_key(pool.records, survivor)));
}

/// Releasing a charge twice is releasing it once.
pub proof fn law_clear_is_idempotent<H>(pool: PoolView<H>, id: u64)
    ensures
        cleared(cleared(pool, id), id) == cleared(pool, id),
{
    assert(cleared(cleared(pool, id), id) =~= cleared(pool, id));
}

/// A charge that is released gives back everything it held: whatever it charged since it
/// was registered, the pool is left with the bytes, charges and candidates of before.
pub proof fn law_release_gives_everything_back<H>(pool: Pool<H>, hook: H, now: u64, n: u64)
    requires
        pool.wf(),
        pool@.next_id < u64::MAX,
    ensures
        ({
            let id = pool@.next_id;
            let after = dropped(added(registered(pool@, hook, now), id, n as int), id);
            &&& after.used == pool@.used
            &&& after.records == pool@.records
            &&& after.hooks == pool@.hooks
        }),
{
    let id = pool@.next_id;
    assert(!pool@.records.contains_key(id));
    assert(!pool@.hooks.contains_key(id)) by {
        if pool@.hooks.contains_key(id) {
            law_candidates_hold_charges(pool, id);
        }
    }
    let after = dropped(added(registered(pool@, hook, now), id, n as int), id);
    assert(after.records =~= pool@.records);
    assert(after.hooks =~= pool@.hooks);
}

/// Whether the hook of entry `id` was handed out: the entry was registered once and is no
/// candidate any more.
pub open spec fn handed_out<H>(pool: PoolView<H>, id: u64) -> bool {
    id < pool.next_id && !pool.hooks.contains_key(id)
}

/// The pool after `ids` were evicted.
pub open spec fn evicted<H>(pool: PoolView<H>, ids: Seq<u64>) -> PoolView<H> {
    PoolView { hooks: pool.hooks.remove_keys(ids.to_set()), ..pool }
}

/// Clearing or releasing a charge takes its hook out of the pool, and so does evicting it.
pub proof fn law_hooks_are_handed_out<H>(pool: Pool<H>, id: u64, ids: Seq<u64>)
    requires
        pool.wf(),
    ensures
        pool@.records.contains_key(id) ==> handed_out(cleared(pool@, id), id) && handed_out(
            dropped(pool@, id),
            id,
        ),
        eviction(pool@, ids) && ids.contains(id) ==> handed_out(evicted(pool@, ids), id),
{
    if eviction(pool@, ids) && ids.contains(id) {
        let i = choose|i: int| 0 <= i < ids.len() && ids[i] == id;
        assert(evictable(pool@, ids[i]));
        law_candidates_hold_charges(pool, id);
    }
}

/// A hook that was handed out never is again: no eviction takes the entry, and no operation
/// brings it back.
pub proof fn law_released_charge_is_never_evicted<H>(
    pool: PoolView<H>,
    id: u64,
    ids: Seq<u64>,
    hook: H,
    other: u64,
    n: int,
    now: u64,
    pinned: bool,
    capacity: u64,
)
    requires
        handed_out(pool, id),
        pool.next_id < u64::MAX,
    ensures
        eviction(pool, ids) ==> !ids.contains(id),
        handed_out(registered(pool, hook, now), id),
        handed_out(touched(pool, other, now), id),
        handed_out(pin_set(pool, other, pinned), id),
        handed_out(added(pool, other, n), id),
        handed_out(cleared(pool, other), id),
        handed_out(dropped(pool, other), id),
        handed_out(evicted(pool, ids), id),
        handed_out(PoolView { capacity, ..pool }, id),
{
    if eviction(pool, ids) && ids.contains(id) {
        let i = choose|i: int| 0 <= i < ids.len() && ids[i] == id;
        assert(evictable(pool, ids[i]));
    }
}

/// The pool after the charges of all of `ids` were cleared, as their eviction hooks do.
pub open spec fn all_cleared<H>(pool: PoolView<H>, ids: Seq<u64>) -> PoolView<H>
    decreases ids.len(),
{
    if ids.len() == 0 {
        pool
    } else {
        cleared(all_cleared(pool, ids.drop_last()), ids.last())
    }
}

proof fn lemma_all_cleared<H>(pool: PoolView<H>, ids: Seq<u64>)
    requires
        ids.no_duplicates(),
        forall|i: int| 0 <= i < ids.len() ==> pool.records.contains_key(#[trigger] ids[i]),
        0 <= bytes_of(pool.records, ids) <= pool.used,
    ensures
        all_cleared(pool, ids).used == pool.used - bytes_of(pool.records, ids),
        all_cleared(pool, ids).records.dom() == pool.records.dom(),
        forall|id: u64| !ids.contains(id) ==> all_cleared(pool, ids).records[id] == #[trigger] pool.records[id],
        all_cleared(pool, ids).capacity == pool.capacity,
        all_cleared(pool, ids).hooks == pool.hooks.remove_keys(ids.to_set()),
    decreases ids.len(),
{
    if ids.len() > 0 {
        let rest = ids.drop_last();
        assert(forall|i: int| 0 <= i < rest.len() ==> rest[i] == ids[i]);
        lemma_bytes_nonnegative(pool.records, rest);
        lemma_all_cleared(pool, rest);
        assert(!rest.contains(ids.last()));
        assert forall|id: u64| ids.contains(id) == (rest.contains(id) || id == ids.last()) by {
            if ids.contains(id) && id != ids.last() {
                let j = choose|j: int| 0 <= j < ids.len() && ids[j] == id;
                assert(rest[j] == id);
            }
            if rest.contains(id) {
                let j = choose|j: int| 0 <= j < rest.len() && rest[j] == id;
                assert(ids[j] == id);
            }
            assert(ids[ids.len() - 1] == ids.last());
        }
        assert(all_cleared(pool, rest).records.contains_key(ids.last()));
        assert(all_cleared(pool, ids).hooks =~= pool.hooks.remove_keys(ids.to_set()));
        assert(all_cleared(pool, ids).records.dom() =~= pool.records.dom());
    } else {
        assert(pool.hooks.remove_keys(ids.to_set()) =~= pool.hooks);
    }
}

proof fn lemma_bytes_nonnegative(records: Map<u64, Record>, ids: Seq<u64>)
    ensures
        bytes_of(records, ids) >= 0,
    decreases ids.len(),
{
    if ids.len() > 0 {
        lemma_bytes_nonnegative(records, ids.drop_last());
    }
}

proof fn lemma_bytes_of_agree(a: Map<u64, Record>, b: Map<u64, Record>, ids: Seq<u64>)
    requires
        forall|i: int| 0 <= i < ids.len() ==> a[#[trigger] ids[i]] == b[ids[i]],
    ensures
        bytes_of(a, ids) == bytes_of(b, ids),
    decreases ids.len(),
{
    if ids.len() > 0 {
        assert(forall|i: int| 0 <= i < ids.drop_last().len() ==> ids.drop_last()[i] == ids[i]);
        lemma_bytes_of_agree(a, b, ids.drop_last());
    }
}

proof fn lemma_charged_nonnegative(records: Map<u64, Record>, n: nat)
    ensures
        charged(records, n) >= 0,
    decreases n,
{
    if n > 0 {
        lemma_charged_nonnegative(records, (n - 1) as nat);
    }
}

proof fn lemma_bytes_within_total(records: Map<u64, Record>, ids: Seq<u64>, n: nat)
    requires
        n <= u64::MAX,
        ids.no_duplicates(),
        forall|i: int| 0 <= i < ids.len() ==> records.contains_key(#[trigger] ids[i]) && ids[i] < n,
    ensures
        bytes_of(records, ids) <= charged(records, n),
    decreases ids.len(),
{
    if ids.len() == 0 {
        lemma_charged_nonnegative(records, n);
    } else {
        let rest = ids.drop_last();
        let without = records.remove(ids.last());
        assert(forall|i: int| 0 <= i < rest.len() ==> rest[i] == ids[i]);
        lemma_charged_update(records, without, ids.last(), n);
        lemma_bytes_within_total(without, rest, n);
        lemma_bytes_of_agree(records, without, rest);
    }
}

/// Once the victims' hooks have cleared their charges, the pool is back under
/// capacity or only pinned entries are left. The charges must not have wrapped the
/// byte counter: together they hold less than 2^64 bytes.
pub proof fn law_eviction_restores_the_budget<H>(pool: Pool<H>, ids: Seq<u64>)
    requires
        pool.wf(),
        charged(pool@.records, pool@.next_id as nat) <= u64::MAX,
        eviction(pool@, ids),
    ensures
        ({
            let after = all_cleared(pool@, ids);
            after.used <= after.capacity || forall|id: u64| #[trigger]
                after.hooks.contains_key(id) ==> after.records[id].pinned
        }),
{
    let view = pool@;
    assert(ids.no_duplicates()) by {
        assert forall|i: int, j: int| 0 <= i < ids.len() && 0 <= j < ids.len() && i != j implies ids[i]
            != ids[j] by {
            if i < j {
                assert(slot_lt(age_key(view.records, ids[i]), age_key(view.records, ids[j])));
            } else {
                assert(slot_lt(age_key(view.records, ids[j]), age_key(view.records, ids[i])));
            }
        }
    }
    assert forall|i: int| 0 <= i < ids.len() implies view.records.contains_key(#[trigger] ids[i])
        && ids[i] < view.next_id by {
        assert(evictable(view, ids[i]));
        law_candidates_hold_charges(pool, ids[i]);
    }
    lemma_bytes_within_total(view.records, ids, view.next_id as nat);
    lemma_bytes_nonnegative(view.records, ids);
    lemma_all_cleared(view, ids);
    let after = all_cleared(view, ids);
    if after.used > after.capacity {
        assert forall|id: u64| #[trigger] after.hooks.contains_key(id) implies after.records[id].pinned by {
            assert(view.hooks.contains_key(id) && !ids.contains(id));
            assert(!evictable(view, id));
            assert(after.records[id] == view.records[id]);
        }
    }
}

/// The bytes of a list of entries add up.
pub proof fn law_bytes_add_up(records: Map<u64, Record>, ids: Seq<u64>, id: u64)
    ensures
        bytes_of(records, Seq::empty()) == 0,
        bytes_of(records, ids.push(id)) == bytes_of(records, ids) + records[id].bytes,
{
    assert(ids.push(id).drop_last() =~= ids);
}

/// The total of what is charged counts each held charge once.
pub proof fn law_total_counts_each_charge_once(
    records: Map<u64, Record>,
    id: u64,
    record: Record,
    n: nat,
)
    requires
        !records.contains_key(id),
        id < n <= u64::MAX,
    ensures
        charged(Map::<u64, Record>::empty(), n) == 0,
        charged(records.insert(id, record), n) == charged(records, n) + record.bytes,
{
    lemma_charged_update(records, records.insert(id, record), id, n);
    lemma_nothing_charged(n);
}

proof fn lemma_nothing_charged(n: nat)
    requires
        n <= u64::MAX,
    ensures
        charged(Map::<u64, Record>::empty(), n) == 0,
    decreases n,
{
    if n > 0 {
        lemma_nothing_charged((n - 1) as nat);
    }
}

/// What a pool reports as used is the total of the held charges, modulo 2^64.
pub proof fn law_used_is_what_is_charged<H>(pool: Pool<H>, used: u64)
    requires
        pool.wf(),
        call_ensures(Pool::<H>::used, (&pool,), used),
    ensures
        used == charged(pool@.records, pool@.next_id as nat) % 0x1_0000_0000_0000_0000,
        used == pool@.used,
{
}

/// A new pool holds nothing, and has the capacity it was given; an unbounded one has none.
pub proof fn law_new_pool_is_empty<H>(
    capacity: u64,
    pool: Pool<H>,
    unbounded: Pool<H>,
    of_pool: Option<u64>,
    of_unbounded: Option<u64>,
    entries: usize,
    slots: usize,
)
    requires
        call_ensures(Pool::<H>::new, (capacity,), pool),
        call_ensures(Pool::<H>::unbounded, (), unbounded),
        call_ensures(Pool::<H>::capacity, (&pool,), of_pool),
        call_ensures(Pool::<H>::capacity, (&unbounded,), of_unbounded),
        call_ensures(Pool::<H>::entry_count, (&pool,), entries),
        call_ensures(Pool::<H>::slot_count, (&pool,), slots),
    ensures
        pool@.used == 0,
        pool@.clock == 0,
        pool@.next_id == 0,
        pool@.records == Map::<u64, Record>::empty(),
        pool@.hooks == Map::<u64, H>::empty(),
        entries == 0,
        slots == 0,
        capacity < u64::MAX ==> of_pool == Some(capacity),
        of_unbounded is None,
        unbounded@ == (PoolView { capacity: unbounded@.capacity, ..pool@ }),
{
    assert(pool@.hooks.dom().len() == 0);
}

/// A registration is charged 256 bytes, counts as used now, is not pinned, and may be evicted
/// under the id of the charge that is returned. Nothing else changes.
pub proof fn law_registration_is_charged<H>(pool: &mut Pool<H>, hook: H, now: u64, charge: Charge)
    requires
        call_ensures(Pool::<H>::register_at, (pool, hook, now), charge),
        old(pool).wf(),
        old(pool)@.next_id < u64::MAX,
    ensures
        charge@ == Some(old(pool)@.next_id),
        !old(pool)@.records.contains_key(old(pool)@.next_id),
        final(pool)@.next_id == old(pool)@.next_id + 1,
        final(pool)@.clock == if old(pool)@.clock < now {
            now
        } else {
            old(pool)@.clock
        },
        final(pool)@.used == (old(pool)@.used + 256) % 0x1_0000_0000_0000_0000,
        final(pool)@.capacity == old(pool)@.capacity,
        final(pool)@.records == old(pool)@.records.insert(
            old(pool)@.next_id,
            Record { bytes: 256, last_access: final(pool)@.clock, pinned: false },
        ),
        final(pool)@.hooks == old(pool)@.hooks.insert(old(pool)@.next_id, hook),
{
}

/// A registration by the clock is one at what the pool's clock reads.
pub proof fn law_registration_follows_the_clock<H>(pool: &mut Pool<H>, hook: H, charge: Charge)
    requires
        call_ensures(Pool::<H>::register, (pool, hook), charge),
        old(pool).wf(),
        old(pool)@.next_id < u64::MAX,
    ensures
        charge@ == Some(old(pool)@.next_id),
        final(pool)@.hooks == old(pool)@.hooks.insert(old(pool)@.next_id, hook),
        final(pool)@.records == old(pool)@.records.insert(
            old(pool)@.next_id,
            Record { bytes: 256, last_access: final(pool)@.clock, pinned: false },
        ),
        final(pool)@.used == (old(pool)@.used + 256) % 0x1_0000_0000_0000_0000,
        final(pool)@.next_id == old(pool)@.next_id + 1,
        final(pool)@.capacity == old(pool)@.capacity,
        exists|nanos: u128| #[trigger]
            old(pool).time().reads(nanos) && final(pool)@.records[old(pool)@.next_id].last_access
                == {
                let now = nanos / 1_000_000 % 0x1_0000_0000_0000_0000;
                if old(pool)@.clock < now {
                    now as int
                } else {
                    old(pool)@.clock as int
                }
            },
{
    let now = choose|now: u64| #[trigger]
        old(pool).reads(now) && final(pool)@ == registered(old(pool)@, hook, now);
    let nanos = lemma_pool_reading(*old(pool), now);
    assert(old(pool).time().reads(nanos));
}

proof fn lemma_pool_reading<H>(pool: Pool<H>, now: u64) -> (nanos: u128)
    requires
        pool.reads(now),
    ensures
        pool.time().reads(nanos),
        now == nanos / 1_000_000 % 0x1_0000_0000_0000_0000,
{
    choose|nanos: u128|
        #[trigger] pool.time().reads(nanos) && now == (nanos / NANOS_PER_MILLI)
            % 0x1_0000_0000_0000_0000
}

/// Reading an entry makes it the most recently used one, pinned or not: its last access is the
/// later of the pool's clock and the reading, and no entry of the pool was used later. Nothing
/// but that changes, and a charge that is gone is not touched.
pub proof fn law_touch_is_the_latest_use<H>(
    entry: Entry,
    pool: &mut Pool<H>,
    now: u64,
    other: u64,
)
    requires
        call_ensures(Entry::touch_at::<H>, (&entry, pool, now), ()),
        old(pool).wf(),
    ensures
        old(pool)@.records.contains_key(entry@) ==> {
            let was = old(pool)@.records[entry@];
            let is = final(pool)@.records[entry@];
            &&& is.last_access >= now
            &&& is.last_access >= old(pool)@.clock
            &&& is.last_access == now || is.last_access == old(pool)@.clock
            &&& final(pool)@.clock == is.last_access
            &&& final(pool)@.records.contains_key(other)
                ==> final(pool)@.records[other].last_access <= is.last_access
            &&& is.bytes == was.bytes
            &&& is.pinned == was.pinned
        },
        final(pool)@.records.dom() == old(pool)@.records.dom(),
        other != entry@ && old(pool)@.records.contains_key(other) ==> final(pool)@.records[other]
            == old(pool)@.records[other],
        final(pool)@.used == old(pool)@.used,
        final(pool)@.capacity == old(pool)@.capacity,
        final(pool)@.next_id == old(pool)@.next_id,
        final(pool)@.hooks == old(pool)@.hooks,
        !old(pool)@.records.contains_key(entry@) ==> final(pool)@ == old(pool)@,
{
    assert(final(pool)@.records.dom() =~= old(pool)@.records.dom());
}

/// Reading an entry by the clock is a use at what the pool's clock reads.
pub proof fn law_touch_follows_the_clock<H>(
    entry: Entry,
    charge: Charge,
    pool: &mut Pool<H>,
    by_charge: bool,
)
    requires
        by_charge ==> call_ensures(Charge::touch::<H>, (&charge, pool), ()),
        !by_charge ==> call_ensures(Entry::touch::<H>, (&entry, pool), ()),
        charge@ == Some(entry@),
        old(pool).wf(),
        old(pool)@.records.contains_key(entry@),
    ensures
        exists|nanos: u128| #[trigger]
            old(pool).time().reads(nanos) && final(pool)@.records[entry@].last_access == {
                let now = nanos / 1_000_000 % 0x1_0000_0000_0000_0000;
                if old(pool)@.clock < now {
                    now as int
                } else {
                    old(pool)@.clock as int
                }
            },
        final(pool)@.records[entry@].bytes == old(pool)@.records[entry@].bytes,
        final(pool)@.records[entry@].pinned == old(pool)@.records[entry@].pinned,
        final(pool)@.records.remove(entry@) == old(pool)@.records.remove(entry@),
        final(pool)@.records.contains_key(entry@),
        final(pool)@ == (PoolView {
            clock: final(pool)@.records[entry@].last_access,
            records: final(pool)@.records,
            ..old(pool)@
        }),
{
    let now = choose|now: u64| #[trigger]
        old(pool).reads(now) && final(pool)@ == touched(old(pool)@, entry@, now);
    let nanos = lemma_pool_reading(*old(pool), now);
    assert(old(pool).time().reads(nanos));
    assert(final(pool)@.records.remove(entry@) =~= old(pool)@.records.remove(entry@));
}

/// Pinning sets the pin of a held charge and nothing else.
pub proof fn law_pin_is_set<H>(entry: Entry, pool: &mut Pool<H>, pinned: bool)
    requires
        call_ensures(Entry::set_pinned::<H>, (&entry, pool, pinned), ()),
    ensures
        old(pool)@.records.contains_key(entry@) ==> final(pool)@.records == old(
            pool,
        )@.records.insert(
            entry@,
            Record {
                bytes: old(pool)@.records[entry@].bytes,
                last_access: old(pool)@.records[entry@].last_access,
                pinned,
            },
        ),
        !old(pool)@.records.contains_key(entry@) ==> final(pool)@.records == old(pool)@.records,
        final(pool)@ == (PoolView { records: final(pool)@.records, ..old(pool)@ }),
{
}

/// Charging bytes adds them to the charge and to the pool alike, and is a use of the entry,
/// pinned or not. A detached charge, or one that is gone, does nothing.
pub proof fn law_bytes_are_charged<H>(
    charge: Charge,
    pool: &mut Pool<H>,
    n: u64,
    now: u64,
    id: u64,
)
    requires
        call_ensures(Charge::add_at::<H>, (&charge, pool, n, now), ()),
        charge@ == Some(id),
    ensures
        old(pool)@.records.contains_key(id) ==> {
            let was = old(pool)@.records[id];
            let access = if old(pool)@.clock < now {
                now
            } else {
                old(pool)@.clock
            };
            &&& final(pool)@.used == (old(pool)@.used + n) % 0x1_0000_0000_0000_0000
            &&& final(pool)@.clock == access
            &&& final(pool)@.records == old(pool)@.records.insert(
                id,
                Record {
                    bytes: ((was.bytes + n) % 0x1_0000_0000_0000_0000) as u64,
                    last_access: access,
                    pinned: was.pinned,
                },
            )
            &&& final(pool)@.hooks == old(pool)@.hooks
            &&& final(pool)@.capacity == old(pool)@.capacity
            &&& final(pool)@.next_id == old(pool)@.next_id
        },
        !old(pool)@.records.contains_key(id) ==> final(pool)@ == old(pool)@,
{
    if old(pool)@.records.contains_key(id) {
        assert(final(pool)@.records =~= old(pool)@.records.insert(id, final(pool)@.records[id]));
    }
}

/// Charging by the clock is a use at what the pool's clock reads.
pub proof fn law_charging_follows_the_clock<H>(charge: Charge, pool: &mut Pool<H>, n: u64, id: u64)
    requires
        call_ensures(Charge::add::<H>, (&charge, pool, n), ()),
        charge@ == Some(id),
        old(pool)@.records.contains_key(id),
    ensures
        exists|nanos: u128| #[trigger]
            old(pool).time().reads(nanos) && final(pool)@.records[id].last_access == {
                let now = nanos / 1_000_000 % 0x1_0000_0000_0000_0000;
                if old(pool)@.clock < now {
                    now as int
                } else {
                    old(pool)@.clock as int
                }
            },
        final(pool)@.used == (old(pool)@.used + n) % 0x1_0000_0000_0000_0000,
        final(pool)@.records[id].bytes == (old(pool)@.records[id].bytes + n)
            % 0x1_0000_0000_0000_0000,
        final(pool)@.records[id].pinned == old(pool)@.records[id].pinned,
        final(pool)@.records.remove(id) == old(pool)@.records.remove(id),
        final(pool)@.records.contains_key(id),
        final(pool)@ == (PoolView {
            used: final(pool)@.used,
            clock: final(pool)@.records[id].last_access,
            records: final(pool)@.records,
            ..old(pool)@
        }),
{
    let now = choose|now: u64| #[trigger]
        old(pool).reads(now) && final(pool)@ == touched(added(old(pool)@, id, n as int), id, now);
    let nanos = lemma_pool_reading(*old(pool), now);
    assert(old(pool).time().reads(nanos));
    assert(final(pool)@.records.remove(id) =~= old(pool)@.records.remove(id));
}

/// Releasing bytes takes them off the charge and the pool alike, and is no use of the entry.
pub proof fn law_bytes_are_released<H>(charge: Charge, pool: &mut Pool<H>, n: u64, id: u64)
    requires
        call_ensures(Charge::sub::<H>, (&charge, pool, n), ()),
        charge@ == Some(id),
    ensures
        old(pool)@.records.contains_key(id) ==> {
            let was = old(pool)@.records[id];
            &&& final(pool)@.used == (old(pool)@.used - n) % 0x1_0000_0000_0000_0000
            &&& final(pool)@.records == old(pool)@.records.insert(
                id,
                Record {
                    bytes: ((was.bytes - n) % 0x1_0000_0000_0000_0000) as u64,
                    last_access: was.last_access,
                    pinned: was.pinned,
                },
            )
            &&& final(pool)@ == (PoolView {
                used: final(pool)@.used,
                records: final(pool)@.records,
                ..old(pool)@
            })
        },
        !old(pool)@.records.contains_key(id) ==> final(pool)@ == old(pool)@,
{
}

/// Clearing a charge gives back all its bytes and hands out its hook, but keeps the charge.
pub proof fn law_clear_gives_back_the_bytes<H>(
    charge: Charge,
    pool: &mut Pool<H>,
    hook: Option<H>,
    id: u64,
)
    requires
        call_ensures(Charge::clear::<H>, (&charge, pool), hook),
        charge@ == Some(id),
    ensures
        old(pool)@.records.contains_key(id) ==> {
            let was = old(pool)@.records[id];
            &&& final(pool)@.used == (old(pool)@.used - was.bytes) % 0x1_0000_0000_0000_0000
            &&& final(pool)@.records == old(pool)@.records.insert(
                id,
                Record { bytes: 0, last_access: was.last_access, pinned: was.pinned },
            )
            &&& final(pool)@.hooks == old(pool)@.hooks.remove(id)
            &&& hook is Some <==> old(pool)@.hooks.contains_key(id)
            &&& hook is Some ==> hook->0 == old(pool)@.hooks[id]
            &&& final(pool)@.clock == old(pool)@.clock
            &&& final(pool)@.capacity == old(pool)@.capacity
            &&& final(pool)@.next_id == old(pool)@.next_id
        },
        !old(pool)@.records.contains_key(id) ==> hook is None && final(pool)@ == old(pool)@,
{
}

/// Releasing a charge gives back all its bytes, hands out its hook, and ends the charge.
pub proof fn law_release_ends_the_charge<H>(
    charge: Charge,
    pool: &mut Pool<H>,
    hook: Option<H>,
    id: u64,
)
    requires
        call_ensures(Charge::release::<H>, (charge, pool), hook),
        charge@ == Some(id),
    ensures
        old(pool)@.records.contains_key(id) ==> {
            &&& final(pool)@.used == (old(pool)@.used - old(pool)@.records[id].bytes)
                % 0x1_0000_0000_0000_0000
            &&& final(pool)@.records == old(pool)@.records.remove(id)
            &&& final(pool)@.hooks == old(pool)@.hooks.remove(id)
            &&& hook is Some <==> old(pool)@.hooks.contains_key(id)
            &&& hook is Some ==> hook->0 == old(pool)@.hooks[id]
            &&& final(pool)@.clock == old(pool)@.clock
            &&& final(pool)@.capacity == old(pool)@.capacity
            &&& final(pool)@.next_id == old(pool)@.next_id
        },
        !old(pool)@.records.contains_key(id) ==> hook is None && final(pool)@ == old(pool)@,
{
}

/// A detached charge does nothing to any pool, and has no entry; another one's entry is its own.
pub proof fn law_detached_charge_is_inert<H>(
    charge: Charge,
    detached: Charge,
    pool: &mut Pool<H>,
    n: u64,
    now: u64,
    hook: Option<H>,
    entry: Option<Entry>,
    none: Option<Entry>,
)
    requires
        call_ensures(Charge::entry, (&charge,), entry),
        call_ensures(Charge::entry, (&detached,), none),
        detached@ is None,
        call_ensures(Charge::add_at::<H>, (&detached, pool, n, now), ()) || call_ensures(
            Charge::sub::<H>,
            (&detached, pool, n),
            (),
        ) || call_ensures(Charge::clear::<H>, (&detached, pool), hook) || call_ensures(
            Charge::release::<H>,
            (detached, pool),
            hook,
        ) || call_ensures(Charge::touch::<H>, (&detached, pool), ()) || call_ensures(
            Charge::add::<H>,
            (&detached, pool, n),
            (),
        ),
    ensures
        final(pool)@ == old(pool)@,
        none is None,
        charge@ is Some ==> entry is Some && entry->0@ == charge@->0,
        charge@ is None ==> entry is None,
{
}

/// An eviction takes registered, unpinned entries, the least recently used first and of equals
/// the oldest; every such entry that stays was used later. It takes no more than needed, and
/// stops short of the budget only when nothing evictable is left. The charges stay as they are.
pub proof fn law_eviction_takes_the_least_recently_used<H>(
    pool: &mut Pool<H>,
    victims: Vec<Victim<H>>,
    id: u64,
    i: int,
    j: int,
)
    requires
        call_ensures(Pool::<H>::evict, (pool,), victims),
        0 <= i < victims@.len(),
    ensures
        ({
            let before = old(pool)@;
            let victim = victims@[i].id;
            let stays = before.hooks.contains_key(id) && !before.records[id].pinned && forall|
                k: int,
            |
                0 <= k < victims@.len() ==> (#[trigger] victims@[k]).id != id;
            &&& before.hooks.contains_key(victim)
            &&& victims@[i].hook == before.hooks[victim]
            &&& !before.records[victim].pinned
            &&& !final(pool)@.hooks.contains_key(victim)
            &&& i < j < victims@.len() ==> {
                let next = victims@[j].id;
                before.records[victim].last_access < before.records[next].last_access || (
                before.records[victim].last_access == before.records[next].last_access && victim
                    < next)
            }
            &&& stays ==> before.records[victim].last_access < before.records[id].last_access || (
            before.records[victim].last_access == before.records[id].last_access && victim < id)
            &&& before.used - bytes_of(
                before.records,
                Seq::new(i as nat, |k: int| victims@[k].id),
            ) > before.capacity
        }),
{
    let ids = victim_ids(victims@);
    let before = old(pool)@;
    assert(ids[i] == victims@[i].id);
    assert(evictable(before, ids[i]));
    assert(ids.contains(ids[i]));
    assert(ids.take(i) =~= Seq::new(i as nat, |k: int| victims@[k].id));
    assert(before.used - bytes_of(before.records, ids.take(i)) > before.capacity);
    if i < j < victims@.len() {
        assert(ids[j] == victims@[j].id);
        assert(slot_lt(age_key(before.records, ids[i]), age_key(before.records, ids[j])));
    }
    if before.hooks.contains_key(id) && !before.records[id].pinned && forall|k: int|
        0 <= k < victims@.len() ==> (#[trigger] victims@[k]).id != id {
        assert(evictable(before, id));
        if ids.contains(id) {
            let k = choose|k: int| 0 <= k < ids.len() && ids[k] == id;
            assert(victims@[k].id == id);
        }
        assert(slot_lt(age_key(before.records, ids[i]), age_key(before.records, id)));
    }
}

/// An eviction brings the pool within its capacity, counting what the victims will give back,
/// or takes every unpinned entry. Whatever it does not take stays registered, and no charge,
/// counter or limit changes.
pub proof fn law_eviction_frees_enough<H>(pool: &mut Pool<H>, victims: Vec<Victim<H>>, id: u64)
    requires
        call_ensures(Pool::<H>::evict, (pool,), victims),
    ensures
        ({
            let before = old(pool)@;
            let taken = exists|k: int| 0 <= k < victims@.len() && (#[trigger] victims@[k]).id == id;
            &&& before.used - bytes_of(
                before.records,
                Seq::new(victims@.len(), |k: int| victims@[k].id),
            ) <= before.capacity || (before.hooks.contains_key(id) ==> taken
                || before.records[id].pinned)
            &&& final(pool)@.hooks.contains_key(id) <==> before.hooks.contains_key(id) && !taken
            &&& final(pool)@.hooks.contains_key(id) ==> final(pool)@.hooks[id] == before.hooks[id]
            &&& final(pool)@ == (PoolView { hooks: final(pool)@.hooks, ..before })
        }),
{
    let ids = victim_ids(victims@);
    let before = old(pool)@;
    assert(ids =~= Seq::new(victims@.len(), |k: int| victims@[k].id));
    if ids.contains(id) {
        let k = choose|k: int| 0 <= k < ids.len() && ids[k] == id;
        assert(victims@[k].id == id);
    }
    if exists|k: int| 0 <= k < victims@.len() && (#[trigger] victims@[k]).id == id {
        let k = choose|k: int| 0 <= k < victims@.len() && (#[trigger] victims@[k]).id == id;
        assert(ids[k] == id);
        assert(ids.contains(id));
    }
    assert(ids.to_set().contains(id) == ids.contains(id));
    if before.hooks.contains_key(id) && !before.records[id].pinned {
        assert(evictable(before, id));
    }
}

/// Resizing sets the capacity, an absent one to no limit at all, and is then an eviction under
/// it: within the new capacity nothing goes, and an entry that stays while another goes is
/// pinned or was used later.
pub proof fn law_resize_evicts_under_the_new_capacity<H>(
    pool: &mut Pool<H>,
    capacity: Option<u64>,
    victims: Vec<Victim<H>>,
    reported: Option<u64>,
    id: u64,
    i: int,
)
    requires
        call_ensures(Pool::<H>::resize, (pool, capacity), victims),
        call_ensures(Pool::<H>::capacity, (&*final(pool),), reported),
    ensures
        capacity != Some(u64::MAX) ==> reported == capacity,
        capacity is None ==> victims@.len() == 0,
        capacity is Some && old(pool)@.used <= capacity->0 ==> victims@.len() == 0,
        eviction(PoolView { hooks: old(pool)@.hooks, ..final(pool)@ }, victim_ids(victims@)),
        final(pool)@ == (PoolView {
            hooks: final(pool)@.hooks,
            capacity: final(pool)@.capacity,
            ..old(pool)@
        }),
        old(pool)@.hooks.contains_key(id) && (forall|k: int|
            0 <= k < victims@.len() ==> (#[trigger] victims@[k]).id != id)
            ==> final(pool)@.hooks.contains_key(id) && final(pool)@.hooks[id] == old(
            pool,
        )@.hooks[id],
        final(pool)@.hooks.contains_key(id) ==> old(pool)@.hooks.contains_key(id),
        0 <= i < victims@.len() ==> {
            let victim = victims@[i].id;
            &&& old(pool)@.hooks.contains_key(victim)
            &&& victims@[i].hook == old(pool)@.hooks[victim]
            &&& !old(pool)@.records[victim].pinned
            &&& !final(pool)@.hooks.contains_key(victim)
            &&& final(pool)@.hooks.contains_key(id) ==> old(pool)@.records[id].pinned || old(
                pool,
            )@.records[victim].last_access <= old(pool)@.records[id].last_access
        },
{
    let ids = victim_ids(victims@);
    let before = PoolView { hooks: old(pool)@.hooks, ..final(pool)@ };
    if before.used <= before.capacity {
        law_no_eviction_under_capacity(before, ids);
    }
    if ids.to_set().contains(id) {
        let k = choose|k: int| 0 <= k < ids.len() && ids[k] == id;
        assert(victims@[k].id == id);
    }
    if 0 <= i < victims@.len() {
        assert(ids[i] == victims@[i].id);
        assert(evictable(before, ids[i]));
        assert(ids.contains(ids[i]));
        assert(ids.to_set().contains(ids[i]));
        if final(pool)@.hooks.contains_key(id) && !old(pool)@.records[id].pinned {
            assert(!ids.to_set().contains(id));
            assert(evictable(before, id));
            law_least_recently_used_first(before, ids, ids[i], id);
        }
    }
}

/// An entry that was just read outlives every entry that was not: evicting it means that every
/// unpinned entry used before the read goes as well.
pub proof fn law_a_read_protects<H>(
    pool: PoolView<H>,
    id: u64,
    now: u64,
    ids: Seq<u64>,
    other: u64,
)
    requires
        pool.records.contains_key(id),
        now > pool.clock,
        eviction(touched(pool, id, now), ids),
        ids.contains(id),
        other != id,
        pool.hooks.contains_key(other),
        pool.records.contains_key(other),
        !pool.records[other].pinned,
        pool.records[other].last_access <= pool.clock,
    ensures
        ids.contains(other),
{
    let after = touched(pool, id, now);
    assert(evictable(after, other));
    if !ids.contains(other) {
        law_least_recently_used_first(after, ids, id, other);
    }
}

/// Registering and clearing keep the recency heap small: it holds at most twice the registered
/// entries and 64 slots more, and once it is larger it is rebuilt with one slot per entry.
pub proof fn law_heap_is_compacted<H>(
    pool: &mut Pool<H>,
    hook: H,
    now: u64,
    charge: Charge,
    handed: Option<H>,
    registers: bool,
    access: u64,
    id: u64,
)
    requires
        registers ==> call_ensures(Pool::<H>::register_at, (pool, hook, now), charge),
        !registers ==> call_ensures(Charge::clear::<H>, (&charge, pool), handed),
        charge@ is Some,
        !registers ==> old(pool)@.records.contains_key(charge@->0),
    ensures
        ({
            let before = if registers {
                old(pool).slots().insert((final(pool)@.clock, charge@->0))
            } else {
                old(pool).slots()
            };
            &&& final(pool).heap_slots() <= 2 * final(pool)@.hooks.dom().len() + 64
            &&& before.len() <= 2 * final(pool)@.hooks.dom().len() + 64 ==> final(pool).slots()
                == before
            &&& before.len() > 2 * final(pool)@.hooks.dom().len() + 64 ==> (
            final(pool).slots().count((access, id)) == if final(pool)@.hooks.contains_key(id)
                && final(pool)@.records[id].last_access == access {
                1nat
            } else {
                0nat
            })
        }),
{
}

/// A pool reads the same clock all its life.
pub proof fn law_pool_keeps_its_clock<H>(
    pool: &mut Pool<H>,
    hook: H,
    charge: Charge,
    entry: Entry,
    victims: Vec<Victim<H>>,
    capacity: Option<u64>,
    handed: Option<H>,
    n: u64,
    now: u64,
    pinned: bool,
)
    requires
        call_ensures(Pool::<H>::register_at, (pool, hook, now), charge) || call_ensures(
            Pool::<H>::register,
            (pool, hook),
            charge,
        ) || call_ensures(Pool::<H>::evict, (pool,), victims) || call_ensures(
            Pool::<H>::resize,
            (pool, capacity),
            victims,
        ) || call_ensures(Entry::touch_at::<H>, (&entry, pool, now), ()) || call_ensures(
            Entry::touch::<H>,
            (&entry, pool),
            (),
        ) || call_ensures(Entry::set_pinned::<H>, (&entry, pool, pinned), ()) || call_ensures(
            Charge::add_at::<H>,
            (&charge, pool, n, now),
            (),
        ) || call_ensures(Charge::add::<H>, (&charge, pool, n), ()) || call_ensures(
            Charge::sub::<H>,
            (&charge, pool, n),
            (),
        ) || call_ensures(Charge::clear::<H>, (&charge, pool), handed) || call_ensures(
            Charge::touch::<H>,
            (&charge, pool),
            (),
        ) || call_ensures(Charge::release::<H>, (charge, pool), handed),
    ensures
        final(pool).time() == old(pool).time(),
{
}

/// A default pool is an unbounded one, and a default charge is detached.
pub proof fn law_defaults_are_unbounded_and_detached<H>(
    unbounded: Pool<H>,
    default: Pool<H>,
    charge: Charge,
    capacity: Option<u64>,
)
    requires
        call_ensures(Pool::<H>::unbounded, (), unbounded),
        call_ensures(Pool::<H>::default, (), default),
        call_ensures(Pool::<H>::capacity, (&default,), capacity),
        call_ensures(Charge::default, (), charge),
    ensures
        default@ == unbounded@,
        default.heap_slots() == 0,
        capacity is None,
        charge@ is None,
{
}

/// The counts of a pool are those of its registered entries and of its heap.
pub proof fn law_pool_counts<H>(pool: Pool<H>, entries: usize, slots: usize)
    requires
        call_ensures(Pool::<H>::entry_count, (&pool,), entries),
        call_ensures(Pool::<H>::slot_count, (&pool,), slots),
    ensures
        entries == pool@.hooks.dom().len(),
        slots == pool.slots().len(),
{
}

} // verus!
