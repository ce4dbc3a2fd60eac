use moq_origin::cache::{Charge, Pool, COMPACT_SLACK, ENTRY_OVERHEAD};
use std::sync::atomic::{AtomicBool, Ordering};
use std::sync::Arc;

type Hook = Box<dyn Fn() + Send + Sync>;

fn flag() -> (Arc<AtomicBool>, Hook) {
    let evicted = Arc::new(AtomicBool::new(false));
    let hook = evicted.clone();
    (
        evicted,
        Box::new(move || {
            hook.store(true, Ordering::Relaxed);
        }),
    )
}

/// Evict and run the hooks of the victims, as the owner of a pool does.
fn evict(pool: &mut Pool<Hook>) -> Vec<u64> {
    let mut ids = Vec::new();
    for victim in pool.evict() {
        ids.push(victim.id);
        (victim.hook)();
    }
    ids
}

#[test]
fn unbounded_never_evicts() {
    let mut pool = Pool::unbounded();
    let (evicted, hook) = flag();
    let charge = pool.register(hook);
    charge.add(&mut pool, 1 << 40);
    evict(&mut pool);
    assert!(!evicted.load(Ordering::Relaxed));
    assert_eq!(pool.used(), (1 << 40) + ENTRY_OVERHEAD);
    drop(charge.release(&mut pool));
    assert_eq!(pool.used(), 0);
}

#[test]
fn unbounded_reclaims_cleared_entries() {
    let mut pool = Pool::unbounded();

    for _ in 0..10_000 {
        let (_evicted, hook) = flag();
        let charge = pool.register(hook);
        charge.add(&mut pool, 4096);
        drop(charge.clear(&mut pool));
        drop(charge.release(&mut pool));
    }

    assert_eq!(pool.entry_count(), 0, "cleared groups must not stay registered");
    assert!(
        pool.slot_count() <= 2 * COMPACT_SLACK,
        "stale heap slots must be compacted, got {}",
        pool.slot_count()
    );
    assert_eq!(pool.used(), 0);
}

#[test]
fn clear_releases_the_eviction_hook() {
    let mut pool: Pool<Hook> = Pool::unbounded();
    let canary = Arc::new(());
    let held = canary.clone();

    let charge = pool.register(Box::new(move || {
        let _ = &held;
    }));
    assert_eq!(Arc::strong_count(&canary), 2, "hook holds the capture");

    drop(charge.clear(&mut pool));
    assert_eq!(
        Arc::strong_count(&canary),
        1,
        "clearing must drop the hook, releasing whatever it captured"
    );
}

#[test]
fn detached_charge_is_noop() {
    let mut pool: Pool<Hook> = Pool::new(1000);
    let charge = Charge::default();
    charge.add(&mut pool, 123);
    charge.sub(&mut pool, 23);
    assert!(charge.clear(&mut pool).is_none());
    charge.touch(&mut pool);
    assert!(charge.entry().is_none());
    assert_eq!(pool.used(), 0);
}

#[test]
fn evicts_least_recently_used() {
    let mut pool = Pool::new(3 * ENTRY_OVERHEAD + 2500);
    let (evicted_a, hook_a) = flag();
    let (evicted_b, hook_b) = flag();
    let (evicted_c, hook_c) = flag();

    let a = pool.register_at(hook_a, 0);
    a.add_at(&mut pool, 1000, 0);
    let b = pool.register_at(hook_b, 10);
    b.add_at(&mut pool, 1000, 10);

    // Read A so B becomes the least recently used.
    a.entry().unwrap().touch_at(&mut pool, 20);

    let c = pool.register_at(hook_c, 30);
    c.add_at(&mut pool, 1000, 30);
    // Over budget by 500: evicting B (stalest) is enough once its charge clears.
    evict(&mut pool);

    assert!(!evicted_a.load(Ordering::Relaxed));
    assert!(evicted_b.load(Ordering::Relaxed));
    assert!(!evicted_c.load(Ordering::Relaxed));

    // The hook is responsible for releasing the charge (a real group aborts).
    b.clear(&mut pool);
    assert_eq!(pool.used(), 2 * (1000 + ENTRY_OVERHEAD));
}

#[test]
fn pinned_entries_survive() {
    let mut pool = Pool::new(ENTRY_OVERHEAD);
    let (evicted_a, hook_a) = flag();
    let (evicted_b, hook_b) = flag();

    let a = pool.register_at(hook_a, 0);
    a.entry().unwrap().set_pinned(&mut pool, true);
    a.add_at(&mut pool, 1000, 0);

    let b = pool.register_at(hook_b, 10);
    b.add_at(&mut pool, 1000, 10);

    evict(&mut pool);
    // A is older but pinned; B is the only eligible victim.
    assert!(!evicted_a.load(Ordering::Relaxed));
    assert!(evicted_b.load(Ordering::Relaxed));

    // With B gone, everything left is pinned: eviction terminates without
    // touching A even though the pool stays over budget.
    b.clear(&mut pool);
    b.release(&mut pool);
    evict(&mut pool);
    assert!(!evicted_a.load(Ordering::Relaxed));
    assert_eq!(pool.used(), 1000 + ENTRY_OVERHEAD);

    // Unpinned, it can go.
    a.entry().unwrap().set_pinned(&mut pool, false);
    assert_eq!(evict(&mut pool), vec![0]);
    assert!(evicted_a.load(Ordering::Relaxed));
}

#[test]
fn resize_evicts() {
    let mut pool = Pool::unbounded();
    let (evicted_a, hook_a) = flag();
    let a = pool.register(hook_a);
    a.add(&mut pool, 1000);

    evict(&mut pool);
    assert!(!evicted_a.load(Ordering::Relaxed));

    for victim in pool.resize(Some(100)) {
        (victim.hook)();
    }
    assert!(evicted_a.load(Ordering::Relaxed));
    assert_eq!(pool.capacity(), Some(100));

    // Back to unbounded: nothing more to do, and capacity() reports None.
    assert!(pool.resize(None).is_empty());
    assert_eq!(pool.capacity(), None);
}

#[test]
fn touched_entry_is_rekeyed_not_evicted() {
    let mut pool = Pool::new(2 * ENTRY_OVERHEAD + 1500);
    let (evicted_a, hook_a) = flag();
    let (evicted_b, hook_b) = flag();

    let a = pool.register_at(hook_a, 0);
    a.add_at(&mut pool, 1000, 0);
    let b = pool.register_at(hook_b, 10);
    b.add_at(&mut pool, 1000, 10);

    // A's heap snapshot is stale after this touch, so eviction re-keys A and
    // picks B instead.
    a.entry().unwrap().touch_at(&mut pool, 20);
    evict(&mut pool);

    assert!(!evicted_a.load(Ordering::Relaxed));
    assert!(evicted_b.load(Ordering::Relaxed));
}

#[test]
fn dropped_charge_leaves_stale_heap_slot() {
    let mut pool = Pool::new(0);
    let (evicted_a, hook_a) = flag();
    let a = pool.register(hook_a);
    a.release(&mut pool);
    assert_eq!(pool.slot_count(), 1);

    // The heap still has A's slot, but the entry is gone: eviction discards it
    // without calling the hook.
    let (evicted_b, hook_b) = flag();
    let b = pool.register(hook_b);
    b.add(&mut pool, 1);
    evict(&mut pool);
    assert!(!evicted_a.load(Ordering::Relaxed));
    assert!(evicted_b.load(Ordering::Relaxed));
    assert_eq!(pool.slot_count(), 0);
}

#[test]
fn only_registering_adds_heap_slots() {
    let mut pool = Pool::unbounded();
    let charges: Vec<Charge> = (0..10).map(|_| pool.register_at(flag().1, 1)).collect();
    assert_eq!(pool.slot_count(), 10);
    for (i, charge) in charges.iter().enumerate() {
        charge.add_at(&mut pool, 100, 2);
        charge.sub(&mut pool, 50);
        charge.touch(&mut pool);
        let entry = charge.entry().unwrap();
        entry.touch_at(&mut pool, 3 + i as u64);
        entry.set_pinned(&mut pool, i == 0);
        assert_eq!(pool.slot_count(), 10);
    }
    // The slots are re-keyed, the pinned entry's is put back, and the victims' go.
    assert_eq!(pool.resize(Some(0)).len(), 9);
    assert_eq!(pool.slot_count(), 1);
    for charge in charges {
        charge.release(&mut pool);
        assert_eq!(pool.slot_count(), 1);
    }
}

#[test]
fn churn_keeps_the_heap_bounded() {
    let mut pool = Pool::unbounded();
    let mut live: Vec<Charge> = Vec::new();
    for i in 0..2_000u64 {
        live.push(pool.register_at(flag().1, i));
        live[0].add_at(&mut pool, 1, i);
        if live.len() > 20 {
            live.remove(0).release(&mut pool);
        }
        assert!(pool.slot_count() <= 2 * 21 + COMPACT_SLACK);
    }
}

#[test]
fn victims_come_oldest_first_and_no_more_than_needed() {
    let mut pool: Pool<u32> = Pool::new(u64::MAX);
    let mut charges = Vec::new();
    for i in 0..10u64 {
        let charge = pool.register_at(i as u32, 100 - 10 * i);
        charge.add_at(&mut pool, 744, 100 + i);
        charges.push(charge);
    }
    assert_eq!(pool.used(), 10 * 1000);

    // Four of a thousand bytes each have to go.
    let victims = pool.resize(Some(6_500));
    let hooks: Vec<u32> = victims.iter().map(|v| v.hook).collect();
    assert_eq!(hooks, vec![0, 1, 2, 3]);
    let ids: Vec<u64> = victims.iter().map(|v| v.id).collect();
    assert_eq!(ids, vec![0, 1, 2, 3]);

    // Their bytes stay charged until they are cleared, and nothing else goes for them.
    assert_eq!(pool.used(), 10 * 1000);
    for id in 0..4 {
        assert!(charges[id].clear(&mut pool).is_none());
    }
    assert_eq!(pool.used(), 6 * 1000);
    assert!(pool.evict().is_empty());
}

#[test]
fn clearing_twice_is_clearing_once() {
    let mut pool: Pool<u32> = Pool::unbounded();
    let a = pool.register(1);
    let b = pool.register(2);
    a.add(&mut pool, 10);
    b.add(&mut pool, 20);
    assert_eq!(a.clear(&mut pool), Some(1));
    assert_eq!(pool.used(), 20 + ENTRY_OVERHEAD);
    assert_eq!(a.clear(&mut pool), None);
    assert_eq!(pool.used(), 20 + ENTRY_OVERHEAD);
    b.sub(&mut pool, 5);
    assert_eq!(pool.used(), 15 + ENTRY_OVERHEAD);
    assert_eq!(b.release(&mut pool), Some(2));
    assert_eq!(pool.used(), 0);
    assert_eq!(a.release(&mut pool), None);
    assert_eq!(pool.used(), 0);
}

#[test]
fn the_clock_orders_registrations() {
    // Readings of the real clock: later registrations are never older.
    let mut pool: Pool<u32> = Pool::unbounded();
    for i in 0..5 {
        pool.register(i);
    }
    let hooks: Vec<u32> = pool.resize(Some(0)).iter().map(|v| v.hook).collect();
    assert_eq!(hooks, vec![0, 1, 2, 3, 4]);
}
