//! What a cursor is told over the whole life of a tree.

use crate::announce::{
    after_take, delivered, law_take_settles, pending_at, settled, Broadcast, PendingUpdate,
};
use crate::front::{
    attached, closes, detached, lemma_attached_wf, lemma_detached_wf, lemma_position,
    lemma_updated_wf, position, updated,
};
use crate::origin::Origin;
use crate::path::antichain;
use crate::route::RouteView;
use crate::tree::{
    cursor_added, cursor_taken, front_expired, front_removed, in_sync, joinable,
    law_new_cursor_is_in_sync, law_other_cursors_keep_sync, law_sources_keep_sync,
    law_take_keeps_sync, lemma_added_wf, lemma_attached_route, lemma_created_wf,
    lemma_detached_route, lemma_dropped_wf, lemma_expired_wf, lemma_removed_wf,
    lemma_same_slots_wf, lemma_sync_frame, lemma_synced_wf, lemma_told_ok, lemma_updated_route,
    live_slot, seen_at, seen_more, slot_at, source_attached, source_detached,
    source_updated, synced, tree_wf, truth, with_table, PathView, SplicedView, TreeView,
};
use vstd::prelude::*;

verus! {

/// One thing that happens to a tree.
pub ghost enum Change {
    /// A source attaches.
    Attach {
        /// The absolute path.
        path: PathView,
        /// The local origin.
        self_origin: Origin,
        /// The linger window of a broadcast that this creates, in nanoseconds.
        linger: nat,
        /// The source's route.
        route: RouteView,
        /// The handle of the source broadcast.
        source: u64,
        /// Whether the broadcast has live demand.
        carrying: bool,
    },
    /// A source moves to another route.
    Update {
        /// The front.
        front: u64,
        /// The source.
        id: u64,
        /// The source's route.
        route: RouteView,
        /// Whether the broadcast has live demand.
        carrying: bool,
    },
    /// A source detaches.
    Detach {
        /// The front.
        front: u64,
        /// The source.
        id: u64,
        /// Whether it ended deliberately.
        graceful: bool,
        /// Whether the broadcast has live demand.
        carrying: bool,
    },
    /// The linger window of a front runs out.
    Expire {
        /// The front.
        front: u64,
    },
    /// A front is torn down.
    Remove {
        /// The front.
        front: u64,
    },
    /// A cursor is added.
    Subscribe {
        /// The prefix stripped from announced paths.
        root: PathView,
        /// The absolute paths at and below which it is told of broadcasts.
        prefixes: Seq<PathView>,
    },
    /// A cursor is removed.
    Unsubscribe {
        /// The cursor.
        cursor: u64,
    },
    /// A cursor takes the update that is pending at a path. Which of several pending ones is
    /// taken first is left open here.
    Take {
        /// The cursor.
        cursor: u64,
        /// The path, relative to the cursor's root.
        path: PathView,
    },
}

/// Whether a change can happen to a tree: ids are left to hand out, a cursor's prefixes are
/// unrelated and below its root, and only what is pending is taken.
pub open spec fn possible(tree: TreeView, change: Change) -> bool {
    match change {
        Change::Attach { path, self_origin, linger, route, source, carrying } => {
            &&& tree.next_front < u64::MAX
            &&& joinable(tree, path) is Some ==> tree.fronts[joinable(
                tree,
                path,
            )->0].state.next_route < u64::MAX
        },
        Change::Subscribe { root, prefixes } => {
            &&& tree.next_cursor < u64::MAX
            &&& antichain(prefixes)
            &&& forall|i: int| 0 <= i < prefixes.len() ==> root.is_prefix_of(#[trigger] prefixes[i])
        },
        Change::Take { cursor, path } => {
            &&& tree.cursors.contains_key(cursor)
            &&& tree.cursors[cursor].pending.contains_key(path)
        },
        _ => true,
    }
}

/// The tree after a change.
pub open spec fn changed(tree: TreeView, change: Change) -> TreeView {
    match change {
        Change::Attach { path, self_origin, linger, route, source, carrying } => source_attached(
            tree,
            path,
            self_origin,
            linger,
            route,
            source,
            carrying,
        ),
        Change::Update { front, id, route, carrying } => source_updated(
            tree,
            front,
            id,
            route,
            carrying,
        ),
        Change::Detach { front, id, graceful, carrying } => source_detached(
            tree,
            front,
            id,
            graceful,
            carrying,
        ),
        Change::Expire { front } => front_expired(tree, front),
        Change::Remove { front } => front_removed(tree, front),
        Change::Subscribe { root, prefixes } => cursor_added(tree, root, prefixes),
        Change::Unsubscribe { cursor } => TreeView {
            cursors: tree.cursors.remove(cursor),
            ..tree
        },
        Change::Take { cursor, path } => cursor_taken(tree, cursor, path),
    }
}

/// The tree after a history of changes.
pub open spec fn after_history(tree: TreeView, history: Seq<Change>) -> TreeView
    decreases history.len(),
{
    if history.len() == 0 {
        tree
    } else {
        changed(after_history(tree, history.drop_last()), history.last())
    }
}

/// Whether a history can happen to a tree while `cursor` stays registered.
pub open spec fn possible_history(tree: TreeView, history: Seq<Change>, cursor: u64) -> bool
    decreases history.len(),
{
    history.len() == 0 || {
        &&& possible_history(tree, history.drop_last(), cursor)
        &&& possible(after_history(tree, history.drop_last()), history.last())
        &&& history.last() != Change::Unsubscribe { cursor }
    }
}

/// The updates that `cursor` took for a path over a history, in order.
pub open spec fn updates(
    tree: TreeView,
    history: Seq<Change>,
    cursor: u64,
    path: PathView,
) -> Seq<Option<Broadcast>>
    decreases history.len(),
{
    if history.len() == 0 {
        Seq::empty()
    } else {
        let rest = history.drop_last();
        let before = updates(tree, rest, cursor, path);
        if history.last() == (Change::Take { cursor, path }) {
            before.push(delivered(after_history(tree, rest).cursors[cursor].pending[path]))
        } else {
            before
        }
    }
}

/// What `cursor` knows after a history.
pub open spec fn known(tree: TreeView, history: Seq<Change>, cursor: u64) -> Map<PathView, Broadcast>
    decreases history.len(),
{
    if history.len() == 0 {
        Map::empty()
    } else {
        let rest = history.drop_last();
        let before = known(tree, rest, cursor);
        match history.last() {
            Change::Take { cursor: taker, path } => if taker == cursor {
                seen_more(
                    before,
                    path,
                    delivered(after_history(tree, rest).cursors[cursor].pending[path]),
                )
            } else {
                before
            },
            _ => before,
        }
    }
}

/// Whatever happens to a valid tree, it stays valid.
pub proof fn law_changes_keep_the_tree_valid(tree: TreeView, change: Change)
    requires
        tree_wf(tree),
        possible(tree, change),
    ensures
        tree_wf(changed(tree, change)),
{
    match change {
        Change::Attach { path, self_origin, linger, route, source, carrying } => {
            match joinable(tree, path) {
                Some(front) => {
                    assert(tree.slots.contains_key(path));
                    let was = tree.fronts[front];
                    let now = SplicedView {
                        state: attached(was.state, route, source, carrying),
                        ..was
                    };
                    lemma_attached_wf(was.state, route, source, carrying);
                    lemma_attached_route(was.state, route, source, carrying);
                    lemma_synced_wf(tree, front, now);
                },
                None => {
                    lemma_created_wf(tree, path, self_origin, linger, route, source);
                },
            }
        },
        Change::Update { front, id, route, carrying } => {
            if tree.fronts.contains_key(front) {
                let was = tree.fronts[front];
                if let Some(i) = position(was.state.routes, id) {
                    if was.state.routes[i].route != route {
                        let now = SplicedView {
                            state: updated(was.state, id, route, carrying),
                            ..was
                        };
                        lemma_updated_wf(was.state, id, route, carrying);
                        lemma_updated_route(was.state, id, route, carrying);
                        lemma_synced_wf(tree, front, now);
                    }
                }
            }
        },
        Change::Detach { front, id, graceful, carrying } => {
            if tree.fronts.contains_key(front) {
                let was = tree.fronts[front];
                if position(was.state.routes, id) is Some {
                    let now = SplicedView {
                        state: detached(was.state, id, graceful, carrying),
                        aborted: was.aborted || closes(was.state, id, graceful),
                        ..was
                    };
                    lemma_position(was.state.routes, id);
                    lemma_detached_wf(was.state, id, graceful, carrying);
                    lemma_detached_route(was.state, id, graceful, carrying);
                    lemma_synced_wf(tree, front, now);
                }
            }
        },
        Change::Expire { front } => {
            if tree.fronts.contains_key(front) {
                lemma_expired_wf(tree, front);
            }
        },
        Change::Remove { front } => {
            if tree.fronts.contains_key(front) {
                lemma_removed_wf(tree, front);
            }
        },
        Change::Subscribe { root, prefixes } => {
            lemma_added_wf(tree, root, prefixes);
        },
        Change::Unsubscribe { cursor } => {
            lemma_dropped_wf(tree, cursor);
        },
        Change::Take { cursor, path } => {
            assert(cursor_taken(tree, cursor, path).cursors.dom() =~= tree.cursors.dom());
            lemma_same_slots_wf(tree, cursor_taken(tree, cursor, path));
        },
    }
}

/// Bringing a front in line adds and removes no cursor.
proof fn lemma_synced_cursors(tree: TreeView, front: u64)
    ensures
        synced(tree, front).cursors.dom() == tree.cursors.dom(),
{
    let path = tree.fronts[front].state.path;
    lemma_told_ok(tree.cursors, path, live_slot(slot_at(tree, path)), Some(front));
    lemma_told_ok(tree.cursors, path, live_slot(slot_at(tree, path)), None);
}

/// A cursor stays registered through every change but its own removal.
proof fn lemma_cursor_stays(tree: TreeView, change: Change, cursor: u64)
    requires
        tree.cursors.contains_key(cursor),
        change != (Change::Unsubscribe { cursor }),
    ensures
        changed(tree, change).cursors.contains_key(cursor),
{
    match change {
        Change::Attach { path, self_origin, linger, route, source, carrying } => {
            match joinable(tree, path) {
                Some(front) => {
                    lemma_synced_cursors(
                        with_table(
                            tree,
                            front,
                            attached(tree.fronts[front].state, route, source, carrying),
                        ),
                        front,
                    );
                },
                None => {
                    let before = live_slot(slot_at(tree, path));
                    lemma_told_ok(tree.cursors, path, before, Some(tree.next_front));
                    lemma_told_ok(tree.cursors, path, before, None);
                },
            }
        },
        Change::Update { front, id, route, carrying } => {
            lemma_synced_cursors(
                with_table(tree, front, updated(tree.fronts[front].state, id, route, carrying)),
                front,
            );
        },
        Change::Detach { front, id, graceful, carrying } => {
            let was = tree.fronts[front];
            lemma_synced_cursors(
                TreeView {
                    fronts: tree.fronts.insert(
                        front,
                        SplicedView {
                            state: detached(was.state, id, graceful, carrying),
                            aborted: was.aborted || closes(was.state, id, graceful),
                            ..was
                        },
                    ),
                    ..tree
                },
                front,
            );
        },
        Change::Remove { front } => {
            let path = tree.fronts[front].state.path;
            lemma_told_ok(tree.cursors, path, live_slot(slot_at(tree, path)), None);
        },
        _ => {},
    }
}

/// A change that is no update taken by a cursor keeps the cursor in sync.
proof fn lemma_change_keeps_sync(
    tree: TreeView,
    change: Change,
    cursor: u64,
    seen: Map<PathView, Broadcast>,
)
    requires
        tree_wf(tree),
        tree.cursors.contains_key(cursor),
        in_sync(tree, cursor, seen),
        change != (Change::Unsubscribe { cursor }),
        !(change matches Change::Take { cursor: taker, path } && taker == cursor),
    ensures
        in_sync(changed(tree, change), cursor, seen),
{
    match change {
        Change::Attach { path, self_origin, linger, route, source, carrying } => {
            law_sources_keep_sync(
                tree, cursor, seen, path, self_origin, linger, route, source, carrying, 0, 0, false,
            );
        },
        Change::Update { front, id, route, carrying } => {
            law_sources_keep_sync(
                tree, cursor, seen, Seq::empty(), arbitrary(), 0, route, 0, carrying, front, id,
                false,
            );
        },
        Change::Detach { front, id, graceful, carrying } => {
            law_sources_keep_sync(
                tree, cursor, seen, Seq::empty(), arbitrary(), 0, arbitrary(), 0, carrying, front,
                id, graceful,
            );
        },
        Change::Expire { front } => {
            law_sources_keep_sync(
                tree, cursor, seen, Seq::empty(), arbitrary(), 0, arbitrary(), 0, false, front, 0,
                false,
            );
        },
        Change::Remove { front } => {
            law_sources_keep_sync(
                tree, cursor, seen, Seq::empty(), arbitrary(), 0, arbitrary(), 0, false, front, 0,
                false,
            );
        },
        Change::Subscribe { root, prefixes } => {
            law_other_cursors_keep_sync(tree, cursor, seen, root, prefixes, tree.next_cursor);
        },
        Change::Unsubscribe { cursor: other } => {
            law_other_cursors_keep_sync(
                tree, cursor, seen, Seq::empty(), Seq::empty(), other,
            );
        },
        Change::Take { cursor: taker, path } => {
            lemma_sync_frame(tree, cursor_taken(tree, taker, path), cursor, seen);
        },
    }
}

/// Whether updates begin with an announce and alternate from there on.
pub open spec fn alternating(updates: Seq<Option<Broadcast>>) -> bool {
    forall|i: int| 0 <= i < updates.len() ==> ((#[trigger] updates[i]) is Some <==> i % 2 == 0)
}

/// What the latest of some updates says.
pub open spec fn latest(updates: Seq<Option<Broadcast>>) -> Option<Broadcast> {
    if updates.len() == 0 {
        None
    } else {
        updates.last()
    }
}

/// From any valid tree on which a cursor is in sync and knows nothing, the tree stays valid,
/// the cursor stays in sync, and what it knows of a path is its latest update.
proof fn lemma_history(tree: TreeView, history: Seq<Change>, cursor: u64, path: PathView)
    requires
        tree_wf(tree),
        tree.cursors.contains_key(cursor),
        in_sync(tree, cursor, Map::<PathView, Broadcast>::empty()),
        possible_history(tree, history, cursor),
    ensures
        tree_wf(after_history(tree, history)),
        after_history(tree, history).cursors.contains_key(cursor),
        in_sync(after_history(tree, history), cursor, known(tree, history, cursor)),
        alternating(updates(tree, history, cursor, path)),
        seen_at(known(tree, history, cursor), path) == latest(
            updates(tree, history, cursor, path),
        ),
    decreases history.len(),
{
    if history.len() > 0 {
        let rest = history.drop_last();
        let change = history.last();
        lemma_history(tree, rest, cursor, path);
        let before = after_history(tree, rest);
        let seen = known(tree, rest, cursor);
        law_changes_keep_the_tree_valid(before, change);
        lemma_cursor_stays(before, change, cursor);
        if change matches Change::Take { cursor: taker, path: at } && taker == cursor {
            let at = change->Take_path;
            law_take_keeps_sync(before, cursor, seen, at);
            let earlier = updates(tree, rest, cursor, path);
            let now = updates(tree, history, cursor, path);
            if at == path {
                assert(settled(
                    seen_at(seen, path),
                    pending_at(before.cursors[cursor].pending, path),
                ) == truth(before, cursor, path));
                law_take_settles(before.cursors[cursor].pending, path, seen_at(seen, path));
                assert forall|i: int| 0 <= i < now.len() implies ((#[trigger] now[i]) is Some
                    <==> i % 2 == 0) by {
                    if i < earlier.len() {
                        assert(now[i] == earlier[i]);
                    } else if earlier.len() > 0 {
                        assert(earlier[earlier.len() - 1] == earlier.last());
                    }
                }
            }
        } else {
            lemma_change_keeps_sync(before, change, cursor, seen);
        }
    }
}

/// Whether a cursor can be added to a tree.
pub open spec fn subscribable(tree: TreeView, root: PathView, prefixes: Seq<PathView>) -> bool {
    tree_wf(tree) && possible(tree, Change::Subscribe { root, prefixes })
}

/// For each path, the updates that a cursor takes over its life strictly alternate, beginning
/// with an announce: whatever is announced, unannounced and replaced meanwhile, and however
/// slowly it takes them, there are never two announces or two unannounces in a row.
pub proof fn law_updates_alternate(
    tree: TreeView,
    root: PathView,
    prefixes: Seq<PathView>,
    history: Seq<Change>,
    path: PathView,
)
    requires
        subscribable(tree, root, prefixes),
        possible_history(cursor_added(tree, root, prefixes), history, tree.next_cursor),
    ensures
        alternating(
            updates(cursor_added(tree, root, prefixes), history, tree.next_cursor, path),
        ),
{
    lemma_life(tree, root, prefixes, history, path);
}

/// Whether a tree is what became of another one, to which `cursor` was added, after a history
/// through which the cursor stayed registered.
pub open spec fn lived(
    start: TreeView,
    root: PathView,
    prefixes: Seq<PathView>,
    history: Seq<Change>,
    cursor: u64,
    tree: TreeView,
) -> bool {
    &&& subscribable(start, root, prefixes)
    &&& start.next_cursor == cursor
    &&& possible_history(cursor_added(start, root, prefixes), history, cursor)
    &&& after_history(cursor_added(start, root, prefixes), history) == tree
}

/// Whether an update that `cursor` takes for a path toggles what it was told of the path last,
/// whatever happened to the tree since the cursor was added: an announce follows nothing or an
/// unannounce, and an unannounce follows an announce.
pub open spec fn toggles(
    tree: TreeView,
    cursor: u64,
    path: PathView,
    broadcast: Option<Broadcast>,
) -> bool {
    forall|start: TreeView, root: PathView, prefixes: Seq<PathView>, history: Seq<Change>|
        #[trigger] lived(start, root, prefixes, history, cursor, tree) ==> (broadcast is Some
            <==> latest(updates(cursor_added(start, root, prefixes), history, cursor, path))
            is None)
}

/// Whatever is pending for a path toggles what the cursor was told of it last.
pub proof fn law_pending_update_toggles(tree: TreeView, cursor: u64, path: PathView)
    requires
        tree.cursors.contains_key(cursor),
        tree.cursors[cursor].pending.contains_key(path),
    ensures
        toggles(tree, cursor, path, delivered(tree.cursors[cursor].pending[path])),
{
    let broadcast = delivered(tree.cursors[cursor].pending[path]);
    assert forall|start: TreeView, root: PathView, prefixes: Seq<PathView>, history: Seq<Change>|
        #[trigger] lived(start, root, prefixes, history, cursor, tree) implies (broadcast is Some
        <==> latest(updates(cursor_added(start, root, prefixes), history, cursor, path))
        is None) by {
        let added = cursor_added(start, root, prefixes);
        let longer = history.push(Change::Take { cursor, path });
        assert(longer.drop_last() =~= history);
        lemma_life(start, root, prefixes, longer, path);
        let before = updates(added, history, cursor, path);
        let after = updates(added, longer, cursor, path);
        assert(after == before.push(broadcast));
        assert(after[before.len() as int] == broadcast);
        if before.len() > 0 {
            assert(after[before.len() - 1] == before.last());
        }
    }
}

/// A broadcast that took the place of the one a cursor was told of last is pending as both:
/// the end of the first, and the second after it.
pub proof fn law_replacement_is_seen_as_both(
    tree: TreeView,
    root: PathView,
    prefixes: Seq<PathView>,
    history: Seq<Change>,
    path: PathView,
    told: Broadcast,
    now: Broadcast,
)
    requires
        subscribable(tree, root, prefixes),
        possible_history(cursor_added(tree, root, prefixes), history, tree.next_cursor),
        latest(updates(cursor_added(tree, root, prefixes), history, tree.next_cursor, path))
            == Some(told),
        truth(
            after_history(cursor_added(tree, root, prefixes), history),
            tree.next_cursor,
            path,
        ) == Some(now),
        told != now,
    ensures
        ({
            let pending = after_history(
                cursor_added(tree, root, prefixes),
                history,
            ).cursors[tree.next_cursor].pending;
            let rest = after_take(pending, path);
            &&& pending.contains_key(path)
            &&& delivered(pending[path]) is None
            &&& rest.contains_key(path)
            &&& delivered(rest[path]) == Some(now)
        }),
{
    let start = cursor_added(tree, root, prefixes);
    let cursor = tree.next_cursor;
    lemma_life(tree, root, prefixes, history, path);
    let end = after_history(start, history);
    let seen = known(start, history, cursor);
    let queued = pending_at(end.cursors[cursor].pending, path);
    assert(settled(seen_at(seen, path), queued) == truth(end, cursor, path));
    assert(queued == Some(PendingUpdate::UnannounceAnnounce(now)));
}

/// Once nothing is pending for a path, the latest update that a cursor took for it says what
/// is announced there.
pub proof fn law_latest_update_is_the_truth(
    tree: TreeView,
    root: PathView,
    prefixes: Seq<PathView>,
    history: Seq<Change>,
    path: PathView,
)
    requires
        subscribable(tree, root, prefixes),
        possible_history(cursor_added(tree, root, prefixes), history, tree.next_cursor),
        !after_history(
            cursor_added(tree, root, prefixes),
            history,
        ).cursors[tree.next_cursor].pending.contains_key(path),
    ensures
        latest(updates(cursor_added(tree, root, prefixes), history, tree.next_cursor, path))
            == truth(
            after_history(cursor_added(tree, root, prefixes), history),
            tree.next_cursor,
            path,
        ),
{
    let start = cursor_added(tree, root, prefixes);
    let cursor = tree.next_cursor;
    lemma_life(tree, root, prefixes, history, path);
    let end = after_history(start, history);
    let seen = known(start, history, cursor);
    assert(settled(seen_at(seen, path), pending_at(end.cursors[cursor].pending, path)) == truth(
        end,
        cursor,
        path,
    ));
}

/// Over the life of a cursor, from the moment it is added: it stays in sync, its updates for
/// a path alternate, and it knows of the path what the latest of them said.
proof fn lemma_life(
    tree: TreeView,
    root: PathView,
    prefixes: Seq<PathView>,
    history: Seq<Change>,
    path: PathView,
)
    requires
        subscribable(tree, root, prefixes),
        possible_history(cursor_added(tree, root, prefixes), history, tree.next_cursor),
    ensures
        ({
            let start = cursor_added(tree, root, prefixes);
            let end = after_history(start, history);
            let seen = known(start, history, tree.next_cursor);
            &&& in_sync(end, tree.next_cursor, seen)
            &&& alternating(updates(start, history, tree.next_cursor, path))
            &&& seen_at(seen, path) == latest(updates(start, history, tree.next_cursor, path))
        }),
{
    lemma_added_wf(tree, root, prefixes);
    law_new_cursor_is_in_sync(tree, root, prefixes);
    lemma_history(cursor_added(tree, root, prefixes), history, tree.next_cursor, path);
}

} // verus!
