//! The broadcast tree of an origin: what is published where, which sources feed it, and
//! which consumers are told.

use crate::announce::{
    after_announce, after_take, after_unannounce, delivered, first_pending, fits,
    law_announce_settles, law_take_settles, law_unannounce_settles, pending_at, settled,
    unannounced, Broadcast, OriginAnnounce, OriginConsumerState, PendingMap, PendingUpdate,
};
use crate::front::{
    active_route, any_announced, attached, closes, detached, entries, expired, front_wf, law_active_is_attached,
    law_announced_while_any_source_is, lemma_attached_wf, lemma_detached_wf, lemma_position,
    lemma_updated_wf, position, shows_announced, updated,
    EntryView, FrontRoute, FrontState, FrontView, Update,
};
use crate::node::{
    edited, lemma_push_contains, lemma_without, live_front, subscribed, Edit, Live,
    OriginBroadcast, OriginNode,
};
use crate::origin::Origin;
use crate::path::{antichain, covers, lemma_prefix_trans, path_lt, views, Path};
use crate::route::{Route, RouteView};
use crate::time::Duration;
use std::collections::HashMap;
use vstd::prelude::*;

verus! {

/// A path, as its parts.
pub type PathView = Seq<Seq<char>>;

/// A spliced broadcast: the table of its sources and its public face.
struct Front {
    state: FrontState,
    /// The route advertised on the broadcast: the active source's.
    face: Route,
    /// Whether the broadcast's tracks were aborted.
    aborted: bool,
}

/// The contents of a front.
#[verifier::ext_equal]
pub ghost struct SplicedView {
    /// The table of sources.
    pub state: FrontView,
    /// The advertised route.
    pub face: RouteView,
    /// Whether the broadcast's tracks were aborted.
    pub aborted: bool,
}

/// A consumer's cursor over announcements.
struct Cursor {
    root: Path,
    prefixes: Vec<Path>,
    state: OriginConsumerState,
}

/// The contents of a cursor.
#[verifier::ext_equal]
pub ghost struct CursorView {
    /// The prefix stripped from announced paths.
    pub root: PathView,
    /// The absolute paths at and below which the cursor is told of broadcasts.
    pub prefixes: Seq<PathView>,
    /// The updates not delivered yet.
    pub pending: PendingMap,
}

/// The abstract state of a tree.
#[verifier::ext_equal]
pub ghost struct TreeView {
    /// The published broadcasts, by absolute path.
    pub slots: Map<PathView, OriginBroadcast>,
    /// The fronts that were not torn down.
    pub fronts: Map<u64, SplicedView>,
    /// The id of the next front.
    pub next_front: u64,
    /// The cursors.
    pub cursors: Map<u64, CursorView>,
    /// The id of the next cursor.
    pub next_cursor: u64,
}

/// The broadcast published at a path.
pub open spec fn slot_at(tree: TreeView, path: PathView) -> Option<OriginBroadcast> {
    if tree.slots.contains_key(path) {
        Some(tree.slots[path])
    } else {
        None
    }
}

/// The front of a published broadcast, if it is announced.
pub open spec fn live_slot(slot: Option<OriginBroadcast>) -> Option<u64> {
    match slot {
        Some(broadcast) => if broadcast.announced {
            Some(broadcast.front)
        } else {
            None
        },
        None => None,
    }
}

/// Whether a cursor is told of broadcasts at a path.
pub open spec fn watches(cursor: CursorView, path: PathView) -> bool {
    covers(cursor.prefixes, path)
}

/// A cursor after it was told that the broadcast at `path` is available or gone.
pub open spec fn told(cursor: CursorView, path: PathView, broadcast: Option<Broadcast>) -> CursorView {
    let rel = path.skip(cursor.root.len() as int);
    CursorView {
        pending: match broadcast {
            Some(broadcast) => after_announce(cursor.pending, rel, broadcast),
            None => after_unannounce(cursor.pending, rel),
        },
        ..cursor
    }
}

/// The cursors after all that watch `path` were told of it.
pub open spec fn all_told(
    cursors: Map<u64, CursorView>,
    path: PathView,
    broadcast: Option<Broadcast>,
) -> Map<u64, CursorView> {
    cursors.map_values(
        |cursor: CursorView|
            if watches(cursor, path) {
                told(cursor, path, broadcast)
            } else {
                cursor
            },
    )
}

/// The cursors after what is announced at `path` changed. The end of the former broadcast
/// is told before the next one, so a replacement is never a silent swap.
pub open spec fn change_told(
    cursors: Map<u64, CursorView>,
    path: PathView,
    before: Option<u64>,
    after: Option<u64>,
) -> Map<u64, CursorView> {
    if before == after {
        cursors
    } else {
        let retracted = if before is Some {
            all_told(cursors, path, None)
        } else {
            cursors
        };
        match after {
            Some(front) => all_told(retracted, path, Some(Broadcast::Spliced(front))),
            None => retracted,
        }
    }
}

/// The tree after what is published at `path` changed.
pub open spec fn republished(
    tree: TreeView,
    path: PathView,
    slot: Option<OriginBroadcast>,
) -> TreeView {
    TreeView {
        slots: match slot {
            Some(broadcast) => tree.slots.insert(path, broadcast),
            None => tree.slots.remove(path),
        },
        cursors: change_told(
            tree.cursors,
            path,
            live_slot(slot_at(tree, path)),
            live_slot(slot),
        ),
        ..tree
    }
}

/// Whether `front` owns what is published at its path.
pub open spec fn owns_slot(tree: TreeView, front: u64) -> bool {
    slot_at(tree, tree.fronts[front].state.path) matches Some(slot) && slot.front == front
}

/// The tree after the public face of `front` was brought in line with its table: the
/// active source's route is advertised, and decides whether the path is announced. An empty
/// table leaves both alone.
pub open spec fn synced(tree: TreeView, front: u64) -> TreeView {
    match active_route(tree.fronts[front].state) {
        Some(route) => {
            let faced = TreeView {
                fronts: tree.fronts.insert(
                    front,
                    SplicedView { face: route, ..tree.fronts[front] },
                ),
                ..tree
            };
            if owns_slot(tree, front) {
                republished(
                    faced,
                    tree.fronts[front].state.path,
                    Some(OriginBroadcast { front, announced: route.announce }),
                )
            } else {
                faced
            }
        },
        None => tree,
    }
}

/// The tree with another table for `front`.
pub open spec fn with_table(tree: TreeView, front: u64, state: FrontView) -> TreeView {
    TreeView {
        fronts: tree.fronts.insert(front, SplicedView { state, ..tree.fronts[front] }),
        ..tree
    }
}

/// The front that a source attaching at `path` joins: the one published there, unless it
/// is closed.
pub open spec fn joinable(tree: TreeView, path: PathView) -> Option<u64> {
    match slot_at(tree, path) {
        Some(slot) => if !tree.fronts[slot.front].state.closed {
            Some(slot.front)
        } else {
            None
        },
        None => None,
    }
}

/// The table of a front that its first source just created.
pub open spec fn first_table(
    path: PathView,
    self_origin: Origin,
    linger: nat,
    route: RouteView,
    source: u64,
) -> FrontView {
    FrontView {
        path,
        self_origin,
        next_route: 1,
        routes: seq![EntryView { id: 0, route, source }],
        active: Some(0),
        linger,
        closed: false,
    }
}

/// The tree after a source attached at `path`.
pub open spec fn source_attached(
    tree: TreeView,
    path: PathView,
    self_origin: Origin,
    linger: nat,
    route: RouteView,
    source: u64,
    carrying: bool,
) -> TreeView {
    match joinable(tree, path) {
        Some(front) => synced(
            with_table(
                tree,
                front,
                attached(tree.fronts[front].state, route, source, carrying),
            ),
            front,
        ),
        None => republished(
            TreeView {
                fronts: tree.fronts.insert(
                    tree.next_front,
                    SplicedView {
                        state: first_table(path, self_origin, linger, route, source),
                        face: route,
                        aborted: false,
                    },
                ),
                next_front: (tree.next_front + 1) as u64,
                ..tree
            },
            path,
            Some(OriginBroadcast { front: tree.next_front, announced: route.announce }),
        ),
    }
}

/// The tree after a source moved to another route.
pub open spec fn source_updated(
    tree: TreeView,
    front: u64,
    id: u64,
    route: RouteView,
    carrying: bool,
) -> TreeView {
    if tree.fronts.contains_key(front) {
        match position(tree.fronts[front].state.routes, id) {
            Some(i) => if tree.fronts[front].state.routes[i].route == route {
                tree
            } else {
                synced(
                    with_table(
                        tree,
                        front,
                        updated(tree.fronts[front].state, id, route, carrying),
                    ),
                    front,
                )
            },
            None => tree,
        }
    } else {
        tree
    }
}

/// The tree after a source detached.
pub open spec fn source_detached(
    tree: TreeView,
    front: u64,
    id: u64,
    graceful: bool,
    carrying: bool,
) -> TreeView {
    if tree.fronts.contains_key(front) && position(tree.fronts[front].state.routes, id) is Some {
        let spliced = tree.fronts[front];
        synced(
            TreeView {
                fronts: tree.fronts.insert(
                    front,
                    SplicedView {
                        state: detached(spliced.state, id, graceful, carrying),
                        aborted: spliced.aborted || closes(spliced.state, id, graceful),
                        ..spliced
                    },
                ),
                ..tree
            },
            front,
        )
    } else {
        tree
    }
}

/// The tree after the linger window of `front` ran out.
pub open spec fn front_expired(tree: TreeView, front: u64) -> TreeView {
    if tree.fronts.contains_key(front) {
        with_table(tree, front, expired(tree.fronts[front].state))
    } else {
        tree
    }
}

/// The tree after `front` was torn down: unpublished, unless another broadcast took its
/// place, and forgotten.
pub open spec fn front_removed(tree: TreeView, front: u64) -> TreeView {
    if tree.fronts.contains_key(front) {
        let unpublished = if owns_slot(tree, front) {
            republished(tree, tree.fronts[front].state.path, None)
        } else {
            tree
        };
        TreeView { fronts: unpublished.fronts.remove(front), ..unpublished }
    } else {
        tree
    }
}

/// What a new cursor has pending: the broadcasts announced in its scope.
pub open spec fn initial_pending(
    tree: TreeView,
    root: PathView,
    prefixes: Seq<PathView>,
) -> PendingMap {
    Map::new(
        |rel: PathView|
            covers(prefixes, root + rel) && live_slot(slot_at(tree, root + rel)) is Some,
        |rel: PathView|
            PendingUpdate::Announce(
                Broadcast::Spliced(live_slot(slot_at(tree, root + rel))->0),
            ),
    )
}

/// The tree after a cursor was added.
pub open spec fn cursor_added(tree: TreeView, root: PathView, prefixes: Seq<PathView>) -> TreeView {
    TreeView {
        cursors: tree.cursors.insert(
            tree.next_cursor,
            CursorView { root, prefixes, pending: initial_pending(tree, root, prefixes) },
        ),
        next_cursor: (tree.next_cursor + 1) as u64,
        ..tree
    }
}

/// The prefixes of a cursor are unrelated to each other and below its root.
pub open spec fn cursor_ok(cursor: CursorView) -> bool {
    &&& antichain(cursor.prefixes)
    &&& forall|i: int|
        0 <= i < cursor.prefixes.len() ==> cursor.root.is_prefix_of(#[trigger] cursor.prefixes[i])
}

/// The face of a front with sources is that of its active source, announced while any
/// source is.
pub open spec fn faced(tree: TreeView, front: u64) -> bool {
    let spliced = tree.fronts[front];
    spliced.state.routes.len() > 0 ==> {
        &&& active_route(spliced.state) == Some(spliced.face)
        &&& owns_slot(tree, front)
        &&& tree.slots[spliced.state.path].announced == spliced.face.announce
        &&& spliced.face.announce == any_announced(spliced.state.routes)
    }
}

/// The invariant of a tree:
/// - what is published belongs to a front of that path;
/// - a front that is not closed is published;
/// - a front with sources shows the route of an attached, active source, and is announced
///   exactly when that route is, which is while any source is announced;
/// - cursors have unrelated prefixes below their root.
pub open spec fn tree_wf(tree: TreeView) -> bool {
    &&& forall|path: PathView| #[trigger]
        tree.slots.contains_key(path) ==> tree.fronts.contains_key(tree.slots[path].front)
            && tree.fronts[tree.slots[path].front].state.path == path
    &&& forall|front: u64| #[trigger]
        tree.fronts.contains_key(front) ==> {
            &&& front < tree.next_front
            &&& front_wf(tree.fronts[front].state)
            &&& !tree.fronts[front].state.closed ==> owns_slot(tree, front)
            &&& faced(tree, front)
        }
    &&& forall|id: u64| #[trigger]
        tree.cursors.contains_key(id) ==> id < tree.next_cursor && cursor_ok(tree.cursors[id])
}

spec fn spliced_view(front: Front) -> SplicedView {
    SplicedView { state: front.state@, face: front.face@, aborted: front.aborted }
}

spec fn cursor_view(cursor: Cursor) -> CursorView {
    CursorView {
        root: cursor.root@,
        prefixes: views(cursor.prefixes@),
        pending: cursor.state@,
    }
}

/// The broadcast tree of an origin.
pub struct OriginTree {
    node: OriginNode,
    fronts: HashMap<u64, Front>,
    next_front: u64,
    cursors: HashMap<u64, Cursor>,
    next_cursor: u64,
}

spec fn slots_of(node: OriginNode) -> Map<PathView, OriginBroadcast> {
    Map::new(
        |path: PathView| node.leaf_at(path).broadcast is Some,
        |path: PathView| node.leaf_at(path).broadcast->0,
    )
}

impl View for OriginTree {
    type V = TreeView;

    closed spec fn view(&self) -> TreeView {
        TreeView {
            slots: slots_of(self.node),
            fronts: self.fronts@.map_values(|front: Front| spliced_view(front)),
            next_front: self.next_front,
            cursors: self.cursors@.map_values(|cursor: Cursor| cursor_view(cursor)),
            next_cursor: self.next_cursor,
        }
    }
}

/// The cursors registered in the nodes are those of the tree, at their prefixes.
spec fn registered(node: OriginNode, cursors: Map<u64, CursorView>) -> bool {
    forall|path: PathView, id: u64|
        #![trigger node.leaf_at(path).consumers.contains(id)]
        node.leaf_at(path).consumers.contains(id) <==> (cursors.contains_key(id)
            && cursors[id].prefixes.contains(path))
}

/// A valid tree has a valid view, so that the laws on views apply to it.
pub proof fn lemma_tree_wf(tree: OriginTree)
    requires
        tree.wf(),
    ensures
        tree_wf(tree@),
{
}

impl OriginTree {
    spec fn linked(&self) -> bool {
        self.node.wf() && registered(self.node, self@.cursors)
    }

    /// The tree's invariant.
    pub closed spec fn wf(&self) -> bool {
        self.linked() && tree_wf(self@)
    }

    /// An empty tree.
    pub fn new() -> (r: Self)
        ensures
            r.wf(),
            r@ == (TreeView {
                slots: Map::<PathView, OriginBroadcast>::empty(),
                fronts: Map::<u64, SplicedView>::empty(),
                next_front: 0,
                cursors: Map::<u64, CursorView>::empty(),
                next_cursor: 0,
            }),
    {
        let r = OriginTree {
            node: OriginNode::new(),
            fronts: HashMap::new(),
            next_front: 0,
            cursors: HashMap::new(),
            next_cursor: 0,
        };
        proof {
            assert(r@.slots =~= Map::<PathView, OriginBroadcast>::empty()) by {
                assert forall|path: PathView| !r@.slots.contains_key(path) by {
                    assert(r.node.leaf_at(path) == crate::node::empty_leaf());
                }
            }
            assert(r@.fronts =~= Map::<u64, SplicedView>::empty());
            assert(r@.cursors =~= Map::<u64, CursorView>::empty());
        }
        r
    }

    /// The broadcast published at an absolute path, announced or not.
    pub fn consume_broadcast(&self, path: &Path) -> (r: Option<Broadcast>)
        requires
            self.wf(),
        ensures
            r == match slot_at(self@, path@) {
                Some(slot) => Some(Broadcast::Spliced(slot.front)),
                None => None,
            },
    {
        match self.node.consume_broadcast(path) {
            Some(slot) => Some(Broadcast::Spliced(slot.front)),
            None => None,
        }
    }

    /// Tell every cursor that watches `path` that its broadcast is available or gone.
    fn notify(&mut self, path: &Path, broadcast: Option<Broadcast>)
        requires
            old(self).linked(),
            forall|id: u64| #[trigger]
                old(self)@.cursors.contains_key(id) ==> cursor_ok(old(self)@.cursors[id]),
        ensures
            final(self).linked(),
            final(self)@ == (TreeView {
                cursors: all_told(old(self)@.cursors, path@, broadcast),
                ..old(self)@
            }),
            final(self).node == old(self).node,
            final(self).fronts == old(self).fronts,
    {
        broadcast use vstd::std_specs::hash::group_hash_axioms;

        let ids = self.node.watchers(path);
        let ghost start = self@.cursors;
        proof {
            assert forall|id: u64| #[trigger] ids@.contains(id) implies start.contains_key(id)
                && watches(start[id], path@) by {
                lemma_subscribed_watches(self.node, start, path@, id);
            }
        }
        let mut k: usize = 0;
        while k < ids.len()
            invariant
                k <= ids@.len(),
                ids@.no_duplicates(),
                self.node == old(self).node,
                self.fronts == old(self).fronts,
                self.next_front == old(self).next_front,
                self.next_cursor == old(self).next_cursor,
                start == old(self)@.cursors,
                forall|id: u64| #[trigger] ids@.contains(id) ==> start.contains_key(id) && watches(
                    start[id],
                    path@,
                ),
                forall|id: u64| #[trigger] start.contains_key(id) ==> cursor_ok(start[id]),
                self@.cursors.dom() == start.dom(),
                forall|id: u64| #[trigger]
                    start.contains_key(id) ==> self@.cursors[id] == if ids@.take(
                        k as int,
                    ).contains(id) {
                        told(start[id], path@, broadcast)
                    } else {
                        start[id]
                    },
            decreases ids@.len() - k,
        {
            let id: u64 = ids[k];
            let ghost before = self@.cursors;
            let ghost map = self.cursors@;
            proof {
                assert(ids@.contains(id));
                assert(!ids@.take(k as int).contains(id)) by {
                    if ids@.take(k as int).contains(id) {
                        let j = choose|j: int| 0 <= j < k && ids@.take(k as int)[j] == id;
                        assert(ids@[j] == ids@[k as int]);
                    }
                }
                assert(before.contains_key(id));
                assert(map.contains_key(id));
            }
            match self.cursors.remove(&id) {
                Some(mut cursor) => {
                    let ghost was = cursor_view(cursor);
                    proof {
                        assert(was == start[id]);
                        lemma_watched_below_root(start[id], path@);
                    }
                    match path.strip_prefix(&cursor.root) {
                        Some(rel) => {
                            proof {
                                assert(rel@ =~= path@.skip(cursor.root@.len() as int));
                            }
                            match broadcast {
                                Some(broadcast) => cursor.state.apply_announce(rel, broadcast),
                                None => cursor.state.apply_unannounce(rel),
                            }
                        },
                        None => {},
                    }
                    proof {
                        assert(cursor_view(cursor) =~= told(start[id], path@, broadcast));
                    }
                    self.cursors.insert(id, cursor);
                    proof {
                        assert(self.cursors@ =~= map.insert(id, cursor));
                        assert(self@.cursors =~= before.insert(id, cursor_view(cursor)));
                    }
                },
                None => {},
            }
            proof {
                let next = ids@.take(k + 1);
                assert(next =~= ids@.take(k as int).push(id));
                assert forall|other: u64| #[trigger] start.contains_key(other) implies self@.cursors[other]
                    == if next.contains(other) {
                    told(start[other], path@, broadcast)
                } else {
                    start[other]
                } by {
                    lemma_push_contains(ids@.take(k as int), id, other);
                }
                assert(self@.cursors.dom() =~= start.dom());
            }
            k = k + 1;
        }
        proof {
            assert(ids@.take(k as int) =~= ids@);
            assert forall|id: u64| #[trigger] start.contains_key(id) implies ids@.contains(id)
                == watches(start[id], path@) by {
                lemma_subscribed_watches(old(self).node, start, path@, id);
            }
            assert(self@.cursors =~= all_told(start, path@, broadcast));
            lemma_registered_same(self.node, start, self@.cursors);
        }
    }
}

impl OriginTree {
    /// Change what is published at `path`, telling the cursors that watch it.
    fn republish(&mut self, path: &Path, slot: Option<OriginBroadcast>)
        requires
            old(self).linked(),
            forall|id: u64| #[trigger]
                old(self)@.cursors.contains_key(id) ==> cursor_ok(old(self)@.cursors[id]),
        ensures
            final(self).linked(),
            final(self)@ == republished(old(self)@, path@, slot),
            final(self).fronts == old(self).fronts,
    {
        let before: Option<OriginBroadcast> = self.node.consume_broadcast(path);
        let was: Option<u64> = match before {
            Some(b) => if b.announced {
                Some(b.front)
            } else {
                None
            },
            None => None,
        };
        let now: Option<u64> = match slot {
            Some(b) => if b.announced {
                Some(b.front)
            } else {
                None
            },
            None => None,
        };
        let ghost node = self.node;
        let ghost start = self@;
        match slot {
            Some(b) => self.node.edit(path, Edit::Publish(b)),
            None => self.node.edit(path, Edit::Unpublish),
        }
        proof {
            lemma_published(node, self.node, path@, slot);
            assert(self@.slots =~= republished(start, path@, slot).slots);
            assert(registered(self.node, self@.cursors)) by {
                assert forall|p: PathView, id: u64|
                    #![trigger self.node.leaf_at(p).consumers.contains(id)]
                    self.node.leaf_at(p).consumers.contains(id) <==> (self@.cursors.contains_key(id)
                        && self@.cursors[id].prefixes.contains(p)) by {
                    assert(self.node.leaf_at(p).consumers == node.leaf_at(p).consumers);
                    assert(node.leaf_at(p).consumers.contains(id) <==> (
                    start.cursors.contains_key(id) && start.cursors[id].prefixes.contains(p)));
                }
            }
        }
        if was != now {
            if was.is_some() {
                self.notify(path, None);
            }
            if let Some(front) = now {
                self.notify(path, Some(Broadcast::Spliced(front)));
            }
        }
        assert(self@ =~= republished(start, path@, slot));
    }

    /// Bring the public face of a front in line with its table.
    fn sync_front(&mut self, front: u64)
        requires
            old(self).linked(),
            old(self)@.fronts.contains_key(front),
            forall|id: u64| #[trigger]
                old(self)@.cursors.contains_key(id) ==> cursor_ok(old(self)@.cursors[id]),
        ensures
            final(self).linked(),
            final(self)@ == synced(old(self)@, front),
    {
        broadcast use vstd::std_specs::hash::group_hash_axioms;

        let ghost start = self@;
        let ghost map = self.fronts@;
        assert(map.contains_key(front));
        let mut entry = match self.fronts.remove(&front) {
            Some(entry) => entry,
            None => {
                return ;
            },
        };
        let advert = entry.state.active_route();
        let path = entry.state.path.clone();
        match advert {
            None => {
                self.fronts.insert(front, entry);
                proof {
                    assert(self.fronts@ =~= map);
                    assert(self@ =~= start);
                }
            },
            Some(route) => {
                let announced = route.announce;
                entry.face = route;
                self.fronts.insert(front, entry);
                proof {
                    assert(self@.fronts =~= start.fronts.insert(
                        front,
                        SplicedView { face: route@, ..start.fronts[front] },
                    ));
                }
                if let Some(slot) = self.node.consume_broadcast(&path) {
                    if slot.front == front {
                        self.republish(&path, Some(OriginBroadcast { front, announced }));
                    }
                }
                assert(self@ =~= synced(start, front));
            },
        }
    }

    /// Replace the table of a front.
    fn set_front(&mut self, front: u64, entry: Front)
        requires
            old(self).linked(),
        ensures
            final(self).linked(),
            final(self)@ == (TreeView {
                fronts: old(self)@.fronts.insert(front, spliced_view(entry)),
                ..old(self)@
            }),
    {
        broadcast use vstd::std_specs::hash::group_hash_axioms;

        let ghost start = self@;
        self.fronts.insert(front, entry);
        assert(self@.fronts =~= start.fronts.insert(front, spliced_view(entry)));
    }

    /// Take a front out of the tree, to change it.
    fn take_front(&mut self, front: u64) -> (r: Option<Front>)
        requires
            old(self).linked(),
        ensures
            final(self).linked(),
            match r {
                Some(entry) => {
                    &&& old(self)@.fronts.contains_key(front)
                    &&& spliced_view(entry) == old(self)@.fronts[front]
                    &&& final(self)@ == (TreeView {
                        fronts: old(self)@.fronts.remove(front),
                        ..old(self)@
                    })
                },
                None => !old(self)@.fronts.contains_key(front) && final(self)@ == old(self)@,
            },
    {
        broadcast use vstd::std_specs::hash::group_hash_axioms;

        let ghost start = self@;
        let ghost map = self.fronts@;
        let r = self.fronts.remove(&front);
        proof {
            assert(start.fronts.contains_key(front) == map.contains_key(front));
            assert(self@.fronts =~= start.fronts.remove(front));
            assert(!map.contains_key(front) ==> start.fronts.remove(front) =~= start.fronts);
        }
        r
    }

    /// Attach a source to the broadcast at `path`, creating (and publishing) the
    /// broadcast if none is live there. A closed one (torn down, or awaiting teardown) is
    /// replaced: that counts as an unannounce, so consumers observe the replacement
    /// rather than a silent swap.
    ///
    /// `carrying` says whether the broadcast has live demand.
    pub fn attach_source(
        &mut self,
        path: &Path,
        self_origin: Origin,
        linger: Duration,
        route: Route,
        source: u64,
        carrying: bool,
    ) -> (r: Attachment)
        requires
            old(self).wf(),
            old(self)@.next_front < u64::MAX,
            joinable(old(self)@, path@) matches Some(front) ==> old(
                self,
            )@.fronts[front].state.next_route < u64::MAX,
        ensures
            final(self).wf(),
            final(self)@ == source_attached(
                old(self)@,
                path@,
                self_origin,
                linger@,
                route@,
                source,
                carrying,
            ),
            r == match joinable(old(self)@, path@) {
                Some(front) => Attachment {
                    front,
                    id: old(self)@.fronts[front].state.next_route,
                    created: false,
                },
                None => Attachment { front: old(self)@.next_front, id: 0, created: true },
            },
    {
        let ghost start = self@;
        if let Some(slot) = self.node.consume_broadcast(path) {
            proof {
                assert(start.slots.contains_key(path@));
                assert(start.slots[path@] == slot);
            }
            let front: u64 = slot.front;
            if let Some(mut entry) = self.take_front(front) {
                if !entry.state.closed {
                    proof {
                        lemma_table_wf(start, front);
                    }
                    let ghost was = spliced_view(entry);
                    let id: u64 = entry.state.attach(route, source, carrying);
                    let ghost now = spliced_view(entry);
                    self.set_front(front, entry);
                    proof {
                        assert(now =~= SplicedView {
                            state: attached(was.state, route@, source, carrying),
                            ..was
                        });
                        assert(self@.fronts =~= start.fronts.insert(front, now));
                        assert(self@ =~= with_table(start, front, now.state));
                        lemma_attached_route(was.state, route@, source, carrying);
                        lemma_synced_wf(start, front, now);
                    }
                    self.sync_front(front);
                    return Attachment { front, id, created: false };
                }
                self.set_front(front, entry);
                proof {
                    assert(self@.fronts =~= start.fronts);
                    assert(self@ =~= start);
                }
            }
        }
        let front: u64 = self.next_front;
        let announced = route.announce;
        let face = route.clone();
        let mut routes: Vec<FrontRoute> = Vec::new();
        routes.push(FrontRoute { id: 0, route, source });
        let state = FrontState {
            path: path.clone(),
            self_origin,
            next_route: 1,
            routes,
            active: Some(0),
            linger,
            closed: false,
        };
        let entry = Front { state, face, aborted: false };
        proof {
            assert(entries(routes@) =~= seq![EntryView { id: 0, route: route@, source }]);
            assert(spliced_view(entry) =~= SplicedView {
                state: first_table(path@, self_origin, linger@, route@, source),
                face: route@,
                aborted: false,
            });
        }
        self.next_front = front + 1;
        self.set_front(front, entry);
        proof {
            lemma_created_wf(start, path@, self_origin, linger@, route@, source);
        }
        self.republish(path, Some(OriginBroadcast { front, announced }));
        Attachment { front, id: 0, created: true }
    }

    /// Move a source to another route.
    pub fn update_source(&mut self, front: u64, id: u64, route: &Route, carrying: bool) -> (r: Update)
        requires
            old(self).wf(),
        ensures
            final(self).wf(),
            final(self)@ == source_updated(old(self)@, front, id, route@, carrying),
            r == if old(self)@.fronts.contains_key(front) {
                match position(old(self)@.fronts[front].state.routes, id) {
                    Some(i) => if old(self)@.fronts[front].state.routes[i].route == route@ {
                        Update::Unchanged
                    } else {
                        Update::Changed
                    },
                    None => Update::Missing,
                }
            } else {
                Update::Missing
            },
    {
        let ghost start = self@;
        let mut entry = match self.take_front(front) {
            Some(entry) => entry,
            None => {
                return Update::Missing;
            },
        };
        proof {
            lemma_table_wf(start, front);
        }
        let ghost was = spliced_view(entry);
        let r = entry.state.update(id, route, carrying);
        let ghost now = spliced_view(entry);
        self.set_front(front, entry);
        proof {
            assert(now =~= SplicedView {
                state: updated(was.state, id, route@, carrying),
                ..was
            });
            assert(self@.fronts =~= start.fronts.insert(front, now));
        }
        match r {
            Update::Changed => {
                proof {
                    assert(self@ =~= with_table(start, front, now.state));
                    lemma_updated_route(was.state, id, route@, carrying);
                    lemma_synced_wf(start, front, now);
                }
                self.sync_front(front);
            },
            _ => {
                proof {
                    assert(now =~= was);
                    assert(self@.fronts =~= start.fronts);
                    assert(self@ =~= start);
                }
            },
        }
        r
    }

    /// Detach a source, promoting the next-best one; the tracks it was serving re-splice
    /// on their own. Idempotent. Returns true when this closed the broadcast, whose
    /// tracks are then to be aborted.
    ///
    /// `graceful` says how the source ended: a deliberate finish (a publisher done
    /// publishing, a peer's clean unannounce) or an abrupt loss (a session dying).
    /// Detaching the last source *gracefully* closes the broadcast, which guarantees a
    /// following create at the path is a *new* broadcast rather than splicing new
    /// content into this one. An abrupt last detach instead leaves the front open for the
    /// linger window, so a source re-attaching within it (a reconnect) splices in
    /// seamlessly. A zero linger closes abrupt detaches too.
    pub fn detach_source(&mut self, front: u64, id: u64, graceful: bool, carrying: bool) -> (closed:
        bool)
        requires
            old(self).wf(),
        ensures
            final(self).wf(),
            final(self)@ == source_detached(old(self)@, front, id, graceful, carrying),
            closed == (old(self)@.fronts.contains_key(front) && closes(
                old(self)@.fronts[front].state,
                id,
                graceful,
            )),
    {
        let ghost start = self@;
        let mut entry = match self.take_front(front) {
            Some(entry) => entry,
            None => {
                return false;
            },
        };
        proof {
            lemma_table_wf(start, front);
        }
        let ghost was = spliced_view(entry);
        let found = entry.state.is_attached(id);
        let closed = entry.state.detach(id, graceful, carrying);
        if closed {
            entry.aborted = true;
        }
        let ghost now = spliced_view(entry);
        self.set_front(front, entry);
        proof {
            assert(now =~= SplicedView {
                state: detached(was.state, id, graceful, carrying),
                aborted: was.aborted || closes(was.state, id, graceful),
                ..was
            });
            assert(self@.fronts =~= start.fronts.insert(front, now));
        }
        if !found {
            proof {
                assert(now =~= was);
                assert(self@.fronts =~= start.fronts);
                assert(self@ =~= start);
            }
            return false;
        }
        proof {
            lemma_detached_route(was.state, id, graceful, carrying);
            lemma_synced_wf(start, front, now);
        }
        self.sync_front(front);
        closed
    }

    /// Close a front whose linger window ran out, if its table is still empty. Returns
    /// true when this closed it.
    pub fn expire_front(&mut self, front: u64) -> (closed: bool)
        requires
            old(self).wf(),
        ensures
            final(self).wf(),
            final(self)@ == front_expired(old(self)@, front),
            closed == (old(self)@.fronts.contains_key(front)
                && !old(self)@.fronts[front].state.closed
                && old(self)@.fronts[front].state.routes.len() == 0),
    {
        let ghost start = self@;
        let mut entry = match self.take_front(front) {
            Some(entry) => entry,
            None => {
                return false;
            },
        };
        proof {
            lemma_table_wf(start, front);
        }
        let ghost was = spliced_view(entry);
        let closed = entry.state.expire();
        let ghost now = spliced_view(entry);
        self.set_front(front, entry);
        proof {
            assert(now =~= SplicedView { state: expired(was.state), ..was });
            assert(self@.fronts =~= start.fronts.insert(front, now));
            assert(self@ =~= front_expired(start, front));
            lemma_expired_wf(start, front);
        }
        closed
    }

    /// Remove the broadcast of a closed front from the tree and forget the front. The
    /// identity check keeps a stale teardown from clobbering a replacement.
    pub fn remove_front(&mut self, front: u64)
        requires
            old(self).wf(),
        ensures
            final(self).wf(),
            final(self)@ == front_removed(old(self)@, front),
    {
        let ghost start = self@;
        let entry = match self.take_front(front) {
            Some(entry) => entry,
            None => {
                return ;
            },
        };
        let path = entry.state.path;
        if let Some(slot) = self.node.consume_broadcast(&path) {
            if slot.front == front {
                self.republish(&path, None);
            }
        }
        proof {
            assert(self@ =~= front_removed(start, front));
            lemma_removed_wf(start, front);
        }
    }

    /// Whether a cursor is registered.
    pub fn has_cursor(&self, cursor: u64) -> (r: bool)
        ensures
            r == self@.cursors.contains_key(cursor),
    {
        broadcast use vstd::std_specs::hash::group_hash_axioms;

        self.cursors.contains_key(&cursor)
    }

    /// Take one update to deliver to a cursor, if any.
    pub fn take(&mut self, cursor: u64) -> (r: Option<OriginAnnounce>)
        requires
            old(self).wf(),
        ensures
            final(self).wf(),
            match r {
                None => final(self)@ == old(self)@ && (old(self)@.cursors.contains_key(cursor)
                    ==> old(self)@.cursors[cursor].pending == Map::<
                    PathView,
                    PendingUpdate,
                >::empty()),
                Some(announce) => {
                    &&& old(self)@.cursors.contains_key(cursor)
                    &&& first_pending(old(self)@.cursors[cursor].pending, announce.path@)
                    &&& announce.broadcast == delivered(
                        old(self)@.cursors[cursor].pending[announce.path@],
                    )
                    &&& final(self)@ == cursor_taken(old(self)@, cursor, announce.path@)
                },
            },
    {
        broadcast use vstd::std_specs::hash::group_hash_axioms;

        let ghost start = self@;
        let ghost map = self.cursors@;
        let mut entry = match self.cursors.remove(&cursor) {
            Some(entry) => entry,
            None => {
                proof {
                    assert(self.cursors@ =~= map);
                    assert(self@.cursors =~= start.cursors);
                }
                return None;
            },
        };
        let ghost was = cursor_view(entry);
        assert(start.cursors.contains_key(cursor) && start.cursors[cursor] == was);
        let r = entry.state.take();
        let ghost now = cursor_view(entry);
        self.cursors.insert(cursor, entry);
        proof {
            assert(self@.cursors =~= start.cursors.insert(cursor, now));
            if r is None {
                assert(now =~= was);
                assert(self@.cursors =~= start.cursors);
            } else {
                assert(self@ =~= cursor_taken(start, cursor, (r->0).path@));
            }
            lemma_registered_same(self.node, start.cursors, self@.cursors);
            lemma_same_slots_wf(start, self@);
        }
        r
    }
}

/// What drives the life of a front.
#[derive(Clone, Copy)]
pub struct FrontStatus {
    /// Whether the front is over.
    pub closed: bool,
    /// Whether no source is attached.
    pub empty: bool,
    /// How long the front outlives ungracefully losing its last source.
    pub linger: Duration,
    /// The active source: its id in the table and the handle tracks are served from.
    pub active: Option<(u64, u64)>,
}

impl OriginTree {
    /// The state of a front, unless it was torn down.
    pub fn front_status(&self, front: u64) -> (r: Option<FrontStatus>)
        requires
            self.wf(),
        ensures
            match r {
                Some(status) => {
                    let state = self@.fronts[front].state;
                    &&& self@.fronts.contains_key(front)
                    &&& status.closed == state.closed
                    &&& status.empty == (state.routes.len() == 0)
                    &&& status.linger@ == state.linger
                    &&& status.active == match state.active {
                        Some(id) => match position(state.routes, id) {
                            Some(i) => Some((id, state.routes[i].source)),
                            None => None,
                        },
                        None => None,
                    }
                },
                None => !self@.fronts.contains_key(front),
            },
    {
        broadcast use vstd::std_specs::hash::group_hash_axioms;

        match self.fronts.get(&front) {
            Some(entry) => {
                assert(self@.fronts.contains_key(front));
                assert(self@.fronts[front] == spliced_view(*entry));
                Some(
                    FrontStatus {
                        closed: entry.state.closed,
                        empty: entry.state.routes.len() == 0,
                        linger: entry.state.linger,
                        active: entry.state.active_source(),
                    },
                )
            },
            None => None,
        }
    }

    /// The route advertised on the broadcast of a front, and whether the broadcast's
    /// tracks were aborted.
    pub fn front_face(&self, front: u64) -> (r: Option<(Route, bool)>)
        requires
            self.wf(),
        ensures
            match r {
                Some((route, aborted)) => self@.fronts.contains_key(front) && route@
                    == self@.fronts[front].face && aborted == self@.fronts[front].aborted,
                None => !self@.fronts.contains_key(front),
            },
    {
        broadcast use vstd::std_specs::hash::group_hash_axioms;

        match self.fronts.get(&front) {
            Some(entry) => {
                assert(self@.fronts.contains_key(front));
                assert(self@.fronts[front] == spliced_view(*entry));
                Some((entry.face.clone(), entry.aborted))
            },
            None => None,
        }
    }
}

/// A source's place in the tree.
#[derive(Clone, Copy, Debug, PartialEq, Eq, Structural)]
pub struct Attachment {
    /// The front the source feeds.
    pub front: u64,
    /// The source's id in the table of the front.
    pub id: u64,
    /// Whether the source created the front, which then has to be driven.
    pub created: bool,
}

/// The tree after a cursor took the update at `path`.
pub open spec fn cursor_taken(tree: TreeView, cursor: u64, path: PathView) -> TreeView {
    TreeView {
        cursors: tree.cursors.insert(
            cursor,
            CursorView {
                pending: after_take(tree.cursors[cursor].pending, path),
                ..tree.cursors[cursor]
            },
        ),
        ..tree
    }
}

/// Publishing changes one slot and no registration.
proof fn lemma_published(
    a: OriginNode,
    b: OriginNode,
    path: PathView,
    slot: Option<OriginBroadcast>,
)
    requires
        b.leaf_at(path) == edited(
            a.leaf_at(path),
            match slot {
                Some(broadcast) => Edit::Publish(broadcast),
                None => Edit::Unpublish,
            },
        ),
        forall|other: PathView| other != path ==> #[trigger] b.leaf_at(other) == a.leaf_at(other),
    ensures
        slots_of(b) == match slot {
            Some(broadcast) => slots_of(a).insert(path, broadcast),
            None => slots_of(a).remove(path),
        },
        forall|other: PathView| #[trigger] b.leaf_at(other).consumers == a.leaf_at(other).consumers,
{
    assert forall|other: PathView| #[trigger] b.leaf_at(other).consumers == a.leaf_at(
        other,
    ).consumers by {
        if other != path {
            assert(b.leaf_at(other) == a.leaf_at(other));
        }
    }
    let expect = match slot {
        Some(broadcast) => slots_of(a).insert(path, broadcast),
        None => slots_of(a).remove(path),
    };
    assert forall|other: PathView| #[trigger] slots_of(b).contains_key(other)
        == expect.contains_key(other) by {
        if other != path {
            assert(b.leaf_at(other) == a.leaf_at(other));
        }
    }
    assert forall|other: PathView| #[trigger] slots_of(b).contains_key(other) implies slots_of(
        b,
    )[other] == expect[other] by {
        if other != path {
            assert(b.leaf_at(other) == a.leaf_at(other));
        }
    }
    assert(slots_of(b) =~= expect);
}

/// The table of a front is in order.
proof fn lemma_table_wf(tree: TreeView, front: u64)
    requires
        tree_wf(tree),
        tree.fronts.contains_key(front),
    ensures
        front_wf(tree.fronts[front].state),
{
}

/// An attached source leaves a route to advertise.
pub(crate) proof fn lemma_attached_route(front: FrontView, route: RouteView, source: u64, carrying: bool)
    ensures
        attached(front, route, source, carrying).routes.len() > 0,
        active_route(attached(front, route, source, carrying)) is Some,
        front_wf(front) && !front.closed && front.next_route < u64::MAX ==> shows_announced(
            attached(front, route, source, carrying),
        ),
{
    let table = FrontView {
        next_route: (front.next_route + 1) as u64,
        routes: front.routes.push(EntryView { id: front.next_route, route, source }),
        ..front
    };
    law_active_is_attached(table, carrying);
    if front_wf(front) && !front.closed && front.next_route < u64::MAX {
        law_announced_while_any_source_is(table, carrying);
    }
}

/// A changed route leaves a route to advertise.
pub(crate) proof fn lemma_updated_route(front: FrontView, id: u64, route: RouteView, carrying: bool)
    requires
        front_wf(front),
        position(front.routes, id) matches Some(i) && front.routes[i].route != route,
    ensures
        updated(front, id, route, carrying).routes.len() > 0,
        shows_announced(updated(front, id, route, carrying)),
{
    let i = position(front.routes, id)->0;
    lemma_position(front.routes, id);
    let table = FrontView {
        routes: front.routes.update(i, EntryView { route, ..front.routes[i] }),
        ..front
    };
    law_announced_while_any_source_is(table, carrying);
}

/// As long as sources are left, there is a route to advertise.
pub(crate) proof fn lemma_detached_route(front: FrontView, id: u64, graceful: bool, carrying: bool)
    requires
        front_wf(front),
        position(front.routes, id) is Some,
    ensures
        detached(front, id, graceful, carrying).routes.len() > 0 ==> shows_announced(
            detached(front, id, graceful, carrying),
        ),
{
    let i = position(front.routes, id)->0;
    lemma_position(front.routes, id);
    let rest = FrontView { routes: front.routes.remove(i), ..front };
    if rest.routes.len() > 0 {
        law_announced_while_any_source_is(rest, carrying);
    }
}

/// Told cursors keep their prefixes.
pub(crate) proof fn lemma_told_ok(
    cursors: Map<u64, CursorView>,
    path: PathView,
    before: Option<u64>,
    after: Option<u64>,
)
    ensures
        change_told(cursors, path, before, after).dom() == cursors.dom(),
        forall|id: u64| #[trigger]
            cursors.contains_key(id) ==> change_told(cursors, path, before, after)[id].prefixes
                == cursors[id].prefixes && change_told(cursors, path, before, after)[id].root
                == cursors[id].root,
{
    assert(change_told(cursors, path, before, after).dom() =~= cursors.dom());
}

/// Bringing a changed front in line keeps the invariant.
pub(crate) proof fn lemma_synced_wf(tree: TreeView, front: u64, now: SplicedView)
    requires
        tree_wf(tree),
        tree.fronts.contains_key(front),
        now.state.path == tree.fronts[front].state.path,
        now.face == tree.fronts[front].face,
        front_wf(now.state),
        tree.fronts[front].state.closed ==> now.state.closed,
        now.state.routes.len() > 0 ==> shows_announced(now.state),
        now.state.routes.len() == 0 ==> active_route(now.state) is None,
    ensures
        tree_wf(
            synced(TreeView { fronts: tree.fronts.insert(front, now), ..tree }, front),
        ),
        forall|id: u64| #[trigger]
            tree.cursors.contains_key(id) ==> cursor_ok(tree.cursors[id]),
{
    let changed = TreeView { fronts: tree.fronts.insert(front, now), ..tree };
    let after = synced(changed, front);
    let path = now.state.path;
    lemma_told_ok(
        tree.cursors,
        path,
        live_slot(slot_at(tree, path)),
        match active_route(now.state) {
            Some(route) => if route.announce {
                Some(front)
            } else {
                None
            },
            None => None,
        },
    );
    if now.state.routes.len() > 0 {
        assert(!tree.fronts[front].state.closed);
        assert(owns_slot(tree, front));
        assert(owns_slot(changed, front));
    }
    assert forall|other: u64| #[trigger] after.fronts.contains_key(other) implies {
        &&& other < after.next_front
        &&& front_wf(after.fronts[other].state)
        &&& !after.fronts[other].state.closed ==> owns_slot(after, other)
        &&& faced(after, other)
    } by {
        assert(tree.fronts.contains_key(other));
        if other != front {
            assert(after.fronts[other] == tree.fronts[other]);
            if owns_slot(tree, other) && tree.fronts[other].state.path == path {
                assert(!owns_slot(changed, front));
            }
            assert(owns_slot(tree, other) ==> owns_slot(after, other));
        } else {
            assert(after.fronts[front].state == now.state);
            assert(owns_slot(tree, front) ==> owns_slot(after, front));
        }
    }
    assert forall|p: PathView| #[trigger] after.slots.contains_key(p) implies after.fronts.contains_key(
        after.slots[p].front,
    ) && after.fronts[after.slots[p].front].state.path == p by {
        if p != path {
            assert(tree.slots.contains_key(p));
        } else if owns_slot(changed, front) {
        } else {
            assert(tree.slots.contains_key(p));
        }
    }
    assert forall|id: u64| #[trigger] after.cursors.contains_key(id) implies id < after.next_cursor
        && cursor_ok(after.cursors[id]) by {
        assert(tree.cursors.contains_key(id));
    }
}

/// Creating a front keeps the invariant.
pub(crate) proof fn lemma_created_wf(
    tree: TreeView,
    path: PathView,
    self_origin: Origin,
    linger: nat,
    route: RouteView,
    source: u64,
)
    requires
        tree_wf(tree),
        tree.next_front < u64::MAX,
        joinable(tree, path) is None,
    ensures
        tree_wf(source_attached(tree, path, self_origin, linger, route, source, false)),
{
    let front = tree.next_front;
    let after = source_attached(tree, path, self_origin, linger, route, source, false);
    let table = first_table(path, self_origin, linger, route, source);
    assert(active_route(table) == Some(route)) by {
        lemma_position(table.routes, 0);
    }
    assert(any_announced(table.routes) == route.announce) by {
        assert(table.routes[0].route == route);
    }
    lemma_told_ok(
        tree.cursors,
        path,
        live_slot(slot_at(tree, path)),
        if route.announce {
            Some(front)
        } else {
            None
        },
    );
    assert forall|other: u64| #[trigger] after.fronts.contains_key(other) implies {
        &&& other < after.next_front
        &&& front_wf(after.fronts[other].state)
        &&& !after.fronts[other].state.closed ==> owns_slot(after, other)
        &&& faced(after, other)
    } by {
        if other != front {
            assert(tree.fronts.contains_key(other));
            if owns_slot(tree, other) && tree.fronts[other].state.path == path {
                assert(tree.fronts[other].state.closed);
            }
        }
    }
    assert forall|p: PathView| #[trigger] after.slots.contains_key(p) implies after.fronts.contains_key(
        after.slots[p].front,
    ) && after.fronts[after.slots[p].front].state.path == p by {
        if p != path {
            assert(tree.slots.contains_key(p));
        }
    }
    assert forall|id: u64| #[trigger] after.cursors.contains_key(id) implies id < after.next_cursor
        && cursor_ok(after.cursors[id]) by {
        assert(tree.cursors.contains_key(id));
    }
}

/// An expired front keeps the invariant.
pub(crate) proof fn lemma_expired_wf(tree: TreeView, front: u64)
    requires
        tree_wf(tree),
        tree.fronts.contains_key(front),
    ensures
        tree_wf(front_expired(tree, front)),
{
    let after = front_expired(tree, front);
    assert forall|other: u64| #[trigger] after.fronts.contains_key(other) implies {
        &&& other < after.next_front
        &&& front_wf(after.fronts[other].state)
        &&& !after.fronts[other].state.closed ==> owns_slot(after, other)
        &&& faced(after, other)
    } by {
        assert(tree.fronts.contains_key(other));
    }
    assert forall|p: PathView| #[trigger] after.slots.contains_key(p) implies after.fronts.contains_key(
        after.slots[p].front,
    ) && after.fronts[after.slots[p].front].state.path == p by {
        assert(tree.slots.contains_key(p));
    }
}

/// Removing a front keeps the invariant.
pub(crate) proof fn lemma_removed_wf(tree: TreeView, front: u64)
    requires
        tree_wf(tree),
        tree.fronts.contains_key(front),
    ensures
        tree_wf(front_removed(tree, front)),
{
    let after = front_removed(tree, front);
    let path = tree.fronts[front].state.path;
    lemma_told_ok(tree.cursors, path, live_slot(slot_at(tree, path)), None);
    assert forall|other: u64| #[trigger] after.fronts.contains_key(other) implies {
        &&& other < after.next_front
        &&& front_wf(after.fronts[other].state)
        &&& !after.fronts[other].state.closed ==> owns_slot(after, other)
        &&& faced(after, other)
    } by {
        assert(tree.fronts.contains_key(other));
        assert(owns_slot(tree, other) ==> owns_slot(after, other));
    }
    assert forall|p: PathView| #[trigger] after.slots.contains_key(p) implies after.fronts.contains_key(
        after.slots[p].front,
    ) && after.fronts[after.slots[p].front].state.path == p by {
        assert(tree.slots.contains_key(p));
    }
    assert forall|id: u64| #[trigger] after.cursors.contains_key(id) implies id < after.next_cursor
        && cursor_ok(after.cursors[id]) by {
        assert(tree.cursors.contains_key(id));
    }
}

/// The invariant looks at the prefixes of the cursors only.
pub(crate) proof fn lemma_same_slots_wf(a: TreeView, b: TreeView)
    requires
        tree_wf(a),
        a.slots == b.slots,
        a.fronts == b.fronts,
        a.next_front == b.next_front,
        a.next_cursor == b.next_cursor,
        a.cursors.dom() == b.cursors.dom(),
        forall|id: u64| #[trigger]
            a.cursors.contains_key(id) ==> a.cursors[id].prefixes == b.cursors[id].prefixes
                && a.cursors[id].root == b.cursors[id].root,
    ensures
        tree_wf(b),
{
    assert forall|front: u64| #[trigger] b.fronts.contains_key(front) implies {
        &&& front < b.next_front
        &&& front_wf(b.fronts[front].state)
        &&& !b.fronts[front].state.closed ==> owns_slot(b, front)
        &&& faced(b, front)
    } by {
        assert(a.fronts.contains_key(front));
    }
    assert forall|id: u64| #[trigger] b.cursors.contains_key(id) implies id < b.next_cursor
        && cursor_ok(b.cursors[id]) by {
        assert(a.cursors.contains_key(id));
    }
}

/// The nodes know a cursor at or above a path exactly when the cursor watches it.
proof fn lemma_subscribed_watches(
    node: OriginNode,
    cursors: Map<u64, CursorView>,
    path: PathView,
    id: u64,
)
    requires
        registered(node, cursors),
    ensures
        subscribed(node, path, id) <==> (cursors.contains_key(id) && watches(cursors[id], path)),
{
    if subscribed(node, path, id) {
        let n = choose|n: int|
            0 <= n <= path.len() && (#[trigger] node.leaf_at(path.take(n))).consumers.contains(id);
        assert(node.leaf_at(path.take(n)).consumers.contains(id));
        let prefixes = cursors[id].prefixes;
        let i = choose|i: int| 0 <= i < prefixes.len() && prefixes[i] == path.take(n);
        assert(prefixes[i].is_prefix_of(path)) by {
            assert(path.take(prefixes[i].len() as int) =~= path.take(n));
        }
    }
    if cursors.contains_key(id) && watches(cursors[id], path) {
        let prefixes = cursors[id].prefixes;
        let i = choose|i: int| 0 <= i < prefixes.len() && (#[trigger] prefixes[i]).is_prefix_of(path);
        let n = prefixes[i].len() as int;
        assert(path.take(n) =~= prefixes[i]);
        assert(prefixes.contains(path.take(n)));
        assert(node.leaf_at(path.take(n)).consumers.contains(id));
    }
}

/// A watched path lies below the root of the cursor.
proof fn lemma_watched_below_root(cursor: CursorView, path: PathView)
    requires
        cursor_ok(cursor),
        watches(cursor, path),
    ensures
        cursor.root.is_prefix_of(path),
{
    let prefixes = cursor.prefixes;
    let i = choose|i: int| 0 <= i < prefixes.len() && (#[trigger] prefixes[i]).is_prefix_of(path);
    lemma_prefix_trans(cursor.root, prefixes[i], path);
}

/// Registration looks at the prefixes only.
proof fn lemma_registered_same(
    node: OriginNode,
    a: Map<u64, CursorView>,
    b: Map<u64, CursorView>,
)
    requires
        registered(node, a),
        a.dom() == b.dom(),
        forall|id: u64| #[trigger] a.contains_key(id) ==> a[id].prefixes == b[id].prefixes,
    ensures
        registered(node, b),
{
    assert forall|path: PathView, id: u64|
        #![trigger node.leaf_at(path).consumers.contains(id)]
        node.leaf_at(path).consumers.contains(id) <==> (b.contains_key(id)
            && b[id].prefixes.contains(path)) by {
        assert(a.contains_key(id) == b.contains_key(id));
    }
}

/// The announcements of the live broadcasts at the given absolute paths.
spec fn pending_where(tree: TreeView, root: PathView, paths: Set<PathView>) -> PendingMap {
    Map::new(
        |rel: PathView| paths.contains(root + rel) && live_slot(slot_at(tree, root + rel)) is Some,
        |rel: PathView|
            PendingUpdate::Announce(
                Broadcast::Spliced(live_slot(slot_at(tree, root + rel))->0),
            ),
    )
}

/// The paths at or below the given prefixes.
spec fn covered_set(prefixes: Seq<PathView>) -> Set<PathView> {
    Set::new(|path: PathView| covers(prefixes, path))
}

/// The paths of the first `n` listed broadcasts.
spec fn listed_set(live: Seq<Live>, n: int) -> Set<PathView> {
    Set::new(|path: PathView| exists|i: int| 0 <= i < n && (#[trigger] live[i]).path@ == path)
}

/// The cursors registered in the nodes, while a new cursor `id` is being added at the
/// first `n` of its prefixes or removed from them.
spec fn registering(
    node: OriginNode,
    cursors: Map<u64, CursorView>,
    id: u64,
    prefixes: Seq<PathView>,
    n: int,
) -> bool {
    forall|path: PathView, other: u64|
        #![trigger node.leaf_at(path).consumers.contains(other)]
        node.leaf_at(path).consumers.contains(other) <==> if other == id {
            prefixes.take(n).contains(path)
        } else {
            cursors.contains_key(other) && cursors[other].prefixes.contains(path)
        }
}

/// Changing a registration changes no slot.
proof fn lemma_registration_keeps_slots(a: OriginNode, b: OriginNode, path: PathView, edit: Edit)
    requires
        edit is Subscribe || edit is Unsubscribe,
        b.leaf_at(path) == edited(a.leaf_at(path), edit),
        forall|other: PathView| other != path ==> #[trigger] b.leaf_at(other) == a.leaf_at(other),
    ensures
        slots_of(b) == slots_of(a),
{
    assert forall|other: PathView| #[trigger] slots_of(b).contains_key(other) == slots_of(
        a,
    ).contains_key(other) && (slots_of(b).contains_key(other) ==> slots_of(b)[other] == slots_of(
        a,
    )[other]) by {
        if other != path {
            assert(b.leaf_at(other) == a.leaf_at(other));
        }
    }
    assert(slots_of(b) =~= slots_of(a));
}

impl OriginTree {
    /// Add a cursor that is told of broadcasts at or below `prefixes`, with `root`
    /// stripped from their paths. The currently announced ones are replayed.
    pub fn subscribe(&mut self, root: Path, prefixes: Vec<Path>) -> (id: u64)
        requires
            old(self).wf(),
            old(self)@.next_cursor < u64::MAX,
            antichain(views(prefixes@)),
            forall|i: int|
                0 <= i < prefixes@.len() ==> root@.is_prefix_of(#[trigger] views(prefixes@)[i]),
        ensures
            final(self).wf(),
            id == old(self)@.next_cursor,
            final(self)@ == cursor_added(old(self)@, root@, views(prefixes@)),
    {
        broadcast use vstd::std_specs::hash::group_hash_axioms;

        let id: u64 = self.next_cursor;
        let mut state = OriginConsumerState::default();
        let ghost start = self@;
        let ghost all = views(prefixes@);
        let mut k: usize = 0;
        proof {
            assert(all.take(0) =~= Seq::<PathView>::empty());
            assert(state@ =~= pending_where(start, root@, covered_set(all.take(0))));
            assert(registering(self.node, start.cursors, id, all, 0)) by {
                assert forall|path: PathView, other: u64|
                    #![trigger self.node.leaf_at(path).consumers.contains(other)]
                    self.node.leaf_at(path).consumers.contains(other) <==> if other == id {
                        all.take(0).contains(path)
                    } else {
                        start.cursors.contains_key(other) && start.cursors[other].prefixes.contains(
                            path,
                        )
                    } by {
                    assert(!start.cursors.contains_key(id));
                }
            }
        }
        while k < prefixes.len()
            invariant
                k <= prefixes@.len(),
                all == views(prefixes@),
                antichain(all),
                forall|i: int| 0 <= i < all.len() ==> root@.is_prefix_of(#[trigger] all[i]),
                start == old(self)@,
                self.node.wf(),
                slots_of(self.node) == start.slots,
                self.fronts == old(self).fronts,
                self.cursors == old(self).cursors,
                self.next_front == old(self).next_front,
                self.next_cursor == old(self).next_cursor,
                registering(self.node, start.cursors, id, all, k as int),
                state@ == pending_where(start, root@, covered_set(all.take(k as int))),
            decreases prefixes@.len() - k,
        {
            let ghost prefix = all[k as int];
            let ghost before = self.node;
            let ghost done = covered_set(all.take(k as int));
            assert(prefix == prefixes@[k as int]@);
            self.node.edit(&prefixes[k], Edit::Subscribe(id));
            proof {
                lemma_registration_keeps_slots(before, self.node, prefix, Edit::Subscribe(id));
                lemma_registering_more(before, self.node, start.cursors, id, all, k as int);
            }
            let live = self.node.replay(&prefixes[k]);
            let mut j: usize = 0;
            proof {
                assert(done.union(listed_set(live@, 0)) =~= done);
                assert forall|path: PathView| #[trigger] live_front(self.node.leaf_at(path))
                    == live_slot(slot_at(start, path)) by {
                    assert(slots_of(self.node).contains_key(path) == start.slots.contains_key(
                        path,
                    ));
                }
            }
            while j < live.len()
                invariant
                    j <= live@.len(),
                    k < all.len(),
                    prefix == all[k as int],
                    antichain(all),
                    root@.is_prefix_of(prefix),
                    done == covered_set(all.take(k as int)),
                    forall|i: int|
                        0 <= i < live@.len() ==> prefix.is_prefix_of((#[trigger] live@[i]).path@)
                            && live_slot(slot_at(start, live@[i].path@)) == Some(live@[i].front),
                    forall|a: int, b: int|
                        0 <= a < b < live@.len() ==> (#[trigger] live@[a]).path@ != (
                        #[trigger] live@[b]).path@,
                    state@ == pending_where(
                        start,
                        root@,
                        done.union(listed_set(live@, j as int)),
                    ),
                decreases live@.len() - j,
            {
                let ghost path = live@[j as int].path@;
                let ghost front = live@[j as int].front;
                let ghost pending = state@;
                proof {
                    lemma_prefix_trans(root@, prefix, path);
                    assert(!done.contains(path)) by {
                        if covers(all.take(k as int), path) {
                            let early = all.take(k as int);
                            let i = choose|i: int|
                                0 <= i < early.len() && (#[trigger] early[i]).is_prefix_of(path);
                            assert(early[i] == all[i]);
                            lemma_comparable(all[i], prefix, path);
                        }
                    }
                }
                if let Some(rel) = live[j].path.strip_prefix(&root) {
                    let ghost rel_view = rel@;
                    state.apply_announce(rel, Broadcast::Spliced(live[j].front));
                    proof {
                        assert(root@ + rel_view == path);
                        assert(!pending.contains_key(rel_view));
                        let paths = done.union(listed_set(live@, j + 1));
                        assert forall|other: PathView| #[trigger] state@.contains_key(other)
                            == pending_where(start, root@, paths).contains_key(other) by {
                            lemma_listed_next(live@, j as int, root@ + other);
                            if root@ + other == path {
                                assert(other =~= (root@ + other).skip(root@.len() as int));
                                assert(rel_view =~= (root@ + rel_view).skip(root@.len() as int));
                            }
                        }
                        assert(state@ =~= pending_where(start, root@, paths));
                    }
                }
                j = j + 1;
            }
            proof {
                let paths = done.union(listed_set(live@, j as int));
                assert(pending_where(start, root@, paths) =~= pending_where(
                    start,
                    root@,
                    covered_set(all.take(k + 1)),
                )) by {
                    assert forall|rel: PathView| #[trigger]
                        pending_where(start, root@, paths).contains_key(rel) == pending_where(
                            start,
                            root@,
                            covered_set(all.take(k + 1)),
                        ).contains_key(rel) by {
                        let path = root@ + rel;
                        lemma_covers_next(all, k as int, path);
                        if prefix.is_prefix_of(path) && live_slot(slot_at(start, path)) is Some {
                            assert(live_front(self.node.leaf_at(path)) is Some);
                            let i = choose|i: int|
                                0 <= i < live@.len() && (#[trigger] live@[i]).path@ == path;
                            assert(live@[i].path@ == path);
                        }
                        if listed_set(live@, j as int).contains(path) {
                            let i = choose|i: int|
                                0 <= i < j && (#[trigger] live@[i]).path@ == path;
                            assert(prefix.is_prefix_of(live@[i].path@));
                        }
                    }
                }
            }
            k = k + 1;
        }
        let cursor = Cursor { root, prefixes, state };
        self.next_cursor = id + 1;
        self.cursors.insert(id, cursor);
        proof {
            assert(all.take(k as int) =~= all);
            assert(cursor_view(cursor).pending =~= initial_pending(start, root@, all));
            assert(self@.cursors =~= cursor_added(start, root@, all).cursors);
            assert(self@ =~= cursor_added(start, root@, all));
            assert(registered(self.node, self@.cursors));
            lemma_added_wf(start, root@, all);
        }
        id
    }

    /// Remove a cursor.
    pub fn unsubscribe(&mut self, cursor: u64)
        requires
            old(self).wf(),
        ensures
            final(self).wf(),
            final(self)@ == (TreeView {
                cursors: old(self)@.cursors.remove(cursor),
                ..old(self)@
            }),
    {
        broadcast use vstd::std_specs::hash::group_hash_axioms;

        let ghost start = self@;
        let ghost map = self.cursors@;
        let entry = match self.cursors.remove(&cursor) {
            Some(entry) => entry,
            None => {
                proof {
                    assert(self.cursors@ =~= map);
                    assert(self@ =~= start);
                    assert(start.cursors.remove(cursor) =~= start.cursors);
                }
                return ;
            },
        };
        let ghost all = views(entry.prefixes@);
        let mut k: usize = entry.prefixes.len();
        proof {
            assert(start.cursors.contains_key(cursor));
            assert(start.cursors[cursor] == cursor_view(entry));
            assert(all.take(k as int) =~= all);
            assert(registering(self.node, start.cursors, cursor, all, k as int));
            assert(self@.cursors =~= start.cursors.remove(cursor));
        }
        while k > 0
            invariant
                k <= entry.prefixes@.len(),
                all == views(entry.prefixes@),
                antichain(all),
                start == old(self)@,
                self.node.wf(),
                slots_of(self.node) == start.slots,
                self.fronts == old(self).fronts,
                self.next_front == old(self).next_front,
                self.next_cursor == old(self).next_cursor,
                self@.cursors == start.cursors.remove(cursor),
                registering(self.node, start.cursors, cursor, all, k as int),
            decreases k,
        {
            k = k - 1;
            let ghost before = self.node;
            assert(all[k as int] == entry.prefixes@[k as int]@);
            self.node.edit(&entry.prefixes[k], Edit::Unsubscribe(cursor));
            proof {
                lemma_registration_keeps_slots(
                    before,
                    self.node,
                    all[k as int],
                    Edit::Unsubscribe(cursor),
                );
                lemma_registering_less(before, self.node, start.cursors, cursor, all, k as int);
            }
        }
        proof {
            assert(all.take(0) =~= Seq::<PathView>::empty());
            assert(registered(self.node, self@.cursors)) by {
                assert forall|path: PathView, id: u64|
                    #![trigger self.node.leaf_at(path).consumers.contains(id)]
                    self.node.leaf_at(path).consumers.contains(id) <==> (self@.cursors.contains_key(
                        id,
                    ) && self@.cursors[id].prefixes.contains(path)) by {
                    assert(start.cursors.remove(cursor).contains_key(id) == (id != cursor
                        && start.cursors.contains_key(id)));
                }
            }
            assert(self@ =~= TreeView { cursors: start.cursors.remove(cursor), ..start });
            lemma_dropped_wf(start, cursor);
        }
    }
}

/// Two prefixes of one path are related.
pub proof fn lemma_comparable(a: PathView, b: PathView, path: PathView)
    requires
        a.is_prefix_of(path),
        b.is_prefix_of(path),
    ensures
        a.is_prefix_of(b) || b.is_prefix_of(a),
{
    if a.len() <= b.len() {
        assert(b.take(a.len() as int) =~= path.take(b.len() as int).take(a.len() as int));
        assert(path.take(b.len() as int).take(a.len() as int) =~= path.take(a.len() as int));
    } else {
        assert(a.take(b.len() as int) =~= path.take(a.len() as int).take(b.len() as int));
        assert(path.take(a.len() as int).take(b.len() as int) =~= path.take(b.len() as int));
    }
}

proof fn lemma_listed_next(live: Seq<Live>, j: int, path: PathView)
    requires
        0 <= j < live.len(),
    ensures
        listed_set(live, j + 1).contains(path) <==> (listed_set(live, j).contains(path) || path
            == live[j].path@),
{
    if listed_set(live, j + 1).contains(path) && path != live[j].path@ {
        let i = choose|i: int| 0 <= i < j + 1 && (#[trigger] live[i]).path@ == path;
        assert(i < j);
        assert(live[i].path@ == path);
    }
    if listed_set(live, j).contains(path) {
        let i = choose|i: int| 0 <= i < j && (#[trigger] live[i]).path@ == path;
        assert(live[i].path@ == path);
    }
    assert(live[j].path@ == live[j].path@);
}

proof fn lemma_covers_next(prefixes: Seq<PathView>, k: int, path: PathView)
    requires
        0 <= k < prefixes.len(),
    ensures
        covers(prefixes.take(k + 1), path) <==> (covers(prefixes.take(k), path)
            || prefixes[k].is_prefix_of(path)),
{
    let a = prefixes.take(k);
    let b = prefixes.take(k + 1);
    if covers(b, path) {
        let i = choose|i: int| 0 <= i < b.len() && (#[trigger] b[i]).is_prefix_of(path);
        if i < k {
            assert(a[i] == b[i]);
        }
    }
    if covers(a, path) {
        let i = choose|i: int| 0 <= i < a.len() && (#[trigger] a[i]).is_prefix_of(path);
        assert(b[i] == a[i]);
    }
    assert(b[k] == prefixes[k]);
}

proof fn lemma_take_contains(prefixes: Seq<PathView>, k: int, path: PathView)
    requires
        0 <= k < prefixes.len(),
    ensures
        prefixes.take(k + 1).contains(path) <==> (prefixes.take(k).contains(path) || path
            == prefixes[k]),
{
    let a = prefixes.take(k);
    let b = prefixes.take(k + 1);
    if b.contains(path) {
        let i = choose|i: int| 0 <= i < b.len() && b[i] == path;
        if i < k {
            assert(a[i] == path);
        }
    }
    if a.contains(path) {
        let i = choose|i: int| 0 <= i < a.len() && a[i] == path;
        assert(b[i] == path);
    }
    assert(b[k] == prefixes[k]);
}

proof fn lemma_registering_more(
    a: OriginNode,
    b: OriginNode,
    cursors: Map<u64, CursorView>,
    id: u64,
    prefixes: Seq<PathView>,
    k: int,
)
    requires
        0 <= k < prefixes.len(),
        registering(a, cursors, id, prefixes, k),
        b.leaf_at(prefixes[k]) == edited(a.leaf_at(prefixes[k]), Edit::Subscribe(id)),
        forall|other: PathView|
            other != prefixes[k] ==> #[trigger] b.leaf_at(other) == a.leaf_at(other),
    ensures
        registering(b, cursors, id, prefixes, k + 1),
{
    assert forall|path: PathView, other: u64|
        #![trigger b.leaf_at(path).consumers.contains(other)]
        b.leaf_at(path).consumers.contains(other) <==> if other == id {
            prefixes.take(k + 1).contains(path)
        } else {
            cursors.contains_key(other) && cursors[other].prefixes.contains(path)
        } by {
        lemma_take_contains(prefixes, k, path);
        assert(a.leaf_at(path).consumers.contains(other) <==> if other == id {
            prefixes.take(k).contains(path)
        } else {
            cursors.contains_key(other) && cursors[other].prefixes.contains(path)
        });
        if path == prefixes[k] {
            lemma_push_contains(a.leaf_at(path).consumers, id, other);
        } else {
            assert(b.leaf_at(path) == a.leaf_at(path));
        }
    }
}

proof fn lemma_registering_less(
    a: OriginNode,
    b: OriginNode,
    cursors: Map<u64, CursorView>,
    id: u64,
    prefixes: Seq<PathView>,
    k: int,
)
    requires
        0 <= k < prefixes.len(),
        antichain(prefixes),
        registering(a, cursors, id, prefixes, k + 1),
        b.leaf_at(prefixes[k]) == edited(a.leaf_at(prefixes[k]), Edit::Unsubscribe(id)),
        forall|other: PathView|
            other != prefixes[k] ==> #[trigger] b.leaf_at(other) == a.leaf_at(other),
    ensures
        registering(b, cursors, id, prefixes, k),
{
    assert forall|path: PathView, other: u64|
        #![trigger b.leaf_at(path).consumers.contains(other)]
        b.leaf_at(path).consumers.contains(other) <==> if other == id {
            prefixes.take(k).contains(path)
        } else {
            cursors.contains_key(other) && cursors[other].prefixes.contains(path)
        } by {
        lemma_take_contains(prefixes, k, path);
        assert(a.leaf_at(path).consumers.contains(other) <==> if other == id {
            prefixes.take(k + 1).contains(path)
        } else {
            cursors.contains_key(other) && cursors[other].prefixes.contains(path)
        });
        if path == prefixes[k] {
            lemma_without(a.leaf_at(path).consumers, id);
            if prefixes.take(k).contains(path) {
                let i = choose|i: int| 0 <= i < k && prefixes.take(k)[i] == path;
                assert(prefixes[i] == prefixes[k]);
                assert(prefixes[i].is_prefix_of(prefixes[k])) by {
                    assert(path.take(path.len() as int) =~= path);
                }
            }
        } else {
            assert(b.leaf_at(path) == a.leaf_at(path));
        }
    }
}

pub(crate) proof fn lemma_added_wf(tree: TreeView, root: PathView, prefixes: Seq<PathView>)
    requires
        tree_wf(tree),
        tree.next_cursor < u64::MAX,
        antichain(prefixes),
        forall|i: int| 0 <= i < prefixes.len() ==> root.is_prefix_of(#[trigger] prefixes[i]),
    ensures
        tree_wf(cursor_added(tree, root, prefixes)),
{
    let after = cursor_added(tree, root, prefixes);
    assert forall|front: u64| #[trigger] after.fronts.contains_key(front) implies {
        &&& front < after.next_front
        &&& front_wf(after.fronts[front].state)
        &&& !after.fronts[front].state.closed ==> owns_slot(after, front)
        &&& faced(after, front)
    } by {
        assert(tree.fronts.contains_key(front));
    }
    assert forall|id: u64| #[trigger] after.cursors.contains_key(id) implies id < after.next_cursor
        && cursor_ok(after.cursors[id]) by {
        if id != tree.next_cursor {
            assert(tree.cursors.contains_key(id));
        }
    }
}

pub(crate) proof fn lemma_dropped_wf(tree: TreeView, cursor: u64)
    requires
        tree_wf(tree),
    ensures
        tree_wf(TreeView { cursors: tree.cursors.remove(cursor), ..tree }),
{
    let after = TreeView { cursors: tree.cursors.remove(cursor), ..tree };
    assert forall|front: u64| #[trigger] after.fronts.contains_key(front) implies {
        &&& front < after.next_front
        &&& front_wf(after.fronts[front].state)
        &&& !after.fronts[front].state.closed ==> owns_slot(after, front)
        &&& faced(after, front)
    } by {
        assert(tree.fronts.contains_key(front));
    }
    assert forall|id: u64| #[trigger] after.cursors.contains_key(id) implies id < after.next_cursor
        && cursor_ok(after.cursors[id]) by {
        assert(tree.cursors.contains_key(id));
    }
}

// ---------------------------------------------------------------------------
// Laws
// ---------------------------------------------------------------------------

/// What the tree announces to a cursor at a path relative to its root.
pub open spec fn truth(tree: TreeView, cursor: u64, rel: PathView) -> Option<Broadcast> {
    let view = tree.cursors[cursor];
    if watches(view, view.root + rel) {
        match live_slot(slot_at(tree, view.root + rel)) {
            Some(front) => Some(Broadcast::Spliced(front)),
            None => None,
        }
    } else {
        None
    }
}

/// What a consumer was last told of a path.
pub open spec fn seen_at(seen: Map<PathView, Broadcast>, rel: PathView) -> Option<Broadcast> {
    if seen.contains_key(rel) {
        Some(seen[rel])
    } else {
        None
    }
}

/// Whether a consumer that was told `seen` so far will know exactly what is announced in
/// its scope once it took all that is pending.
pub open spec fn in_sync(tree: TreeView, cursor: u64, seen: Map<PathView, Broadcast>) -> bool {
    forall|rel: PathView|
        #![trigger truth(tree, cursor, rel)]
        fits(seen_at(seen, rel), pending_at(tree.cursors[cursor].pending, rel)) && settled(
            seen_at(seen, rel),
            pending_at(tree.cursors[cursor].pending, rel),
        ) == truth(tree, cursor, rel)
}

/// What a consumer was told, with one more update.
pub open spec fn seen_more(
    seen: Map<PathView, Broadcast>,
    rel: PathView,
    broadcast: Option<Broadcast>,
) -> Map<PathView, Broadcast> {
    match broadcast {
        Some(broadcast) => seen.insert(rel, broadcast),
        None => seen.remove(rel),
    }
}

/// A new cursor, told nothing yet, is in sync.
pub proof fn law_new_cursor_is_in_sync(tree: TreeView, root: PathView, prefixes: Seq<PathView>)
    ensures
        in_sync(
            cursor_added(tree, root, prefixes),
            tree.next_cursor,
            Map::<PathView, Broadcast>::empty(),
        ),
{
    let after = cursor_added(tree, root, prefixes);
    let seen = Map::<PathView, Broadcast>::empty();
    assert forall|rel: PathView|
        #![trigger truth(after, tree.next_cursor, rel)]
        fits(seen_at(seen, rel), pending_at(after.cursors[tree.next_cursor].pending, rel))
            && settled(
            seen_at(seen, rel),
            pending_at(after.cursors[tree.next_cursor].pending, rel),
        ) == truth(after, tree.next_cursor, rel) by {
        assert(slot_at(after, root + rel) == slot_at(tree, root + rel));
    }
}

/// Taking an update keeps a consumer in sync.
pub proof fn law_take_keeps_sync(
    tree: TreeView,
    cursor: u64,
    seen: Map<PathView, Broadcast>,
    path: PathView,
)
    requires
        tree.cursors.contains_key(cursor),
        tree.cursors[cursor].pending.contains_key(path),
        in_sync(tree, cursor, seen),
    ensures
        in_sync(
            cursor_taken(tree, cursor, path),
            cursor,
            seen_more(seen, path, delivered(tree.cursors[cursor].pending[path])),
        ),
{
    let pending = tree.cursors[cursor].pending;
    let after = cursor_taken(tree, cursor, path);
    let told_now = seen_more(seen, path, delivered(pending[path]));
    assert forall|rel: PathView|
        #![trigger truth(after, cursor, rel)]
        fits(seen_at(told_now, rel), pending_at(after.cursors[cursor].pending, rel)) && settled(
            seen_at(told_now, rel),
            pending_at(after.cursors[cursor].pending, rel),
        ) == truth(after, cursor, rel) by {
        assert(truth(after, cursor, rel) == truth(tree, cursor, rel));
        if rel == path {
            law_take_settles(pending, path, seen_at(seen, path));
        }
    }
}

/// The same path is never announced or unannounced twice in a row: a broadcast is only
/// delivered where the consumer knows of none, and only its end where it knows of one.
pub proof fn law_announcements_toggle(
    tree: TreeView,
    cursor: u64,
    seen: Map<PathView, Broadcast>,
    path: PathView,
)
    requires
        tree.cursors[cursor].pending.contains_key(path),
        in_sync(tree, cursor, seen),
    ensures
        delivered(tree.cursors[cursor].pending[path]) is Some <==> !seen.contains_key(path),
{
    let now = truth(tree, cursor, path);
    law_take_settles(tree.cursors[cursor].pending, path, seen_at(seen, path));
}

/// A broadcast is delivered only while it is what is announced at that path, in the scope
/// of the consumer. Broadcasts served on request are never delivered.
pub proof fn law_announcement_is_current(
    tree: TreeView,
    cursor: u64,
    seen: Map<PathView, Broadcast>,
    path: PathView,
    broadcast: Broadcast,
)
    requires
        tree.cursors[cursor].pending.contains_key(path),
        in_sync(tree, cursor, seen),
        delivered(tree.cursors[cursor].pending[path]) == Some(broadcast),
    ensures
        truth(tree, cursor, path) == Some(broadcast),
        broadcast is Spliced,
{
    let now = truth(tree, cursor, path);
    assert(settled(
        seen_at(seen, path),
        pending_at(tree.cursors[cursor].pending, path),
    ) == now);
}

/// A consumer in sync with nothing pending knows exactly what is announced in its scope.
pub proof fn law_drained_consumer_knows_the_truth(
    tree: TreeView,
    cursor: u64,
    seen: Map<PathView, Broadcast>,
    rel: PathView,
)
    requires
        in_sync(tree, cursor, seen),
        tree.cursors[cursor].pending == Map::<PathView, PendingUpdate>::empty(),
    ensures
        seen_at(seen, rel) == truth(tree, cursor, rel),
{
}

/// In-syncness looks at what is published and at the cursor itself.
pub(crate) proof fn lemma_sync_frame(a: TreeView, b: TreeView, cursor: u64, seen: Map<PathView, Broadcast>)
    requires
        in_sync(a, cursor, seen),
        a.slots == b.slots,
        a.cursors[cursor] == b.cursors[cursor],
    ensures
        in_sync(b, cursor, seen),
{
    assert forall|rel: PathView|
        #![trigger truth(b, cursor, rel)]
        fits(seen_at(seen, rel), pending_at(b.cursors[cursor].pending, rel)) && settled(
            seen_at(seen, rel),
            pending_at(b.cursors[cursor].pending, rel),
        ) == truth(b, cursor, rel) by {
        assert(truth(a, cursor, rel) == truth(b, cursor, rel));
    }
}

/// Whatever is published, replaced or removed, every consumer stays in sync.
pub proof fn law_publishing_keeps_sync(
    tree: TreeView,
    path: PathView,
    slot: Option<OriginBroadcast>,
    cursor: u64,
    seen: Map<PathView, Broadcast>,
)
    requires
        tree.cursors.contains_key(cursor),
        cursor_ok(tree.cursors[cursor]),
        in_sync(tree, cursor, seen),
    ensures
        in_sync(republished(tree, path, slot), cursor, seen),
{
    let after = republished(tree, path, slot);
    let view = tree.cursors[cursor];
    let before_live = live_slot(slot_at(tree, path));
    let after_live = live_slot(slot);
    if watches(view, path) {
        lemma_watched_below_root(view, path);
    }
    let at = path.skip(view.root.len() as int);
    assert forall|rel: PathView|
        #![trigger truth(after, cursor, rel)]
        fits(seen_at(seen, rel), pending_at(after.cursors[cursor].pending, rel)) && settled(
            seen_at(seen, rel),
            pending_at(after.cursors[cursor].pending, rel),
        ) == truth(after, cursor, rel) by {
        let known = seen_at(seen, rel);
        let queued = pending_at(view.pending, rel);
        assert(fits(known, queued) && settled(known, queued) == truth(tree, cursor, rel));
        assert(after.cursors[cursor].root == view.root);
        assert(after.cursors[cursor].prefixes == view.prefixes);
        if view.root + rel == path {
            assert(at =~= rel);
            if watches(view, path) && before_live != after_live {
                let retracted = if before_live is Some {
                    unannounced(queued)
                } else {
                    queued
                };
                if before_live is Some {
                    law_unannounce_settles(known, queued);
                }
                if after_live is Some {
                    law_announce_settles(
                        known,
                        retracted,
                        Broadcast::Spliced(after_live->0),
                    );
                }
            }
        } else {
            assert(slot_at(after, view.root + rel) == slot_at(tree, view.root + rel));
            if watches(view, path) {
                assert(view.root + at =~= path);
                assert(at != rel);
            }
        }
    }
}

/// A source attaching, moving or leaving and a front being torn down keep every consumer
/// in sync.
pub proof fn law_sources_keep_sync(
    tree: TreeView,
    cursor: u64,
    seen: Map<PathView, Broadcast>,
    path: PathView,
    self_origin: Origin,
    linger: nat,
    route: RouteView,
    source: u64,
    carrying: bool,
    front: u64,
    id: u64,
    graceful: bool,
)
    requires
        tree_wf(tree),
        tree.cursors.contains_key(cursor),
        in_sync(tree, cursor, seen),
    ensures
        in_sync(
            source_attached(tree, path, self_origin, linger, route, source, carrying),
            cursor,
            seen,
        ),
        in_sync(source_updated(tree, front, id, route, carrying), cursor, seen),
        in_sync(source_detached(tree, front, id, graceful, carrying), cursor, seen),
        in_sync(front_expired(tree, front), cursor, seen),
        in_sync(front_removed(tree, front), cursor, seen),
{
    match joinable(tree, path) {
        Some(joined) => {
            let changed = with_table(
                tree,
                joined,
                attached(tree.fronts[joined].state, route, source, carrying),
            );
            lemma_synced_keeps_sync(tree, changed, joined, cursor, seen);
        },
        None => {
            let created = TreeView {
                fronts: tree.fronts.insert(
                    tree.next_front,
                    SplicedView {
                        state: first_table(path, self_origin, linger, route, source),
                        face: route,
                        aborted: false,
                    },
                ),
                next_front: (tree.next_front + 1) as u64,
                ..tree
            };
            lemma_sync_frame(tree, created, cursor, seen);
            law_publishing_keeps_sync(
                created,
                path,
                Some(OriginBroadcast { front: tree.next_front, announced: route.announce }),
                cursor,
                seen,
            );
        },
    }
    if tree.fronts.contains_key(front) {
        let spliced = tree.fronts[front];
        lemma_synced_keeps_sync(
            tree,
            with_table(tree, front, updated(spliced.state, id, route, carrying)),
            front,
            cursor,
            seen,
        );
        lemma_synced_keeps_sync(
            tree,
            TreeView {
                fronts: tree.fronts.insert(
                    front,
                    SplicedView {
                        state: detached(spliced.state, id, graceful, carrying),
                        aborted: spliced.aborted || closes(spliced.state, id, graceful),
                        ..spliced
                    },
                ),
                ..tree
            },
            front,
            cursor,
            seen,
        );
        lemma_sync_frame(tree, front_expired(tree, front), cursor, seen);
        law_publishing_keeps_sync(tree, spliced.state.path, None, cursor, seen);
        if owns_slot(tree, front) {
            lemma_sync_frame(
                republished(tree, spliced.state.path, None),
                front_removed(tree, front),
                cursor,
                seen,
            );
        } else {
            lemma_sync_frame(tree, front_removed(tree, front), cursor, seen);
        }
    }
}

proof fn lemma_synced_keeps_sync(
    tree: TreeView,
    changed: TreeView,
    front: u64,
    cursor: u64,
    seen: Map<PathView, Broadcast>,
)
    requires
        tree_wf(tree),
        tree.cursors.contains_key(cursor),
        in_sync(tree, cursor, seen),
        changed.slots == tree.slots,
        changed.cursors == tree.cursors,
    ensures
        in_sync(synced(changed, front), cursor, seen),
{
    lemma_sync_frame(tree, changed, cursor, seen);
    if let Some(route) = active_route(changed.fronts[front].state) {
        let shown = TreeView {
            fronts: changed.fronts.insert(
                front,
                SplicedView { face: route, ..changed.fronts[front] },
            ),
            ..changed
        };
        lemma_sync_frame(changed, shown, cursor, seen);
        law_publishing_keeps_sync(
            shown,
            changed.fronts[front].state.path,
            Some(OriginBroadcast { front, announced: route.announce }),
            cursor,
            seen,
        );
    }
}

/// A consumer added or removed leaves the others in sync.
pub proof fn law_other_cursors_keep_sync(
    tree: TreeView,
    cursor: u64,
    seen: Map<PathView, Broadcast>,
    root: PathView,
    prefixes: Seq<PathView>,
    other: u64,
)
    requires
        tree_wf(tree),
        tree.cursors.contains_key(cursor),
        other != cursor,
        in_sync(tree, cursor, seen),
    ensures
        in_sync(cursor_added(tree, root, prefixes), cursor, seen),
        in_sync(TreeView { cursors: tree.cursors.remove(other), ..tree }, cursor, seen),
{
    lemma_sync_frame(tree, cursor_added(tree, root, prefixes), cursor, seen);
    lemma_sync_frame(
        tree,
        TreeView { cursors: tree.cursors.remove(other), ..tree },
        cursor,
        seen,
    );
}

/// What was created at a path is found there, announced or not.
pub proof fn law_attached_broadcast_is_found(
    tree: TreeView,
    path: PathView,
    self_origin: Origin,
    linger: nat,
    route: RouteView,
    source: u64,
    carrying: bool,
)
    requires
        tree_wf(tree),
        tree.next_front < u64::MAX,
    ensures
        ({
            let after = source_attached(
                tree,
                path,
                self_origin,
                linger,
                route,
                source,
                carrying,
            );
            slot_at(after, path) matches Some(slot) && slot.front == match joinable(tree, path) {
                Some(front) => front,
                None => tree.next_front,
            }
        }),
{
    if let Some(front) = joinable(tree, path) {
        assert(tree.slots.contains_key(path));
        lemma_attached_route(tree.fronts[front].state, route, source, carrying);
    }
}

/// A broadcast with sources is announced exactly when the route of its active source is,
/// and that is while any of its sources is announced, also when a cheaper one is offline.
pub proof fn law_announce_follows_the_active_route(tree: TreeView, front: u64)
    requires
        tree_wf(tree),
        tree.fronts.contains_key(front),
        tree.fronts[front].state.routes.len() > 0,
    ensures
        active_route(tree.fronts[front].state) == Some(tree.fronts[front].face),
        slot_at(tree, tree.fronts[front].state.path) == Some(
            OriginBroadcast { front, announced: tree.fronts[front].face.announce },
        ),
        tree.fronts[front].face.announce == any_announced(tree.fronts[front].state.routes),
{
    assert(faced(tree, front));
}

/// Tearing down a front leaves a replacement at its path alone.
pub proof fn law_teardown_spares_a_replacement(tree: TreeView, front: u64)
    requires
        tree.fronts.contains_key(front),
        !owns_slot(tree, front),
    ensures
        front_removed(tree, front).slots == tree.slots,
        front_removed(tree, front).cursors == tree.cursors,
{
}

/// Tearing down a published front leaves nothing at its path: it is not found any more,
/// and consumers that watch the path are told, since they stay in sync.
pub proof fn law_torn_down_broadcast_is_gone(
    tree: TreeView,
    front: u64,
    cursor: u64,
    rel: PathView,
)
    requires
        tree.fronts.contains_key(front),
        owns_slot(tree, front),
        tree.cursors.contains_key(cursor),
        tree.cursors[cursor].root + rel == tree.fronts[front].state.path,
    ensures
        slot_at(front_removed(tree, front), tree.fronts[front].state.path) is None,
        truth(front_removed(tree, front), cursor, rel) is None,
{
    let path = tree.fronts[front].state.path;
    lemma_told_ok(tree.cursors, path, live_slot(slot_at(tree, path)), None);
}

/// After the last source ended deliberately, a source attaching at the path makes a new
/// broadcast rather than splicing into the old one.
pub proof fn law_finished_broadcast_is_not_joined(
    tree: TreeView,
    front: u64,
    id: u64,
    carrying: bool,
)
    requires
        tree_wf(tree),
        tree.fronts.contains_key(front),
        !tree.fronts[front].state.closed,
        tree.fronts[front].state.routes.len() == 1,
        tree.fronts[front].state.routes[0].id == id,
    ensures
        joinable(
            source_detached(tree, front, id, true, carrying),
            tree.fronts[front].state.path,
        ) is None,
{
    lemma_position(tree.fronts[front].state.routes, id);
}

/// When the last source is lost abruptly and there is a linger window, nothing is told to
/// anyone and a source attaching again joins the same broadcast.
pub proof fn law_lost_broadcast_lingers(tree: TreeView, front: u64, id: u64, carrying: bool)
    requires
        tree_wf(tree),
        tree.fronts.contains_key(front),
        !tree.fronts[front].state.closed,
        tree.fronts[front].state.linger > 0,
        tree.fronts[front].state.routes.len() == 1,
        tree.fronts[front].state.routes[0].id == id,
    ensures
        ({
            let after = source_detached(tree, front, id, false, carrying);
            &&& after.slots == tree.slots
            &&& after.cursors == tree.cursors
            &&& joinable(after, tree.fronts[front].state.path) == Some(front)
        }),
{
    lemma_position(tree.fronts[front].state.routes, id);
    assert(owns_slot(tree, front));
}

/// Whether the cursors were told, and told only, that what is announced at `path` went from
/// `was` to `is`. A cursor that does not watch the path hears nothing, and neither does anyone
/// if nothing changed. An announce that was not seen is taken back silently; any other end is
/// told, before what follows it.
pub open spec fn notified(
    before: Map<u64, CursorView>,
    after: Map<u64, CursorView>,
    path: PathView,
    was: Option<u64>,
    is: Option<u64>,
) -> bool {
    &&& after.dom() == before.dom()
    &&& forall|id: u64| #[trigger]
        before.contains_key(id) ==> {
            let heard = was != is && exists|i: int|
                0 <= i < before[id].prefixes.len() && (
                #[trigger] before[id].prefixes[i]).is_prefix_of(path);
            let rel = path.skip(before[id].root.len() as int);
            let queued = pending_at(before[id].pending, rel);
            let unseen = queued is Some && queued->0 is Announce;
            &&& after[id].root == before[id].root
            &&& after[id].prefixes == before[id].prefixes
            &&& !heard ==> after[id].pending == before[id].pending
            &&& heard ==> {
                &&& forall|other: PathView|
                    other != rel ==> #[trigger] pending_at(after[id].pending, other) == pending_at(
                        before[id].pending,
                        other,
                    )
                &&& pending_at(after[id].pending, rel) == match (was, is) {
                    (Some(_), None) => if unseen {
                        None
                    } else {
                        Some(PendingUpdate::Unannounce)
                    },
                    (Some(_), Some(front)) => if unseen {
                        Some(PendingUpdate::Announce(Broadcast::Spliced(front)))
                    } else {
                        Some(PendingUpdate::UnannounceAnnounce(Broadcast::Spliced(front)))
                    },
                    (None, Some(front)) => if queued is None || unseen {
                        Some(PendingUpdate::Announce(Broadcast::Spliced(front)))
                    } else {
                        Some(PendingUpdate::UnannounceAnnounce(Broadcast::Spliced(front)))
                    },
                    (None, None) => queued,
                }
            }
        }
}

proof fn lemma_notified(
    cursors: Map<u64, CursorView>,
    path: PathView,
    was: Option<u64>,
    is: Option<u64>,
)
    ensures
        notified(cursors, change_told(cursors, path, was, is), path, was, is),
{
    assert(change_told(cursors, path, was, is).dom() =~= cursors.dom());
}

/// The front announced at a path, if one is.
pub open spec fn announced_at(tree: TreeView, path: PathView) -> Option<u64> {
    if tree.slots.contains_key(path) && tree.slots[path].announced {
        Some(tree.slots[path].front)
    } else {
        None
    }
}

/// A front that is published shows the route of its active source after its table changed, is
/// announced exactly if that route is, and everyone who watches the path is told of a change in
/// that and of nothing else. Without an active source nothing is shown or told.
pub open spec fn shown(before: TreeView, after: TreeView, front: u64) -> bool {
    let now = after.fronts[front];
    let path = before.fronts[front].state.path;
    &&& forall|i: int|
        0 <= i < now.state.routes.len() && now.state.active == Some(
            (#[trigger] now.state.routes[i]).id,
        ) ==> now.face == now.state.routes[i].route && after.slots == before.slots.insert(
            path,
            OriginBroadcast { front, announced: now.state.routes[i].route.announce },
        )
    &&& now.state.routes.len() == 0 ==> now.face == before.fronts[front].face && after.slots
        == before.slots
    &&& notified(
        before.cursors,
        after.cursors,
        path,
        announced_at(before, path),
        announced_at(after, path),
    )
}

proof fn lemma_shown(before: TreeView, front: u64, now: SplicedView)
    requires
        tree_wf(before),
        before.fronts.contains_key(front),
        !before.fronts[front].state.closed,
        front_wf(now.state),
        now.state.path == before.fronts[front].state.path,
        now.state.routes.len() > 0 ==> active_route(now.state) is Some,
        now.state.routes.len() == 0 ==> active_route(now.state) is None,
        now.face == before.fronts[front].face,
    ensures
        ({
            let after = synced(
                TreeView { fronts: before.fronts.insert(front, now), ..before },
                front,
            );
            &&& shown(before, after, front)
            &&& after.fronts.contains_key(front)
            &&& after.fronts[front].state == now.state
            &&& after.fronts[front].aborted == now.aborted
            &&& after.fronts.remove(front) == before.fronts.remove(front)
            &&& after.next_front == before.next_front
            &&& after.next_cursor == before.next_cursor
        }),
{
    let edited = TreeView { fronts: before.fronts.insert(front, now), ..before };
    let after = synced(edited, front);
    let path = now.state.path;
    assert(owns_slot(before, front));
    assert(owns_slot(edited, front));
    assert(after.fronts.remove(front) =~= before.fronts.remove(front));
    if now.state.active is Some {
        lemma_position(now.state.routes, now.state.active->0);
    }
    assert forall|i: int|
        0 <= i < now.state.routes.len() && now.state.active == Some(
            (#[trigger] now.state.routes[i]).id,
        ) implies after.fronts[front].face == now.state.routes[i].route && after.slots
        == before.slots.insert(
        path,
        OriginBroadcast { front, announced: now.state.routes[i].route.announce },
    ) by {
        let p = position(now.state.routes, now.state.active->0)->0;
        if p < i {
            assert(now.state.routes[p].id != now.state.routes[i].id);
        }
    }
    match active_route(now.state) {
        Some(route) => {
            lemma_notified(
                before.cursors,
                path,
                live_slot(slot_at(before, path)),
                live_slot(Some(OriginBroadcast { front, announced: route.announce })),
            );
        },
        None => {
            lemma_notified(before.cursors, path, None, None);
            assert(change_told(before.cursors, path, None, None) == before.cursors);
        },
    }
}

/// A source attaching where an open broadcast is published joins it: it goes to the end of that
/// table, and no other broadcast changes.
pub proof fn law_source_joins_an_open_broadcast(
    tree: &mut OriginTree,
    path: Path,
    self_origin: Origin,
    linger: Duration,
    route: Route,
    source: u64,
    carrying: bool,
    r: Attachment,
)
    requires
        call_ensures(
            OriginTree::attach_source,
            (tree, &path, self_origin, linger, route, source, carrying),
            r,
        ),
        tree_wf(old(tree)@),
        old(tree)@.slots.contains_key(path@),
        !old(tree)@.fronts[old(tree)@.slots[path@].front].state.closed,
        old(tree)@.fronts[old(tree)@.slots[path@].front].state.next_route < u64::MAX,
    ensures
        ({
            let front = old(tree)@.slots[path@].front;
            let was = old(tree)@.fronts[front].state;
            let is = final(tree)@.fronts[front].state;
            &&& r.front == front && r.id == was.next_route && !r.created
            &&& is.routes == was.routes.push(EntryView { id: r.id, route: route@, source })
            &&& is == attached(was, route@, source, carrying)
            &&& final(tree)@.fronts[front].aborted == old(tree)@.fronts[front].aborted
            &&& shown(old(tree)@, final(tree)@, front)
            &&& final(tree)@.fronts.remove(front) == old(tree)@.fronts.remove(front)
            &&& final(tree)@.fronts.contains_key(front)
            &&& final(tree)@.next_front == old(tree)@.next_front
            &&& final(tree)@.next_cursor == old(tree)@.next_cursor
        }),
{
    let front = old(tree)@.slots[path@].front;
    let was = old(tree)@.fronts[front];
    let now = SplicedView { state: attached(was.state, route@, source, carrying), ..was };
    lemma_attached_wf(was.state, route@, source, carrying);
    lemma_attached_route(was.state, route@, source, carrying);
    lemma_shown(old(tree)@, front, now);
}

/// A source attaching where nothing open is published makes a broadcast of its own, published
/// there with that source alone; everyone who watches the path is told if it is announced, and
/// of the end of an announced one that it replaces.
pub proof fn law_source_makes_a_broadcast(
    tree: &mut OriginTree,
    path: Path,
    self_origin: Origin,
    linger: Duration,
    route: Route,
    source: u64,
    carrying: bool,
    r: Attachment,
)
    requires
        call_ensures(
            OriginTree::attach_source,
            (tree, &path, self_origin, linger, route, source, carrying),
            r,
        ),
        tree_wf(old(tree)@),
        old(tree)@.next_front < u64::MAX,
        old(tree)@.slots.contains_key(path@) ==> old(tree)@.fronts[old(
            tree,
        )@.slots[path@].front].state.closed,
    ensures
        ({
            let front = old(tree)@.next_front;
            &&& r.front == front && r.id == 0 && r.created
            &&& !old(tree)@.fronts.contains_key(front)
            &&& final(tree)@.next_front == front + 1
            &&& final(tree)@.next_cursor == old(tree)@.next_cursor
            &&& final(tree)@.fronts == old(tree)@.fronts.insert(
                front,
                SplicedView {
                    state: FrontView {
                        path: path@,
                        self_origin,
                        next_route: 1,
                        routes: seq![EntryView { id: 0, route: route@, source }],
                        active: Some(0),
                        linger: linger@,
                        closed: false,
                    },
                    face: route@,
                    aborted: false,
                },
            )
            &&& final(tree)@.slots == old(tree)@.slots.insert(
                path@,
                OriginBroadcast { front, announced: route@.announce },
            )
            &&& notified(
                old(tree)@.cursors,
                final(tree)@.cursors,
                path@,
                announced_at(old(tree)@, path@),
                if route@.announce {
                    Some(front)
                } else {
                    None
                },
            )
        }),
{
    let front = old(tree)@.next_front;
    lemma_notified(
        old(tree)@.cursors,
        path@,
        live_slot(slot_at(old(tree)@, path@)),
        live_slot(Some(OriginBroadcast { front, announced: route@.announce })),
    );
}

/// A source that moves to another route changes its own broadcast alone. Moving one that is
/// gone, or to the route it has, changes nothing and nobody is told.
pub proof fn law_moved_source_changes_its_broadcast(
    tree: &mut OriginTree,
    front: u64,
    id: u64,
    route: Route,
    carrying: bool,
    r: Update,
    i: int,
)
    requires
        call_ensures(OriginTree::update_source, (tree, front, id, &route, carrying), r),
        tree_wf(old(tree)@),
    ensures
        r == Update::Missing <==> !old(tree)@.fronts.contains_key(front) || forall|j: int|
            0 <= j < old(tree)@.fronts[front].state.routes.len() ==> (#[trigger] old(
                tree,
            )@.fronts[front].state.routes[j]).id != id,
        r != Update::Changed ==> final(tree)@ == old(tree)@,
        old(tree)@.fronts.contains_key(front) && 0 <= i < old(
            tree,
        )@.fronts[front].state.routes.len() && old(tree)@.fronts[front].state.routes[i].id == id
            ==> (r == Update::Unchanged <==> old(tree)@.fronts[front].state.routes[i].route
            == route@),
        r == Update::Changed ==> {
            &&& final(tree)@.fronts.contains_key(front)
            &&& final(tree)@.fronts[front].state == updated(
                old(tree)@.fronts[front].state,
                id,
                route@,
                carrying,
            )
            &&& final(tree)@.fronts[front].aborted == old(tree)@.fronts[front].aborted
            &&& shown(old(tree)@, final(tree)@, front)
            &&& final(tree)@.fronts.remove(front) == old(tree)@.fronts.remove(front)
            &&& final(tree)@.next_front == old(tree)@.next_front
            &&& final(tree)@.next_cursor == old(tree)@.next_cursor
        },
{
    if old(tree)@.fronts.contains_key(front) {
        let was = old(tree)@.fronts[front];
        lemma_position(was.state.routes, id);
        if 0 <= i < was.state.routes.len() && was.state.routes[i].id == id {
            let p = position(was.state.routes, id)->0;
            if p < i {
                assert(was.state.routes[p].id != was.state.routes[i].id);
            }
        }
        if r == Update::Changed {
            let now = SplicedView { state: updated(was.state, id, route@, carrying), ..was };
            lemma_updated_wf(was.state, id, route@, carrying);
            lemma_updated_route(was.state, id, route@, carrying);
            lemma_shown(old(tree)@, front, now);
        }
    }
}

/// A source that detaches changes its own broadcast alone. Its tracks are to be aborted exactly
/// when this closed it, which the result says.
pub proof fn law_detached_source_changes_its_broadcast(
    tree: &mut OriginTree,
    front: u64,
    id: u64,
    graceful: bool,
    carrying: bool,
    closed: bool,
)
    requires
        call_ensures(OriginTree::detach_source, (tree, front, id, graceful, carrying), closed),
        tree_wf(old(tree)@),
    ensures
        ({
            let was = old(tree)@.fronts[front];
            let there = old(tree)@.fronts.contains_key(front) && exists|j: int|
                0 <= j < was.state.routes.len() && (#[trigger] was.state.routes[j]).id == id;
            &&& !there ==> !closed && final(tree)@ == old(tree)@
            &&& there ==> {
                let is = final(tree)@.fronts[front];
                &&& closed <==> was.state.routes.len() == 1 && (graceful || was.state.linger == 0)
                &&& is.state == detached(was.state, id, graceful, carrying)
                &&& is.state.closed == closed
                &&& is.aborted <==> was.aborted || closed
                &&& final(tree)@.fronts.contains_key(front)
                &&& shown(old(tree)@, final(tree)@, front)
                &&& final(tree)@.fronts.remove(front) == old(tree)@.fronts.remove(front)
                &&& final(tree)@.next_front == old(tree)@.next_front
                &&& final(tree)@.next_cursor == old(tree)@.next_cursor
            }
        }),
{
    if old(tree)@.fronts.contains_key(front) {
        let was = old(tree)@.fronts[front];
        lemma_position(was.state.routes, id);
        if position(was.state.routes, id) is Some {
            let now = SplicedView {
                state: detached(was.state, id, graceful, carrying),
                aborted: was.aborted || closes(was.state, id, graceful),
                ..was
            };
            lemma_detached_wf(was.state, id, graceful, carrying);
            lemma_detached_route(was.state, id, graceful, carrying);
            lemma_shown(old(tree)@, front, now);
        }
    }
}

/// A linger window that runs out closes an open broadcast without sources, and tells nobody.
pub proof fn law_expired_broadcast_is_closed(tree: &mut OriginTree, front: u64, closed: bool)
    requires
        call_ensures(OriginTree::expire_front, (tree, front), closed),
    ensures
        closed <==> old(tree)@.fronts.contains_key(front) && !old(tree)@.fronts[front].state.closed
            && old(tree)@.fronts[front].state.routes.len() == 0,
        !closed ==> final(tree)@ == old(tree)@,
        closed ==> final(tree)@ == (TreeView {
            fronts: old(tree)@.fronts.insert(
                front,
                SplicedView {
                    state: FrontView { closed: true, ..old(tree)@.fronts[front].state },
                    ..old(tree)@.fronts[front]
                },
            ),
            ..old(tree)@
        }),
{
    if old(tree)@.fronts.contains_key(front) && !closed {
        assert(final(tree)@.fronts =~= old(tree)@.fronts);
    }
}

/// A broadcast that is torn down is forgotten. If it is still what is published at its path, it
/// is unpublished and those who watch the path are told; a replacement stays.
pub proof fn law_teardown_unpublishes_its_own(tree: &mut OriginTree, front: u64)
    requires
        call_ensures(OriginTree::remove_front, (tree, front), ()),
    ensures
        final(tree)@.fronts == old(tree)@.fronts.remove(front),
        final(tree)@.next_front == old(tree)@.next_front,
        final(tree)@.next_cursor == old(tree)@.next_cursor,
        ({
            let path = old(tree)@.fronts[front].state.path;
            let own = old(tree)@.fronts.contains_key(front) && old(tree)@.slots.contains_key(path)
                && old(tree)@.slots[path].front == front;
            &&& !own ==> final(tree)@.slots == old(tree)@.slots && final(tree)@.cursors == old(
                tree,
            )@.cursors
            &&& own ==> final(tree)@.slots == old(tree)@.slots.remove(path) && notified(
                old(tree)@.cursors,
                final(tree)@.cursors,
                path,
                announced_at(old(tree)@, path),
                None,
            )
        }),
{
    let path = old(tree)@.fronts[front].state.path;
    if !old(tree)@.fronts.contains_key(front) {
        assert(old(tree)@.fronts.remove(front) =~= old(tree)@.fronts);
    }
    lemma_notified(old(tree)@.cursors, path, live_slot(slot_at(old(tree)@, path)), None);
}

/// A new cursor has an announce pending for each broadcast announced at or below one of its
/// prefixes, by its path below the root, and nothing else. It changes nothing for anyone else.
pub proof fn law_new_cursor_is_told_what_is_announced(
    tree: &mut OriginTree,
    root: Path,
    prefixes: Vec<Path>,
    id: u64,
    rel: PathView,
)
    requires
        call_ensures(OriginTree::subscribe, (tree, root, prefixes), id),
        old(tree)@.next_cursor < u64::MAX,
    ensures
        id == old(tree)@.next_cursor,
        final(tree)@.next_cursor == id + 1,
        final(tree)@.cursors.contains_key(id),
        final(tree)@.cursors[id].root == root@,
        final(tree)@.cursors[id].prefixes == views(prefixes@),
        pending_at(final(tree)@.cursors[id].pending, rel) == match announced_at(
            old(tree)@,
            root@ + rel,
        ) {
            Some(front) => if exists|i: int|
                0 <= i < prefixes@.len() && (#[trigger] prefixes@[i])@.is_prefix_of(root@ + rel) {
                Some(PendingUpdate::Announce(Broadcast::Spliced(front)))
            } else {
                None
            },
            None => None,
        },
        final(tree)@.cursors.remove(id) == old(tree)@.cursors.remove(id),
        final(tree)@.slots == old(tree)@.slots,
        final(tree)@.fronts == old(tree)@.fronts,
        final(tree)@.next_front == old(tree)@.next_front,
{
    let path = root@ + rel;
    let all = views(prefixes@);
    assert(final(tree)@.cursors.remove(id) =~= old(tree)@.cursors.remove(id));
    if covers(all, path) {
        let i = choose|i: int| 0 <= i < all.len() && (#[trigger] all[i]).is_prefix_of(path);
        assert(prefixes@[i]@.is_prefix_of(path));
    }
    if exists|i: int| 0 <= i < prefixes@.len() && (#[trigger] prefixes@[i])@.is_prefix_of(path) {
        let i = choose|i: int|
            0 <= i < prefixes@.len() && (#[trigger] prefixes@[i])@.is_prefix_of(path);
        assert(all[i].is_prefix_of(path));
    }
}

/// A cursor that takes an update takes the first pending one, and nothing but what it has
/// pending for that path changes: a replacement leaves its announce, any other update is gone.
pub proof fn law_taken_update_is_the_first(
    tree: &mut OriginTree,
    cursor: u64,
    r: Option<OriginAnnounce>,
    other: PathView,
)
    requires
        call_ensures(OriginTree::take, (tree, cursor), r),
    ensures
        r is None ==> final(tree)@ == old(tree)@ && (old(tree)@.cursors.contains_key(cursor)
            ==> !old(tree)@.cursors[cursor].pending.contains_key(other)),
        r is Some ==> {
            let path = r->0.path@;
            let was = old(tree)@.cursors[cursor].pending;
            let is = final(tree)@.cursors[cursor].pending;
            &&& old(tree)@.cursors.contains_key(cursor)
            &&& was.contains_key(path)
            &&& was.contains_key(other) && other != path ==> path_lt(path, other)
            &&& was[path] is Announce ==> r->0.broadcast == Some(was[path]->Announce_0) && is
                == was.remove(path)
            &&& was[path] is Unannounce ==> r->0.broadcast is None && is == was.remove(path)
            &&& was[path] is UnannounceAnnounce ==> r->0.broadcast is None && is == was.insert(
                path,
                PendingUpdate::Announce(was[path]->UnannounceAnnounce_0),
            )
            &&& final(tree)@ == (TreeView {
                cursors: old(tree)@.cursors.insert(
                    cursor,
                    CursorView { pending: is, ..old(tree)@.cursors[cursor] },
                ),
                ..old(tree)@
            })
        },
{
}

/// Removing a cursor removes it, and nothing else.
pub proof fn law_removed_cursor_is_gone(tree: &mut OriginTree, cursor: u64, there: bool)
    requires
        call_ensures(OriginTree::unsubscribe, (tree, cursor), ()),
        call_ensures(OriginTree::has_cursor, (&*final(tree), cursor), there),
    ensures
        !there,
        final(tree)@.cursors == old(tree)@.cursors.remove(cursor),
        final(tree)@.slots == old(tree)@.slots,
        final(tree)@.fronts == old(tree)@.fronts,
        final(tree)@.next_front == old(tree)@.next_front,
        final(tree)@.next_cursor == old(tree)@.next_cursor,
{
}

/// What is found at a path is what is published there, announced or not; an empty tree has
/// nothing.
pub proof fn law_found_is_what_is_published(
    tree: OriginTree,
    fresh: OriginTree,
    path: Path,
    found: Option<Broadcast>,
    none: Option<Broadcast>,
)
    requires
        call_ensures(OriginTree::new, (), fresh),
        call_ensures(OriginTree::consume_broadcast, (&tree, &path), found),
        call_ensures(OriginTree::consume_broadcast, (&fresh, &path), none),
    ensures
        found is Some <==> tree@.slots.contains_key(path@),
        found is Some ==> found == Some(Broadcast::Spliced(tree@.slots[path@].front)),
        none is None,
        fresh@.slots == Map::<PathView, OriginBroadcast>::empty(),
        fresh@.fronts == Map::<u64, SplicedView>::empty(),
        fresh@.cursors == Map::<u64, CursorView>::empty(),
        fresh@.next_front == 0 && fresh@.next_cursor == 0,
{
}

/// The status and face of a broadcast are those of its table: whether it is over, whether it
/// has sources, its window, its active source and the route it shows.
pub proof fn law_status_reflects_the_table(
    tree: OriginTree,
    front: u64,
    status: Option<FrontStatus>,
    face: Option<(Route, bool)>,
    i: int,
)
    requires
        call_ensures(OriginTree::front_status, (&tree, front), status),
        call_ensures(OriginTree::front_face, (&tree, front), face),
        tree_wf(tree@),
    ensures
        status is Some <==> tree@.fronts.contains_key(front),
        face is Some <==> tree@.fronts.contains_key(front),
        tree@.fronts.contains_key(front) ==> {
            let state = tree@.fronts[front].state;
            let status = status->0;
            let (advertised, aborted) = face->0;
            &&& status.closed == state.closed
            &&& status.empty <==> state.routes.len() == 0
            &&& status.linger@ == state.linger
            &&& 0 <= i < state.routes.len() && state.active == Some(state.routes[i].id)
                ==> status.active == Some((state.routes[i].id, state.routes[i].source))
                && advertised@ == state.routes[i].route
            &&& (forall|j: int| 0 <= j < state.routes.len() ==> state.active != Some(
                (#[trigger] state.routes[j]).id,
            )) ==> status.active is None
            &&& advertised@ == tree@.fronts[front].face
            &&& aborted == tree@.fronts[front].aborted
        },
{
    if tree@.fronts.contains_key(front) {
        let state = tree@.fronts[front].state;
        assert(faced(tree@, front));
        if state.active is Some {
            lemma_position(state.routes, state.active->0);
            if 0 <= i < state.routes.len() && state.active == Some(state.routes[i].id) {
                let p = position(state.routes, state.active->0)->0;
                if p < i {
                    assert(state.routes[p].id != state.routes[i].id);
                }
            }
        }
    }
}

} // verus!
