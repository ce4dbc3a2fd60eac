//! The table of sources behind a spliced broadcast, and which of them is active.

use crate::origin::{ids, Origin};
use crate::path::Path;
use crate::route::{
    fnv_key, key_hash, key_less, key_lt, order_key, route_order, Route, RouteView,
};
use crate::time::Duration;
use vstd::prelude::*;

verus! {

/// One attached source in a [`FrontState`] table.
pub struct FrontRoute {
    /// The source's id in the table.
    pub id: u64,
    /// The source's latest route; picks the active source and decides the announce.
    pub route: Route,
    /// The handle of the source broadcast tracks are served from.
    pub source: u64,
}

/// The contents of a [`FrontRoute`].
#[verifier::ext_equal]
pub ghost struct EntryView {
    /// The source's id in the table.
    pub id: u64,
    /// The source's latest route.
    pub route: RouteView,
    /// The handle of the source broadcast.
    pub source: u64,
}

impl View for FrontRoute {
    type V = EntryView;

    open spec fn view(&self) -> EntryView {
        EntryView { id: self.id, route: self.route@, source: self.source }
    }
}

/// The attached sources of one broadcast and which one is active.
pub struct FrontState {
    /// Absolute path of the broadcast, mixed into the route tie-break hash.
    pub path: Path,
    /// The local origin's identity, the other half of the handover key comparison.
    pub self_origin: Origin,
    /// The id of the next source.
    pub next_route: u64,
    /// The attached sources, in order of arrival.
    pub routes: Vec<FrontRoute>,
    /// The source tracks are dispatched to. Backups park until promoted.
    pub active: Option<u64>,
    /// How long the front outlives ungracefully losing its last source.
    pub linger: Duration,
    /// Terminal: no more sources may attach and every poller stops. Set by the detach
    /// that empties the table, or when the linger window expires without a replacement.
    pub closed: bool,
}

/// The contents of a [`FrontState`].
#[verifier::ext_equal]
pub ghost struct FrontView {
    /// Absolute path of the broadcast.
    pub path: Seq<Seq<char>>,
    /// The local origin.
    pub self_origin: Origin,
    /// The id of the next source.
    pub next_route: u64,
    /// The attached sources, in order of arrival.
    pub routes: Seq<EntryView>,
    /// The source tracks are dispatched to.
    pub active: Option<u64>,
    /// The linger window, in nanoseconds.
    pub linger: nat,
    /// Whether the front is over.
    pub closed: bool,
}

/// The views of a table of sources.
pub open spec fn entries(routes: Seq<FrontRoute>) -> Seq<EntryView> {
    Seq::new(routes.len(), |i: int| routes[i]@)
}

impl View for FrontState {
    type V = FrontView;

    open spec fn view(&self) -> FrontView {
        FrontView {
            path: self.path@,
            self_origin: self.self_origin,
            next_route: self.next_route,
            routes: entries(self.routes@),
            active: self.active,
            linger: self.linger@,
            closed: self.closed,
        }
    }
}

/// The first entry with the given id.
pub open spec fn position(routes: Seq<EntryView>, id: u64) -> Option<int>
    decreases routes.len(),
{
    if routes.len() == 0 {
        None
    } else {
        match position(routes.drop_last(), id) {
            Some(i) => Some(i),
            None => if routes.last().id == id {
                Some(routes.len() - 1)
            } else {
                None
            },
        }
    }
}

/// The first entry that no entry wins over.
pub open spec fn best_index(name: Seq<Seq<char>>, routes: Seq<EntryView>) -> int
    decreases routes.len(),
{
    if routes.len() <= 1 {
        0
    } else {
        let best = best_index(name, routes.drop_last());
        if key_lt(order_key(name, routes.last().route), order_key(name, routes[best].route)) {
            routes.len() - 1
        } else {
            best
        }
    }
}

/// The id of the best entry, if there is any.
pub open spec fn best_id(front: FrontView) -> Option<u64> {
    if front.routes.len() == 0 {
        None
    } else {
        Some(front.routes[best_index(front.path, front.routes)].id)
    }
}

/// Whether a relay may re-parent onto a chain that ends at `peer` while carrying: the
/// peer's key for this broadcast must be strictly below its own.
pub open spec fn key_below(name: Seq<Seq<char>>, peer: Origin, own: Origin) -> bool {
    key_hash(name, seq![peer@]) < key_hash(name, seq![own@])
}

/// Whether re-parenting onto `route` is allowed while carrying.
pub open spec fn handover_allowed(front: FrontView, route: RouteView) -> bool {
    route.hops.len() == 0 || key_below(front.path, route.hops.last(), front.self_origin)
}

/// Whether a carrying front must keep its incumbent although `best` is cheaper: the
/// candidate is a warm sibling and the key comparison says that it comes to us.
pub open spec fn handover_blocked(front: FrontView, incumbent: RouteView, best: RouteView) -> bool {
    &&& incumbent.announce
    &&& best.cost < incumbent.cost
    &&& best.advertised == 0
    &&& best.hops.len() >= 2
    &&& !handover_allowed(front, best)
}

/// The active source after a table change.
pub open spec fn reselected_active(front: FrontView, carrying: bool) -> Option<u64> {
    match (best_id(front), front.active) {
        (Some(best), Some(current)) => match (
            position(front.routes, best),
            position(front.routes, current),
        ) {
            (Some(b), Some(c)) => if carrying && best != current && handover_blocked(
                front,
                front.routes[c].route,
                front.routes[b].route,
            ) {
                front.active
            } else {
                Some(best)
            },
            _ => Some(best),
        },
        (best, _) => best,
    }
}

/// The front after the active source was picked again.
pub open spec fn reselected(front: FrontView, carrying: bool) -> FrontView {
    FrontView { active: reselected_active(front, carrying), ..front }
}

/// The route of the active source, if any.
pub open spec fn active_route(front: FrontView) -> Option<RouteView> {
    match front.active {
        Some(id) => match position(front.routes, id) {
            Some(i) => Some(front.routes[i].route),
            None => None,
        },
        None => None,
    }
}

/// The front after a source attached.
pub open spec fn attached(
    front: FrontView,
    route: RouteView,
    source: u64,
    carrying: bool,
) -> FrontView {
    reselected(
        FrontView {
            next_route: (front.next_route + 1) as u64,
            routes: front.routes.push(EntryView { id: front.next_route, route, source }),
            ..front
        },
        carrying,
    )
}

/// The front after source `id` moved to another route.
pub open spec fn updated(front: FrontView, id: u64, route: RouteView, carrying: bool) -> FrontView {
    match position(front.routes, id) {
        Some(i) => if front.routes[i].route == route {
            front
        } else {
            reselected(
                FrontView {
                    routes: front.routes.update(i, EntryView { route, ..front.routes[i] }),
                    ..front
                },
                carrying,
            )
        },
        None => front,
    }
}

/// Whether detaching source `id` closes the front: it is the last one, and it ended
/// deliberately or there is no linger window.
pub open spec fn closes(front: FrontView, id: u64, graceful: bool) -> bool {
    position(front.routes, id) is Some && front.routes.len() == 1 && !front.closed && (graceful
        || front.linger == 0)
}

/// The front after source `id` detached.
pub open spec fn detached(front: FrontView, id: u64, graceful: bool, carrying: bool) -> FrontView {
    match position(front.routes, id) {
        Some(i) => FrontView {
            closed: front.closed || closes(front, id, graceful),
            ..reselected(FrontView { routes: front.routes.remove(i), ..front }, carrying)
        },
        None => front,
    }
}

/// The front after its linger window ran out.
pub open spec fn expired(front: FrontView) -> FrontView {
    FrontView { closed: front.closed || front.routes.len() == 0, ..front }
}

/// The ids of the table are distinct and were handed out; a closed table is empty.
pub open spec fn front_wf(front: FrontView) -> bool {
    &&& forall|i: int, j: int|
        0 <= i < j < front.routes.len() ==> (#[trigger] front.routes[i]).id != (
        #[trigger] front.routes[j]).id
    &&& forall|i: int|
        0 <= i < front.routes.len() ==> (#[trigger] front.routes[i]).id < front.next_route
    &&& front.closed ==> front.routes.len() == 0
}

/// What became of a source's route update.
#[derive(Clone, Copy, Debug, PartialEq, Eq, Structural)]
pub enum Update {
    /// The source is not attached any more.
    Missing,
    /// The route is the one already known.
    Unchanged,
    /// The table changed.
    Changed,
}

/// What the first entry with an id is.
pub proof fn lemma_position(routes: Seq<EntryView>, id: u64)
    ensures
        match position(routes, id) {
            Some(i) => 0 <= i < routes.len() && routes[i].id == id && forall|j: int|
                0 <= j < i ==> (#[trigger] routes[j]).id != id,
            None => forall|j: int| 0 <= j < routes.len() ==> (#[trigger] routes[j]).id != id,
        },
    decreases routes.len(),
{
    if routes.len() > 0 {
        let rest = routes.drop_last();
        lemma_position(rest, id);
        assert(forall|j: int| 0 <= j < rest.len() ==> rest[j] == routes[j]);
    }
}

proof fn lemma_position_is(routes: Seq<EntryView>, id: u64, i: int)
    requires
        0 <= i < routes.len(),
        routes[i].id == id,
        forall|j: int| 0 <= j < i ==> (#[trigger] routes[j]).id != id,
    ensures
        position(routes, id) == Some(i),
{
    lemma_position(routes, id);
}

proof fn lemma_best_index(name: Seq<Seq<char>>, routes: Seq<EntryView>)
    requires
        routes.len() > 0,
    ensures
        0 <= best_index(name, routes) < routes.len(),
        forall|j: int|
            0 <= j < routes.len() ==> !key_lt(
                order_key(name, (#[trigger] routes[j]).route),
                order_key(name, routes[best_index(name, routes)].route),
            ),
        forall|j: int|
            0 <= j < best_index(name, routes) ==> key_lt(
                order_key(name, routes[best_index(name, routes)].route),
                order_key(name, (#[trigger] routes[j]).route),
            ),
    decreases routes.len(),
{
    if routes.len() > 1 {
        let rest = routes.drop_last();
        lemma_best_index(name, rest);
        assert(forall|j: int| 0 <= j < rest.len() ==> rest[j] == routes[j]);
    }
}

/// Find a source in a table.
fn find(routes: &Vec<FrontRoute>, id: u64) -> (r: Option<usize>)
    ensures
        match r {
            Some(i) => position(entries(routes@), id) == Some(i as int) && i < routes@.len(),
            None => position(entries(routes@), id) is None,
        },
{
    let mut i: usize = 0;
    let ghost all = entries(routes@);
    while i < routes.len()
        invariant
            i <= routes@.len(),
            all == entries(routes@),
            forall|j: int| 0 <= j < i ==> (#[trigger] all[j]).id != id,
        decreases routes@.len() - i,
    {
        if routes[i].id == id {
            proof {
                assert(all[i as int].id == id);
                lemma_position_is(all, id, i as int);
            }
            return Some(i);
        }
        assert(all[i as int].id != id);
        i = i + 1;
    }
    proof {
        lemma_position(all, id);
    }
    None
}

impl FrontState {
    /// The table's invariant.
    pub open spec fn wf(&self) -> bool {
        front_wf(self@)
    }

    /// The source new track requests should dispatch to: live first, then lowest
    /// cost, then shortest hop chain with a deterministic hash tie-break.
    pub fn best_route(&self) -> (r: Option<u64>)
        ensures
            r == best_id(self@),
    {
        if self.routes.len() == 0 {
            return None;
        }
        let ghost all = entries(self.routes@);
        let mut best: usize = 0;
        let mut key = route_order(&self.path, &self.routes[0].route);
        let mut i: usize = 1;
        while i < self.routes.len()
            invariant
                all == entries(self.routes@),
                1 <= i <= self.routes@.len(),
                best < i,
                best == best_index(self.path@, all.take(i as int)),
                key == order_key(self.path@, all[best as int].route),
            decreases self.routes@.len() - i,
        {
            let other = route_order(&self.path, &self.routes[i].route);
            proof {
                let next = all.take(i + 1);
                assert(next.drop_last() =~= all.take(i as int));
                assert(next[best as int] == all[best as int]);
                assert(next.last() == self.routes@[i as int]@);
            }
            if key_less(other, key) {
                best = i;
                key = other;
            }
            i = i + 1;
        }
        assert(all.take(i as int) =~= all);
        Some(self.routes[best].id)
    }

    /// Re-pick the active source after the table changed. Serve tasks watch
    /// `active` and re-splice on their own, so a cheaper route takes over
    /// seamlessly at a group boundary.
    ///
    /// The one exception is the simultaneous-activation race: two nodes that
    /// each pulled the broadcast before seeing the other both advertise zero
    /// cost, so each sees the other as cheaper than its own source, and
    /// re-parenting onto each other at once leaves the broadcast with no
    /// upstream at all. That hazard only exists when both sides are actively
    /// carrying, so the exception is scoped to exactly that: while `carrying` (the
    /// front has live demand), a cheaper route whose announcing relay is itself
    /// carrying (it advertised zero from a chain of two or more hops; a chain of
    /// one is the first publisher, which can never adopt a route to its own
    /// broadcast) displaces an announced incumbent only when
    /// [`Self::handover_allowed`] says so. Every other cheaper route, e.g. a
    /// forwarder path or an upstream that repriced itself down, is taken
    /// immediately.
    pub fn reselect(&mut self, carrying: bool)
        ensures
            final(self)@ == reselected(old(self)@, carrying),
    {
        let best = self.best_route();
        if carrying {
            if let (Some(best_id), Some(cur_id)) = (best, self.active) {
                if best_id != cur_id {
                    if let (Some(b), Some(c)) = (
                        find(&self.routes, best_id),
                        find(&self.routes, cur_id),
                    ) {
                        let candidate = &self.routes[b].route;
                        let incumbent = &self.routes[c].route;
                        if incumbent.announce && candidate.cost < incumbent.cost
                            && candidate.advertised == 0 && candidate.hops.len() >= 2
                            && !self.handover_allowed(candidate) {
                            // We won the key comparison: keep our source and let the
                            // peer come to us.
                            return;
                        }
                    }
                }
            }
        }
        self.active = best;
    }

    /// Whether re-parenting onto `route` is allowed while actively carrying: the
    /// announcing peer (the chain's last hop) must hash strictly below our own
    /// origin for this broadcast name.
    ///
    /// Both sides compute the same two keys (the hash is build-stable and the
    /// inputs are shared), so the comparison resolves the same way everywhere:
    /// the lower-keyed node keeps its source, the higher-keyed one re-parents.
    /// A strict total order has no cycles, so mutual pulls cannot happen. Mixing
    /// the broadcast name in spreads ownership across a region's relays instead
    /// of funneling every broadcast onto the lowest-keyed one. A route with no
    /// hops is a local publish and always allowed.
    pub fn handover_allowed(&self, route: &Route) -> (r: bool)
        ensures
            r == handover_allowed(self@, route@),
    {
        let hops = route.hops.as_slice();
        if hops.len() == 0 {
            return true;
        }
        let peer = [hops[hops.len() - 1]];
        let own = [self.self_origin];
        assert(ids(peer@) =~= seq![route@.hops.last()@]);
        assert(ids(own@) =~= seq![self.self_origin@]);
        fnv_key(&self.path, &peer) < fnv_key(&self.path, &own)
    }

    /// The active source's route, advertised on the front's broadcast.
    pub fn active_route(&self) -> (r: Option<Route>)
        ensures
            match r {
                Some(route) => active_route(self@) == Some(route@),
                None => active_route(self@) is None,
            },
    {
        match self.active {
            Some(id) => match find(&self.routes, id) {
                Some(i) => Some(self.routes[i].route.clone()),
                None => None,
            },
            None => None,
        }
    }

    /// Add a source, returning its id.
    pub fn attach(&mut self, route: Route, source: u64, carrying: bool) -> (id: u64)
        requires
            old(self).wf(),
            !old(self)@.closed,
            old(self)@.next_route < u64::MAX,
        ensures
            final(self).wf(),
            id == old(self)@.next_route,
            final(self)@ == attached(old(self)@, route@, source, carrying),
    {
        let id: u64 = self.next_route;
        self.next_route = id + 1;
        self.routes.push(FrontRoute { id, route, source });
        assert(entries(self.routes@) =~= old(self)@.routes.push(
            EntryView { id, route: route@, source },
        ));
        self.reselect(carrying);
        id
    }

    /// Move a source to another route.
    pub fn update(&mut self, id: u64, route: &Route, carrying: bool) -> (r: Update)
        requires
            old(self).wf(),
        ensures
            final(self).wf(),
            final(self)@ == updated(old(self)@, id, route@, carrying),
            r == match position(old(self)@.routes, id) {
                None => Update::Missing,
                Some(i) => if old(self)@.routes[i].route == route@ {
                    Update::Unchanged
                } else {
                    Update::Changed
                },
            },
    {
        let i: usize = match find(&self.routes, id) {
            Some(i) => i,
            None => {
                return Update::Missing;
            },
        };
        if self.routes[i].route.same(route) {
            return Update::Unchanged;
        }
        let source: u64 = self.routes[i].source;
        proof {
            lemma_position(self@.routes, id);
        }
        self.routes.set(i, FrontRoute { id, route: route.clone(), source });
        assert(entries(self.routes@) =~= old(self)@.routes.update(
            i as int,
            EntryView { route: route@, ..old(self)@.routes[i as int] },
        ));
        self.reselect(carrying);
        Update::Changed
    }

    /// Remove a source, promoting the next-best one. Idempotent. Returns true when this
    /// closed the front: the last source ended deliberately (`graceful`), or abruptly
    /// with no linger window.
    pub fn detach(&mut self, id: u64, graceful: bool, carrying: bool) -> (closed: bool)
        requires
            old(self).wf(),
        ensures
            final(self).wf(),
            final(self)@ == detached(old(self)@, id, graceful, carrying),
            closed == closes(old(self)@, id, graceful),
    {
        let i: usize = match find(&self.routes, id) {
            Some(i) => i,
            None => {
                return false;
            },
        };
        self.routes.remove(i);
        proof {
            let before = old(self)@.routes;
            assert(entries(self.routes@) =~= before.remove(i as int));
            assert forall|a: int, b: int|
                0 <= a < b < before.remove(i as int).len() implies (#[trigger] before.remove(
                i as int,
            )[a]).id != (#[trigger] before.remove(i as int)[b]).id by {
                let x = if a < i { a } else { a + 1 };
                let y = if b < i { b } else { b + 1 };
                assert(before[x].id != before[y].id);
            }
        }
        self.reselect(carrying);
        if self.routes.len() == 0 && !self.closed && (graceful || self.linger.is_zero()) {
            self.closed = true;
            true
        } else {
            false
        }
    }

    /// Close the front if its table is still empty when the linger window ends. Returns
    /// true when this closed it: a source that re-attached in time keeps the broadcast
    /// alive.
    pub fn expire(&mut self) -> (closed: bool)
        requires
            old(self).wf(),
        ensures
            final(self).wf(),
            final(self)@ == expired(old(self)@),
            closed == (!old(self)@.closed && old(self)@.routes.len() == 0),
    {
        if !self.closed && self.routes.len() == 0 {
            self.closed = true;
            true
        } else {
            false
        }
    }

    /// Whether a source is attached.
    pub fn is_attached(&self, id: u64) -> (r: bool)
        ensures
            r == position(self@.routes, id) is Some,
    {
        find(&self.routes, id).is_some()
    }

    /// The active source: its id in the table and the handle tracks are served from.
    pub fn active_source(&self) -> (r: Option<(u64, u64)>)
        ensures
            r == match self@.active {
                Some(id) => match position(self@.routes, id) {
                    Some(i) => Some((id, self@.routes[i].source)),
                    None => None,
                },
                None => None,
            },
    {
        match self.active {
            Some(id) => match find(&self.routes, id) {
                Some(i) => Some((id, self.routes[i].source)),
                None => None,
            },
            None => None,
        }
    }
}

/// Attaching a source keeps the table in order.
pub proof fn lemma_attached_wf(front: FrontView, route: RouteView, source: u64, carrying: bool)
    requires
        front_wf(front),
        !front.closed,
        front.next_route < u64::MAX,
    ensures
        front_wf(attached(front, route, source, carrying)),
{
}

/// Moving a source keeps the table in order.
pub proof fn lemma_updated_wf(front: FrontView, id: u64, route: RouteView, carrying: bool)
    requires
        front_wf(front),
    ensures
        front_wf(updated(front, id, route, carrying)),
{
    lemma_position(front.routes, id);
}

/// Detaching a source keeps the table in order.
pub proof fn lemma_detached_wf(front: FrontView, id: u64, graceful: bool, carrying: bool)
    requires
        front_wf(front),
    ensures
        front_wf(detached(front, id, graceful, carrying)),
{
    lemma_position(front.routes, id);
    if let Some(i) = position(front.routes, id) {
        let rest = front.routes.remove(i);
        assert forall|a: int, b: int| 0 <= a < b < rest.len() implies (#[trigger] rest[a]).id != (
        #[trigger] rest[b]).id by {
            let x = if a < i { a } else { a + 1 };
            let y = if b < i { b } else { b + 1 };
            assert(front.routes[x].id != front.routes[y].id);
        }
        assert forall|a: int| 0 <= a < rest.len() implies (#[trigger] rest[a]).id
            < front.next_route by {
            let x = if a < i { a } else { a + 1 };
            assert(front.routes[x].id < front.next_route);
        }
    }
}

// ---------------------------------------------------------------------------
// Laws
// ---------------------------------------------------------------------------

/// No attached source wins over the best one, and of equals the first is taken.
pub proof fn law_best_is_unbeaten(front: FrontView, j: int)
    requires
        0 <= j < front.routes.len(),
    ensures
        ({
            let best = best_index(front.path, front.routes);
            let key = order_key(front.path, front.routes[best].route);
            let other = order_key(front.path, front.routes[j].route);
            &&& 0 <= best < front.routes.len()
            &&& best_id(front) == Some(front.routes[best].id)
            &&& !key_lt(other, key)
            &&& j < best ==> key_lt(key, other)
        }),
{
    lemma_best_index(front.path, front.routes);
}

/// Two nodes that know the same routes to a broadcast prefer the same one, in whatever
/// order they learned of them.
pub proof fn law_preference_ignores_arrival_order(a: FrontView, b: FrontView)
    requires
        a.path == b.path,
        a.routes.len() > 0,
        b.routes.len() > 0,
        forall|i: int|
            0 <= i < a.routes.len() ==> exists|j: int|
                0 <= j < b.routes.len() && (#[trigger] b.routes[j]).route == (#[trigger] a.routes[i]).route,
        forall|j: int|
            0 <= j < b.routes.len() ==> exists|i: int|
                0 <= i < a.routes.len() && (#[trigger] a.routes[i]).route == (#[trigger] b.routes[j]).route,
    ensures
        order_key(a.path, a.routes[best_index(a.path, a.routes)].route) == order_key(
            b.path,
            b.routes[best_index(b.path, b.routes)].route,
        ),
{
    lemma_best_index(a.path, a.routes);
    lemma_best_index(b.path, b.routes);
    let x = best_index(a.path, a.routes);
    let y = best_index(b.path, b.routes);
    let j = choose|j: int| 0 <= j < b.routes.len() && (#[trigger] b.routes[j]).route == a.routes[x].route;
    let i = choose|i: int| 0 <= i < a.routes.len() && (#[trigger] a.routes[i]).route == b.routes[y].route;
    assert(!key_lt(order_key(a.path, a.routes[i].route), order_key(a.path, a.routes[x].route)));
    assert(!key_lt(order_key(b.path, b.routes[j].route), order_key(b.path, b.routes[y].route)));
    crate::route::law_preference_is_strict(
        order_key(a.path, a.routes[x].route),
        order_key(b.path, b.routes[y].route),
        order_key(b.path, b.routes[y].route),
    );
}

/// Two relays that both carry a broadcast never both re-parent onto each other; when
/// their keys differ exactly one of them does.
pub proof fn law_no_mutual_handover(name: Seq<Seq<char>>, a: Origin, b: Origin)
    ensures
        !(key_below(name, a, b) && key_below(name, b, a)),
        key_hash(name, seq![a@]) != key_hash(name, seq![b@]) ==> key_below(name, a, b) != key_below(
            name,
            b,
            a,
        ),
{
}

proof fn lemma_lowest_key(name: Seq<Seq<char>>, relays: Seq<Origin>) -> (lowest: int)
    requires
        relays.len() > 0,
    ensures
        0 <= lowest < relays.len(),
        forall|i: int|
            0 <= i < relays.len() ==> !key_below(name, #[trigger] relays[i], relays[lowest]),
    decreases relays.len(),
{
    let rest = relays.drop_last();
    if rest.len() == 0 {
        0
    } else {
        let lowest = lemma_lowest_key(name, rest);
        assert(forall|i: int| 0 <= i < rest.len() ==> rest[i] == relays[i]);
        if key_below(name, relays.last(), relays[lowest]) {
            relays.len() - 1
        } else {
            lowest
        }
    }
}

/// However many relays carry a broadcast, they never re-parent in a circle: going around
/// any ring of them, some relay may not move onto the next one.
pub proof fn law_no_handover_cycle(name: Seq<Seq<char>>, ring: Seq<Origin>)
    requires
        ring.len() > 0,
    ensures
        exists|i: int|
            0 <= i < ring.len() && !key_below(
                name,
                ring[if i + 1 < ring.len() { i + 1 } else { 0 }],
                #[trigger] ring[i],
            ),
{
    let i = lemma_lowest_key(name, ring);
    let next = if i + 1 < ring.len() { i + 1 } else { 0 };
    assert(!key_below(name, ring[next], ring[i]));
}

/// Whether a front carries a priced, announced incumbent while its best route is the warm
/// copy of a sibling relay `peer`.
pub open spec fn sees_warm_sibling(front: FrontView, peer: Origin) -> bool {
    &&& front_wf(front)
    &&& best_id(front) is Some
    &&& front.active is Some
    &&& front.active != best_id(front)
    &&& match (
        position(front.routes, best_id(front)->0),
        position(front.routes, front.active->0),
    ) {
        (Some(b), Some(c)) => {
            let best = front.routes[b].route;
            let incumbent = front.routes[c].route;
            &&& incumbent.announce
            &&& best.cost < incumbent.cost
            &&& best.advertised == 0
            &&& best.hops.len() >= 2
            &&& best.hops.last() == peer
        },
        _ => false,
    }
}

/// The simultaneous-activation race: of two carrying relays that see each other's warm
/// copy of a broadcast, exactly one re-parents, so the broadcast always keeps a source.
/// Their keys for the broadcast must differ.
pub proof fn law_symmetric_race(a: FrontView, b: FrontView)
    requires
        a.path == b.path,
        sees_warm_sibling(a, b.self_origin),
        sees_warm_sibling(b, a.self_origin),
        key_hash(a.path, seq![a.self_origin@]) != key_hash(a.path, seq![b.self_origin@]),
    ensures
        (reselected(a, true).active == a.active) != (reselected(b, true).active == b.active),
{
    law_no_mutual_handover(a.path, a.self_origin, b.self_origin);
}

/// An idle front always takes the best source.
pub proof fn law_idle_front_takes_the_best(front: FrontView)
    ensures
        reselected(front, false).active == best_id(front),
{
}

/// Selecting again without a change in the table changes nothing.
pub proof fn law_reselect_is_idempotent(front: FrontView, carrying: bool)
    ensures
        reselected(reselected(front, carrying), carrying) == reselected(front, carrying),
{
}

/// Whenever sources are attached, an operation that selects leaves one of them active,
/// and its route is the one to advertise.
pub proof fn law_active_is_attached(front: FrontView, carrying: bool)
    requires
        front.routes.len() > 0,
    ensures
        reselected(front, carrying).active is Some,
        position(front.routes, reselected(front, carrying).active->0) is Some,
        active_route(reselected(front, carrying)) is Some,
{
    lemma_best_index(front.path, front.routes);
    lemma_position(front.routes, front.routes[best_index(front.path, front.routes)].id);
}

/// Whether some source of a table is announced.
pub open spec fn any_announced(routes: Seq<EntryView>) -> bool {
    exists|i: int| 0 <= i < routes.len() && (#[trigger] routes[i]).route.announce
}

/// Whether a front has an active route, which is announced while any source is.
pub open spec fn shows_announced(front: FrontView) -> bool {
    active_route(front) matches Some(route) && route.announce == any_announced(front.routes)
}

/// A front shows an announced route exactly while some attached source is announced: an
/// offline source never displaces an announced one, whatever they cost.
pub proof fn law_announced_while_any_source_is(front: FrontView, carrying: bool)
    requires
        front_wf(front),
        front.routes.len() > 0,
    ensures
        shows_announced(reselected(front, carrying)),
{
    let best = best_index(front.path, front.routes);
    lemma_best_index(front.path, front.routes);
    lemma_position(front.routes, front.routes[best].id);
    if front.active is Some {
        lemma_position(front.routes, front.active->0);
    }
    law_active_is_attached(front, carrying);
    if any_announced(front.routes) {
        let i = choose|i: int|
            0 <= i < front.routes.len() && (#[trigger] front.routes[i]).route.announce;
        assert(!key_lt(
            order_key(front.path, front.routes[i].route),
            order_key(front.path, front.routes[best].route),
        ));
    }
}

/// The id of a source is never handed out again, not even after it detached.
pub proof fn law_source_ids_are_never_reused(
    front: FrontView,
    route: RouteView,
    source: u64,
    id: u64,
    graceful: bool,
    carrying: bool,
)
    requires
        front_wf(front),
        front.next_route < u64::MAX,
    ensures
        position(front.routes, front.next_route) is None,
        attached(front, route, source, carrying).next_route > front.next_route,
        updated(front, id, route, carrying).next_route == front.next_route,
        detached(front, id, graceful, carrying).next_route == front.next_route,
        expired(front).next_route == front.next_route,
{
    lemma_position(front.routes, front.next_route);
}

/// A deliberate end of the last source closes the broadcast at once, whatever the linger
/// window; an abrupt one does so only without a window.
pub proof fn law_last_detach(front: FrontView, id: u64, graceful: bool, carrying: bool)
    requires
        front_wf(front),
        !front.closed,
        front.routes.len() == 1,
        front.routes[0].id == id,
    ensures
        detached(front, id, graceful, carrying).routes.len() == 0,
        detached(front, id, graceful, carrying).closed == (graceful || front.linger == 0),
{
    lemma_position_is(front.routes, id, 0);
}

/// Detaching a source twice is detaching it once.
pub proof fn law_detach_is_idempotent(front: FrontView, id: u64, graceful: bool, carrying: bool)
    requires
        front_wf(front),
    ensures
        detached(detached(front, id, graceful, carrying), id, graceful, carrying) == detached(
            front,
            id,
            graceful,
            carrying,
        ),
{
    lemma_position(front.routes, id);
    let after = detached(front, id, graceful, carrying);
    if let Some(i) = position(front.routes, id) {
        lemma_position(after.routes, id);
        if let Some(k) = position(after.routes, id) {
            let x = if k < i { k } else { k + 1 };
            assert(after.routes[k] == front.routes[x]);
            assert(front.routes[x].id == front.routes[i].id);
        }
    }
}

/// A source that re-attaches within the linger window keeps the broadcast open.
pub proof fn law_reattach_survives_expiry(
    front: FrontView,
    route: RouteView,
    source: u64,
    carrying: bool,
)
    requires
        front_wf(front),
        !front.closed,
        front.next_route < u64::MAX,
    ensures
        !expired(attached(front, route, source, carrying)).closed,
{
}

/// Tracks are dispatched to a source that no attached one wins over, and of equals to the first
/// that arrived; there is none only in an empty table.
pub proof fn law_best_route_is_unbeaten(front: FrontState, best: Option<u64>)
    requires
        call_ensures(FrontState::best_route, (&front,), best),
    ensures
        best is None <==> front@.routes.len() == 0,
        best is Some ==> exists|b: int|
            0 <= b < front@.routes.len() && (#[trigger] front@.routes[b]).id == best->0 && forall|
                j: int,
            |
                0 <= j < front@.routes.len() ==> !key_lt(
                    order_key(front@.path, (#[trigger] front@.routes[j]).route),
                    order_key(front@.path, front@.routes[b].route),
                ) && (j < b ==> key_lt(
                    order_key(front@.path, front@.routes[b].route),
                    order_key(front@.path, front@.routes[j].route),
                )),
{
    if front@.routes.len() > 0 {
        lemma_best_index(front@.path, front@.routes);
        let b = best_index(front@.path, front@.routes);
        assert(front@.routes[b].id == best->0);
    }
}

/// The best source becomes active at once, but for one race: a carrying front keeps an
/// announced incumbent over a cheaper source whose peer advertised it for free over two or more
/// hops and whose key for the broadcast is not below the local origin's. Nothing but the active
/// source changes.
pub proof fn law_best_source_takes_over_unless_in_the_race(
    front: &mut FrontState,
    carrying: bool,
    best: Option<u64>,
    b: int,
    c: int,
)
    requires
        call_ensures(FrontState::reselect, (front, carrying), ()),
        call_ensures(FrontState::best_route, (&*old(front),), best),
        front_wf(old(front)@),
    ensures
        final(front)@ == (FrontView { active: final(front).active, ..old(front)@ }),
        !carrying || old(front).active is None || old(front).active == best || !(exists|i: int|
            0 <= i < old(front)@.routes.len() && old(front).active == Some(
                (#[trigger] old(front)@.routes[i]).id,
            )) ==> final(front).active == best,
        carrying && 0 <= b < old(front)@.routes.len() && 0 <= c < old(front)@.routes.len() && b != c
            && best == Some(old(front)@.routes[b].id) && old(front).active == Some(
            old(front)@.routes[c].id,
        ) ==> {
            let candidate = old(front)@.routes[b].route;
            let incumbent = old(front)@.routes[c].route;
            final(front).active == if incumbent.announce && candidate.cost < incumbent.cost
                && candidate.advertised == 0 && candidate.hops.len() >= 2 && key_hash(
                old(front)@.path,
                seq![candidate.hops.last()@],
            ) >= key_hash(old(front)@.path, seq![old(front)@.self_origin@]) {
                old(front).active
            } else {
                best
            }
        },
{
    let routes = old(front)@.routes;
    if old(front).active is Some {
        lemma_position(routes, old(front).active->0);
    }
    if best is Some {
        lemma_position(routes, best->0);
    }
    if 0 <= b < routes.len() && 0 <= c < routes.len() && b != c {
        lemma_table_position(routes, b);
        lemma_table_position(routes, c);
        if b < c {
            assert(routes[b].id != routes[c].id);
        } else {
            assert(routes[c].id != routes[b].id);
        }
    }
}

proof fn lemma_table_position(routes: Seq<EntryView>, i: int)
    requires
        0 <= i < routes.len(),
        forall|a: int, b: int|
            0 <= a < b < routes.len() ==> (#[trigger] routes[a]).id != (#[trigger] routes[b]).id,
    ensures
        position(routes, routes[i].id) == Some(i),
{
    assert forall|j: int| 0 <= j < i implies (#[trigger] routes[j]).id != routes[i].id by {}
    lemma_position_is(routes, routes[i].id, i);
}

/// A local publish may always be handed over to; a chain only if the key of its last relay for
/// the broadcast is strictly below the local origin's.
pub proof fn law_handover_needs_a_lower_key(front: FrontState, route: Route, allowed: bool)
    requires
        call_ensures(FrontState::handover_allowed, (&front, &route), allowed),
    ensures
        route.hops@.len() == 0 ==> allowed,
        route.hops@.len() > 0 ==> (allowed <==> key_hash(
            front.path@,
            seq![route.hops@.last()@],
        ) < key_hash(front.path@, seq![front.self_origin@])),
{
}

/// A source that attaches goes to the end of the table under an id of its own. Selecting aside,
/// nothing else changes.
pub proof fn law_attached_source_joins_the_table(
    front: &mut FrontState,
    route: Route,
    source: u64,
    carrying: bool,
    id: u64,
)
    requires
        call_ensures(FrontState::attach, (front, route, source, carrying), id),
        old(front).next_route < u64::MAX,
    ensures
        id == old(front).next_route,
        final(front).next_route == old(front).next_route + 1,
        final(front)@.routes == old(front)@.routes.push(EntryView { id, route: route@, source }),
        final(front)@.path == old(front)@.path,
        final(front)@.self_origin == old(front)@.self_origin,
        final(front)@.linger == old(front)@.linger,
        final(front)@.closed == old(front)@.closed,
        final(front)@ == reselected(
            FrontView { active: old(front)@.active, ..final(front)@ },
            carrying,
        ),
{
}

/// A source that moves keeps its place, id and handle. Moving to the route it has, or moving a
/// source that is gone, changes nothing.
pub proof fn law_updated_source_keeps_its_place(
    front: &mut FrontState,
    id: u64,
    route: Route,
    carrying: bool,
    r: Update,
    i: int,
)
    requires
        call_ensures(FrontState::update, (front, id, &route, carrying), r),
        front_wf(old(front)@),
    ensures
        (forall|j: int| 0 <= j < old(front)@.routes.len() ==> (#[trigger] old(front)@.routes[j]).id
            != id) <==> r == Update::Missing,
        r != Update::Changed ==> final(front)@ == old(front)@,
        0 <= i < old(front)@.routes.len() && old(front)@.routes[i].id == id ==> {
            &&& r == Update::Unchanged <==> old(front)@.routes[i].route == route@
            &&& r == Update::Changed ==> final(front)@.routes == old(front)@.routes.update(
                i,
                EntryView { id, route: route@, source: old(front)@.routes[i].source },
            )
        },
        r == Update::Changed ==> final(front)@ == reselected(
            FrontView { routes: final(front)@.routes, ..old(front)@ },
            carrying,
        ),
{
    lemma_position(old(front)@.routes, id);
    if 0 <= i < old(front)@.routes.len() && old(front)@.routes[i].id == id {
        lemma_table_position(old(front)@.routes, i);
    }
}

/// A source that detaches leaves the table, and only it. The front closes exactly when it was
/// the last one and either ended deliberately or no linger window is set.
pub proof fn law_detached_source_leaves_the_table(
    front: &mut FrontState,
    id: u64,
    graceful: bool,
    carrying: bool,
    closed: bool,
    i: int,
)
    requires
        call_ensures(FrontState::detach, (front, id, graceful, carrying), closed),
        front_wf(old(front)@),
    ensures
        (forall|j: int| 0 <= j < old(front)@.routes.len() ==> (#[trigger] old(front)@.routes[j]).id
            != id) ==> !closed && final(front)@ == old(front)@,
        0 <= i < old(front)@.routes.len() && old(front)@.routes[i].id == id ==> {
            &&& final(front)@.routes == old(front)@.routes.remove(i)
            &&& closed <==> old(front)@.routes.len() == 1 && (graceful || old(front)@.linger == 0)
            &&& final(front)@.closed <==> closed
            &&& final(front)@ == (FrontView {
                closed,
                ..reselected(
                    FrontView { routes: old(front)@.routes.remove(i), ..old(front)@ },
                    carrying,
                )
            })
        },
{
    lemma_position(old(front)@.routes, id);
    if 0 <= i < old(front)@.routes.len() && old(front)@.routes[i].id == id {
        lemma_table_position(old(front)@.routes, i);
    }
}

/// A window that runs out closes an open front without sources, and does nothing to any other.
pub proof fn law_expiry_closes_an_empty_front(front: &mut FrontState, closed: bool)
    requires
        call_ensures(FrontState::expire, (front,), closed),
    ensures
        closed <==> !old(front).closed && old(front)@.routes.len() == 0,
        final(front)@ == (FrontView { closed: old(front).closed || closed, ..old(front)@ }),
{
}

/// The route advertised, and the handle that tracks are served from, are those of the attached
/// source that is active.
pub proof fn law_active_source_is_advertised(
    front: FrontState,
    i: int,
    route: Option<Route>,
    source: Option<(u64, u64)>,
    id: u64,
    there: bool,
)
    requires
        call_ensures(FrontState::active_route, (&front,), route),
        call_ensures(FrontState::active_source, (&front,), source),
        call_ensures(FrontState::is_attached, (&front, id), there),
        front_wf(front@),
    ensures
        0 <= i < front@.routes.len() && front.active == Some(front@.routes[i].id) ==> route is Some
            && route->0@ == front@.routes[i].route && source == Some(
            (front@.routes[i].id, front@.routes[i].source),
        ),
        (forall|j: int| 0 <= j < front@.routes.len() ==> front.active != Some(
            (#[trigger] front@.routes[j]).id,
        )) ==> route is None && source is None,
        there <==> exists|j: int| 0 <= j < front@.routes.len() && (#[trigger] front@.routes[j]).id
            == id,
{
    lemma_position(front@.routes, id);
    if front.active is Some {
        lemma_position(front@.routes, front.active->0);
    }
    if 0 <= i < front@.routes.len() {
        lemma_table_position(front@.routes, i);
    }
}

} // verus!
