//! The lives of sources and fronts.
//!
//! A driver runs one task per source and per front: it waits for what is observed here,
//! and performs what is returned.

use crate::front::{closes, lemma_position, position, FrontView, Update};
use crate::origin::Origin;
use crate::path::Path;
use crate::route::{Route, RouteView};
use crate::time::{deadline, deadline_after, Clock, Duration, MAX_INSTANT};
use crate::tree::{
    front_expired, front_removed, joinable, source_attached, source_detached, source_updated,
    tree_wf, Attachment, OriginTree, PathView, TreeView,
};
use vstd::prelude::*;

verus! {

/// What happens to an announce guard: stats are counted while one is held.
#[derive(Clone, Copy, Debug, PartialEq, Eq, Structural)]
pub enum Guard {
    /// Leave it as it is.
    Keep,
    /// Take one.
    Open,
    /// Let go of it.
    Close,
}

/// What a source's task does next.
#[derive(Clone, Copy, Debug, PartialEq, Eq, Structural)]
pub struct SourceStep {
    /// Whether the task is over.
    pub stop: bool,
    /// What happens to the ingress announce guard.
    pub guard: Guard,
    /// The front that this created, which has to be driven.
    pub created: bool,
    /// Whether this closed the broadcast, whose tracks are then to be aborted.
    pub closed: bool,
}

/// One source's lifecycle: attached to the front at its path on the first route
/// observation, moved on route updates, and detached when the source closes.
pub struct Source {
    path: Path,
    self_origin: Origin,
    linger: Duration,
    source: u64,
    place: Option<Attachment>,
    guarded: bool,
}

/// The contents of a [`Source`].
#[verifier::ext_equal]
pub ghost struct SourceView {
    /// Absolute path of the broadcast.
    pub path: PathView,
    /// The local origin.
    pub self_origin: Origin,
    /// The linger window of a broadcast that this source creates, in nanoseconds.
    pub linger: nat,
    /// The handle of the source broadcast.
    pub source: u64,
    /// Where the source is attached, once it is.
    pub place: Option<Attachment>,
    /// Whether the ingress announce guard is held.
    pub guarded: bool,
}

impl View for Source {
    type V = SourceView;

    closed spec fn view(&self) -> SourceView {
        SourceView {
            path: self.path@,
            self_origin: self.self_origin,
            linger: self.linger@,
            source: self.source,
            place: self.place,
            guarded: self.guarded,
        }
    }
}

/// How a guard changes so that it is held exactly while the route is announced.
pub open spec fn guard_for(announced: bool, held: bool) -> Guard {
    if announced && !held {
        Guard::Open
    } else if !announced && held {
        Guard::Close
    } else {
        Guard::Keep
    }
}

/// Where a source attaching now goes.
pub open spec fn place_for(tree: TreeView, path: PathView) -> Attachment {
    match joinable(tree, path) {
        Some(front) => Attachment {
            front,
            id: tree.fronts[front].state.next_route,
            created: false,
        },
        None => Attachment { front: tree.next_front, id: 0, created: true },
    }
}

/// How a source at `place` stands in the tree when it reports `route`.
pub open spec fn update_for(tree: TreeView, place: Attachment, route: RouteView) -> Update {
    if tree.fronts.contains_key(place.front) {
        match position(tree.fronts[place.front].state.routes, place.id) {
            Some(i) => if tree.fronts[place.front].state.routes[i].route == route {
                Update::Unchanged
            } else {
                Update::Changed
            },
            None => Update::Missing,
        }
    } else {
        Update::Missing
    }
}

impl Source {
    /// A source of the broadcast at `path`, not attached yet.
    pub fn new(path: Path, self_origin: Origin, linger: Duration, source: u64) -> (r: Self)
        ensures
            r@ == (SourceView {
                path: path@,
                self_origin,
                linger: linger@,
                source,
                place: None,
                guarded: false,
            }),
    {
        Source { path, self_origin, linger, source, place: None, guarded: false }
    }

    /// The absolute path of the broadcast.
    pub fn path(&self) -> (r: &Path)
        ensures
            r@ == self@.path,
    {
        &self.path
    }

    /// Where the source is attached, once it is.
    pub fn place(&self) -> (r: Option<Attachment>)
        ensures
            r == self@.place,
    {
        self.place
    }

    /// The source reported its route. The first report attaches it: nothing is visible to
    /// consumers until then, giving the creator a window to set up tracks and dynamic
    /// handlers.
    ///
    /// `carrying` says whether the broadcast at the path has live demand.
    pub fn observe(&mut self, tree: &mut OriginTree, route: Route, carrying: bool) -> (r: SourceStep)
        requires
            old(tree).wf(),
            old(tree)@.next_front < u64::MAX,
            joinable(old(tree)@, old(self)@.path) matches Some(front) ==> old(
                tree,
            )@.fronts[front].state.next_route < u64::MAX,
        ensures
            final(tree).wf(),
            match old(self)@.place {
                None => {
                    let place = place_for(old(tree)@, old(self)@.path);
                    &&& final(tree)@ == source_attached(
                        old(tree)@,
                        old(self)@.path,
                        old(self)@.self_origin,
                        old(self)@.linger,
                        route@,
                        old(self)@.source,
                        carrying,
                    )
                    &&& final(self)@ == (SourceView {
                        place: Some(place),
                        guarded: route@.announce,
                        ..old(self)@
                    })
                    &&& r == (SourceStep {
                        stop: false,
                        guard: guard_for(route@.announce, old(self)@.guarded),
                        created: place.created,
                        closed: false,
                    })
                },
                Some(place) => {
                    let update = update_for(old(tree)@, place, route@);
                    let held = match update {
                        Update::Missing => false,
                        Update::Unchanged => old(self)@.guarded,
                        Update::Changed => route@.announce,
                    };
                    &&& final(tree)@ == source_updated(
                        old(tree)@,
                        place.front,
                        place.id,
                        route@,
                        carrying,
                    )
                    &&& final(self)@ == (SourceView { guarded: held, ..old(self)@ })
                    &&& r == (SourceStep {
                        stop: update == Update::Missing,
                        guard: guard_for(held, old(self)@.guarded),
                        created: false,
                        closed: false,
                    })
                },
            },
    {
        let announced = route.announce;
        let held = self.guarded;
        match self.place {
            None => {
                let place = tree.attach_source(
                    &self.path,
                    self.self_origin,
                    self.linger,
                    route,
                    self.source,
                    carrying,
                );
                self.place = Some(place);
                self.guarded = announced;
                SourceStep {
                    stop: false,
                    guard: Self::guard(announced, held),
                    created: place.created,
                    closed: false,
                }
            },
            Some(place) => {
                let update = tree.update_source(place.front, place.id, &route, carrying);
                let now = match update {
                    Update::Missing => false,
                    Update::Unchanged => held,
                    Update::Changed => announced,
                };
                let stop = match update {
                    Update::Missing => true,
                    _ => false,
                };
                self.guarded = now;
                SourceStep { stop, guard: Self::guard(now, held), created: false, closed: false }
            },
        }
    }

    /// The source closed: deliberately finished (`graceful`), or lost. A deliberate finish
    /// of the last source closes the broadcast immediately; a loss may linger for a
    /// replacement. A source that never attached leaves nothing behind.
    pub fn end(&mut self, tree: &mut OriginTree, graceful: bool, carrying: bool) -> (r: SourceStep)
        requires
            old(tree).wf(),
        ensures
            final(tree).wf(),
            final(self)@ == (SourceView { guarded: false, ..old(self)@ }),
            match old(self)@.place {
                None => final(tree)@ == old(tree)@ && r == (SourceStep {
                    stop: true,
                    guard: guard_for(false, old(self)@.guarded),
                    created: false,
                    closed: false,
                }),
                Some(place) => {
                    &&& final(tree)@ == source_detached(
                        old(tree)@,
                        place.front,
                        place.id,
                        graceful,
                        carrying,
                    )
                    &&& r == (SourceStep {
                        stop: true,
                        guard: guard_for(false, old(self)@.guarded),
                        created: false,
                        closed: old(tree)@.fronts.contains_key(place.front) && closes(
                            old(tree)@.fronts[place.front].state,
                            place.id,
                            graceful,
                        ),
                    })
                },
            },
    {
        let held = self.guarded;
        self.guarded = false;
        let closed = match self.place {
            None => false,
            Some(place) => tree.detach_source(place.front, place.id, graceful, carrying),
        };
        SourceStep { stop: true, guard: Self::guard(false, held), created: false, closed }
    }

    fn guard(announced: bool, held: bool) -> (r: Guard)
        ensures
            r == guard_for(announced, held),
    {
        if announced && !held {
            Guard::Open
        } else if !announced && held {
            Guard::Close
        } else {
            Guard::Keep
        }
    }
}

/// What happened next to a front.
#[derive(Clone, Copy, Debug, PartialEq, Eq, Structural)]
pub enum FrontStep {
    /// A track was requested: serve it.
    Serve,
    /// The source table emptied or refilled: re-arm the linger countdown.
    Changed,
    /// The linger window expired: close if the table is still empty.
    Expired,
    /// The front closed.
    Closed,
}

/// A front's lifecycle: it has each requested track served until the last source
/// detaches, then unpublishes the broadcast.
#[derive(Clone, Copy)]
pub struct FrontTask {
    /// The front.
    pub front: u64,
    /// The instant the front gives up waiting for a replacement source, in nanoseconds
    /// since some fixed instant. Armed while the table is ungracefully empty; a graceful
    /// close never gets here, so a running countdown always means a reconnect is welcome.
    pub deadline: Option<u128>,
    /// Whether the table was ungracefully empty when the pass began.
    pub empty: bool,
}

/// Whether the table of a front is ungracefully empty.
pub open spec fn awaits_source(front: FrontView) -> bool {
    !front.closed && front.routes.len() == 0
}

/// The countdown of a front: started when its table empties, kept while it stays empty, and
/// canceled when it refills. A window too long to represent never ends.
pub open spec fn countdown(at: Option<u128>, empty: bool, now: u128, linger: nat) -> Option<u128> {
    if !empty {
        None
    } else {
        match at {
            Some(at) => Some(at),
            None => deadline_after(now, linger),
        }
    }
}

/// The task of a front at the start of a pass.
pub open spec fn begun(task: FrontTask, tree: TreeView, now: u128) -> FrontTask {
    let front = tree.fronts[task.front].state;
    let empty = tree.fronts.contains_key(task.front) && awaits_source(front);
    FrontTask { deadline: countdown(task.deadline, empty, now, front.linger), empty, ..task }
}

/// The next step for a front. Requested tracks come first, then the table, then the
/// countdown.
pub open spec fn front_step_for(
    task: FrontTask,
    assigned: bool,
    closed: bool,
    empty: bool,
    fired: bool,
) -> Option<FrontStep> {
    if assigned {
        Some(FrontStep::Serve)
    } else if closed {
        Some(FrontStep::Closed)
    } else if empty != task.empty {
        Some(FrontStep::Changed)
    } else if task.deadline is Some && fired {
        Some(FrontStep::Expired)
    } else {
        None
    }
}

impl FrontTask {
    /// The task of a front that was just created.
    pub fn new(front: u64) -> (r: Self)
        ensures
            r == (FrontTask { front, deadline: None, empty: false }),
    {
        FrontTask { front, deadline: None, empty: false }
    }

    /// Start a pass: arm, keep or cancel the countdown by the state of the table. A front
    /// that is gone has no countdown. Reads the clock.
    pub fn begin(&mut self, tree: &OriginTree, clock: &Clock)
        requires
            tree.wf(),
        ensures
            exists|now: u128| #[trigger]
                clock.reads(now) && *final(self) == begun(*old(self), tree@, now),
    {
        let now: u128 = clock.nanos();
        self.begin_at(tree, now)
    }

    /// Start a pass at instant `now`, in nanoseconds since some fixed instant.
    pub fn begin_at(&mut self, tree: &OriginTree, now: u128)
        requires
            tree.wf(),
        ensures
            *final(self) == begun(*old(self), tree@, now),
    {
        match tree.front_status(self.front) {
            Some(status) => {
                let empty = !status.closed && status.empty;
                self.empty = empty;
                self.deadline = if empty {
                    match self.deadline {
                        Some(at) => Some(at),
                        None => deadline(now, status.linger),
                    }
                } else {
                    None
                };
            },
            None => {
                self.empty = false;
                self.deadline = None;
            },
        }
    }

    /// The next step, given whether a track was requested, the state of the table and
    /// whether the countdown ran out; `None` to keep waiting.
    pub fn next(&self, assigned: bool, closed: bool, empty: bool, fired: bool) -> (r: Option<
        FrontStep,
    >)
        ensures
            r == front_step_for(*self, assigned, closed, empty, fired),
    {
        if assigned {
            return Some(FrontStep::Serve);
        }
        if closed {
            return Some(FrontStep::Closed);
        }
        if empty != self.empty {
            return Some(FrontStep::Changed);
        }
        if self.deadline.is_some() && fired {
            Some(FrontStep::Expired)
        } else {
            None
        }
    }

    /// Perform a step on the tree. Returns true when the task is over: the broadcast is
    /// unpublished, and the driver aborts its tracks and ends it.
    ///
    /// An expired window closes the front only if its table is still empty: a source that
    /// re-attached as it expired keeps the broadcast alive.
    pub fn perform(&self, tree: &mut OriginTree, step: FrontStep) -> (over: bool)
        requires
            old(tree).wf(),
        ensures
            final(tree).wf(),
            ({
                let expires = old(tree)@.fronts.contains_key(self.front) && awaits_source(
                    old(tree)@.fronts[self.front].state,
                );
                match step {
                    FrontStep::Serve => !over && final(tree)@ == old(tree)@,
                    FrontStep::Changed => !over && final(tree)@ == old(tree)@,
                    FrontStep::Closed => over && final(tree)@ == front_removed(
                        old(tree)@,
                        self.front,
                    ),
                    FrontStep::Expired => over == expires && final(tree)@ == if expires {
                        front_removed(front_expired(old(tree)@, self.front), self.front)
                    } else {
                        front_expired(old(tree)@, self.front)
                    },
                }
            }),
    {
        match step {
            FrontStep::Serve => false,
            FrontStep::Changed => false,
            FrontStep::Closed => {
                tree.remove_front(self.front);
                true
            },
            FrontStep::Expired => {
                let closed = tree.expire_front(self.front);
                if closed {
                    tree.remove_front(self.front);
                }
                closed
            },
        }
    }
}

// ---------------------------------------------------------------------------
// Laws
// ---------------------------------------------------------------------------

/// A window too long to represent as a deadline lingers forever: there is no countdown, so
/// it never expires.
pub proof fn law_unrepresentable_linger_never_expires(
    task: FrontTask,
    assigned: bool,
    closed: bool,
    empty: bool,
    fired: bool,
    now: u128,
    linger: nat,
)
    requires
        now + linger > MAX_INSTANT,
        task.deadline == countdown(None, task.empty, now, linger),
    ensures
        front_step_for(task, assigned, closed, empty, fired) != Some(FrontStep::Expired),
{
}

/// The countdown is not restarted while the table stays empty, and a refilled table
/// cancels it.
pub proof fn law_countdown_runs_once(first: u128, later: u128, linger: nat)
    requires
        first + linger <= MAX_INSTANT,
    ensures
        countdown(countdown(None, true, first, linger), true, later, linger) == Some(
            (first + linger) as u128,
        ),
        countdown(countdown(None, true, first, linger), false, later, linger) is None,
{
}

/// The ingress guard is held exactly while the source's route is announced, whatever it
/// was before.
pub proof fn law_guard_follows_the_route(announced: bool, held: bool)
    ensures
        match guard_for(announced, held) {
            Guard::Open => announced && !held,
            Guard::Close => !announced && held,
            Guard::Keep => announced == held,
        },
{
}

/// A pass over a front that waits for a source has a countdown of one linger window from when
/// the wait began, which is now unless a countdown is running; there is none only if the window
/// reaches beyond what can be represented. Any other front has no countdown.
pub proof fn law_linger_countdown(task: &mut FrontTask, tree: OriginTree, now: u128)
    requires
        call_ensures(FrontTask::begin_at, (task, &tree, now), ()),
    ensures
        final(task).front == old(task).front,
        ({
            let state = tree@.fronts[old(task).front].state;
            let waits = tree@.fronts.contains_key(old(task).front) && !state.closed
                && state.routes.len() == 0;
            &&& final(task).empty == waits
            &&& !waits ==> final(task).deadline is None
            &&& waits && old(task).deadline is Some ==> final(task).deadline == old(task).deadline
            &&& waits && old(task).deadline is None && now + state.linger
                < 9_223_372_036_854_775_808int * 1_000_000_000 ==> final(task).deadline is Some
                && final(task).deadline->0 - now == state.linger
            &&& waits && old(task).deadline is None && now + state.linger
                >= 9_223_372_036_854_775_808int * 1_000_000_000 ==> final(task).deadline is None
        }),
{
}

/// A countdown that a pass starts ends one linger window after what the clock given to it reads.
pub proof fn law_linger_countdown_follows_the_clock(
    task: &mut FrontTask,
    tree: OriginTree,
    clock: Clock,
)
    requires
        call_ensures(FrontTask::begin, (task, &tree, &clock), ()),
    ensures
        final(task).front == old(task).front,
        ({
            let state = tree@.fronts[old(task).front].state;
            let waits = tree@.fronts.contains_key(old(task).front) && !state.closed
                && state.routes.len() == 0;
            &&& final(task).empty == waits
            &&& !waits ==> final(task).deadline is None
            &&& waits && old(task).deadline is Some ==> final(task).deadline == old(task).deadline
            &&& waits && old(task).deadline is None ==> exists|now: u128| #[trigger]
                clock.reads(now) && (final(task).deadline is Some ==> final(task).deadline->0 - now
                    == state.linger) && (final(task).deadline is None ==> now + state.linger
                    >= 9_223_372_036_854_775_808int * 1_000_000_000)
        }),
{
    let now = choose|now: u128| #[trigger]
        clock.reads(now) && *final(task) == begun(*old(task), tree@, now);
    assert(clock.reads(now));
}

/// A requested track is served before anything else, then a closed front ends, then a table that
/// emptied or filled is looked at again, then a countdown that ran out expires. Otherwise the
/// front waits. A new task has no countdown and takes the table for filled.
pub proof fn law_front_steps(
    task: FrontTask,
    fresh: FrontTask,
    front: u64,
    assigned: bool,
    closed: bool,
    empty: bool,
    fired: bool,
    step: Option<FrontStep>,
)
    requires
        call_ensures(FrontTask::new, (front,), fresh),
        call_ensures(FrontTask::next, (&task, assigned, closed, empty, fired), step),
    ensures
        fresh.front == front && fresh.deadline is None && !fresh.empty,
        step == Some(FrontStep::Serve) <==> assigned,
        step == Some(FrontStep::Closed) <==> !assigned && closed,
        step == Some(FrontStep::Changed) <==> !assigned && !closed && empty != task.empty,
        step == Some(FrontStep::Expired) <==> !assigned && !closed && empty == task.empty && fired
            && task.deadline is Some,
        step is None <==> !assigned && !closed && empty == task.empty && !(fired && task.deadline
            is Some),
{
}

/// Serving a track and looking again leave the tree alone. A closed front is torn down, and so
/// is one whose window ran out with no source attached; one that got a source in time, or is
/// closed already, goes on as it is.
pub proof fn law_front_steps_take_effect(
    task: FrontTask,
    tree: &mut OriginTree,
    step: FrontStep,
    over: bool,
)
    requires
        call_ensures(FrontTask::perform, (&task, tree, step), over),
    ensures
        ({
            let state = old(tree)@.fronts[task.front].state;
            let lost = old(tree)@.fronts.contains_key(task.front) && !state.closed
                && state.routes.len() == 0;
            &&& over <==> step == FrontStep::Closed || (step == FrontStep::Expired && lost)
            &&& !over ==> final(tree)@ == old(tree)@
            &&& over ==> final(tree)@.fronts == old(tree)@.fronts.remove(task.front)
            &&& over ==> final(tree)@.slots == if old(tree)@.fronts.contains_key(task.front)
                && old(tree)@.slots.contains_key(state.path) && old(tree)@.slots[state.path].front
                == task.front {
                old(tree)@.slots.remove(state.path)
            } else {
                old(tree)@.slots
            }
            &&& over ==> final(tree)@.cursors == front_removed(old(tree)@, task.front).cursors
        }),
{
    let before = old(tree)@;
    if before.fronts.contains_key(task.front) {
        let expired = front_expired(before, task.front);
        assert(expired.fronts.remove(task.front) =~= before.fronts.remove(task.front));
        if !awaits_source(before.fronts[task.front].state) {
            assert(expired.fronts =~= before.fronts);
        }
    } else {
        assert(before.fronts.remove(task.front) =~= before.fronts);
    }
}

/// A source's first report attaches it, in the broadcast open at its path or a new one, and it
/// stays at that place. Its announce guard is held exactly while its route is announced.
pub proof fn law_first_report_attaches(
    source: &mut Source,
    tree: &mut OriginTree,
    route: Route,
    carrying: bool,
    r: SourceStep,
)
    requires
        call_ensures(Source::observe, (source, tree, route, carrying), r),
        tree_wf(old(tree)@),
        old(tree)@.next_front < u64::MAX,
        old(source)@.place is None,
    ensures
        ({
            let path = old(source)@.path;
            let open = old(tree)@.slots.contains_key(path) && !old(tree)@.fronts[old(
                tree,
            )@.slots[path].front].state.closed;
            let place = final(source)@.place->0;
            let table = final(tree)@.fronts[place.front].state;
            &&& final(source)@.place is Some
            &&& final(source)@ == (SourceView {
                place: Some(place),
                guarded: route@.announce,
                ..old(source)@
            })
            &&& place.created == r.created
            &&& r.created <==> !open
            &&& open ==> place.front == old(tree)@.slots[path].front
            &&& !open ==> !old(tree)@.fronts.contains_key(place.front)
            &&& table.routes.len() > 0
            &&& table.routes.last().id == place.id
            &&& table.routes.last().route == route@
            &&& table.routes.last().source == old(source)@.source
            &&& table.path == path
            &&& !r.stop && !r.closed
            &&& r.guard == Guard::Open <==> route@.announce && !old(source)@.guarded
            &&& r.guard == Guard::Close <==> !route@.announce && old(source)@.guarded
            &&& final(tree)@ == source_attached(
                old(tree)@,
                path,
                old(source)@.self_origin,
                old(source)@.linger,
                route@,
                old(source)@.source,
                carrying,
            )
        }),
{
    let before = old(tree)@;
    let path = old(source)@.path;
    if let Some(front) = joinable(before, path) {
        assert(before.slots.contains_key(path));
    } else if before.fronts.contains_key(before.next_front) {
        assert(before.next_front < before.next_front);
    }
}

/// A later report moves the source: its guard follows an actual change, and a source that is gone
/// lets go of it and stops.
pub proof fn law_later_report_moves(
    source: &mut Source,
    tree: &mut OriginTree,
    route: Route,
    carrying: bool,
    r: SourceStep,
    place: Attachment,
    i: int,
)
    requires
        call_ensures(Source::observe, (source, tree, route, carrying), r),
        tree_wf(old(tree)@),
        old(source)@.place == Some(place),
    ensures
        ({
            let table = old(tree)@.fronts[place.front].state.routes;
            let there = old(tree)@.fronts.contains_key(place.front) && exists|j: int|
                0 <= j < table.len() && (#[trigger] table[j]).id == place.id;
            &&& r.stop <==> !there
            &&& !r.created && !r.closed
            &&& final(source)@ == (SourceView {
                guarded: final(source)@.guarded,
                ..old(source)@
            })
            &&& !there ==> !final(source)@.guarded && final(tree)@ == old(tree)@
            &&& there && 0 <= i < table.len() && table[i].id == place.id ==> {
                &&& table[i].route == route@ ==> final(source)@.guarded == old(source)@.guarded
                    && final(tree)@ == old(tree)@
                &&& table[i].route != route@ ==> final(source)@.guarded == route@.announce
                    && final(tree)@ == source_updated(
                    old(tree)@,
                    place.front,
                    place.id,
                    route@,
                    carrying,
                )
            }
            &&& r.guard == Guard::Open <==> final(source)@.guarded && !old(source)@.guarded
            &&& r.guard == Guard::Close <==> !final(source)@.guarded && old(source)@.guarded
        }),
{
    if old(tree)@.fronts.contains_key(place.front) {
        let table = old(tree)@.fronts[place.front].state.routes;
        lemma_position(table, place.id);
        if 0 <= i < table.len() && table[i].id == place.id {
            let p = position(table, place.id)->0;
            if p < i {
                assert(table[p].id != table[i].id);
            }
        }
    }
}

/// A source that ends lets go of its guard and stops. It detaches if it was attached, closing the
/// broadcast if it was the last source and ended deliberately or without a linger window; one
/// that never attached leaves nothing behind.
pub proof fn law_ended_source_detaches(
    source: &mut Source,
    tree: &mut OriginTree,
    graceful: bool,
    carrying: bool,
    r: SourceStep,
)
    requires
        call_ensures(Source::end, (source, tree, graceful, carrying), r),
        tree_wf(old(tree)@),
    ensures
        final(source)@ == (SourceView { guarded: false, ..old(source)@ }),
        r.stop && !r.created,
        r.guard == Guard::Close <==> old(source)@.guarded,
        r.guard != Guard::Open,
        old(source)@.place is None ==> !r.closed && final(tree)@ == old(tree)@,
        old(source)@.place is Some ==> {
            let place = old(source)@.place->0;
            let state = old(tree)@.fronts[place.front].state;
            let last = old(tree)@.fronts.contains_key(place.front) && state.routes.len() == 1
                && state.routes[0].id == place.id;
            &&& r.closed <==> last && (graceful || state.linger == 0)
            &&& final(tree)@ == source_detached(
                old(tree)@,
                place.front,
                place.id,
                graceful,
                carrying,
            )
        },
{
    if old(source)@.place is Some {
        let place = old(source)@.place->0;
        if old(tree)@.fronts.contains_key(place.front) {
            lemma_position(old(tree)@.fronts[place.front].state.routes, place.id);
        }
    }
}

/// A new source is not attached and holds no guard, and keeps what it was made with.
pub proof fn law_new_source_is_not_attached(
    path: Path,
    self_origin: Origin,
    linger: Duration,
    source: u64,
    r: Source,
    place: Option<Attachment>,
    at: &Path,
)
    requires
        call_ensures(Source::new, (path, self_origin, linger, source), r),
        call_ensures(Source::place, (&r,), place),
        call_ensures(Source::path, (&r,), at),
    ensures
        place is None,
        !r@.guarded,
        at@ == path@,
        r@.self_origin == self_origin,
        r@.linger == linger@,
        r@.source == source,
{
}

/// A source joins what is published at its path unless that is closed.
pub proof fn law_joinable_is_published_and_open(tree: TreeView, path: PathView, front: u64)
    ensures
        joinable(tree, path) == Some(front) <==> tree.slots.contains_key(path)
            && tree.slots[path].front == front && !tree.fronts[front].state.closed,
{
}

} // verus!
