//! Serving one logical track from the best source, across handovers and failures.
//!
//! The driver reports what it observes and performs the actions; the decisions are here.

use crate::error::Error;
use crate::time::{deadline, deadline_after, Clock, Duration};
use vstd::prelude::*;

verus! {

/// How many times serving a single track may fail before it is spliced in (the
/// source rejected it, or its info never resolved) before the track is aborted
/// instead of retried. Bounds the retry loop against a source that keeps
/// rejecting one track.
pub const MAX_TRACK_RETRIES: u32 = 3;

/// How long a spliced track stays warm after its last reader leaves, in seconds.
///
/// Within the window a returning viewer, or the next of a run of back-to-back
/// fetches, reuses the source's copy: no new track request, and no second round
/// trip for its info. After it, the copy is released so an idle track costs nothing
/// upstream.
///
/// Sized above the fetch cadence of a segmented consumer, commonly 6 or 10 seconds, so a
/// shorter window would drop the copy between every segment and re-request the track each
/// time. A warm copy holds no upstream subscription (that is canceled as soon as demand
/// ends), so waiting longer costs cached state, not a viewer.
pub const TRACK_IDLE_LINGER_SECS: u64 = 30;

/// What happened next to a served track.
#[derive(Clone, Copy, Debug, PartialEq, Eq, Structural)]
pub enum Step {
    /// The front closed.
    Closed,
    /// The active source moved away from the one spliced in: splice this one in.
    Splice(u64),
    /// A reader arrived or the last one left: recompute the demand.
    Demand,
    /// The spliced copy is complete.
    Complete,
    /// The spliced copy died.
    Failed,
    /// The freshly spliced copy produced: resolve resumed vs restarted.
    Produced(Option<u64>),
    /// The linger expired with the track still unread: release the segment.
    Idle,
}

/// What the driver observes of a track in one pass.
#[derive(Clone, Copy)]
pub struct Observed {
    /// Whether the front closed.
    pub closed: bool,
    /// The active source of the front.
    pub active: Option<u64>,
    /// Whether a reader arrived at an unread track, or the last one left a read one.
    pub edge: bool,
    /// The end of the spliced copy: whether it is complete, if it ended.
    pub ended: Option<bool>,
    /// The latest group of the spliced copy, if it changed.
    pub latest: Option<Option<u64>>,
    /// Whether the countdown ran out.
    pub fired: bool,
}

/// What came of asking a source for its copy of the track.
#[derive(Clone, Copy, Debug, PartialEq, Eq, Structural)]
pub enum Attempt {
    /// The source table changed meanwhile.
    Moved,
    /// The copy can be spliced in.
    Servable,
    /// The source itself closed or deliberately ended.
    Closing,
    /// The source refused the track, or its copy is aborted.
    Rejected,
}

/// What became of a step, for the state of the track.
#[derive(Clone, Copy, Debug, PartialEq, Eq, Structural)]
pub enum Event {
    /// The front closed; its teardown aborts the logical track.
    Closed,
    /// The spliced copy is complete.
    Complete,
    /// The spliced copy died.
    Failed,
    /// A reader arrived or the last one left.
    Demand,
    /// The spliced copy produced. `settled` says whether the takeover boundary is final;
    /// `None` when the logical track is over.
    Produced {
        /// The latest group.
        latest: Option<u64>,
        /// Whether the takeover boundary is final.
        settled: Option<bool>,
    },
    /// The segment was released, unless the logical track is over.
    Idle {
        /// Whether the release succeeded.
        released: bool,
    },
    /// The source table changed while a source was asked for its copy.
    Moved,
    /// A source's copy was spliced in. `settled` says whether the takeover boundary is
    /// final; `None` when the logical track is over.
    Spliced {
        /// The source.
        id: u64,
        /// The copy's latest group.
        latest: Option<u64>,
        /// Whether the takeover boundary is final.
        settled: Option<bool>,
    },
    /// The source that was asked had closed.
    Closing {
        /// The source.
        id: u64,
    },
    /// The source that was asked refused the track.
    Rejected,
}

/// What the driver does next.
#[derive(Clone, Copy, Debug, PartialEq, Eq, Structural)]
pub enum Action {
    /// Wait for the next step.
    Continue,
    /// Stop serving.
    Stop,
    /// Finish the logical track and stop.
    Finish,
    /// Abort the logical track and stop.
    Abort(Error),
}

/// The state of a served track.
#[derive(Clone, Copy)]
pub struct TrackServer {
    /// Failed attempts since the last splice.
    pub fails: u32,
    /// The source whose copy is currently spliced in.
    pub serving: Option<u64>,
    /// The latest group of the newest splice.
    pub splice_latest: Option<u64>,
    /// Whether the takeover boundary of the newest splice is final.
    pub splice_settled: bool,
    /// A source whose splice failed because it had already closed. Its watcher is
    /// about to detach it, so wait for the table to move on rather than burning
    /// the strike budget on a corpse (ids are never reused, so this cannot wedge).
    pub dead: Option<u64>,
    /// When the spliced segment stopped being read, starting the release countdown.
    pub idle_since: Option<u128>,
}

/// The state of a track before anything is spliced in.
pub open spec fn fresh_server() -> TrackServer {
    TrackServer {
        fails: 0,
        serving: None,
        splice_latest: None,
        splice_settled: true,
        dead: None,
        idle_since: None,
    }
}

/// When the segment stopped being read: counted from now on if it was just left.
pub open spec fn idle_from(server: TrackServer, used: bool, now: u128) -> Option<u128> {
    if server.serving is Some && !used {
        match server.idle_since {
            Some(at) => Some(at),
            None => Some(now),
        }
    } else {
        None
    }
}

/// Whether a source is to be spliced in: it is active, somebody reads the track, and it
/// is neither spliced in already nor known to be dead.
pub open spec fn wants_splice(server: TrackServer, used: bool, active: Option<u64>) -> bool {
    used && active is Some && active != server.serving && active != server.dead
}

/// The next step for a track. The source table comes first, then demand, then the spliced
/// copy, then the countdown.
pub open spec fn step_for(
    server: TrackServer,
    used: bool,
    armed: bool,
    seen: Observed,
) -> Option<Step> {
    if seen.closed {
        Some(Step::Closed)
    } else if wants_splice(server, used, seen.active) {
        Some(Step::Splice(seen.active->0))
    } else if seen.edge {
        Some(Step::Demand)
    } else if server.serving is Some && seen.ended is Some {
        if seen.ended->0 {
            Some(Step::Complete)
        } else {
            Some(Step::Failed)
        }
    } else if server.serving is Some && !server.splice_settled && seen.latest is Some {
        Some(Step::Produced(seen.latest->0))
    } else if armed && seen.fired {
        Some(Step::Idle)
    } else {
        None
    }
}

/// The verdict on a source that was asked for its copy.
pub open spec fn verdict(opened: bool, info: Option<bool>, aborted: bool, closing: bool) -> Attempt {
    if opened && info is None {
        Attempt::Moved
    } else if opened && info == Some(true) && !aborted {
        Attempt::Servable
    } else if closing {
        Attempt::Closing
    } else {
        Attempt::Rejected
    }
}

/// The state of a track after an event.
pub open spec fn after_event(server: TrackServer, event: Event) -> TrackServer {
    match event {
        Event::Failed => TrackServer { serving: None, ..server },
        Event::Produced { latest, settled } => TrackServer {
            splice_latest: latest,
            splice_settled: match settled {
                Some(settled) => settled,
                None => server.splice_settled,
            },
            ..server
        },
        Event::Idle { released: true } => TrackServer { serving: None, ..server },
        Event::Spliced { id, latest, settled: Some(settled) } => TrackServer {
            fails: 0,
            dead: None,
            serving: Some(id),
            splice_latest: latest,
            splice_settled: settled,
            ..server
        },
        Event::Spliced { id, latest, settled: None } => TrackServer {
            splice_latest: latest,
            ..server
        },
        Event::Closing { id } => TrackServer { dead: Some(id), serving: None, ..server },
        Event::Rejected => TrackServer {
            fails: (server.fails + 1) as u32,
            serving: if server.fails + 1 >= MAX_TRACK_RETRIES {
                server.serving
            } else {
                None
            },
            ..server
        },
        _ => server,
    }
}

/// What the driver does after an event.
pub open spec fn action_for(server: TrackServer, event: Event) -> Action {
    match event {
        Event::Closed => Action::Stop,
        Event::Complete => Action::Finish,
        Event::Produced { latest, settled: None } => Action::Stop,
        Event::Idle { released: false } => Action::Stop,
        Event::Spliced { id, latest, settled: None } => Action::Stop,
        Event::Rejected => if server.fails + 1 >= MAX_TRACK_RETRIES {
            Action::Abort(Error::Unroutable)
        } else {
            Action::Continue
        },
        _ => Action::Continue,
    }
}

impl TrackServer {
    /// The strike budget is not used up.
    pub open spec fn wf(&self) -> bool {
        self.fails < MAX_TRACK_RETRIES
    }

    /// A track that nothing is spliced into.
    pub fn new() -> (r: Self)
        ensures
            r.wf(),
            r == fresh_server(),
    {
        TrackServer {
            fails: 0,
            serving: None,
            splice_latest: None,
            splice_settled: true,
            dead: None,
            idle_since: None,
        }
    }

    /// Start a pass: arm or cancel the release countdown by the current demand, returning
    /// when it runs out by `clock`. Reads the clock.
    pub fn begin(&mut self, used: bool, clock: &Clock) -> (at: Option<u128>)
        requires
            old(self).wf(),
        ensures
            final(self).wf(),
            exists|now: u128| #[trigger]
                clock.reads(now) && *final(self) == (TrackServer {
                    idle_since: idle_from(*old(self), used, now),
                    ..*old(self)
                }),
            at == match final(self).idle_since {
                Some(since) => deadline_after(since, TRACK_IDLE_LINGER_SECS as nat * 1_000_000_000),
                None => None,
            },
    {
        let now: u128 = clock.nanos();
        self.begin_at(used, now)
    }

    /// Start a pass at instant `now`, in nanoseconds since some fixed instant.
    pub fn begin_at(&mut self, used: bool, now: u128) -> (at: Option<u128>)
        requires
            old(self).wf(),
        ensures
            final(self).wf(),
            *final(self) == (TrackServer {
                idle_since: idle_from(*old(self), used, now),
                ..*old(self)
            }),
            at == match idle_from(*old(self), used, now) {
                Some(since) => deadline_after(since, TRACK_IDLE_LINGER_SECS as nat * 1_000_000_000),
                None => None,
            },
    {
        self.idle_since = if self.serving.is_some() && !used {
            match self.idle_since {
                Some(at) => Some(at),
                None => Some(now),
            }
        } else {
            None
        };
        match self.idle_since {
            Some(since) => deadline(since, Duration::from_secs(TRACK_IDLE_LINGER_SECS)),
            None => None,
        }
    }

    /// The next step, given the demand that the pass began with, whether the countdown is
    /// armed, and what is observed; `None` to keep waiting.
    pub fn next(&self, used: bool, armed: bool, seen: Observed) -> (r: Option<Step>)
        ensures
            r == step_for(*self, used, armed, seen),
    {
        // Watch the source table: the front closing, or the active source moving away
        // from the one currently spliced in (skipping one whose closure we already
        // observed). Splicing waits for a reader.
        if seen.closed {
            return Some(Step::Closed);
        }
        if let Some(active) = seen.active {
            let spliced = match self.serving {
                Some(id) => id == active,
                None => false,
            };
            let dead = match self.dead {
                Some(id) => id == active,
                None => false,
            };
            if used && !spliced && !dead {
                return Some(Step::Splice(active));
            }
        }
        // The demand changed: it is computed by the outer loop, so staying in this pass
        // would go on with the stale value and never arm (or cancel) the linger.
        if seen.edge {
            return Some(Step::Demand);
        }
        if self.serving.is_some() {
            // Complete means the logical track is over; anything else means the serving
            // source died.
            if let Some(complete) = seen.ended {
                return if complete {
                    Some(Step::Complete)
                } else {
                    Some(Step::Failed)
                };
            }
            // While the takeover boundary is provisional, the copy's production resolves
            // resumed vs restarted.
            if !self.splice_settled {
                if let Some(latest) = seen.latest {
                    return Some(Step::Produced(latest));
                }
            }
        }
        if armed && seen.fired {
            Some(Step::Idle)
        } else {
            None
        }
    }

    /// Whether to go on waiting for the info of the copy that source `id` was asked for: the
    /// front is open, and the source is still the active one.
    pub fn awaits(closed: bool, active: Option<u64>, id: u64) -> (r: bool)
        ensures
            r == (!closed && active == Some(id)),
    {
        match active {
            Some(active) => !closed && active == id,
            None => false,
        }
    }

    /// Judge a source that was asked for its copy: whether it `opened` one, whether the
    /// copy's `info` resolved (`None` when the table moved on first), whether the copy is
    /// `aborted` already, and whether the source is `closing`.
    ///
    /// A copy that is already aborted can't be spliced; it counts as a rejection, or a
    /// source pinning a dead track alive would spin without ever yielding.
    pub fn judge(opened: bool, info: Option<bool>, aborted: bool, closing: bool) -> (r: Attempt)
        ensures
            r == verdict(opened, info, aborted, closing),
    {
        if opened {
            match info {
                None => {
                    return Attempt::Moved;
                },
                Some(resolved) => {
                    if resolved && !aborted {
                        return Attempt::Servable;
                    }
                },
            }
        }
        if closing {
            Attempt::Closing
        } else {
            Attempt::Rejected
        }
    }

    /// Move on after an event, returning what to do.
    pub fn apply(&mut self, event: Event) -> (r: Action)
        requires
            old(self).wf(),
        ensures
            *final(self) == after_event(*old(self), event),
            r == action_for(*old(self), event),
            r == Action::Continue ==> final(self).wf(),
    {
        match event {
            Event::Closed => Action::Stop,
            Event::Complete => Action::Finish,
            Event::Failed => {
                // The spliced copy died mid-serve: failover, not a strike. Re-splice from
                // the (possibly same) active source.
                self.serving = None;
                Action::Continue
            },
            Event::Demand => Action::Continue,
            Event::Produced { latest, settled } => {
                self.splice_latest = latest;
                match settled {
                    Some(settled) => {
                        self.splice_settled = settled;
                        Action::Continue
                    },
                    None => Action::Stop,
                }
            },
            Event::Idle { released } => {
                // Nobody has read the track for the linger: the source's copy is dropped so
                // its session can release the track. The logical track stays alive and
                // re-splices on the next reader.
                if released {
                    self.serving = None;
                    Action::Continue
                } else {
                    Action::Stop
                }
            },
            Event::Moved => Action::Continue,
            Event::Spliced { id, latest, settled } => {
                self.splice_latest = latest;
                match settled {
                    Some(settled) => {
                        self.splice_settled = settled;
                        // A successful splice proves the track servable: reset the strike
                        // budget.
                        self.fails = 0;
                        self.dead = None;
                        self.serving = Some(id);
                        Action::Continue
                    },
                    None => Action::Stop,
                }
            },
            Event::Closing { id } => {
                // Not a rejection, so no strike. Park until its watcher detaches it and
                // the table promotes a replacement.
                self.dead = Some(id);
                self.serving = None;
                Action::Continue
            },
            Event::Rejected => {
                self.fails = self.fails + 1;
                if self.fails >= MAX_TRACK_RETRIES {
                    Action::Abort(Error::Unroutable)
                } else {
                    self.serving = None;
                    Action::Continue
                }
            },
        }
    }
}

impl Default for TrackServer {
    fn default() -> (r: Self)
        ensures
            r.wf(),
            r == fresh_server(),
    {
        Self::new()
    }
}

// ---------------------------------------------------------------------------
// Laws
// ---------------------------------------------------------------------------

/// An unread track never splices a source in, so a release cannot re-splice and spin.
pub proof fn law_unread_track_never_splices(server: TrackServer, armed: bool, seen: Observed)
    ensures
        !(step_for(server, false, armed, seen) matches Some(Step::Splice(_))),
{
}

/// After an idle release the countdown is off until something is spliced in again.
pub proof fn law_released_track_has_no_countdown(server: TrackServer, used: bool, now: u128)
    ensures
        idle_from(after_event(server, Event::Idle { released: true }), used, now) is None,
{
}

/// The countdown runs from when the last reader left, not from the latest pass; a reader
/// cancels it.
pub proof fn law_countdown_starts_once(server: TrackServer, first: u128, later: u128)
    requires
        server.serving is Some,
        server.idle_since is None,
    ensures
        ({
            let left = TrackServer { idle_since: idle_from(server, false, first), ..server };
            &&& left.idle_since == Some(first)
            &&& idle_from(left, false, later) == Some(first)
            &&& idle_from(left, true, later) is None
        }),
{
}

/// The source to splice in is never the one spliced in already, nor one known to be dead.
pub proof fn law_splice_is_new(
    server: TrackServer,
    used: bool,
    armed: bool,
    seen: Observed,
    id: u64,
)
    requires
        step_for(server, used, armed, seen) == Some(Step::Splice(id)),
    ensures
        used,
        seen.active == Some(id),
        server.serving != Some(id),
        server.dead != Some(id),
{
}

/// The source that becomes active is spliced in at once if the track is read and the source is
/// neither spliced in already nor known to be dead, whatever else is observed; nothing else is
/// ever spliced in.
pub proof fn law_active_source_is_spliced_in(
    server: TrackServer,
    used: bool,
    armed: bool,
    seen: Observed,
    step: Option<Step>,
    id: u64,
)
    requires
        call_ensures(TrackServer::next, (&server, used, armed, seen), step),
    ensures
        step == Some(Step::Splice(id)) <==> !seen.closed && used && seen.active == Some(id)
            && server.serving != Some(id) && server.dead != Some(id),
{
}

/// A front that closed ends the track before anything else, and nothing but that does.
pub proof fn law_closed_front_comes_first(
    server: TrackServer,
    used: bool,
    armed: bool,
    seen: Observed,
    step: Option<Step>,
)
    requires
        call_ensures(TrackServer::next, (&server, used, armed, seen), step),
    ensures
        step == Some(Step::Closed) <==> seen.closed,
{
}

/// With the front open and no source to splice in, a change of demand is acted on first, then
/// the end of the spliced copy, then its production while the takeover is provisional, then
/// the countdown. Otherwise the track waits.
pub proof fn law_rest_of_a_pass(
    server: TrackServer,
    used: bool,
    armed: bool,
    seen: Observed,
    step: Option<Step>,
)
    requires
        call_ensures(TrackServer::next, (&server, used, armed, seen), step),
        !seen.closed,
        !used || seen.active is None || seen.active == server.serving || seen.active
            == server.dead,
    ensures
        step == Some(Step::Demand) <==> seen.edge,
        step == Some(Step::Complete) <==> !seen.edge && server.serving is Some && seen.ended
            == Some(true),
        step == Some(Step::Failed) <==> !seen.edge && server.serving is Some && seen.ended
            == Some(false),
        (step is Some && step->0 is Produced) <==> !seen.edge && server.serving is Some
            && seen.ended is None && !server.splice_settled && seen.latest is Some,
        step is Some && step->0 is Produced ==> seen.latest == Some(step->0->Produced_0),
        step == Some(Step::Idle) <==> !seen.edge && armed && seen.fired && (server.serving is None
            || (seen.ended is None && (server.splice_settled || seen.latest is None))),
        step is None <==> !seen.edge && !(armed && seen.fired) && (server.serving is None || (
        seen.ended is None && (server.splice_settled || seen.latest is None))),
{
}

/// A copy is awaited exactly while the front is open and its source is the active one.
pub proof fn law_wait_ends_with_the_source(closed: bool, active: Option<u64>, id: u64, r: bool)
    requires
        call_ensures(TrackServer::awaits, (closed, active, id), r),
    ensures
        r <==> active == Some(id) && !closed,
{
}

/// A source is servable exactly when its copy opened, its info resolved and the copy is live.
/// One that is outrun by the table is not judged, and of the others only one that is not
/// closing is to blame.
pub proof fn law_judgement(
    opened: bool,
    info: Option<bool>,
    aborted: bool,
    closing: bool,
    r: Attempt,
)
    requires
        call_ensures(TrackServer::judge, (opened, info, aborted, closing), r),
    ensures
        r == Attempt::Servable <==> opened && info == Some(true) && !aborted,
        r == Attempt::Moved <==> opened && info is None,
        r == Attempt::Closing ==> closing,
        r == Attempt::Rejected ==> !closing,
{
}

/// A copy that was spliced in is served from, with a full strike budget and no source known to
/// be dead.
pub proof fn law_splice_takes_effect(
    server: &mut TrackServer,
    id: u64,
    latest: Option<u64>,
    settled: Option<bool>,
    r: Action,
)
    requires
        call_ensures(TrackServer::apply, (server, Event::Spliced { id, latest, settled }), r),
    ensures
        final(server).splice_latest == latest,
        final(server).idle_since == old(server).idle_since,
        settled is Some ==> {
            &&& r == Action::Continue
            &&& final(server).serving == Some(id)
            &&& final(server).dead is None
            &&& final(server).fails == 0
            &&& final(server).splice_settled == settled->0
        },
        settled is None ==> {
            &&& r == Action::Stop
            &&& final(server).serving == old(server).serving
            &&& final(server).dead == old(server).dead
            &&& final(server).fails == old(server).fails
            &&& final(server).splice_settled == old(server).splice_settled
        },
{
}

/// Losing or releasing the spliced copy leaves the track without one, and costs no strike.
pub proof fn law_lost_copy_is_let_go(
    server: &mut TrackServer,
    event: Event,
    r: Action,
)
    requires
        call_ensures(TrackServer::apply, (server, event), r),
        event == Event::Failed || event == (Event::Idle { released: true }) || event is Closing,
    ensures
        r == Action::Continue,
        final(server).serving is None,
        final(server).fails == old(server).fails,
        final(server).splice_latest == old(server).splice_latest,
        final(server).splice_settled == old(server).splice_settled,
        final(server).idle_since == old(server).idle_since,
        final(server).dead == if event is Closing {
            Some(event->Closing_id)
        } else {
            old(server).dead
        },
{
}

/// A rejection costs one strike. While the budget lasts the track goes on without a copy; the
/// third one in a row aborts it as unroutable.
pub proof fn law_rejection_costs_a_strike(server: &mut TrackServer, r: Action)
    requires
        call_ensures(TrackServer::apply, (server, Event::Rejected), r),
        old(server).fails < 3,
    ensures
        final(server).fails == old(server).fails + 1,
        final(server).dead == old(server).dead,
        final(server).splice_latest == old(server).splice_latest,
        final(server).splice_settled == old(server).splice_settled,
        final(server).idle_since == old(server).idle_since,
        old(server).fails < 2 ==> r == Action::Continue && final(server).serving is None,
        old(server).fails == 2 ==> r == Action::Abort(Error::Unroutable) && final(server).serving
            == old(server).serving,
{
}

/// Production moves the latest group and may settle the takeover; an unsettled `None` means
/// that the track is over.
pub proof fn law_production_is_noted(
    server: &mut TrackServer,
    latest: Option<u64>,
    settled: Option<bool>,
    r: Action,
)
    requires
        call_ensures(TrackServer::apply, (server, Event::Produced { latest, settled }), r),
    ensures
        r == Action::Continue <==> settled is Some,
        r == Action::Stop <==> settled is None,
        final(server).splice_latest == latest,
        settled is Some ==> final(server).splice_settled == settled->0,
        settled is None ==> final(server).splice_settled == old(server).splice_settled,
        final(server).serving == old(server).serving,
        final(server).dead == old(server).dead,
        final(server).fails == old(server).fails,
        final(server).idle_since == old(server).idle_since,
{
}

/// The other events change nothing: a complete copy finishes the track, a closed front or a
/// release that came too late stops it, and the track goes on otherwise.
pub proof fn law_other_events_change_nothing(server: &mut TrackServer, event: Event, r: Action)
    requires
        call_ensures(TrackServer::apply, (server, event), r),
        event == Event::Closed || event == Event::Complete || event == Event::Demand || event
            == Event::Moved || event == (Event::Idle { released: false }),
    ensures
        *final(server) == *old(server),
        r == Action::Finish <==> event == Event::Complete,
        r == Action::Stop <==> event == Event::Closed || event == (Event::Idle {
            released: false,
        }),
        r == Action::Continue <==> event == Event::Demand || event == Event::Moved,
{
}

/// A pass over a read track, or one without a copy, has no countdown. One over an unread copy
/// counts thirty seconds from when the copy was left, which is now unless it was known before.
pub proof fn law_release_countdown(
    server: &mut TrackServer,
    used: bool,
    now: u128,
    at: Option<u128>,
)
    requires
        call_ensures(TrackServer::begin_at, (server, used, now), at),
    ensures
        final(server).serving == old(server).serving,
        final(server).dead == old(server).dead,
        final(server).fails == old(server).fails,
        final(server).splice_latest == old(server).splice_latest,
        final(server).splice_settled == old(server).splice_settled,
        used || old(server).serving is None ==> final(server).idle_since is None && at is None,
        !used && old(server).serving is Some ==> {
            let left = match old(server).idle_since {
                Some(left) => left,
                None => now,
            };
            &&& final(server).idle_since == Some(left)
            &&& left + 30_000_000_000 < 9_223_372_036_854_775_808int * 1_000_000_000 ==> at
                is Some && at->0 - left == 30_000_000_000
        },
{
}

/// A countdown that a pass starts counts from what the clock given to it reads.
pub proof fn law_release_countdown_follows_the_clock(
    server: &mut TrackServer,
    used: bool,
    clock: Clock,
    at: Option<u128>,
)
    requires
        call_ensures(TrackServer::begin, (server, used, &clock), at),
    ensures
        final(server).serving == old(server).serving,
        final(server).dead == old(server).dead,
        final(server).fails == old(server).fails,
        final(server).splice_latest == old(server).splice_latest,
        final(server).splice_settled == old(server).splice_settled,
        used || old(server).serving is None ==> final(server).idle_since is None && at is None,
        !used && old(server).serving is Some ==> final(server).idle_since is Some && (old(
            server,
        ).idle_since is Some ==> final(server).idle_since == old(server).idle_since) && (old(
            server,
        ).idle_since is None ==> clock.reads(final(server).idle_since->0)) && (at is Some
            ==> at->0 - final(server).idle_since->0 == 30_000_000_000) && (at is None
            ==> final(server).idle_since->0 + 30_000_000_000 >= 9_223_372_036_854_775_808int
            * 1_000_000_000),
{
}

/// A track starts out with nothing spliced in and its whole budget, so the first reader has the
/// active source spliced in.
pub proof fn law_new_track_splices_the_active_source(
    server: TrackServer,
    armed: bool,
    seen: Observed,
    step: Option<Step>,
)
    requires
        call_ensures(TrackServer::new, (), server),
        call_ensures(TrackServer::next, (&server, true, armed, seen), step),
        !seen.closed,
    ensures
        server.fails == 0,
        server.idle_since is None,
        server.splice_settled,
        seen.active is Some ==> step == Some(Step::Splice(seen.active->0)),
{
}

/// Three rejections without a splice in between abort the track as unroutable, and no
/// fewer do.
pub proof fn law_three_strikes(server: TrackServer)
    requires
        server.fails == 0,
    ensures
        ({
            let one = after_event(server, Event::Rejected);
            let two = after_event(one, Event::Rejected);
            &&& action_for(server, Event::Rejected) == Action::Continue
            &&& action_for(one, Event::Rejected) == Action::Continue
            &&& action_for(two, Event::Rejected) == Action::Abort(Error::Unroutable)
        }),
{
}

/// A splice resets the strike budget; nothing but a rejection uses it up.
pub proof fn law_only_rejections_are_strikes(server: TrackServer, event: Event)
    requires
        !(event is Rejected),
    ensures
        after_event(server, event).fails <= server.fails,
        event matches Event::Spliced { id, latest, settled: Some(_) } ==> after_event(
            server,
            event,
        ).fails == 0,
{
}

/// A default track is a new one.
pub proof fn law_default_track_is_new(fresh: TrackServer, default: TrackServer)
    requires
        call_ensures(TrackServer::new, (), fresh),
        call_ensures(TrackServer::default, (), default),
    ensures
        default == fresh,
        default.serving is None && default.dead is None && default.splice_latest is None,
{
}

} // verus!
