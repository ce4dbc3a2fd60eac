//! Broadcasts served on demand, for paths that nobody announced.
//!
//! Lives off to the side of the announce tree because dynamically served broadcasts
//! are never announced.

use crate::announce::Broadcast;
use crate::error::Error;
use crate::origin::Origin;
use crate::path::Path;
use crate::tree::PathView;
use vstd::prelude::*;

verus! {

/// A request that is waiting to be served, or was handed to a handler.
struct Waiting {
    path: Path,
    channel: u64,
    queued: bool,
}

/// A broadcast that a handler served.
struct Kept {
    path: Path,
    broadcast: u64,
}

/// A request as contracts see it.
#[verifier::ext_equal]
pub ghost struct WaitingView {
    /// The absolute path requested.
    pub path: PathView,
    /// The channel on which every requester of the path waits.
    pub channel: u64,
    /// Whether no handler picked the request up yet.
    pub queued: bool,
}

/// A served broadcast as contracts see it.
#[verifier::ext_equal]
pub ghost struct KeptView {
    /// The absolute path.
    pub path: PathView,
    /// The broadcast.
    pub broadcast: u64,
}

/// The abstract state of the request queue.
#[verifier::ext_equal]
pub ghost struct DynamicView {
    /// How many handlers are alive.
    pub handlers: u64,
    /// The pending requests, in order of arrival.
    pub requests: Seq<WaitingView>,
    /// The served broadcasts, in order of arrival.
    pub served: Seq<KeptView>,
    /// The next result channel.
    pub next_channel: u64,
}

/// The position of the request for a path.
pub open spec fn request_at(requests: Seq<WaitingView>, path: PathView) -> Option<int>
    decreases requests.len(),
{
    if requests.len() == 0 {
        None
    } else if requests.last().path == path {
        Some(requests.len() - 1)
    } else {
        request_at(requests.drop_last(), path)
    }
}

/// The broadcast served for a path.
pub open spec fn served_for(served: Seq<KeptView>, path: PathView) -> Option<u64>
    decreases served.len(),
{
    if served.len() == 0 {
        None
    } else if served.last().path == path {
        Some(served.last().broadcast)
    } else {
        served_for(served.drop_last(), path)
    }
}

/// The served broadcasts that are still open.
pub open spec fn still_open(served: Seq<KeptView>, closed: Seq<u64>) -> Seq<KeptView>
    decreases served.len(),
{
    if served.len() == 0 {
        served
    } else if closed.contains(served.last().broadcast) {
        still_open(served.drop_last(), closed)
    } else {
        still_open(served.drop_last(), closed).push(served.last())
    }
}

/// The position of the oldest request that no handler picked up.
pub open spec fn first_queued(requests: Seq<WaitingView>) -> Option<int>
    decreases requests.len(),
{
    if requests.len() == 0 {
        None
    } else {
        match first_queued(requests.drop_last()) {
            Some(i) => Some(i),
            None => if requests.last().queued {
                Some(requests.len() - 1)
            } else {
                None
            },
        }
    }
}

/// The requests that a handler picked up.
pub open spec fn handed_off(requests: Seq<WaitingView>) -> Seq<WaitingView>
    decreases requests.len(),
{
    if requests.len() == 0 {
        requests
    } else if requests.last().queued {
        handed_off(requests.drop_last())
    } else {
        handed_off(requests.drop_last()).push(requests.last())
    }
}

/// The channels of the requests that no handler picked up.
pub open spec fn queued_channels(requests: Seq<WaitingView>) -> Seq<u64>
    decreases requests.len(),
{
    if requests.len() == 0 {
        Seq::empty()
    } else if requests.last().queued {
        queued_channels(requests.drop_last()).push(requests.last().channel)
    } else {
        queued_channels(requests.drop_last())
    }
}

/// The requests without the one on a channel.
pub open spec fn without_channel(requests: Seq<WaitingView>, channel: u64) -> Seq<WaitingView>
    decreases requests.len(),
{
    if requests.len() == 0 {
        requests
    } else if requests.last().channel == channel {
        without_channel(requests.drop_last(), channel)
    } else {
        without_channel(requests.drop_last(), channel).push(requests.last())
    }
}

/// What a request for a broadcast comes to.
#[derive(Clone, Copy, Debug, PartialEq, Eq, Structural)]
pub enum RequestState {
    /// Already available: resolves immediately with this broadcast.
    Ready(Broadcast),
    /// Unroutable at request time: resolves immediately with this error.
    Failed(Error),
    /// Awaiting a handler: resolves when the request's result channel does.
    Pending(u64),
}

/// What a request for an unannounced path comes to, given the broadcasts that closed.
pub open spec fn requested(state: DynamicView, path: PathView, closed: Seq<u64>) -> RequestState {
    match served_for(still_open(state.served, closed), path) {
        Some(broadcast) => RequestState::Ready(Broadcast::Served(broadcast)),
        None => match request_at(state.requests, path) {
            Some(i) => RequestState::Pending(state.requests[i].channel),
            None => if state.handlers == 0 {
                RequestState::Failed(Error::Unroutable)
            } else {
                RequestState::Pending(state.next_channel)
            },
        },
    }
}

/// The queue after a request.
pub open spec fn after_request(
    state: DynamicView,
    path: PathView,
    closed: Seq<u64>,
) -> DynamicView {
    let swept = DynamicView { served: still_open(state.served, closed), ..state };
    if served_for(swept.served, path) is None && request_at(state.requests, path) is None
        && state.handlers > 0 {
        DynamicView {
            requests: state.requests.push(
                WaitingView { path, channel: state.next_channel, queued: true },
            ),
            next_channel: (state.next_channel + 1) as u64,
            ..swept
        }
    } else {
        swept
    }
}

/// What an accepted request resolves to: a broadcast served meanwhile, else the new one.
pub open spec fn accepted(
    state: DynamicView,
    path: PathView,
    broadcast: u64,
    closed: Seq<u64>,
) -> u64 {
    match served_for(still_open(state.served, closed), path) {
        Some(existing) => existing,
        None => broadcast,
    }
}

/// The queue after a request was accepted.
pub open spec fn after_accept(
    state: DynamicView,
    path: PathView,
    channel: u64,
    broadcast: u64,
    closed: Seq<u64>,
) -> DynamicView {
    let open = still_open(state.served, closed);
    DynamicView {
        served: match served_for(open, path) {
            Some(_) => open,
            None => open.push(KeptView { path, broadcast }),
        },
        requests: without_channel(state.requests, channel),
        ..state
    }
}

/// There is at most one request per path and per channel, and at most one served broadcast
/// per path.
pub open spec fn dynamic_wf(state: DynamicView) -> bool {
    &&& forall|i: int, j: int|
        0 <= i < j < state.requests.len() ==> (#[trigger] state.requests[i]).path != (
        #[trigger] state.requests[j]).path && state.requests[i].channel != state.requests[j].channel
    &&& forall|i: int|
        0 <= i < state.requests.len() ==> (#[trigger] state.requests[i]).channel
            < state.next_channel
    &&& forall|i: int, j: int|
        0 <= i < j < state.served.len() ==> (#[trigger] state.served[i]).path != (
        #[trigger] state.served[j]).path
}

/// The fallback request queue of an origin.
pub struct OriginDynamicState {
    handlers: u64,
    // Result channels for pending requests, keyed by absolute path so concurrent
    // requests for the same path coalesce onto one channel.
    requests: Vec<Waiting>,
    // Broadcasts a handler has already served, so a repeat request for the same path
    // resolves to the same broadcast instead of re-invoking the handler (which would
    // open a duplicate upstream subscription). Closed ones are dropped along the way, so
    // a long-lived origin serving many distinct one-shot paths stays bounded by the live
    // count.
    served: Vec<Kept>,
    next_channel: u64,
}

spec fn waiting_views(s: Seq<Waiting>) -> Seq<WaitingView> {
    Seq::new(
        s.len(),
        |i: int| WaitingView { path: s[i].path@, channel: s[i].channel, queued: s[i].queued },
    )
}

spec fn kept_views(s: Seq<Kept>) -> Seq<KeptView> {
    Seq::new(s.len(), |i: int| KeptView { path: s[i].path@, broadcast: s[i].broadcast })
}

impl View for OriginDynamicState {
    type V = DynamicView;

    closed spec fn view(&self) -> DynamicView {
        DynamicView {
            handlers: self.handlers,
            requests: waiting_views(self.requests@),
            served: kept_views(self.served@),
            next_channel: self.next_channel,
        }
    }
}

impl Default for OriginDynamicState {
    fn default() -> (r: Self)
        ensures
            r.wf(),
            r@ == (DynamicView {
                handlers: 0,
                requests: Seq::<WaitingView>::empty(),
                served: Seq::<KeptView>::empty(),
                next_channel: 0,
            }),
    {
        let r = OriginDynamicState {
            handlers: 0,
            requests: Vec::new(),
            served: Vec::new(),
            next_channel: 0,
        };
        assert(r@ =~= DynamicView {
            handlers: 0,
            requests: Seq::<WaitingView>::empty(),
            served: Seq::<KeptView>::empty(),
            next_channel: 0,
        });
        r
    }
}

proof fn lemma_request_at(requests: Seq<WaitingView>, path: PathView)
    ensures
        match request_at(requests, path) {
            Some(i) => 0 <= i < requests.len() && requests[i].path == path,
            None => forall|i: int| 0 <= i < requests.len() ==> (#[trigger] requests[i]).path != path,
        },
    decreases requests.len(),
{
    if requests.len() > 0 {
        let rest = requests.drop_last();
        lemma_request_at(rest, path);
        assert(forall|i: int| 0 <= i < rest.len() ==> rest[i] == requests[i]);
    }
}

proof fn lemma_served_for(served: Seq<KeptView>, path: PathView)
    ensures
        match served_for(served, path) {
            Some(b) => exists|i: int|
                0 <= i < served.len() && (#[trigger] served[i]).path == path && served[i].broadcast
                    == b,
            None => forall|i: int| 0 <= i < served.len() ==> (#[trigger] served[i]).path != path,
        },
    decreases served.len(),
{
    if served.len() > 0 {
        let rest = served.drop_last();
        lemma_served_for(rest, path);
        assert(forall|i: int| 0 <= i < rest.len() ==> rest[i] == served[i]);
        if served.last().path == path {
            assert(served[served.len() - 1].path == path);
        } else if let Some(b) = served_for(rest, path) {
            let i = choose|i: int|
                0 <= i < rest.len() && (#[trigger] rest[i]).path == path && rest[i].broadcast == b;
            assert(served[i].path == path && served[i].broadcast == b);
        }
    }
}

/// Each broadcast that is still open was served, and the order is kept.
proof fn lemma_still_open(served: Seq<KeptView>, closed: Seq<u64>)
    requires
        forall|i: int, j: int|
            0 <= i < j < served.len() ==> (#[trigger] served[i]).path != (#[trigger] served[j]).path,
    ensures
        ({
            let open = still_open(served, closed);
            &&& forall|k: int|
                0 <= k < open.len() ==> served.contains(#[trigger] open[k]) && !closed.contains(
                    open[k].broadcast,
                )
            &&& forall|i: int, j: int|
                0 <= i < j < open.len() ==> (#[trigger] open[i]).path != (#[trigger] open[j]).path
        }),
    decreases served.len(),
{
    if served.len() > 0 {
        let rest = served.drop_last();
        assert(forall|i: int| 0 <= i < rest.len() ==> rest[i] == served[i]);
        lemma_still_open(rest, closed);
        let open = still_open(served, closed);
        let before = still_open(rest, closed);
        assert forall|k: int| 0 <= k < open.len() implies served.contains(#[trigger] open[k])
            && !closed.contains(open[k].broadcast) by {
            if k < before.len() {
                assert(open[k] == before[k]);
                let i = choose|i: int| 0 <= i < rest.len() && rest[i] == before[k];
                assert(served[i] == before[k]);
            } else {
                assert(served[served.len() - 1] == open[k]);
            }
        }
        assert forall|i: int, j: int| 0 <= i < j < open.len() implies (#[trigger] open[i]).path != (
        #[trigger] open[j]).path by {
            if j == before.len() {
                assert(open[i] == before[i]);
                assert(rest.contains(before[i]));
                let k = choose|k: int| 0 <= k < rest.len() && rest[k] == before[i];
                assert(served[k].path != served[served.len() - 1].path);
            } else {
                assert(before[i].path != before[j].path);
            }
        }
    }
}

/// Requests kept in order, each of which was pending before, are in order.
proof fn lemma_kept_in_order(
    before: Seq<WaitingView>,
    after: Seq<WaitingView>,
    from: Seq<int>,
    next_channel: u64,
)
    requires
        forall|i: int, j: int|
            0 <= i < j < before.len() ==> (#[trigger] before[i]).path != (
            #[trigger] before[j]).path && before[i].channel != before[j].channel,
        forall|i: int| 0 <= i < before.len() ==> (#[trigger] before[i]).channel < next_channel,
        from.len() == after.len(),
        forall|k: int|
            0 <= k < from.len() ==> 0 <= #[trigger] from[k] < before.len() && after[k].path
                == before[from[k]].path && after[k].channel == before[from[k]].channel,
        forall|k: int, l: int| 0 <= k < l < from.len() ==> #[trigger] from[k] < #[trigger] from[l],
    ensures
        forall|i: int, j: int|
            0 <= i < j < after.len() ==> (#[trigger] after[i]).path != (#[trigger] after[j]).path
                && after[i].channel != after[j].channel,
        forall|i: int| 0 <= i < after.len() ==> (#[trigger] after[i]).channel < next_channel,
{
    assert forall|i: int, j: int| 0 <= i < j < after.len() implies (#[trigger] after[i]).path != (
    #[trigger] after[j]).path && after[i].channel != after[j].channel by {
        assert(from[i] < from[j]);
        assert(before[from[i]].path != before[from[j]].path);
    }
    assert forall|i: int| 0 <= i < after.len() implies (#[trigger] after[i]).channel
        < next_channel by {
        assert(0 <= from[i] < before.len());
    }
}

/// Whether a list holds an id.
fn holds(list: &[u64], id: u64) -> (r: bool)
    ensures
        r == list@.contains(id),
{
    let mut i: usize = 0;
    while i < list.len()
        invariant
            i <= list@.len(),
            forall|k: int| 0 <= k < i ==> #[trigger] list@[k] != id,
        decreases list@.len() - i,
    {
        if list[i] == id {
            assert(list@.contains(id));
            return true;
        }
        i = i + 1;
    }
    false
}

impl OriginDynamicState {
    /// The queue's invariant.
    pub open spec fn wf(&self) -> bool {
        dynamic_wf(self@)
    }

    /// Count one more handler.
    pub fn add_handler(&mut self)
        requires
            old(self).wf(),
            old(self)@.handlers < u64::MAX,
        ensures
            final(self).wf(),
            final(self)@ == (DynamicView {
                handlers: (old(self)@.handlers + 1) as u64,
                ..old(self)@
            }),
    {
        self.handlers = self.handlers + 1;
    }

    /// Count one handler less. Without handlers left nobody picks up queued requests, so
    /// they are dropped; their channels are returned, to be closed so that the requesters
    /// find nobody could route them. A request already handed to a handler stays, and is
    /// resolved by it.
    pub fn remove_handler(&mut self) -> (dropped: Vec<u64>)
        requires
            old(self).wf(),
            old(self)@.handlers > 0,
        ensures
            final(self).wf(),
            final(self)@ == (DynamicView {
                handlers: (old(self)@.handlers - 1) as u64,
                requests: if old(self)@.handlers == 1 {
                    handed_off(old(self)@.requests)
                } else {
                    old(self)@.requests
                },
                ..old(self)@
            }),
            dropped@ == if old(self)@.handlers == 1 {
                queued_channels(old(self)@.requests)
            } else {
                Seq::<u64>::empty()
            },
    {
        let mut dropped: Vec<u64> = Vec::new();
        self.handlers = self.handlers - 1;
        if self.handlers == 0 {
            let mut kept: Vec<Waiting> = Vec::new();
            let ghost all = waiting_views(self.requests@);
            let ghost mut from: Seq<int> = Seq::empty();
            let mut i: usize = 0;
            assert(waiting_views(kept@) =~= handed_off(all.take(0)));
            while i < self.requests.len()
                invariant
                    i <= self.requests@.len(),
                    all == waiting_views(self.requests@),
                    self.requests@ == old(self).requests@,
                    waiting_views(kept@) == handed_off(all.take(i as int)),
                    dropped@ == queued_channels(all.take(i as int)),
                    from.len() == kept@.len(),
                    forall|k: int|
                        0 <= k < from.len() ==> 0 <= #[trigger] from[k] < i && waiting_views(
                            kept@,
                        )[k] == all[from[k]],
                    forall|k: int, l: int|
                        0 <= k < l < from.len() ==> #[trigger] from[k] < #[trigger] from[l],
                    self.served == old(self).served,
                    self.next_channel == old(self).next_channel,
                    self.handlers == old(self).handlers - 1,
                decreases self.requests@.len() - i,
            {
                let ghost before = waiting_views(kept@);
                proof {
                    assert(all.take(i + 1).drop_last() =~= all.take(i as int));
                    assert(all.take(i + 1).last() == all[i as int]);
                }
                if self.requests[i].queued {
                    dropped.push(self.requests[i].channel);
                } else {
                    kept.push(
                        Waiting {
                            path: self.requests[i].path.clone(),
                            channel: self.requests[i].channel,
                            queued: false,
                        },
                    );
                    proof {
                        from = from.push(i as int);
                        assert(waiting_views(kept@) =~= before.push(all[i as int]));
                    }
                }
                i = i + 1;
            }
            proof {
                assert(all.take(i as int) =~= all);
                lemma_kept_in_order(all, waiting_views(kept@), from, self.next_channel);
            }
            self.requests = kept;
        }
        dropped
    }

    /// Forget the served broadcasts that closed.
    fn sweep(&mut self, closed: &[u64])
        requires
            old(self).wf(),
        ensures
            final(self).wf(),
            final(self)@ == (DynamicView {
                served: still_open(old(self)@.served, closed@),
                ..old(self)@
            }),
    {
        let mut open: Vec<Kept> = Vec::new();
        let ghost all = kept_views(self.served@);
        let mut i: usize = 0;
        assert(kept_views(open@) =~= still_open(all.take(0), closed@));
        while i < self.served.len()
            invariant
                *self == *old(self),
                i <= self.served@.len(),
                all == kept_views(self.served@),
                kept_views(open@) == still_open(all.take(i as int), closed@),
            decreases self.served@.len() - i,
        {
            let ghost before = kept_views(open@);
            proof {
                assert(all.take(i + 1).drop_last() =~= all.take(i as int));
                assert(all.take(i + 1).last() == all[i as int]);
            }
            if !holds(closed, self.served[i].broadcast) {
                open.push(
                    Kept {
                        path: self.served[i].path.clone(),
                        broadcast: self.served[i].broadcast,
                    },
                );
                assert(kept_views(open@) =~= before.push(all[i as int]));
            }
            i = i + 1;
        }
        proof {
            assert(all.take(i as int) =~= all);
            assert(all == old(self)@.served);
            lemma_still_open(all, closed@);
        }
        self.served = open;
    }

    /// The broadcast served for a path.
    pub fn served(&self, path: &Path) -> (r: Option<u64>)
        ensures
            r == served_for(self@.served, path@),
    {
        let ghost all = kept_views(self.served@);
        let mut i: usize = self.served.len();
        assert(all.take(i as int) =~= all);
        while i > 0
            invariant
                i <= self.served@.len(),
                all == kept_views(self.served@),
                served_for(all, path@) == served_for(all.take(i as int), path@),
            decreases i,
        {
            i = i - 1;
            proof {
                assert(all.take(i + 1).drop_last() =~= all.take(i as int));
                assert(all.take(i + 1).last() == all[i as int]);
            }
            if self.served[i].path.same(path) {
                return Some(self.served[i].broadcast);
            }
        }
        None
    }

    /// How many served broadcasts are remembered.
    pub fn served_len(&self) -> (n: usize)
        ensures
            n == self@.served.len(),
    {
        self.served.len()
    }

    fn find(&self, path: &Path) -> (r: Option<usize>)
        ensures
            match r {
                Some(i) => request_at(self@.requests, path@) == Some(i as int) && i
                    < self.requests@.len(),
                None => request_at(self@.requests, path@) is None,
            },
    {
        let ghost all = waiting_views(self.requests@);
        let mut i: usize = self.requests.len();
        assert(all.take(i as int) =~= all);
        while i > 0
            invariant
                i <= self.requests@.len(),
                all == waiting_views(self.requests@),
                request_at(all, path@) == request_at(all.take(i as int), path@),
            decreases i,
        {
            i = i - 1;
            proof {
                assert(all.take(i + 1).drop_last() =~= all.take(i as int));
                assert(all.take(i + 1).last() == all[i as int]);
            }
            if self.requests[i].path.same(path) {
                return Some(i);
            }
        }
        None
    }

    /// Request a broadcast that is not announced, by absolute path.
    ///
    /// A still-open broadcast that a handler already served for the path is shared.
    /// Otherwise the request coalesces onto a pending one for the same path, or is queued
    /// for a handler, unless there is none alive. `closed` are served broadcasts that
    /// closed meanwhile; they are forgotten.
    pub fn request(&mut self, path: &Path, closed: &[u64]) -> (r: RequestState)
        requires
            old(self).wf(),
            old(self)@.next_channel < u64::MAX,
        ensures
            final(self).wf(),
            r == requested(old(self)@, path@, closed@),
            final(self)@ == after_request(old(self)@, path@, closed@),
    {
        self.sweep(closed);
        if let Some(broadcast) = self.served(path) {
            return RequestState::Ready(Broadcast::Served(broadcast));
        }
        if let Some(i) = self.find(path) {
            return RequestState::Pending(self.requests[i].channel);
        }
        if self.handlers == 0 {
            return RequestState::Failed(Error::Unroutable);
        }
        let channel: u64 = self.next_channel;
        let ghost before = self@.requests;
        self.next_channel = channel + 1;
        self.requests.push(Waiting { path: path.clone(), channel, queued: true });
        proof {
            lemma_request_at(before, path@);
            assert(self@.requests =~= before.push(
                WaitingView { path: path@, channel, queued: true },
            ));
        }
        RequestState::Pending(channel)
    }

    /// Hand the oldest queued request to a handler.
    ///
    /// It stays pending, so a repeat request between the hand-off and its resolution
    /// coalesces onto it instead of invoking the handler again.
    pub fn pop(&mut self) -> (r: Option<Request>)
        requires
            old(self).wf(),
        ensures
            final(self).wf(),
            match first_queued(old(self)@.requests) {
                None => r is None && final(self)@ == old(self)@,
                Some(i) => {
                    &&& 0 <= i < old(self)@.requests.len()
                    &&& r matches Some(request) && request@ == (
                        old(self)@.requests[i].path,
                        old(self)@.requests[i].channel,
                    )
                    &&& final(self)@ == (DynamicView {
                        requests: old(self)@.requests.update(
                            i,
                            WaitingView { queued: false, ..old(self)@.requests[i] },
                        ),
                        ..old(self)@
                    })
                },
            },
    {
        let ghost all = waiting_views(self.requests@);
        let mut i: usize = 0;
        while i < self.requests.len()
            invariant
                *self == *old(self),
                i <= self.requests@.len(),
                all == waiting_views(self.requests@),
                first_queued(all.take(i as int)) is None,
                self.wf(),
            decreases self.requests@.len() - i,
        {
            proof {
                assert(all.take(i + 1).drop_last() =~= all.take(i as int));
                assert(all.take(i + 1).last() == all[i as int]);
            }
            if self.requests[i].queued {
                let path = self.requests[i].path.clone();
                let channel: u64 = self.requests[i].channel;
                let request = Request { path: path.clone(), channel };
                proof {
                    lemma_first_queued(all, i as int);
                }
                self.requests.set(i, Waiting { path, channel, queued: false });
                proof {
                    let after = all.update(
                        i as int,
                        WaitingView { queued: false, ..all[i as int] },
                    );
                    assert(self@.requests =~= after);
                    assert forall|a: int, b: int| 0 <= a < b < after.len() implies (
                    #[trigger] after[a]).path != (#[trigger] after[b]).path && after[a].channel
                        != after[b].channel by {
                        assert(all[a].path != all[b].path);
                    }
                    assert forall|a: int| 0 <= a < after.len() implies (
                    #[trigger] after[a]).channel < self.next_channel by {
                        assert(all[a].channel < self.next_channel);
                    }
                }
                return Some(request);
            }
            i = i + 1;
        }
        assert(all.take(i as int) =~= all);
        None
    }

    /// Remove the pending request on a channel. The identity check keeps a resolved
    /// request from clobbering a newer one for the same path.
    fn remove(&mut self, channel: u64)
        requires
            old(self).wf(),
        ensures
            final(self).wf(),
            final(self)@ == (DynamicView {
                requests: without_channel(old(self)@.requests, channel),
                ..old(self)@
            }),
    {
        let mut kept: Vec<Waiting> = Vec::new();
        let ghost all = waiting_views(self.requests@);
        let ghost mut from: Seq<int> = Seq::empty();
        let mut i: usize = 0;
        assert(waiting_views(kept@) =~= without_channel(all.take(0), channel));
        while i < self.requests.len()
            invariant
                *self == *old(self),
                i <= self.requests@.len(),
                all == waiting_views(self.requests@),
                waiting_views(kept@) == without_channel(all.take(i as int), channel),
                from.len() == kept@.len(),
                forall|k: int|
                    0 <= k < from.len() ==> 0 <= #[trigger] from[k] < i && waiting_views(kept@)[k]
                        == all[from[k]],
                forall|k: int, l: int|
                    0 <= k < l < from.len() ==> #[trigger] from[k] < #[trigger] from[l],
            decreases self.requests@.len() - i,
        {
            let ghost before = waiting_views(kept@);
            proof {
                assert(all.take(i + 1).drop_last() =~= all.take(i as int));
                assert(all.take(i + 1).last() == all[i as int]);
            }
            if self.requests[i].channel != channel {
                kept.push(
                    Waiting {
                        path: self.requests[i].path.clone(),
                        channel: self.requests[i].channel,
                        queued: self.requests[i].queued,
                    },
                );
                proof {
                    from = from.push(i as int);
                    assert(waiting_views(kept@) =~= before.push(all[i as int]));
                }
            }
            i = i + 1;
        }
        proof {
            assert(all.take(i as int) =~= all);
            assert(all == old(self)@.requests);
            assert(self.next_channel == old(self)@.next_channel);
            lemma_kept_in_order(all, waiting_views(kept@), from, self.next_channel);
        }
        self.requests = kept;
    }
}

proof fn lemma_first_queued(requests: Seq<WaitingView>, i: int)
    requires
        0 <= i < requests.len(),
        requests[i].queued,
        first_queued(requests.take(i)) is None,
    ensures
        first_queued(requests) == Some(i),
    decreases requests.len(),
{
    let rest = requests.drop_last();
    if i == requests.len() - 1 {
        assert(requests.take(i) =~= rest);
    } else {
        assert(rest.take(i) =~= requests.take(i));
        lemma_first_queued(rest, i);
    }
}

/// A pending request for a broadcast that was not announced.
///
/// The requester is waiting; [`accept`](Self::accept) resolves it with a live broadcast
/// (which the handler keeps producing into) and [`reject`](Self::reject) resolves it with
/// an error. [`abandon`](Self::abandon)ing the request does neither.
pub struct Request {
    // Absolute path that was requested.
    path: Path,
    // Result channel back to the awaiting requesters.
    channel: u64,
}

impl View for Request {
    type V = (PathView, u64);

    closed spec fn view(&self) -> (PathView, u64) {
        (self.path@, self.channel)
    }
}

/// What the requesters waiting on a channel are answered.
#[derive(Clone, Copy, Debug, PartialEq, Eq)]
pub struct Resolution {
    /// The channel.
    pub channel: u64,
    /// The answer.
    pub result: Result<Broadcast, Error>,
}

impl Request {
    /// The absolute path that was requested.
    pub fn path(&self) -> (r: &Path)
        ensures
            r@ == self@.0,
    {
        &self.path
    }

    /// Accept the request, resolving every awaiting requester with `broadcast`.
    ///
    /// The caller keeps producing into `broadcast` (e.g. a relay proxying tracks from
    /// upstream). The broadcast is *not* announced. If a live broadcast was served for
    /// the path meanwhile, the requesters share that one, and this one is dropped rather
    /// than replace a good entry with a duplicate subscription.
    pub fn accept(self, state: &mut OriginDynamicState, broadcast: u64, closed: &[u64]) -> (r:
        Resolution)
        requires
            old(state).wf(),
        ensures
            final(state).wf(),
            r == (Resolution {
                channel: self@.1,
                result: Ok(
                    Broadcast::Served(accepted(old(state)@, self@.0, broadcast, closed@)),
                ),
            }),
            final(state)@ == after_accept(old(state)@, self@.0, self@.1, broadcast, closed@),
    {
        state.sweep(closed);
        let resolved: u64 = match state.served(&self.path) {
            Some(existing) => existing,
            None => {
                let ghost before = state@.served;
                state.served.push(Kept { path: self.path.clone(), broadcast });
                proof {
                    lemma_served_for(before, self.path@);
                    assert(state@.served =~= before.push(
                        KeptView { path: self.path@, broadcast },
                    ));
                }
                broadcast
            },
        };
        state.remove(self.channel);
        Resolution { channel: self.channel, result: Ok(Broadcast::Served(resolved)) }
    }

    /// Reject the request, resolving every awaiting requester with `err`.
    pub fn reject(self, state: &mut OriginDynamicState, err: Error) -> (r: Resolution)
        requires
            old(state).wf(),
        ensures
            final(state).wf(),
            r == (Resolution { channel: self@.1, result: Err(err) }),
            final(state)@ == (DynamicView {
                requests: without_channel(old(state)@.requests, self@.1),
                ..old(state)@
            }),
    {
        state.remove(self.channel);
        Resolution { channel: self.channel, result: Err(err) }
    }

    /// Give the request up. Its channel is returned, to be closed so that the requesters
    /// find nobody could route them rather than wait on.
    pub fn abandon(self, state: &mut OriginDynamicState) -> (channel: u64)
        requires
            old(state).wf(),
        ensures
            final(state).wf(),
            channel == self@.1,
            final(state)@ == (DynamicView {
                requests: without_channel(old(state)@.requests, self@.1),
                ..old(state)@
            }),
    {
        state.remove(self.channel);
        self.channel
    }
}

/// Picks up requests for paths that are not announced.
///
/// Where a broadcast serves tracks on demand, this serves whole broadcasts on demand
/// within an origin. A relay uses it as a fallback router, fetching a broadcast from
/// upstream only when a downstream consumer asks for an exact path that nobody announced.
///
/// Served broadcasts are deliberately *not* announced. [`close`](Self::close) every handle
/// to reject the requests still waiting to be served.
pub struct Dynamic {
    info: Origin,
    root: Path,
}

/// The contents of a handler.
#[verifier::ext_equal]
pub ghost struct HandlerView {
    /// The origin the handler belongs to.
    pub info: Origin,
    /// The prefix stripped from requested paths.
    pub root: PathView,
}

impl View for Dynamic {
    type V = HandlerView;

    closed spec fn view(&self) -> HandlerView {
        HandlerView { info: self.info, root: self.root@ }
    }
}

impl Dynamic {
    /// A handler, counted as alive.
    pub fn new(info: Origin, root: Path, state: &mut OriginDynamicState) -> (r: Self)
        requires
            old(state).wf(),
            old(state)@.handlers < u64::MAX,
        ensures
            final(state).wf(),
            r@ == (HandlerView { info, root: root@ }),
            final(state)@ == (DynamicView {
                handlers: (old(state)@.handlers + 1) as u64,
                ..old(state)@
            }),
    {
        state.add_handler();
        Dynamic { info, root }
    }

    /// Another handle, counted on its own: closing it must not count down the first.
    pub fn duplicate(&self, state: &mut OriginDynamicState) -> (r: Self)
        requires
            old(state).wf(),
            old(state)@.handlers < u64::MAX,
        ensures
            final(state).wf(),
            r@ == self@,
            final(state)@ == (DynamicView {
                handlers: (old(state)@.handlers + 1) as u64,
                ..old(state)@
            }),
    {
        state.add_handler();
        Dynamic { info: self.info, root: self.root.clone() }
    }

    /// The origin this handler belongs to.
    pub fn info(&self) -> (r: &Origin)
        ensures
            *r == self@.info,
    {
        &self.info
    }

    /// The next requested broadcast, if any.
    pub fn requested_broadcast(&self, state: &mut OriginDynamicState) -> (r: Option<Request>)
        requires
            old(state).wf(),
        ensures
            final(state).wf(),
            match first_queued(old(state)@.requests) {
                None => r is None && final(state)@ == old(state)@,
                Some(i) => {
                    &&& 0 <= i < old(state)@.requests.len()
                    &&& r matches Some(request) && request@ == (
                        old(state)@.requests[i].path,
                        old(state)@.requests[i].channel,
                    )
                    &&& final(state)@ == (DynamicView {
                        requests: old(state)@.requests.update(
                            i,
                            WaitingView { queued: false, ..old(state)@.requests[i] },
                        ),
                        ..old(state)@
                    })
                },
            },
    {
        state.pop()
    }

    /// Returns the prefix that is automatically stripped from requested paths.
    pub fn root(&self) -> (r: &Path)
        ensures
            r@ == self@.root,
    {
        &self.root
    }

    /// End this handle. The channels of requests that nobody will pick up any more are
    /// returned, to be closed.
    pub fn close(self, state: &mut OriginDynamicState) -> (dropped: Vec<u64>)
        requires
            old(state).wf(),
            old(state)@.handlers > 0,
        ensures
            final(state).wf(),
            final(state)@ == (DynamicView {
                handlers: (old(state)@.handlers - 1) as u64,
                requests: if old(state)@.handlers == 1 {
                    handed_off(old(state)@.requests)
                } else {
                    old(state)@.requests
                },
                ..old(state)@
            }),
            dropped@ == if old(state)@.handlers == 1 {
                queued_channels(old(state)@.requests)
            } else {
                Seq::<u64>::empty()
            },
    {
        state.remove_handler()
    }
}

/// The state of a result channel.
#[derive(Clone, Copy, Debug, PartialEq, Eq)]
pub enum ChannelState {
    /// Not resolved yet.
    Waiting,
    /// Resolved. This stays observable after the channel closed.
    Resolved(Result<Broadcast, Error>),
    /// Closed without a result.
    Closed,
}

/// Who reads of a broadcast are attributed to: the stats session, if any, and the absolute
/// path of the broadcast.
pub struct Scope {
    /// The stats session; `None` attributes to nobody.
    pub session: Option<u64>,
    /// The absolute path of the broadcast.
    pub path: Path,
}

/// The outcome of a request for a broadcast.
///
/// Resolves to the broadcast immediately when it was already announced, or once a handler
/// serves the request. Resolves to an error if the request is rejected or every handler
/// drops before serving it.
pub struct Requesting {
    /// What the request came to.
    pub inner: RequestState,
    /// Who the reads of the resolved broadcast are attributed to.
    pub stats: Scope,
}

/// What a request resolves to, given the state of its channel; `None` while it waits.
pub open spec fn outcome(inner: RequestState, channel: ChannelState) -> Option<
    Result<Broadcast, Error>,
> {
    match inner {
        RequestState::Ready(broadcast) => Some(Ok(broadcast)),
        RequestState::Failed(error) => Some(Err(error)),
        RequestState::Pending(_) => match channel {
            ChannelState::Waiting => None,
            ChannelState::Resolved(result) => Some(result),
            ChannelState::Closed => Some(Err(Error::Unroutable)),
        },
    }
}

impl Requesting {
    /// The requested broadcast, if the request is resolved. `channel` is the state of the
    /// channel of a pending request.
    pub fn poll_ok(&self, channel: ChannelState) -> (r: Option<Result<Broadcast, Error>>)
        ensures
            r == outcome(self.inner, channel),
    {
        match self.inner {
            RequestState::Ready(broadcast) => Some(Ok(broadcast)),
            RequestState::Failed(error) => Some(Err(error)),
            RequestState::Pending(_) => match channel {
                ChannelState::Waiting => None,
                ChannelState::Resolved(result) => Some(result),
                // Every handler dropped without resolving: nobody could route it.
                ChannelState::Closed => Some(Err(Error::Unroutable)),
            },
        }
    }
}

// ---------------------------------------------------------------------------
// Laws
// ---------------------------------------------------------------------------

/// Two requests for the same path in a row come to the same.
pub proof fn law_requests_coalesce(
    state: DynamicView,
    path: PathView,
    closed: Seq<u64>,
    later: Seq<u64>,
)
    requires
        requested(state, path, closed) is Pending,
    ensures
        requested(after_request(state, path, closed), path, later) is Pending,
        requested(after_request(state, path, closed), path, later) == requested(
            state,
            path,
            closed,
        ),
{
    let after = after_request(state, path, closed);
    lemma_none_still_open(after.served, later, path);
    if request_at(state.requests, path) is None {
        assert(after.requests.last().path == path);
        assert(request_at(after.requests, path) == Some(after.requests.len() - 1));
    }
}

proof fn lemma_none_still_open(served: Seq<KeptView>, closed: Seq<u64>, path: PathView)
    requires
        served_for(served, path) is None,
    ensures
        served_for(still_open(served, closed), path) is None,
    decreases served.len(),
{
    if served.len() > 0 {
        let rest = served.drop_last();
        lemma_none_still_open(rest, closed, path);
        if !closed.contains(served.last().broadcast) {
            assert(still_open(served, closed).drop_last() =~= still_open(rest, closed));
        }
    }
}

/// A request fails exactly when nothing open was served for the path, none is pending for
/// it, and no handler is alive.
pub proof fn law_unroutable_without_handler(state: DynamicView, path: PathView, closed: Seq<u64>)
    ensures
        requested(state, path, closed) is Failed <==> served_for(
            still_open(state.served, closed),
            path,
        ) is None && request_at(state.requests, path) is None && state.handlers == 0,
        requested(state, path, closed) is Failed ==> requested(state, path, closed)
            == RequestState::Failed(Error::Unroutable),
{
}

/// Once a request was accepted, later requests for the path share its broadcast as long as
/// that stays open.
pub proof fn law_served_broadcast_is_shared(
    state: DynamicView,
    path: PathView,
    channel: u64,
    broadcast: u64,
    closed: Seq<u64>,
    later: Seq<u64>,
)
    requires
        forall|i: int| 0 <= i < later.len() ==> #[trigger] later[i] != accepted(
            state,
            path,
            broadcast,
            closed,
        ),
    ensures
        requested(after_accept(state, path, channel, broadcast, closed), path, later)
            == RequestState::Ready(
            Broadcast::Served(accepted(state, path, broadcast, closed)),
        ),
{
    let after = after_accept(state, path, channel, broadcast, closed);
    let open = still_open(state.served, closed);
    if served_for(open, path) is None {
        assert(after.served.last().path == path);
    }
    lemma_stays_open(after.served, later, path);
}

proof fn lemma_stays_open(served: Seq<KeptView>, closed: Seq<u64>, path: PathView)
    requires
        served_for(served, path) matches Some(b) && !closed.contains(b),
    ensures
        served_for(still_open(served, closed), path) == served_for(served, path),
    decreases served.len(),
{
    let rest = served.drop_last();
    if served.last().path != path {
        lemma_stays_open(rest, closed, path);
    }
    if !closed.contains(served.last().broadcast) {
        assert(still_open(served, closed).drop_last() =~= still_open(rest, closed));
        assert(still_open(served, closed).last() == served.last());
    }
}

/// A closed broadcast is not shared: the next request for its path is served anew.
pub proof fn law_closed_broadcast_is_served_again(
    state: DynamicView,
    path: PathView,
    broadcast: u64,
    closed: Seq<u64>,
)
    requires
        dynamic_wf(state),
        served_for(state.served, path) == Some(broadcast),
        closed.contains(broadcast),
    ensures
        !(requested(state, path, closed) is Ready),
{
    lemma_still_open(state.served, closed);
    lemma_served_for(state.served, path);
    let open = still_open(state.served, closed);
    lemma_served_for(open, path);
    if served_for(open, path) is Some {
        let i = choose|i: int|
            0 <= i < state.served.len() && (#[trigger] state.served[i]).path == path
                && state.served[i].broadcast == broadcast;
        let k = choose|k: int|
            0 <= k < open.len() && (#[trigger] open[k]).path == path && open[k].broadcast
                == served_for(open, path)->0;
        assert(state.served.contains(open[k]));
        let j = choose|j: int| 0 <= j < state.served.len() && state.served[j] == open[k];
        if i < j {
            assert(state.served[i].path != state.served[j].path);
        } else if j < i {
            assert(state.served[j].path != state.served[i].path);
        }
    }
}

/// Serving many paths whose broadcasts close does not accumulate: once a request was
/// accepted, no broadcast that had closed is remembered but possibly its own.
pub proof fn law_closed_broadcasts_are_forgotten(
    state: DynamicView,
    path: PathView,
    channel: u64,
    broadcast: u64,
    closed: Seq<u64>,
    k: int,
)
    requires
        dynamic_wf(state),
        0 <= k < after_accept(state, path, channel, broadcast, closed).served.len(),
    ensures
        ({
            let kept = after_accept(state, path, channel, broadcast, closed).served[k];
            !closed.contains(kept.broadcast) || kept == (KeptView { path, broadcast })
        }),
{
    lemma_still_open(state.served, closed);
    let open = still_open(state.served, closed);
    if k < open.len() {
        assert(!closed.contains(open[k].broadcast));
    }
}

/// Resolving a request leaves the pending requests on other channels alone, also one for
/// the same path that was registered since.
pub proof fn law_resolving_spares_other_requests(
    state: DynamicView,
    channel: u64,
    other: WaitingView,
)
    requires
        state.requests.contains(other),
        other.channel != channel,
    ensures
        without_channel(state.requests, channel).contains(other),
{
    lemma_other_channel_stays(state.requests, channel, other);
}

proof fn lemma_other_channel_stays(requests: Seq<WaitingView>, channel: u64, other: WaitingView)
    requires
        requests.contains(other),
        other.channel != channel,
    ensures
        without_channel(requests, channel).contains(other),
    decreases requests.len(),
{
    let rest = requests.drop_last();
    let kept = without_channel(requests, channel);
    if requests.last() == other {
        assert(kept[kept.len() - 1] == other);
    } else {
        let i = choose|i: int| 0 <= i < requests.len() && requests[i] == other;
        assert(rest[i] == other);
        lemma_other_channel_stays(rest, channel, other);
        let before = without_channel(rest, channel);
        let k = choose|k: int| 0 <= k < before.len() && before[k] == other;
        assert(kept[k] == other);
    }
}

/// A request that a handler picked up survives the end of the last handler.
pub proof fn law_handed_off_requests_survive(requests: Seq<WaitingView>, other: WaitingView)
    requires
        requests.contains(other),
        !other.queued,
    ensures
        handed_off(requests).contains(other),
    decreases requests.len(),
{
    let rest = requests.drop_last();
    let kept = handed_off(requests);
    if requests.last() == other {
        assert(kept[kept.len() - 1] == other);
    } else {
        let i = choose|i: int| 0 <= i < requests.len() && requests[i] == other;
        assert(rest[i] == other);
        law_handed_off_requests_survive(rest, other);
        let before = handed_off(rest);
        let k = choose|k: int| 0 <= k < before.len() && before[k] == other;
        assert(kept[k] == other);
    }
}

proof fn lemma_as_filters(
    requests: Seq<WaitingView>,
    served: Seq<KeptView>,
    closed: Seq<u64>,
    channel: u64,
)
    ensures
        handed_off(requests) == requests.filter(|request: WaitingView| !request.queued),
        queued_channels(requests) == requests.filter(
            |request: WaitingView| request.queued,
        ).map_values(|request: WaitingView| request.channel),
        without_channel(requests, channel) == requests.filter(
            |request: WaitingView| request.channel != channel,
        ),
        still_open(served, closed) == served.filter(
            |kept: KeptView| !closed.contains(kept.broadcast),
        ),
    decreases requests.len() + served.len(),
{
    reveal(Seq::filter);
    if requests.len() > 0 {
        lemma_as_filters(requests.drop_last(), Seq::empty(), closed, channel);
    }
    if served.len() > 0 {
        lemma_as_filters(Seq::empty(), served.drop_last(), closed, channel);
    }
    assert(queued_channels(requests) =~= requests.filter(
        |request: WaitingView| request.queued,
    ).map_values(|request: WaitingView| request.channel));
}

/// The end of a handler leaves the pending requests alone while another one is alive. The end of
/// the last one drops those that nobody picked up, each of whose channels is returned, in order,
/// so that every requester is answered; the others stay, in order.
pub proof fn law_last_handler_answers_the_queue(
    state: &mut OriginDynamicState,
    handler: Dynamic,
    by_handle: bool,
    dropped: Vec<u64>,
)
    requires
        by_handle ==> call_ensures(Dynamic::close, (handler, state), dropped),
        !by_handle ==> call_ensures(OriginDynamicState::remove_handler, (state,), dropped),
        old(state)@.handlers > 0,
    ensures
        final(state)@.handlers == old(state)@.handlers - 1,
        final(state)@.served == old(state)@.served,
        final(state)@.next_channel == old(state)@.next_channel,
        old(state)@.handlers > 1 ==> dropped@.len() == 0 && final(state)@.requests == old(
            state,
        )@.requests,
        old(state)@.handlers == 1 ==> {
            &&& dropped@ == old(state)@.requests.filter(
                |request: WaitingView| request.queued,
            ).map_values(|request: WaitingView| request.channel)
            &&& final(state)@.requests == old(state)@.requests.filter(
                |request: WaitingView| !request.queued,
            )
        },
{
    lemma_as_filters(old(state)@.requests, old(state)@.served, Seq::empty(), 0);
}

/// No request is lost when a handler ends: it stays pending, or its channel is returned; and
/// only channels of requests that nobody picked up are returned.
pub proof fn law_no_request_is_lost(
    state: &mut OriginDynamicState,
    handler: Dynamic,
    dropped: Vec<u64>,
    i: int,
    k: int,
)
    requires
        call_ensures(Dynamic::close, (handler, state), dropped),
        old(state)@.handlers > 0,
    ensures
        0 <= i < old(state)@.requests.len() ==> {
            let request = old(state)@.requests[i];
            &&& final(state)@.requests.contains(request) || dropped@.contains(request.channel)
            &&& old(state)@.handlers == 1 && request.queued ==> dropped@.contains(request.channel)
            &&& !request.queued ==> final(state)@.requests.contains(request)
        },
        0 <= k < dropped@.len() ==> exists|j: int|
            0 <= j < old(state)@.requests.len() && (#[trigger] old(state)@.requests[j]).queued
                && old(state)@.requests[j].channel == dropped@[k],
{
    let requests = old(state)@.requests;
    if old(state)@.handlers == 1 {
        lemma_channels_of_the_queue(requests);
        if 0 <= k < dropped@.len() {
            let j = lemma_channel_of_the_queue(requests, k);
            assert(requests[j].queued);
        }
        if 0 <= i < requests.len() && !requests[i].queued {
            assert(requests.contains(requests[i]));
            law_handed_off_requests_survive(requests, requests[i]);
        }
    } else if 0 <= i < requests.len() {
        assert(final(state)@.requests[i] == requests[i]);
    }
}

proof fn lemma_channels_of_the_queue(requests: Seq<WaitingView>)
    ensures
        forall|i: int|
            0 <= i < requests.len() && (#[trigger] requests[i]).queued ==> queued_channels(
                requests,
            ).contains(requests[i].channel),
    decreases requests.len(),
{
    if requests.len() > 0 {
        let rest = requests.drop_last();
        lemma_channels_of_the_queue(rest);
        let before = queued_channels(rest);
        let all = queued_channels(requests);
        assert forall|i: int| 0 <= i < requests.len() && (#[trigger] requests[i]).queued implies
            all.contains(requests[i].channel) by {
            if i < rest.len() {
                assert(rest[i] == requests[i]);
                let k = choose|k: int| 0 <= k < before.len() && before[k] == requests[i].channel;
                assert(all[k] == before[k]);
            } else {
                assert(all[all.len() - 1] == requests[i].channel);
            }
        }
    }
}

proof fn lemma_channel_of_the_queue(requests: Seq<WaitingView>, k: int) -> (j: int)
    requires
        0 <= k < queued_channels(requests).len(),
    ensures
        0 <= j < requests.len(),
        requests[j].queued,
        requests[j].channel == queued_channels(requests)[k],
    decreases requests.len(),
{
    let rest = requests.drop_last();
    if k < queued_channels(rest).len() {
        lemma_channel_of_the_queue(rest, k)
    } else {
        requests.len() - 1
    }
}

/// A request for a path that is served by an open broadcast shares it. Otherwise it joins the
/// request pending for the path, or becomes a pending one on a channel of its own; only without
/// a handler it fails, as unroutable. Broadcasts that closed are forgotten on the way.
pub proof fn law_request_is_shared_joined_or_queued(
    state: &mut OriginDynamicState,
    path: Path,
    closed: &[u64],
    r: RequestState,
    i: int,
    k: int,
)
    requires
        call_ensures(OriginDynamicState::request, (state, &path, closed), r),
        dynamic_wf(old(state)@),
        old(state)@.next_channel < u64::MAX,
    ensures
        ({
            let before = old(state)@;
            let served = exists|n: int|
                0 <= n < before.served.len() && (#[trigger] before.served[n]).path == path@
                    && !closed@.contains(before.served[n].broadcast);
            let pending = exists|n: int|
                0 <= n < before.requests.len() && (#[trigger] before.requests[n]).path == path@;
            &&& final(state)@.served == before.served.filter(
                |kept: KeptView| !closed@.contains(kept.broadcast),
            )
            &&& final(state)@.handlers == before.handlers
            &&& r is Ready <==> served
            &&& 0 <= k < before.served.len() && before.served[k].path == path@ && !closed@.contains(
                before.served[k].broadcast,
            ) ==> r == RequestState::Ready(Broadcast::Served(before.served[k].broadcast))
            &&& !served && 0 <= i < before.requests.len() && before.requests[i].path == path@ ==> r
                == RequestState::Pending(before.requests[i].channel)
            &&& !served && !pending ==> r == if before.handlers == 0 {
                RequestState::Failed(Error::Unroutable)
            } else {
                RequestState::Pending(before.next_channel)
            }
            &&& if !served && !pending && before.handlers > 0 {
                &&& final(state)@.next_channel == before.next_channel + 1
                &&& final(state)@.requests == before.requests.push(
                    WaitingView { path: path@, channel: before.next_channel, queued: true },
                )
            } else {
                &&& final(state)@.next_channel == before.next_channel
                &&& final(state)@.requests == before.requests
            }
        }),
{
    let before = old(state)@;
    let open = still_open(before.served, closed@);
    lemma_as_filters(before.requests, before.served, closed@, 0);
    lemma_request_at(before.requests, path@);
    lemma_served_for(open, path@);
    lemma_still_open(before.served, closed@);
    lemma_open_stays(before.served, closed@);
    if let Some(b) = served_for(open, path@) {
        let n = choose|n: int|
            0 <= n < open.len() && (#[trigger] open[n]).path == path@ && open[n].broadcast == b;
        assert(before.served.contains(open[n]));
        let m = choose|m: int| 0 <= m < before.served.len() && before.served[m] == open[n];
        assert(before.served[m].path == path@);
        if 0 <= k < before.served.len() && before.served[k].path == path@ && k != m {
            if k < m {
                assert(before.served[k].path != before.served[m].path);
            } else {
                assert(before.served[m].path != before.served[k].path);
            }
        }
    } else {
        assert forall|n: int|
            0 <= n < before.served.len() && (#[trigger] before.served[n]).path == path@ implies closed@.contains(
            before.served[n].broadcast,
        ) by {
            if !closed@.contains(before.served[n].broadcast) {
                assert(open.contains(before.served[n]));
                let m = choose|m: int| 0 <= m < open.len() && open[m] == before.served[n];
                assert(open[m].path == path@);
            }
        }
    }
    if let Some(at) = request_at(before.requests, path@) {
        if 0 <= i < before.requests.len() && before.requests[i].path == path@ && i != at {
            if i < at {
                assert(before.requests[i].path != before.requests[at].path);
            } else {
                assert(before.requests[at].path != before.requests[i].path);
            }
        }
    }
}

proof fn lemma_open_stays(served: Seq<KeptView>, closed: Seq<u64>)
    ensures
        forall|i: int|
            0 <= i < served.len() && !closed.contains((#[trigger] served[i]).broadcast)
                ==> still_open(served, closed).contains(served[i]),
    decreases served.len(),
{
    if served.len() > 0 {
        let rest = served.drop_last();
        lemma_open_stays(rest, closed);
        let before = still_open(rest, closed);
        let open = still_open(served, closed);
        assert forall|i: int|
            0 <= i < served.len() && !closed.contains((#[trigger] served[i]).broadcast) implies open.contains(
            served[i],
        ) by {
            if i < rest.len() {
                assert(rest[i] == served[i]);
                let k = choose|k: int| 0 <= k < before.len() && before[k] == served[i];
                assert(open[k] == before[k]);
            } else {
                assert(open[open.len() - 1] == served[i]);
            }
        }
    }
}

/// A handler is given the oldest request that nobody picked up. The request stays pending, where
/// it was, and is not given out again.
pub proof fn law_oldest_request_is_handed_out(
    state: &mut OriginDynamicState,
    handler: Dynamic,
    by_handle: bool,
    r: Option<Request>,
    i: int,
)
    requires
        by_handle ==> call_ensures(Dynamic::requested_broadcast, (&handler, state), r),
        !by_handle ==> call_ensures(OriginDynamicState::pop, (state,), r),
    ensures
        r is None <==> forall|j: int|
            0 <= j < old(state)@.requests.len() ==> !(#[trigger] old(state)@.requests[j]).queued,
        r is None ==> final(state)@ == old(state)@,
        0 <= i < old(state)@.requests.len() && old(state)@.requests[i].queued && (forall|j: int|
            0 <= j < i ==> !(#[trigger] old(state)@.requests[j]).queued) ==> {
            let request = old(state)@.requests[i];
            &&& r is Some
            &&& r->0@.0 == request.path
            &&& r->0@.1 == request.channel
            &&& final(state)@ == (DynamicView {
                requests: old(state)@.requests.update(
                    i,
                    WaitingView { path: request.path, channel: request.channel, queued: false },
                ),
                ..old(state)@
            })
        },
{
    lemma_oldest(old(state)@.requests);
}

proof fn lemma_oldest(requests: Seq<WaitingView>)
    ensures
        match first_queued(requests) {
            Some(i) => 0 <= i < requests.len() && requests[i].queued && forall|j: int|
                0 <= j < i ==> !(#[trigger] requests[j]).queued,
            None => forall|j: int| 0 <= j < requests.len() ==> !(#[trigger] requests[j]).queued,
        },
    decreases requests.len(),
{
    if requests.len() > 0 {
        let rest = requests.drop_last();
        lemma_oldest(rest);
        assert(forall|j: int| 0 <= j < rest.len() ==> rest[j] == requests[j]);
    }
}

/// Whoever waits on the channel of an accepted request is answered with a broadcast: the one
/// served for the path meanwhile if it is open, else the new one, which is remembered. The
/// requests on that channel are over; the others stay, in order.
pub proof fn law_accept_answers_the_channel(
    request: Request,
    state: &mut OriginDynamicState,
    broadcast: u64,
    closed: &[u64],
    r: Resolution,
    k: int,
)
    requires
        call_ensures(Request::accept, (request, state, broadcast, closed), r),
        dynamic_wf(old(state)@),
    ensures
        ({
            let before = old(state)@;
            let open = before.served.filter(|kept: KeptView| !closed@.contains(kept.broadcast));
            let served = exists|n: int|
                0 <= n < open.len() && (#[trigger] open[n]).path == request@.0;
            &&& r.channel == request@.1
            &&& 0 <= k < open.len() && open[k].path == request@.0 ==> r.result == Ok::<
                Broadcast,
                Error,
            >(Broadcast::Served(open[k].broadcast))
            &&& !served ==> r.result == Ok::<Broadcast, Error>(Broadcast::Served(broadcast))
            &&& final(state)@.served == if served {
                open
            } else {
                open.push(KeptView { path: request@.0, broadcast })
            }
            &&& final(state)@.requests == before.requests.filter(
                |other: WaitingView| other.channel != request@.1,
            )
            &&& final(state)@.handlers == before.handlers
            &&& final(state)@.next_channel == before.next_channel
        }),
{
    let before = old(state)@;
    lemma_as_filters(before.requests, before.served, closed@, request@.1);
    lemma_still_open(before.served, closed@);
    let open = still_open(before.served, closed@);
    lemma_served_for(open, request@.0);
    if let Some(b) = served_for(open, request@.0) {
        let n = choose|n: int|
            0 <= n < open.len() && (#[trigger] open[n]).path == request@.0 && open[n].broadcast
                == b;
        if 0 <= k < open.len() && open[k].path == request@.0 && k != n {
            if k < n {
                assert(open[k].path != open[n].path);
            } else {
                assert(open[n].path != open[k].path);
            }
        }
    }
}

/// Rejecting a request answers its channel with the error, giving it up returns the channel, and
/// either ends the requests on that channel and no others.
pub proof fn law_refused_request_is_over(
    request: Request,
    state: &mut OriginDynamicState,
    rejected: bool,
    err: Error,
    r: Resolution,
    channel: u64,
)
    requires
        rejected ==> call_ensures(Request::reject, (request, state, err), r),
        !rejected ==> call_ensures(Request::abandon, (request, state), channel),
    ensures
        rejected ==> r.channel == request@.1 && r.result == Err::<Broadcast, Error>(err),
        !rejected ==> channel == request@.1,
        final(state)@ == (DynamicView {
            requests: old(state)@.requests.filter(
                |other: WaitingView| other.channel != request@.1,
            ),
            ..old(state)@
        }),
{
    lemma_as_filters(old(state)@.requests, old(state)@.served, Seq::empty(), request@.1);
}

/// Each handler counts once, a duplicate too, and changes nothing else.
pub proof fn law_handlers_are_counted(
    info: Origin,
    root: Path,
    state: &mut OriginDynamicState,
    first: Dynamic,
    second: Dynamic,
    duplicated: bool,
)
    requires
        duplicated ==> call_ensures(Dynamic::duplicate, (&first, state), second),
        !duplicated ==> call_ensures(Dynamic::new, (info, root, state), second),
        old(state)@.handlers < u64::MAX,
    ensures
        final(state)@.handlers == old(state)@.handlers + 1,
        final(state)@ == (DynamicView { handlers: final(state)@.handlers, ..old(state)@ }),
        duplicated ==> second@.info == first@.info && second@.root == first@.root,
        !duplicated ==> second@.info == info && second@.root == root@,
{
}

/// A request resolves to what it found at once, or to what its channel holds; a channel that
/// closed without an answer means that nobody could route the request.
pub proof fn law_request_resolves(
    request: Requesting,
    channel: ChannelState,
    r: Option<Result<Broadcast, Error>>,
)
    requires
        call_ensures(Requesting::poll_ok, (&request, channel), r),
    ensures
        request.inner is Ready ==> r == Some(Ok::<Broadcast, Error>(request.inner->Ready_0)),
        request.inner is Failed ==> r == Some(Err::<Broadcast, Error>(request.inner->Failed_0)),
        request.inner is Pending ==> {
            &&& r is None <==> channel is Waiting
            &&& channel is Resolved ==> r == Some(channel->Resolved_0)
            &&& channel is Closed ==> r == Some(Err::<Broadcast, Error>(Error::Unroutable))
        },
{
}

/// What is found as served for a path was served for it, and nothing is missed.
pub proof fn law_served_is_found(state: OriginDynamicState, path: Path, r: Option<u64>, i: int)
    requires
        call_ensures(OriginDynamicState::served, (&state, &path), r),
        dynamic_wf(state@),
    ensures
        0 <= i < state@.served.len() && state@.served[i].path == path@ ==> r == Some(
            state@.served[i].broadcast,
        ),
        (forall|n: int| 0 <= n < state@.served.len() ==> (#[trigger] state@.served[n]).path
            != path@) ==> r is None,
{
    lemma_served_for(state@.served, path@);
    if let Some(b) = r {
        let n = choose|n: int|
            0 <= n < state@.served.len() && (#[trigger] state@.served[n]).path == path@
                && state@.served[n].broadcast == b;
        if 0 <= i < state@.served.len() && state@.served[i].path == path@ && i != n {
            if i < n {
                assert(state@.served[i].path != state@.served[n].path);
            } else {
                assert(state@.served[n].path != state@.served[i].path);
            }
        }
    }
}

/// A new queue has no handlers, requests or broadcasts; what a queue, a request and a handler say
/// of themselves is true.
pub proof fn law_queue_reports_itself(
    fresh: OriginDynamicState,
    state: OriginDynamicState,
    n: usize,
    request: Request,
    path: &Path,
    handler: Dynamic,
    info: &Origin,
    root: &Path,
)
    requires
        call_ensures(OriginDynamicState::default, (), fresh),
        call_ensures(OriginDynamicState::served_len, (&state,), n),
        call_ensures(Request::path, (&request,), path),
        call_ensures(Dynamic::info, (&handler,), info),
        call_ensures(Dynamic::root, (&handler,), root),
    ensures
        fresh@.handlers == 0 && fresh@.requests.len() == 0 && fresh@.served.len() == 0,
        fresh@.next_channel == 0,
        n == state@.served.len(),
        path@ == request@.0,
        *info == handler@.info,
        root@ == handler@.root,
{
}

/// A handler that is added is counted, and nothing else changes.
pub proof fn law_added_handler_is_counted(state: &mut OriginDynamicState)
    requires
        call_ensures(OriginDynamicState::add_handler, (state,), ()),
        old(state)@.handlers < u64::MAX,
    ensures
        final(state)@.handlers == old(state)@.handlers + 1,
        final(state)@.requests == old(state)@.requests,
        final(state)@.served == old(state)@.served,
        final(state)@.next_channel == old(state)@.next_channel,
{
}

} // verus!
