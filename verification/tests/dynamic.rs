use std::collections::HashMap;

use moq_origin::announce::Broadcast;
use moq_origin::dynamic::{
    ChannelState, Dynamic, OriginDynamicState, Request, RequestState, Requesting,
};
use moq_origin::error::Error;
use moq_origin::handle::{Consumer, Producer};
use moq_origin::origin::Origin;
use moq_origin::path::Path;
use moq_origin::route::Route;
use moq_origin::tree::OriginTree;

/// The request queue of an origin, with the channels that its requesters wait on.
struct World {
    tree: OriginTree,
    state: OriginDynamicState,
    channels: HashMap<u64, ChannelState>,
    closed: Vec<u64>,
    broadcasts: u64,
}

impl World {
    fn new() -> Self {
        World {
            tree: OriginTree::new(),
            state: OriginDynamicState::default(),
            channels: HashMap::new(),
            closed: Vec::new(),
            broadcasts: 0,
        }
    }

    /// A new broadcast that a handler produces.
    fn produce(&mut self) -> u64 {
        self.broadcasts += 1;
        self.broadcasts
    }

    fn request(&mut self, consumer: &Consumer, path: &str) -> Requesting {
        consumer.request_broadcast(&self.tree, &mut self.state, &Path::new(path), &self.closed)
    }

    fn poll(&self, requesting: &Requesting) -> Option<Result<Broadcast, Error>> {
        let state = match requesting.inner {
            RequestState::Pending(channel) => {
                self.channels.get(&channel).copied().unwrap_or(ChannelState::Waiting)
            }
            _ => ChannelState::Waiting,
        };
        requesting.poll_ok(state)
    }

    fn accept(&mut self, request: Request, broadcast: u64) {
        let resolution = request.accept(&mut self.state, broadcast, &self.closed);
        self.channels.insert(resolution.channel, ChannelState::Resolved(resolution.result));
    }

    fn reject(&mut self, request: Request, err: Error) {
        let resolution = request.reject(&mut self.state, err);
        self.channels.insert(resolution.channel, ChannelState::Resolved(resolution.result));
    }

    fn abandon(&mut self, request: Request) {
        let channel = request.abandon(&mut self.state);
        self.channels.insert(channel, ChannelState::Closed);
    }

    fn close(&mut self, dynamic: Dynamic) {
        for channel in dynamic.close(&mut self.state) {
            self.channels.insert(channel, ChannelState::Closed);
        }
    }

    fn publish(&mut self, origin: &Producer<()>, path: &str) {
        let route = Route::new().with_announce(true);
        let mut created =
            origin.create_broadcast(&Path::new(path), route, 0).map_err(|_| ()).unwrap();
        created.source.observe(&mut self.tree, created.route, false);
    }
}

fn served(broadcast: u64) -> Option<Result<Broadcast, Error>> {
    Some(Ok(Broadcast::Served(broadcast)))
}

fn random() -> Producer<()> {
    Origin::random().produce()
}

#[test]
fn dynamic_request_unroutable_without_handler() {
    let mut w = World::new();
    let origin = random();
    let consumer = origin.consume();
    let request = w.request(&consumer, "missing");
    assert_eq!(w.poll(&request), Some(Err(Error::Unroutable)));
}

#[test]
fn dynamic_request_served_not_announced() {
    let mut w = World::new();
    let origin = random();
    let dynamic = origin.dynamic(&mut w.state);
    let consumer = origin.consume();

    // A separate announce cursor must never observe the dynamic broadcast.
    let mut announced = origin.consume().announced(&mut w.tree);
    assert!(announced.try_next(&mut w.tree).is_none());

    // Request a path that nobody announced; it stays pending until served.
    let waiting = w.request(&consumer, "fallback");
    assert_eq!(w.poll(&waiting), None);

    let request = dynamic.requested_broadcast(&mut w.state).unwrap();
    assert!(request.path().same(&Path::new("fallback")));
    let broadcast = w.produce();
    w.accept(request, broadcast);

    assert_eq!(w.poll(&waiting), served(broadcast));

    // Still nothing announced.
    assert!(announced.try_next(&mut w.tree).is_none());
    assert!(consumer.get_broadcast(&w.tree, &Path::new("fallback")).is_none());
}

#[test]
fn dynamic_request_coalesces() {
    let mut w = World::new();
    let origin = random();
    let dynamic = origin.dynamic(&mut w.state);
    let consumer = origin.consume();

    // Both register before the handler drains either.
    let f1 = w.request(&consumer, "dup");
    let f2 = w.request(&consumer, "dup");

    // Exactly one request reaches the handler.
    let request = dynamic.requested_broadcast(&mut w.state).unwrap();
    assert!(request.path().same(&Path::new("dup")));
    assert!(
        dynamic.requested_broadcast(&mut w.state).is_none(),
        "a coalesced request must not be served twice"
    );

    // Accepting resolves both awaiting requesters with the same broadcast.
    let broadcast = w.produce();
    w.accept(request, broadcast);
    assert_eq!(w.poll(&f1), served(broadcast));
    assert_eq!(w.poll(&f2), served(broadcast));
}

#[test]
fn dynamic_request_dedups_served() {
    let mut w = World::new();
    let origin = random();
    let dynamic = origin.dynamic(&mut w.state);
    let consumer = origin.consume();

    let waiting = w.request(&consumer, "fallback");
    let request = dynamic.requested_broadcast(&mut w.state).unwrap();
    let broadcast = w.produce();
    w.accept(request, broadcast);
    assert_eq!(w.poll(&waiting), served(broadcast));

    // The repeat resolves immediately to the same broadcast...
    let second = w.request(&consumer, "fallback");
    assert_eq!(w.poll(&second), served(broadcast));
    assert_eq!(w.state.served(&Path::new("fallback")), Some(broadcast));

    // ...and the handler never sees a second request.
    assert!(
        dynamic.requested_broadcast(&mut w.state).is_none(),
        "a still-live served broadcast must not be re-requested from the handler"
    );
}

#[test]
fn dynamic_request_reserves_after_close() {
    let mut w = World::new();
    let origin = random();
    let dynamic = origin.dynamic(&mut w.state);
    let consumer = origin.consume();

    let waiting = w.request(&consumer, "fallback");
    let request = dynamic.requested_broadcast(&mut w.state).unwrap();
    let first = w.produce();
    w.accept(request, first);
    assert_eq!(w.poll(&waiting), served(first));

    // Close the first served broadcast; the cache entry goes stale.
    w.closed.push(first);

    // A fresh request must reach the handler again and resolve to the new broadcast.
    let waiting = w.request(&consumer, "fallback");
    let request = dynamic.requested_broadcast(&mut w.state).unwrap();
    assert!(request.path().same(&Path::new("fallback")));
    let second = w.produce();
    w.accept(request, second);
    assert_eq!(w.poll(&waiting), served(second));
}

#[test]
fn dynamic_request_served_cache_bounded() {
    let mut w = World::new();
    let origin = random();
    let dynamic = origin.dynamic(&mut w.state);
    let consumer = origin.consume();

    for i in 0..100 {
        let path = format!("one-shot/{i}");
        let waiting = w.request(&consumer, &path);
        let request = dynamic.requested_broadcast(&mut w.state).unwrap();
        let broadcast = w.produce();
        w.accept(request, broadcast);
        assert_eq!(w.poll(&waiting), served(broadcast));
        // Close the served broadcast; its cache entry is now stale.
        w.closed.push(broadcast);
    }

    assert!(
        w.state.served_len() <= 4,
        "stale served entries must be reclaimed, not accumulate per distinct path: {}",
        w.state.served_len()
    );
}

#[test]
fn dynamic_request_coalesces_after_handoff() {
    let mut w = World::new();
    let origin = random();
    let dynamic = origin.dynamic(&mut w.state);
    let consumer = origin.consume();

    let f1 = w.request(&consumer, "fallback");
    // Handler drains the request but has not accepted yet.
    let request = dynamic.requested_broadcast(&mut w.state).unwrap();

    // A second request in this window must not queue another handler request.
    let f2 = w.request(&consumer, "fallback");
    assert!(
        dynamic.requested_broadcast(&mut w.state).is_none(),
        "a repeat request during hand-off must coalesce, not re-queue"
    );

    // Accepting resolves both awaiting requesters with the same broadcast.
    let broadcast = w.produce();
    w.accept(request, broadcast);
    assert_eq!(w.poll(&f1), served(broadcast));
    assert_eq!(w.poll(&f2), served(broadcast));
}

#[test]
fn dynamic_request_dropped_after_handoff() {
    let mut w = World::new();
    let origin = random();
    let dynamic = origin.dynamic(&mut w.state);
    let consumer = origin.consume();

    let f1 = w.request(&consumer, "fallback");
    let request = dynamic.requested_broadcast(&mut w.state).unwrap();
    let f2 = w.request(&consumer, "fallback");

    // Abandon it; both requesters resolve to Unroutable instead of hanging.
    w.abandon(request);
    assert_eq!(w.poll(&f1), Some(Err(Error::Unroutable)));
    assert_eq!(w.poll(&f2), Some(Err(Error::Unroutable)));
}

#[test]
fn dynamic_request_rejected() {
    let mut w = World::new();
    let origin = random();
    let dynamic = origin.dynamic(&mut w.state);
    let consumer = origin.consume();

    let waiting = w.request(&consumer, "fallback");
    let request = dynamic.requested_broadcast(&mut w.state).unwrap();
    w.reject(request, Error::Cancel);
    assert_eq!(w.poll(&waiting), Some(Err(Error::Cancel)));
}

#[test]
fn dynamic_request_rerequest_after_reject() {
    let mut w = World::new();
    let origin = random();
    let dynamic = origin.dynamic(&mut w.state);
    let consumer = origin.consume();

    let f1 = w.request(&consumer, "fallback");
    let request = dynamic.requested_broadcast(&mut w.state).unwrap();
    w.reject(request, Error::Unroutable);
    assert_eq!(w.poll(&f1), Some(Err(Error::Unroutable)));

    // A fresh request re-reaches the handler and can be served.
    let f2 = w.request(&consumer, "fallback");
    let request = dynamic.requested_broadcast(&mut w.state).unwrap();
    assert!(request.path().same(&Path::new("fallback")));
    let broadcast = w.produce();
    w.accept(request, broadcast);
    assert_eq!(w.poll(&f2), served(broadcast));
}

#[test]
fn dynamic_request_handler_dropped() {
    let mut w = World::new();
    let origin = random();
    let dynamic = origin.dynamic(&mut w.state);
    let consumer = origin.consume();

    let waiting = w.request(&consumer, "fallback");
    w.close(dynamic);
    assert_eq!(w.poll(&waiting), Some(Err(Error::Unroutable)));

    // With no handler left, a fresh request resolves Unroutable.
    let again = w.request(&consumer, "again");
    assert_eq!(w.poll(&again), Some(Err(Error::Unroutable)));
}

#[test]
fn dynamic_request_accept_after_handler_dropped() {
    let mut w = World::new();
    let origin = random();
    let dynamic = origin.dynamic(&mut w.state);
    let consumer = origin.consume();

    let waiting = w.request(&consumer, "fallback");

    // The handler picks the request up, then every handler drops.
    let request = dynamic.requested_broadcast(&mut w.state).unwrap();
    w.close(dynamic);

    // Accept still resolves the awaiting requester with the served broadcast.
    let broadcast = w.produce();
    w.accept(request, broadcast);
    assert_eq!(w.poll(&waiting), served(broadcast));
}

#[test]
fn dynamic_request_prefers_announced() {
    let mut w = World::new();
    let origin = random();
    let dynamic = origin.dynamic(&mut w.state);
    let consumer = origin.consume();

    w.publish(&origin, "live");

    let got = w.request(&consumer, "live");
    assert_eq!(
        w.poll(&got),
        consumer.get_broadcast(&w.tree, &Path::new("live")).map(Ok),
        "should return the published broadcast"
    );
    assert!(w.poll(&got).is_some());
    assert!(
        dynamic.requested_broadcast(&mut w.state).is_none(),
        "a published path must not queue a fallback request"
    );
}

#[test]
fn dynamic_clone_keeps_alive() {
    let mut w = World::new();
    let origin = random();
    let dynamic = origin.dynamic(&mut w.state);
    let consumer = origin.consume();

    let clone = dynamic.duplicate(&mut w.state);
    w.close(clone);

    // The first handle is still live, so the request registers (stays pending)
    // instead of resolving Unroutable.
    let waiting = w.request(&consumer, "fallback");
    assert_eq!(w.poll(&waiting), None, "request should stay pending until served");
    w.close(dynamic);
    assert_eq!(w.poll(&waiting), Some(Err(Error::Unroutable)));
}

#[test]
fn requests_are_keyed_by_absolute_path() {
    let mut w = World::new();
    let origin = random();
    let rooted = origin.with_root(&Path::new("a")).unwrap();
    let dynamic = rooted.dynamic(&mut w.state);
    assert_eq!(dynamic.root().as_str(), "a");
    assert_eq!(*dynamic.info(), *origin);
    let f1 = w.request(&origin.consume(), "a/b");
    let f2 = w.request(&rooted.consume().with_stats(Some(3)), "b");
    assert_eq!(f1.inner, f2.inner);
    assert_eq!(f2.stats.session, Some(3));
    assert_eq!(f2.stats.path.as_str(), "a/b");
    let request = dynamic.requested_broadcast(&mut w.state).unwrap();
    assert_eq!(request.path().as_str(), "a/b");
    assert!(dynamic.requested_broadcast(&mut w.state).is_none());
}

#[test]
fn requests_are_handed_out_in_order() {
    let mut w = World::new();
    let origin = random();
    let dynamic = origin.dynamic(&mut w.state);
    let consumer = origin.consume();
    for path in ["z", "a", "m"] {
        w.request(&consumer, path);
    }
    w.request(&consumer, "z");
    for path in ["z", "a", "m"] {
        let request = dynamic.requested_broadcast(&mut w.state).unwrap();
        assert_eq!(request.path().as_str(), path);
    }
    assert!(dynamic.requested_broadcast(&mut w.state).is_none());
}
