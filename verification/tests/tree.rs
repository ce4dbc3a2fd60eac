use moq_origin::announce::{Broadcast, OriginAnnounce};
use moq_origin::dynamic::{ChannelState, OriginDynamicState};
use moq_origin::error::Error;
use moq_origin::handle::{AnnounceConsumer, AnnouncedBroadcast, Consume, Consumer, Next, Producer};
use moq_origin::lifecycle::{FrontStep, FrontTask, Guard, Source};
use moq_origin::nodes::OriginNodes;
use moq_origin::origin::{Info, Origin, OriginList};
use moq_origin::path::{Path, PathPrefixes, MAX_PARTS};
use moq_origin::route::{fnv_key, Route};
use moq_origin::time::{Clock, Duration};
use moq_origin::tree::OriginTree;

const SEC: u128 = 1_000_000_000;

/// A source and what it has reported since the last pass.
struct Entry {
    source: Source,
    route: Option<Route>,
    ended: Option<bool>,
    over: bool,
}

/// A handle on a source in a [`World`].
struct Publisher(usize);

/// An origin's state, with the sources and fronts that are driven by [`World::settle`].
struct World {
    tree: OriginTree,
    dynamic: OriginDynamicState,
    entries: Vec<Entry>,
    tasks: Vec<FrontTask>,
    now: u128,
    carrying: bool,
}

impl World {
    fn new() -> Self {
        World {
            tree: OriginTree::new(),
            dynamic: OriginDynamicState::default(),
            entries: Vec::new(),
            tasks: Vec::new(),
            now: 0,
            carrying: false,
        }
    }

    fn create(
        &mut self,
        producer: &Producer<()>,
        path: &str,
        route: Route,
    ) -> Result<Publisher, Error> {
        assert!(!route.hops.contains(producer));
        let handle = self.entries.len() as u64;
        let created = producer.create_broadcast(&Path::new(path), route, handle)?;
        self.entries.push(Entry {
            source: created.source,
            route: Some(created.route),
            ended: None,
            over: false,
        });
        Ok(Publisher(self.entries.len() - 1))
    }

    fn set_route(&mut self, publisher: &Publisher, route: Route) {
        self.entries[publisher.0].route = Some(route);
    }

    fn finish(&mut self, publisher: &Publisher) {
        self.entries[publisher.0].ended = Some(true);
    }

    fn abort(&mut self, publisher: &Publisher) {
        self.entries[publisher.0].ended = Some(false);
    }

    /// Run every source and front until nothing is left to do at the current instant.
    fn settle(&mut self) {
        for entry in self.entries.iter_mut() {
            if entry.over {
                continue;
            }
            if let Some(route) = entry.route.take() {
                let step = entry.source.observe(&mut self.tree, route, self.carrying);
                if step.created {
                    self.tasks.push(FrontTask::new(entry.source.place().unwrap().front));
                }
                entry.over = step.stop;
            }
            if let Some(graceful) = entry.ended.take() {
                let step = entry.source.end(&mut self.tree, graceful, self.carrying);
                assert!(step.stop);
                entry.over = true;
            }
        }
        let mut tasks = Vec::new();
        for mut task in self.tasks.drain(..) {
            let mut over = false;
            while !over {
                task.begin_at(&self.tree, self.now);
                let status = self.tree.front_status(task.front);
                let (closed, empty) = match &status {
                    Some(status) => (status.closed, status.empty),
                    None => (true, true),
                };
                let fired = match task.deadline {
                    Some(at) => at <= self.now,
                    None => false,
                };
                match task.next(false, closed, empty, fired) {
                    Some(step) => over = task.perform(&mut self.tree, step),
                    None => break,
                }
            }
            if !over {
                tasks.push(task);
            }
        }
        self.tasks = tasks;
    }

    fn sleep(&mut self, secs: u64) {
        self.now += secs as u128 * SEC;
    }

    fn announced(&mut self, consumer: &Consumer) -> AnnounceConsumer {
        consumer.announced(&mut self.tree)
    }

    fn try_next(&mut self, announced: &mut AnnounceConsumer) -> Option<OriginAnnounce> {
        announced.try_next(&mut self.tree).map(|delivery| delivery.announce)
    }

    fn next(&mut self, announced: &mut AnnounceConsumer) -> OriginAnnounce {
        match announced.next(&mut self.tree) {
            Next::Update(delivery) => delivery.announce,
            Next::Closed => panic!("no next"),
            Next::Waiting => panic!("next blocked"),
        }
    }

    fn assert_next_some(&mut self, announced: &mut AnnounceConsumer, path: &str) -> Broadcast {
        let next = self.next(announced);
        assert_eq!(next.path.as_str(), path);
        next.broadcast.expect("unannounced")
    }

    fn assert_next_none(&mut self, announced: &mut AnnounceConsumer, path: &str) {
        let next = self.next(announced);
        assert_eq!(next.path.as_str(), path);
        assert!(next.broadcast.is_none());
    }

    fn assert_next_wait(&mut self, announced: &mut AnnounceConsumer) {
        match announced.next(&mut self.tree) {
            Next::Update(next) => {
                panic!("next should block: got {}", next.announce.path.as_str())
            }
            Next::Closed => panic!("next should block"),
            Next::Waiting => {}
        }
    }

    fn get(&self, consumer: &Consumer, path: &str) -> Option<Broadcast> {
        consumer.get_broadcast(&self.tree, &Path::new(path))
    }

    fn request(&mut self, consumer: &Consumer, path: &str) -> Result<Broadcast, Error> {
        consumer
            .request_broadcast(&self.tree, &mut self.dynamic, &Path::new(path), &[])
            .poll_ok(ChannelState::Waiting)
            .expect("pending")
    }

    fn route(&self, broadcast: Broadcast) -> Route {
        match broadcast {
            Broadcast::Spliced(front) => self.tree.front_face(front).expect("gone").0,
            Broadcast::Served(_) => panic!("not spliced"),
        }
    }

    /// The sources' handle that the broadcast is served from.
    fn active(&self, broadcast: Broadcast) -> Option<u64> {
        match broadcast {
            Broadcast::Spliced(front) => {
                self.tree.front_status(front).expect("gone").active.map(|(_, source)| source)
            }
            Broadcast::Served(_) => panic!("not spliced"),
        }
    }
}

fn random() -> Producer<()> {
    Origin::random().produce()
}

fn announce() -> Route {
    Route::new().with_announce(true)
}

fn hops(ids: &[u64]) -> OriginList {
    OriginList::try_from(ids.iter().map(|id| Origin::new(*id).unwrap()).collect::<Vec<_>>())
        .unwrap()
}

fn paths(given: &[&str]) -> Vec<Path> {
    given.iter().map(|path| Path::new(path)).collect()
}

fn origin_keyed(name: &str, peer: Origin, above: bool) -> Origin {
    let name = Path::new(name);
    let peer_key = fnv_key(&name, &[peer]);
    (100u64..)
        .map(|id| Origin::new(id).unwrap())
        .find(|origin| (fnv_key(&name, &[*origin]) > peer_key) == above)
        .unwrap()
}

#[test]
fn test_announce() {
    let mut w = World::new();
    let origin = random();

    let mut consumer1 = w.announced(&origin.consume());
    w.assert_next_wait(&mut consumer1);

    let broadcast1 = w.create(&origin, "test1", announce()).unwrap();
    w.assert_next_wait(&mut consumer1);
    w.settle();

    w.assert_next_some(&mut consumer1, "test1");
    w.assert_next_wait(&mut consumer1);

    // Make a new consumer that should get the existing broadcast.
    // But we don't consume it yet.
    let mut consumer2 = w.announced(&origin.consume());

    let broadcast2 = w.create(&origin, "test2", announce()).unwrap();
    w.settle();

    w.assert_next_some(&mut consumer1, "test2");
    w.assert_next_wait(&mut consumer1);

    w.assert_next_some(&mut consumer2, "test1");
    w.assert_next_some(&mut consumer2, "test2");
    w.assert_next_wait(&mut consumer2);

    // Finish the first broadcast: a graceful end unannounces immediately.
    w.finish(&broadcast1);
    w.settle();

    w.assert_next_none(&mut consumer1, "test1");
    w.assert_next_none(&mut consumer2, "test1");
    w.assert_next_wait(&mut consumer1);
    w.assert_next_wait(&mut consumer2);

    // And a new consumer only gets the last broadcast.
    let mut consumer3 = w.announced(&origin.consume());
    w.assert_next_some(&mut consumer3, "test2");
    w.assert_next_wait(&mut consumer3);

    w.finish(&broadcast2);
    w.settle();

    w.assert_next_none(&mut consumer1, "test2");
    w.assert_next_none(&mut consumer2, "test2");
    w.assert_next_none(&mut consumer3, "test2");
}

#[test]
fn test_duplicate() {
    let mut w = World::new();
    let origin = random();
    let consumer = origin.consume();
    let mut announced = w.announced(&consumer);

    let broadcast1 = w.create(&origin, "test", announce()).unwrap();
    let broadcast2 = w.create(&origin, "test", announce()).unwrap();
    let broadcast3 = w.create(&origin, "test", announce()).unwrap();
    w.settle();
    assert!(w.get(&consumer, "test").is_some());

    w.assert_next_some(&mut announced, "test");
    w.assert_next_wait(&mut announced);

    // A standby source finishing changes nothing.
    w.finish(&broadcast2);
    w.settle();
    assert!(w.get(&consumer, "test").is_some());
    w.assert_next_wait(&mut announced);

    // The active source finishing hands over to a survivor, invisibly.
    w.finish(&broadcast1);
    w.settle();
    assert!(w.get(&consumer, "test").is_some());
    w.assert_next_wait(&mut announced);

    // The last source finishing unannounces and removes the broadcast.
    w.finish(&broadcast3);
    w.settle();
    assert!(w.get(&consumer, "test").is_none());

    w.assert_next_none(&mut announced, "test");
    w.assert_next_wait(&mut announced);
}

#[test]
fn test_route_failover() {
    let mut w = World::new();
    let origin = random();
    let consumer = origin.consume();
    let mut announced = w.announced(&consumer);

    // The first source announces the broadcast.
    let source_a = w.create(&origin, "test", announce().with_hops(hops(&[1]))).unwrap();
    w.settle();
    let broadcast = w.request(&consumer, "test").unwrap();
    w.assert_next_some(&mut announced, "test");

    // A second (longer) source joins silently as a standby.
    w.create(&origin, "test", announce().with_hops(hops(&[2, 3]))).unwrap();
    w.settle();
    w.assert_next_wait(&mut announced);
    assert_eq!(w.active(broadcast), Some(0));

    // Source A dies (session loss): B serves on and nothing is announced.
    w.carrying = true;
    w.abort(&source_a);
    w.settle();
    w.assert_next_wait(&mut announced);
    assert_eq!(w.active(broadcast), Some(1));
}

#[test]
fn test_route_handover() {
    let mut w = World::new();
    let origin = random();
    let consumer = origin.consume();
    let mut announced = w.announced(&consumer);

    w.create(&origin, "test", announce().with_hops(hops(&[2, 3]))).unwrap();
    w.settle();
    let broadcast = w.request(&consumer, "test").unwrap();
    w.assert_next_some(&mut announced, "test");

    // A strictly shorter source attaches: the live track is handed over with
    // no announce churn.
    w.carrying = true;
    w.create(&origin, "test", announce().with_hops(hops(&[1]))).unwrap();
    w.settle();
    w.assert_next_wait(&mut announced);
    assert_eq!(w.active(broadcast), Some(1));
}

#[test]
fn test_route_cost_update() {
    let mut w = World::new();
    // The takeover happens while a subscriber is live (carrying), so the local
    // origin must win the handover key comparison against B's announcing hop.
    let origin =
        Info::<()>::new(origin_keyed("test", Origin::new(3).unwrap(), true)).produce();
    let consumer = origin.consume();
    let mut announced = w.announced(&consumer);

    let hops_a = hops(&[1]);
    let hops_b = hops(&[2, 3]);

    // A (shorter chain) wins at equal cost.
    let source_a = w.create(&origin, "test", announce().with_hops(hops_a.clone())).unwrap();
    w.settle();
    let broadcast = w.request(&consumer, "test").unwrap();
    w.assert_next_some(&mut announced, "test");
    assert_eq!(w.route(broadcast).hops, hops_a);

    let source_b = w.create(&origin, "test", announce().with_hops(hops_b.clone())).unwrap();
    w.settle();
    assert_eq!(
        w.route(broadcast).hops,
        hops_a,
        "a losing standby must not change the advertised route"
    );

    // A's cost rises above B's: B takes over and the broadcast re-advertises B's route. No
    // announce events.
    w.carrying = true;
    w.set_route(&source_a, announce().with_hops(hops_a.clone()).with_cost(10));
    w.settle();
    assert_eq!(w.route(broadcast).hops, hops_b);
    w.assert_next_wait(&mut announced);

    // The active source updating its own metadata re-advertises in place.
    w.set_route(&source_b, announce().with_hops(hops_b.clone()).with_cost(5));
    w.settle();
    let advertised = w.route(broadcast);
    assert_eq!(advertised.hops, hops_b);
    assert_eq!(advertised.cost, 5);
    w.assert_next_wait(&mut announced);
}

#[test]
fn test_route_unannounce_immediate() {
    let mut w = World::new();
    let origin = random();
    let consumer = origin.consume();
    let mut announced = w.announced(&consumer);

    let source = w.create(&origin, "test", announce().with_hops(hops(&[1]))).unwrap();
    w.settle();
    let broadcast = w.request(&consumer, "test").unwrap();
    w.assert_next_some(&mut announced, "test");

    // The peer deliberately unannounced: no reconnect window, the broadcast is gone.
    w.finish(&source);
    w.settle();
    w.assert_next_none(&mut announced, "test");

    // A re-create at the same path is a brand-new broadcast.
    w.create(&origin, "test", announce().with_hops(hops(&[1]))).unwrap();
    w.settle();
    let fresh = w.request(&consumer, "test").unwrap();
    w.assert_next_some(&mut announced, "test");
    assert_ne!(fresh, broadcast, "re-create must not splice the old broadcast");
}

#[test]
fn test_route_detach_immediate() {
    let mut w = World::new();
    let origin = random();
    let consumer = origin.consume();
    let mut announced = w.announced(&consumer);

    let source = w.create(&origin, "test", announce().with_hops(hops(&[1]))).unwrap();
    w.settle();
    let broadcast = w.request(&consumer, "test").unwrap();
    w.assert_next_some(&mut announced, "test");

    // The session dies without unannouncing.
    w.abort(&source);
    w.settle();
    w.assert_next_none(&mut announced, "test");

    // A reconnecting session gets a brand-new broadcast, not a splice into the old one.
    w.create(&origin, "test", announce().with_hops(hops(&[1]))).unwrap();
    w.settle();
    let fresh = w.request(&consumer, "test").unwrap();
    w.assert_next_some(&mut announced, "test");
    assert_ne!(fresh, broadcast, "re-create must not splice the old broadcast");
}

#[test]
fn test_linger_reconnect_splices() {
    let mut w = World::new();
    let origin =
        Info::<()>::new(Origin::random()).with_linger(Duration::from_secs(5)).produce();
    let consumer = origin.consume();
    let mut announced = w.announced(&consumer);

    let source = w.create(&origin, "test", announce().with_hops(hops(&[1]))).unwrap();
    w.settle();
    let broadcast = w.request(&consumer, "test").unwrap();
    w.assert_next_some(&mut announced, "test");

    // The session dies without unannouncing: the broadcast enters the linger
    // window instead of closing.
    w.abort(&source);
    w.settle();
    w.assert_next_wait(&mut announced);

    // A consumer arriving mid-outage still resolves the lingering broadcast.
    let during = w.request(&consumer, "test").unwrap();
    assert_eq!(during, broadcast, "the lingering broadcast still resolves");

    // The session reconnects within the window: the new source splices into
    // the same broadcast.
    w.sleep(4);
    w.settle();
    w.create(&origin, "test", announce().with_hops(hops(&[1]))).unwrap();
    w.settle();
    w.assert_next_wait(&mut announced);
    let again = w.request(&consumer, "test").unwrap();
    assert_eq!(again, broadcast, "the reconnect must splice, not replace");
    assert_eq!(w.active(again), Some(1));

    // The countdown was canceled, not paused.
    w.sleep(100);
    w.settle();
    w.assert_next_wait(&mut announced);
}

#[test]
fn test_linger_expiry_closes() {
    let mut w = World::new();
    let origin =
        Info::<()>::new(Origin::random()).with_linger(Duration::from_secs(5)).produce();
    let consumer = origin.consume();
    let mut announced = w.announced(&consumer);

    let source = w.create(&origin, "test", announce().with_hops(hops(&[1]))).unwrap();
    w.settle();
    let broadcast = w.request(&consumer, "test").unwrap();
    w.assert_next_some(&mut announced, "test");

    w.abort(&source);
    w.settle();
    w.assert_next_wait(&mut announced);

    // Nobody comes back: the window expires and the broadcast closes.
    w.sleep(6);
    w.settle();
    w.assert_next_none(&mut announced, "test");

    // A session reconnecting after the window gets a brand-new broadcast.
    w.create(&origin, "test", announce().with_hops(hops(&[1]))).unwrap();
    w.settle();
    let fresh = w.request(&consumer, "test").unwrap();
    w.assert_next_some(&mut announced, "test");
    assert_ne!(fresh, broadcast, "a late re-create must not splice the expired broadcast");
}

#[test]
fn test_linger_forever() {
    let mut w = World::new();
    let origin = Info::<()>::new(Origin::random()).with_linger(Duration::max()).produce();
    let consumer = origin.consume();
    let mut announced = w.announced(&consumer);

    let source = w.create(&origin, "test", announce().with_hops(hops(&[1]))).unwrap();
    w.settle();
    let broadcast = w.request(&consumer, "test").unwrap();
    w.assert_next_some(&mut announced, "test");

    w.abort(&source);
    w.settle();

    // Days later the broadcast is still announced and still splices a reconnect.
    w.sleep(60 * 60 * 24 * 3);
    w.settle();
    w.assert_next_wait(&mut announced);
    w.create(&origin, "test", announce().with_hops(hops(&[1]))).unwrap();
    w.settle();
    let again = w.request(&consumer, "test").unwrap();
    assert_eq!(again, broadcast, "the reconnect must splice, not replace");
}

#[test]
fn test_linger_skipped_on_finish() {
    let mut w = World::new();
    let origin =
        Info::<()>::new(Origin::random()).with_linger(Duration::from_secs(5)).produce();
    let consumer = origin.consume();
    let mut announced = w.announced(&consumer);

    let source = w.create(&origin, "test", announce().with_hops(hops(&[1]))).unwrap();
    w.settle();
    let broadcast = w.request(&consumer, "test").unwrap();
    w.assert_next_some(&mut announced, "test");

    // A clean unannounce: the broadcast is gone, with no reconnect window.
    w.finish(&source);
    w.settle();
    w.assert_next_none(&mut announced, "test");

    // A re-create at the same path is a brand-new broadcast.
    w.create(&origin, "test", announce().with_hops(hops(&[1]))).unwrap();
    w.settle();
    let fresh = w.request(&consumer, "test").unwrap();
    w.assert_next_some(&mut announced, "test");
    assert_ne!(
        fresh, broadcast,
        "a finish must not leave a lingering broadcast to splice into"
    );
}

#[test]
fn test_announce_toggle() {
    let mut w = World::new();
    let origin = random();
    let consumer = origin.consume();
    let mut announced = w.announced(&consumer);

    let source = w.create(&origin, "test", Route::new()).unwrap();
    w.settle();

    // Routable but not announced.
    w.assert_next_wait(&mut announced);
    let broadcast = w.get(&consumer, "test").expect("offline broadcast is still routable");
    assert!(!w.route(broadcast).announce);

    // request_broadcast resolves the offline broadcast too.
    let requested = w.request(&consumer, "test").unwrap();
    assert_eq!(requested, broadcast);

    // Going live announces.
    w.set_route(&source, announce());
    w.settle();
    let face = w.assert_next_some(&mut announced, "test");
    assert_eq!(face, broadcast);

    // A fresh consumer replays only announced broadcasts.
    let mut fresh = w.announced(&origin.consume());
    w.assert_next_some(&mut fresh, "test");
    w.assert_next_wait(&mut fresh);

    // Going offline unannounces but stays routable.
    w.set_route(&source, Route::new());
    w.settle();
    w.assert_next_none(&mut announced, "test");
    assert!(w.get(&consumer, "test").is_some());
    let mut fresh = w.announced(&origin.consume());
    w.assert_next_wait(&mut fresh);

    w.finish(&source);
    w.settle();
    assert!(w.get(&consumer, "test").is_none());
}

#[test]
fn test_announce_beats_offline() {
    let mut w = World::new();
    let origin = random();
    let consumer = origin.consume();
    let mut announced = w.announced(&consumer);

    // An unannounced source with the best cost.
    w.create(&origin, "test", Route::new()).unwrap();
    w.settle();
    w.assert_next_wait(&mut announced);

    // An announced source with a worse cost still wins: the path announces
    // and advertises its route.
    let announced_source = w.create(&origin, "test", announce().with_cost(10)).unwrap();
    w.settle();
    w.assert_next_some(&mut announced, "test");
    let face = w.get(&consumer, "test").unwrap();
    assert!(w.route(face).announce);
    assert_eq!(w.route(face).cost, 10);

    // The announced source leaving falls back to the offline one: the path
    // unannounces but stays routable.
    w.finish(&announced_source);
    w.settle();
    w.assert_next_none(&mut announced, "test");
    assert!(w.get(&consumer, "test").is_some());
}

#[test]
fn test_better_source_no_churn() {
    let mut w = World::new();
    let origin = random();
    let mut announced = w.announced(&origin.consume());

    // `a` carries one hop; `b` has none, so `b` wins dispatch when it joins.
    w.create(&origin, "test", announce().with_hops(hops(&[1]))).unwrap();
    w.settle();
    let face = w.assert_next_some(&mut announced, "test");

    w.create(&origin, "test", announce()).unwrap();
    w.settle();
    w.assert_next_wait(&mut announced);
    let current = w.get(&origin.consume(), "test").unwrap();
    assert_eq!(current, face, "the broadcast identity must not change");
    // The face now advertises the winning (hopless) route.
    assert!(w.route(current).hops.is_empty());
}

#[test]
fn test_duplicate_reverse() {
    let mut w = World::new();
    let origin = random();

    let broadcast1 = w.create(&origin, "test", announce()).unwrap();
    let broadcast2 = w.create(&origin, "test", announce()).unwrap();
    w.settle();
    assert!(w.get(&origin.consume(), "test").is_some());

    // This is harder, finishing the newer source first.
    w.finish(&broadcast2);
    w.settle();
    assert!(w.get(&origin.consume(), "test").is_some());

    w.finish(&broadcast1);
    w.settle();
    assert!(w.get(&origin.consume(), "test").is_none());
}

/// The advertised route for "test" after creating both sources in the given order.
fn winner(first: &[u64], second: &[u64]) -> OriginList {
    let mut w = World::new();
    let origin = random();
    w.create(&origin, "test", announce().with_hops(hops(first))).unwrap();
    w.create(&origin, "test", announce().with_hops(hops(second))).unwrap();
    w.settle();
    let face = w.get(&origin.consume(), "test").unwrap();
    w.route(face).hops
}

#[test]
fn test_deterministic_tiebreak() {
    // Two routes with equal hop counts but distinct chains. The winner is decided by
    // the deterministic key, not arrival order, so both publish orders converge.
    let forward = winner(&[10, 20], &[30, 40]);
    let reverse = winner(&[30, 40], &[10, 20]);
    assert_eq!(forward, reverse, "tie-break must not depend on publish order");

    // A strictly shorter chain always wins regardless of the hash.
    assert_eq!(winner(&[10, 20], &[30]).len(), 1);
    assert_eq!(winner(&[30], &[10, 20]).len(), 1);
}

#[test]
fn test_many_announces() {
    let mut w = World::new();
    let origin = random();

    let mut consumer = w.announced(&origin.consume());
    for i in 0..256 {
        w.create(&origin, &format!("test{i:03}"), announce()).unwrap();
        w.settle();
    }

    for i in 0..256 {
        w.assert_next_some(&mut consumer, &format!("test{i:03}"));
    }
    w.assert_next_wait(&mut consumer);
}

#[test]
fn test_many_announces_try() {
    let mut w = World::new();
    let origin = random();

    let mut consumer = w.announced(&origin.consume());
    for i in 0..256 {
        w.create(&origin, &format!("test{i:03}"), announce()).unwrap();
        w.settle();
    }

    for i in 0..256 {
        let next = w.try_next(&mut consumer).expect("no next");
        assert_eq!(next.path.as_str(), format!("test{i:03}"));
        assert!(next.broadcast.is_some());
    }
}

#[test]
fn test_with_root_basic() {
    let mut w = World::new();
    let origin = random();

    // Create a producer with root "/foo"
    let foo_producer = origin.with_root(&Path::new("foo")).expect("should create root");
    assert_eq!(foo_producer.root().as_str(), "foo");

    let mut consumer = w.announced(&origin.consume());

    // When publishing to "bar/baz", it should actually publish to "foo/bar/baz"
    w.create(&foo_producer, "bar/baz", announce()).expect("publish allowed");
    w.settle();
    // The unrooted consumer should see the full path
    w.assert_next_some(&mut consumer, "foo/bar/baz");

    // A consumer created from the rooted producer should see the stripped path
    let mut foo_consumer = w.announced(&foo_producer.consume());
    w.assert_next_some(&mut foo_consumer, "bar/baz");
}

#[test]
fn test_with_root_nested() {
    let mut w = World::new();
    let origin = random();

    // Create nested roots
    let foo_producer = origin.with_root(&Path::new("foo")).expect("should create foo root");
    let foo_bar_producer =
        foo_producer.with_root(&Path::new("bar")).expect("should create bar root");
    assert_eq!(foo_bar_producer.root().as_str(), "foo/bar");

    let mut consumer = w.announced(&origin.consume());

    // Publishing to "baz" should actually publish to "foo/bar/baz"
    w.create(&foo_bar_producer, "baz", announce()).expect("publish allowed");
    w.settle();
    // The unrooted consumer sees the full path
    w.assert_next_some(&mut consumer, "foo/bar/baz");

    // Consumer from foo_bar_producer sees just "baz"
    let mut foo_bar_consumer = w.announced(&foo_bar_producer.consume());
    w.assert_next_some(&mut foo_bar_consumer, "baz");
}

#[test]
fn test_publish_scope_allows() {
    let mut w = World::new();
    let origin = random();

    // Create a producer that can only publish to "allowed" paths
    let limited_producer = origin
        .scope(&paths(&["allowed/path1", "allowed/path2"]))
        .expect("should create limited producer");

    // Should be able to publish to allowed paths
    w.create(&limited_producer, "allowed/path1", announce()).expect("publish allowed");
    w.create(&limited_producer, "allowed/path1/nested", announce()).expect("publish allowed");
    w.create(&limited_producer, "allowed/path2", announce()).expect("publish allowed");
    w.settle();

    // Should not be able to publish to disallowed paths
    for path in ["notallowed", "allowed", "other/path"] {
        assert!(matches!(
            w.create(&limited_producer, path, announce()),
            Err(Error::Unauthorized)
        ));
    }
}

#[test]
fn test_publish_max_parts() {
    let mut w = World::new();
    let origin = random();

    let at_limit =
        (0..MAX_PARTS).map(|i| i.to_string()).collect::<Vec<_>>().join("/");
    w.create(&origin, &at_limit, announce()).expect("publish allowed");
    w.settle();

    let too_deep = format!("{at_limit}/extra");
    assert!(matches!(
        w.create(&origin, &too_deep, announce()),
        Err(Error::BoundsExceeded)
    ));

    // The root counts toward the limit; a joined path past 32 parts is rejected.
    let rooted = origin.with_root(&Path::new("root")).expect("wildcard allows any root");
    assert!(matches!(
        w.create(&rooted, &at_limit, announce()),
        Err(Error::BoundsExceeded)
    ));
}

#[test]
fn test_publish_scope_empty() {
    let origin = random();
    // Creating a producer with no allowed paths should return None
    assert!(origin.scope(&[]).is_none());
}

#[test]
fn test_consume_scope_filters() {
    let mut w = World::new();
    let origin = random();

    let mut consumer = w.announced(&origin.consume());

    // Publish to different paths
    w.create(&origin, "allowed", announce()).unwrap();
    w.create(&origin, "allowed/nested", announce()).unwrap();
    w.create(&origin, "notallowed", announce()).unwrap();
    w.settle();

    // Create a consumer that only sees "allowed" paths
    let limited =
        origin.consume().scope(&paths(&["allowed"])).expect("should create limited consumer");
    let mut limited_consumer = w.announced(&limited);

    // Should only receive broadcasts under "allowed"
    w.assert_next_some(&mut limited_consumer, "allowed");
    w.assert_next_some(&mut limited_consumer, "allowed/nested");
    w.assert_next_wait(&mut limited_consumer); // Should not see "notallowed"

    // Unscoped consumer should see all
    w.assert_next_some(&mut consumer, "allowed");
    w.assert_next_some(&mut consumer, "allowed/nested");
    w.assert_next_some(&mut consumer, "notallowed");
}

#[test]
fn test_consume_scope_multiple_prefixes() {
    let mut w = World::new();
    let origin = random();

    w.create(&origin, "foo/test", announce()).unwrap();
    w.create(&origin, "bar/test", announce()).unwrap();
    w.create(&origin, "baz/test", announce()).unwrap();
    w.settle();

    // Consumer that only sees "foo" and "bar" paths
    let limited =
        origin.consume().scope(&paths(&["foo", "bar"])).expect("should create limited consumer");
    let mut limited_consumer = w.announced(&limited);

    w.assert_next_some(&mut limited_consumer, "bar/test");
    w.assert_next_some(&mut limited_consumer, "foo/test");
    w.assert_next_wait(&mut limited_consumer); // Should not see "baz/test"
}

#[test]
fn test_with_root_and_publish_scope() {
    let mut w = World::new();
    let origin = random();

    // User connects to /foo root
    let foo_producer = origin.with_root(&Path::new("foo")).expect("should create foo root");

    // Limit them to publish only to "bar" and "goop/pee" within /foo
    let limited_producer = foo_producer
        .scope(&paths(&["bar", "goop/pee"]))
        .expect("should create limited producer");

    let mut consumer = w.announced(&origin.consume());

    // Should be able to publish to foo/bar and foo/goop/pee (but user sees as bar and goop/pee)
    w.create(&limited_producer, "bar", announce()).expect("publish allowed");
    w.create(&limited_producer, "bar/nested", announce()).expect("publish allowed");
    w.create(&limited_producer, "goop/pee", announce()).expect("publish allowed");
    w.create(&limited_producer, "goop/pee/nested", announce()).expect("publish allowed");
    w.settle();

    // Should not be able to publish outside allowed paths
    assert!(w.create(&limited_producer, "baz", announce()).is_err());
    assert!(w.create(&limited_producer, "goop", announce()).is_err()); // Parent of allowed
    assert!(w.create(&limited_producer, "goop/other", announce()).is_err());

    // The unrestricted consumer sees full paths
    w.assert_next_some(&mut consumer, "foo/bar");
    w.assert_next_some(&mut consumer, "foo/bar/nested");
    w.assert_next_some(&mut consumer, "foo/goop/pee");
    w.assert_next_some(&mut consumer, "foo/goop/pee/nested");
}

#[test]
fn test_with_root_and_consume_scope() {
    let mut w = World::new();
    let origin = random();

    // Publish broadcasts
    w.create(&origin, "foo/bar/test", announce()).unwrap();
    w.create(&origin, "foo/goop/pee/test", announce()).unwrap();
    w.create(&origin, "foo/other/test", announce()).unwrap();
    w.settle();

    // User connects to /foo root
    let foo_producer = origin.with_root(&Path::new("foo")).expect("should create foo root");

    // Create consumer limited to "bar" and "goop/pee" within /foo
    let limited = foo_producer
        .consume()
        .scope(&paths(&["bar", "goop/pee"]))
        .expect("should create limited consumer");
    let mut limited_consumer = w.announced(&limited);

    // Should only see allowed paths (without foo prefix)
    w.assert_next_some(&mut limited_consumer, "bar/test");
    w.assert_next_some(&mut limited_consumer, "goop/pee/test");
    w.assert_next_wait(&mut limited_consumer); // Should not see "other/test"
}

#[test]
fn test_with_root_unauthorized() {
    let origin = random();

    // First limit the producer to specific paths
    let limited_producer =
        origin.scope(&paths(&["allowed"])).expect("should create limited producer");

    // Trying to create a root outside allowed paths should fail
    assert!(limited_producer.with_root(&Path::new("notallowed")).is_none());

    // But creating a root within allowed paths should work
    let allowed_root =
        limited_producer.with_root(&Path::new("allowed")).expect("should create allowed root");
    assert_eq!(allowed_root.root().as_str(), "allowed");
}

#[test]
fn test_wildcard_permission() {
    let mut w = World::new();
    let origin = random();

    // Producer with root access (empty string means wildcard)
    let root_producer = origin.clone();

    // Should be able to publish anywhere
    w.create(&root_producer, "any/path", announce()).expect("publish allowed");
    w.create(&root_producer, "other/path", announce()).expect("publish allowed");
    w.settle();

    // Can create any root
    let foo_producer = root_producer.with_root(&Path::new("foo")).expect("should create any root");
    assert_eq!(foo_producer.root().as_str(), "foo");
}

#[test]
fn test_consume_broadcast_with_permissions() {
    let mut w = World::new();
    let origin = random();

    w.create(&origin, "allowed/test", announce()).unwrap();
    w.create(&origin, "notallowed/test", announce()).unwrap();
    w.settle();

    // Create limited consumer
    let limited_consumer =
        origin.consume().scope(&paths(&["allowed"])).expect("should create limited consumer");

    // Should be able to get allowed broadcast
    let result = w.get(&limited_consumer, "allowed/test");
    assert!(result.is_some());
    assert_eq!(result.unwrap(), w.get(&origin.consume(), "allowed/test").unwrap());

    // Should not be able to get disallowed broadcast
    assert!(w.get(&limited_consumer, "notallowed/test").is_none());

    // The unrestricted consumer can get both
    let consumer = origin.consume();
    assert!(w.get(&consumer, "allowed/test").is_some());
    assert!(w.get(&consumer, "notallowed/test").is_some());
}

#[test]
fn test_nested_paths_with_permissions() {
    let mut w = World::new();
    let origin = random();

    // Create producer limited to "a/b/c"
    let limited_producer =
        origin.scope(&paths(&["a/b/c"])).expect("should create limited producer");

    // Should be able to publish to exact path and nested paths
    w.create(&limited_producer, "a/b/c", announce()).expect("publish allowed");
    w.create(&limited_producer, "a/b/c/d", announce()).expect("publish allowed");
    w.create(&limited_producer, "a/b/c/d/e", announce()).expect("publish allowed");
    w.settle();

    // Should not be able to publish to parent or sibling paths
    assert!(w.create(&limited_producer, "a", announce()).is_err());
    assert!(w.create(&limited_producer, "a/b", announce()).is_err());
    assert!(w.create(&limited_producer, "a/b/other", announce()).is_err());
}

#[test]
fn test_multiple_consumers_with_different_permissions() {
    let mut w = World::new();
    let origin = random();

    // Publish to different paths
    w.create(&origin, "foo/test", announce()).unwrap();
    w.create(&origin, "bar/test", announce()).unwrap();
    w.create(&origin, "baz/test", announce()).unwrap();
    w.settle();

    // Create consumers with different permissions
    let foo = origin.consume().scope(&paths(&["foo"])).expect("should create foo consumer");
    let mut foo_consumer = w.announced(&foo);

    let bar = origin.consume().scope(&paths(&["bar"])).expect("should create bar consumer");
    let mut bar_consumer = w.announced(&bar);

    let foobar =
        origin.consume().scope(&paths(&["foo", "bar"])).expect("should create foobar consumer");
    let mut foobar_consumer = w.announced(&foobar);

    // Each consumer should only see their allowed paths
    w.assert_next_some(&mut foo_consumer, "foo/test");
    w.assert_next_wait(&mut foo_consumer);

    w.assert_next_some(&mut bar_consumer, "bar/test");
    w.assert_next_wait(&mut bar_consumer);

    w.assert_next_some(&mut foobar_consumer, "bar/test");
    w.assert_next_some(&mut foobar_consumer, "foo/test");
    w.assert_next_wait(&mut foobar_consumer);
}

#[test]
fn test_select_with_empty_prefix() {
    let mut w = World::new();
    let origin = random();

    // User with root "demo" allowed to subscribe to "worm-node" and "foobar"
    let demo_producer = origin.with_root(&Path::new("demo")).expect("should create demo root");
    let limited_producer = demo_producer
        .scope(&paths(&["worm-node", "foobar"]))
        .expect("should create limited producer");

    // Publish some broadcasts
    w.create(&limited_producer, "worm-node/test", announce()).expect("publish allowed");
    w.create(&limited_producer, "foobar/test", announce()).expect("publish allowed");
    w.settle();

    // scope with empty prefix should keep the exact same "worm-node" and "foobar" nodes
    let same = limited_producer
        .consume()
        .scope(&paths(&[""]))
        .expect("should create consumer with empty prefix");
    let mut consumer = w.announced(&same);

    // Should see both broadcasts
    let a1 = w.try_next(&mut consumer).expect("expected first announcement");
    let a2 = w.try_next(&mut consumer).expect("expected second announcement");
    w.assert_next_wait(&mut consumer);

    let mut seen: Vec<_> = [&a1, &a2].iter().map(|a| a.path.as_str()).collect();
    seen.sort();
    assert_eq!(seen, ["foobar/test", "worm-node/test"]);
}

#[test]
fn test_select_narrowing_scope() {
    let mut w = World::new();
    let origin = random();

    // User with root "demo" allowed to subscribe to "worm-node" and "foobar"
    let demo_producer = origin.with_root(&Path::new("demo")).expect("should create demo root");
    let limited_producer = demo_producer
        .scope(&paths(&["worm-node", "foobar"]))
        .expect("should create limited producer");

    // Publish broadcasts at different levels
    w.create(&limited_producer, "worm-node", announce()).expect("publish allowed");
    w.create(&limited_producer, "worm-node/foo", announce()).expect("publish allowed");
    w.create(&limited_producer, "foobar/bar", announce()).expect("publish allowed");
    w.settle();

    // Test 1: scope("worm-node") keeps the contents of "worm-node" ONLY
    let worm = limited_producer
        .consume()
        .scope(&paths(&["worm-node"]))
        .expect("should create worm-node consumer");
    let mut worm_consumer = w.announced(&worm);

    w.assert_next_some(&mut worm_consumer, "worm-node");
    w.assert_next_some(&mut worm_consumer, "worm-node/foo");
    w.assert_next_wait(&mut worm_consumer); // Should NOT see foobar content

    // Test 2: scope("worm-node/foo") keeps the contents of "worm-node/foo"
    let foo = limited_producer
        .consume()
        .scope(&paths(&["worm-node/foo"]))
        .expect("should create worm-node/foo consumer");
    let mut foo_consumer = w.announced(&foo);

    w.assert_next_some(&mut foo_consumer, "worm-node/foo");
    w.assert_next_wait(&mut foo_consumer); // Should NOT see other content
}

#[test]
fn test_select_multiple_roots_with_empty_prefix() {
    let mut w = World::new();
    let origin = random();

    // Producer with multiple allowed roots
    let limited_producer = origin
        .scope(&paths(&["app1", "app2", "shared"]))
        .expect("should create limited producer");

    // Publish to each root
    w.create(&limited_producer, "app1/data", announce()).expect("publish allowed");
    w.create(&limited_producer, "app2/config", announce()).expect("publish allowed");
    w.create(&limited_producer, "shared/resource", announce()).expect("publish allowed");
    w.settle();

    // scope with empty prefix should maintain all roots
    let same = limited_producer
        .consume()
        .scope(&paths(&[""]))
        .expect("should create consumer with empty prefix");
    let mut consumer = w.announced(&same);

    // Should see all broadcasts from all roots
    w.assert_next_some(&mut consumer, "app1/data");
    w.assert_next_some(&mut consumer, "app2/config");
    w.assert_next_some(&mut consumer, "shared/resource");
    w.assert_next_wait(&mut consumer);
}

#[test]
fn test_publish_scope_with_empty_prefix() {
    let mut w = World::new();
    let origin = random();

    // Producer with specific allowed paths
    let limited_producer = origin
        .scope(&paths(&["services/api", "services/web"]))
        .expect("should create limited producer");

    // scope with empty prefix should keep the same restrictions
    let same_producer = limited_producer
        .scope(&paths(&[""]))
        .expect("should create producer with empty prefix");

    // Should still have the same publishing restrictions
    w.create(&same_producer, "services/api", announce()).expect("publish allowed");
    w.create(&same_producer, "services/web", announce()).expect("publish allowed");
    assert!(w.create(&same_producer, "services/db", announce()).is_err());
    assert!(w.create(&same_producer, "other", announce()).is_err());
}

#[test]
fn test_select_narrowing_to_deeper_path() {
    let mut w = World::new();
    let origin = random();

    // Producer with broad permission
    let limited_producer = origin.scope(&paths(&["org"])).expect("should create limited producer");

    // Publish at various depths
    w.create(&limited_producer, "org/team1/project1", announce()).expect("publish allowed");
    w.create(&limited_producer, "org/team1/project2", announce()).expect("publish allowed");
    w.create(&limited_producer, "org/team2/project1", announce()).expect("publish allowed");
    w.settle();

    // Narrow down to team2 only
    let team2 = limited_producer
        .consume()
        .scope(&paths(&["org/team2"]))
        .expect("should create team2 consumer");
    let mut team2_consumer = w.announced(&team2);

    w.assert_next_some(&mut team2_consumer, "org/team2/project1");
    w.assert_next_wait(&mut team2_consumer); // Should NOT see team1 content

    // Further narrow down to team1/project1
    let project1 = limited_producer
        .consume()
        .scope(&paths(&["org/team1/project1"]))
        .expect("should create project1 consumer");
    let mut project1_consumer = w.announced(&project1);

    // Should only see project1 content at root
    w.assert_next_some(&mut project1_consumer, "org/team1/project1");
    w.assert_next_wait(&mut project1_consumer);
}

#[test]
fn test_select_with_non_matching_prefix() {
    let origin = random();

    // Producer with specific allowed paths
    let limited_producer =
        origin.scope(&paths(&["allowed/path"])).expect("should create limited producer");

    // Trying to scope with a completely different prefix should return None
    assert!(limited_producer.consume().scope(&paths(&["different/path"])).is_none());

    // Similarly for scope
    assert!(limited_producer.scope(&paths(&["other/path"])).is_none());
}

#[test]
fn test_with_root_trailing_slash_consumer() {
    let mut w = World::new();
    let origin = random();

    let prefix = "some_prefix/".to_string();
    let rooted = origin.consume().with_root(&Path::new(&prefix)).unwrap();
    let mut consumer = w.announced(&rooted);

    w.create(&origin, "some_prefix/test", announce()).unwrap();
    w.settle();
    w.assert_next_some(&mut consumer, "test");
}

#[test]
fn test_with_root_trailing_slash_producer() {
    let mut w = World::new();
    let origin = random();

    let prefix = "some_prefix/".to_string();
    let rooted = origin.with_root(&Path::new(&prefix)).unwrap();

    w.create(&rooted, "test", announce()).unwrap();
    w.settle();

    let mut consumer = w.announced(&rooted.consume());
    w.assert_next_some(&mut consumer, "test");
}

#[test]
fn test_with_root_trailing_slash_unannounce() {
    let mut w = World::new();
    let origin = random();

    let prefix = "some_prefix/".to_string();
    let rooted = origin.consume().with_root(&Path::new(&prefix)).unwrap();
    let mut consumer = w.announced(&rooted);

    let b = w.create(&origin, "some_prefix/test", announce()).unwrap();
    w.settle();
    w.assert_next_some(&mut consumer, "test");

    // Finish the broadcast to trigger an immediate unannounce.
    w.finish(&b);
    w.settle();
    w.assert_next_none(&mut consumer, "test");
}

#[test]
fn test_select_maintains_access_with_wider_prefix() {
    let mut w = World::new();
    let origin = random();

    // Setup: user with root "demo" allowed to subscribe to specific paths
    let demo_producer = origin.with_root(&Path::new("demo")).expect("should create demo root");
    let user_producer = demo_producer
        .scope(&paths(&["worm-node", "foobar"]))
        .expect("should create user producer");

    // Publish some data
    w.create(&user_producer, "worm-node/data", announce()).expect("publish allowed");
    w.create(&user_producer, "foobar", announce()).expect("publish allowed");
    w.settle();

    // Key test: scope with "" should maintain access to allowed roots
    let same = user_producer
        .consume()
        .scope(&paths(&[""]))
        .expect("scope with empty prefix should not fail when user has specific permissions");
    let mut consumer = w.announced(&same);

    // Should still receive broadcasts from allowed paths (order not guaranteed)
    let a1 = w.try_next(&mut consumer).expect("expected first announcement");
    let a2 = w.try_next(&mut consumer).expect("expected second announcement");
    w.assert_next_wait(&mut consumer);

    let mut seen: Vec<_> = [&a1, &a2].iter().map(|a| a.path.as_str()).collect();
    seen.sort();
    assert_eq!(seen, ["foobar", "worm-node/data"]);

    // Also test that we can still narrow the scope
    let narrow = user_producer
        .consume()
        .scope(&paths(&["worm-node"]))
        .expect("should be able to narrow scope to worm-node");
    let mut narrow_consumer = w.announced(&narrow);

    w.assert_next_some(&mut narrow_consumer, "worm-node/data");
    w.assert_next_wait(&mut narrow_consumer); // Should not see foobar
}

#[test]
fn test_duplicate_prefixes_deduped() {
    let mut w = World::new();
    let origin = random();

    // scope with duplicate prefixes should work (deduped internally)
    let producer = origin.scope(&paths(&["demo", "demo"])).expect("should create producer");

    w.create(&producer, "demo/stream", announce()).expect("publish allowed");
    w.settle();

    let mut consumer = w.announced(&producer.consume());
    w.assert_next_some(&mut consumer, "demo/stream");
    w.assert_next_wait(&mut consumer);
}

#[test]
fn test_overlapping_prefixes_deduped() {
    let mut w = World::new();
    let origin = random();

    // "demo" and "demo/foo". "demo/foo" is redundant, only "demo" should remain
    let producer = origin.scope(&paths(&["demo", "demo/foo"])).expect("should create producer");

    // Can still publish under "demo/bar" since "demo" covers everything
    w.create(&producer, "demo/bar/stream", announce()).expect("publish allowed");
    w.settle();

    let mut consumer = w.announced(&producer.consume());
    w.assert_next_some(&mut consumer, "demo/bar/stream");
    w.assert_next_wait(&mut consumer);
}

#[test]
fn test_overlapping_prefixes_no_duplicate_announcements() {
    let mut w = World::new();
    let origin = random();

    // Both "demo" and "demo/foo" are requested. Should only have one node
    let producer = origin.scope(&paths(&["demo", "demo/foo"])).expect("should create producer");

    w.create(&producer, "demo/foo/stream", announce()).expect("publish allowed");
    w.settle();

    let mut consumer = w.announced(&producer.consume());
    // Should only get ONE announcement (not two from overlapping nodes)
    w.assert_next_some(&mut consumer, "demo/foo/stream");
    w.assert_next_wait(&mut consumer);
}

#[test]
fn test_allowed_returns_deduped_prefixes() {
    let origin = random();

    let producer =
        origin.scope(&paths(&["demo", "demo/foo", "anon"])).expect("should create producer");

    let allowed = producer.allowed();
    assert_eq!(allowed.len(), 2, "demo/foo should be subsumed by demo");
    assert_eq!(allowed[0].as_str(), "anon");
    assert_eq!(allowed[1].as_str(), "demo");
    assert_eq!(producer.consume().allowed().len(), 2);
}

/// Go through the announcements of a wait until one matches.
fn wait_for(w: &mut World, wait: &mut AnnouncedBroadcast) -> Option<Broadcast> {
    while let Some(next) = wait.announced.try_next(&mut w.tree) {
        let found = wait.matches(&next.announce);
        if found.is_some() {
            return found;
        }
    }
    None
}

#[test]
fn test_announced_broadcast_already_announced() {
    let mut w = World::new();
    let origin = random();

    w.create(&origin, "test", announce()).unwrap();
    w.settle();

    let consumer = origin.consume();
    let mut wait = consumer.announced_broadcast(&mut w.tree, &Path::new("test")).unwrap();
    let result = wait_for(&mut w, &mut wait).expect("should find it");
    assert_eq!(result, w.get(&consumer, "test").unwrap());
}

#[test]
fn test_announced_broadcast_delayed() {
    let mut w = World::new();
    let origin = random();
    let consumer = origin.consume();

    // Start waiting before it's announced.
    let mut wait = consumer.announced_broadcast(&mut w.tree, &Path::new("test")).unwrap();
    assert!(wait_for(&mut w, &mut wait).is_none());

    w.create(&origin, "test", announce()).unwrap();
    w.settle();

    let result = wait_for(&mut w, &mut wait).expect("should find it");
    assert_eq!(result, w.get(&consumer, "test").unwrap());
}

#[test]
fn test_announced_broadcast_ignores_unrelated_paths() {
    let mut w = World::new();
    let origin = random();
    let consumer = origin.consume();

    let mut wait = consumer.announced_broadcast(&mut w.tree, &Path::new("target")).unwrap();

    // Publish an unrelated broadcast first. announced_broadcast should skip it.
    w.create(&origin, "other", announce()).unwrap();
    w.settle();
    assert!(wait_for(&mut w, &mut wait).is_none(), "must not resolve on unrelated path");

    w.create(&origin, "target", announce()).unwrap();
    w.settle();
    let result = wait_for(&mut w, &mut wait).expect("should find target");
    assert_eq!(result, w.get(&consumer, "target").unwrap());
}

#[test]
fn test_announced_broadcast_skips_nested_paths() {
    let mut w = World::new();
    let origin = random();
    let consumer = origin.consume();

    let mut wait = consumer.announced_broadcast(&mut w.tree, &Path::new("foo")).unwrap();

    // "foo/bar" is under the prefix scope, but it's not the exact path. Skip it.
    w.create(&origin, "foo/bar", announce()).unwrap();
    w.settle();
    assert!(wait_for(&mut w, &mut wait).is_none(), "must not resolve on a nested path");

    w.create(&origin, "foo", announce()).unwrap();
    w.settle();
    let result = wait_for(&mut w, &mut wait).expect("should find foo exactly");
    assert_eq!(result, w.get(&consumer, "foo").unwrap());
}

#[test]
fn test_announced_broadcast_disallowed() {
    let mut w = World::new();
    let origin = random();
    let limited = origin.consume().scope(&paths(&["allowed"])).expect("should create limited");

    // Path is outside allowed prefixes. Should return None immediately.
    assert!(limited.announced_broadcast(&mut w.tree, &Path::new("notallowed")).is_none());
}

#[test]
fn test_announced_broadcast_scope_too_narrow() {
    // Consumer's scope is narrower than the requested path: asking for `foo` on a consumer
    // limited to `foo/specific` can never resolve. Must return None, not loop forever.
    let mut w = World::new();
    let origin = random();
    let limited =
        origin.consume().scope(&paths(&["foo/specific"])).expect("should create limited");

    assert!(limited.announced_broadcast(&mut w.tree, &Path::new("foo")).is_none());
}

#[test]
fn test_coalesce_announce_then_unannounce() {
    // announce + unannounce that the cursor hasn't observed yet collapses to nothing.
    let mut w = World::new();
    let origin = random();
    let mut announced = w.announced(&origin.consume());

    let broadcast = w.create(&origin, "test", announce()).unwrap();
    w.settle();
    w.finish(&broadcast);
    w.settle();

    w.assert_next_wait(&mut announced);
}

#[test]
fn test_coalesce_announce_unannounce_announce() {
    // announce, unannounce, announce that the cursor hasn't drained collapses
    // to a single Announce of the latest broadcast.
    let mut w = World::new();
    let origin = random();
    let mut announced = w.announced(&origin.consume());

    let broadcast1 = w.create(&origin, "test", announce()).unwrap();
    w.settle();
    w.finish(&broadcast1);
    w.settle();
    w.create(&origin, "test", announce()).unwrap();
    w.settle();

    let latest = w.assert_next_some(&mut announced, "test");
    assert_eq!(Some(latest), w.get(&origin.consume(), "test"));
    w.assert_next_wait(&mut announced);
}

#[test]
fn test_coalesce_unannounce_announce_preserved() {
    // unannounce followed by announce of a different broadcast must be preserved
    // as two deliveries so the cursor learns the origin changed.
    let mut w = World::new();
    let origin = random();
    let broadcast1 = w.create(&origin, "test", announce()).unwrap();
    w.settle();

    let mut announced = w.announced(&origin.consume());
    w.assert_next_some(&mut announced, "test");

    // Finish, then publish a fresh broadcast at the same path.
    w.finish(&broadcast1);
    w.settle();

    w.create(&origin, "test", announce()).unwrap();
    w.settle();

    // The cursor must see the unannounce before the new announce.
    w.assert_next_none(&mut announced, "test");
    w.assert_next_some(&mut announced, "test");
    w.assert_next_wait(&mut announced);
}

#[test]
fn test_coalesce_unannounce_announce_unannounce() {
    // unannounce + announce + unannounce collapses to a single unannounce: the
    // embedded announce was never observed.
    let mut w = World::new();
    let origin = random();
    let broadcast1 = w.create(&origin, "test", announce()).unwrap();
    w.settle();

    let mut announced = w.announced(&origin.consume());
    w.assert_next_some(&mut announced, "test");

    w.finish(&broadcast1);
    w.settle();

    let broadcast2 = w.create(&origin, "test", announce()).unwrap();
    w.settle();
    w.finish(&broadcast2);
    w.settle();

    w.assert_next_none(&mut announced, "test");
    w.assert_next_wait(&mut announced);
}

#[test]
fn test_coalesce_churn_bounded() {
    // A churn loop on a single path should keep the pending set bounded.
    let mut w = World::new();
    let origin = random();
    let mut announced = w.announced(&origin.consume());

    for _ in 0..1000 {
        let broadcast = w.create(&origin, "test", announce()).unwrap();
        w.settle();
        w.finish(&broadcast);
    }
    w.settle();

    let mut collected = Vec::new();
    while let Some(update) = w.try_next(&mut announced) {
        collected.push(update);
    }
    assert!(
        collected.len() <= 1,
        "expected at most one pending update, got {}",
        collected.len()
    );
    assert!(
        collected.iter().all(|a| a.path.same(&Path::new("test"))),
        "unexpected path in pending updates",
    );
}

#[test]
fn test_consumer_clone_is_side_effect_free() {
    let mut w = World::new();
    let origin = random();

    w.create(&origin, "test1", announce()).unwrap();
    w.create(&origin, "test2", announce()).unwrap();
    w.settle();

    let consumer = origin.consume();
    let mut announced = w.announced(&consumer);

    // Cloning the Consumer many times and looking up broadcasts
    // must not consume any events from the existing cursor.
    for _ in 0..16 {
        let cloned = consumer.clone();
        assert!(w.get(&cloned, "test1").is_some());
        assert!(w.get(&cloned, "test2").is_some());
    }

    // The first cursor still sees both announcements in their
    // natural order, undisturbed by the clones above.
    let a1 = w.try_next(&mut announced).expect("first announcement");
    let a2 = w.try_next(&mut announced).expect("second announcement");
    w.assert_next_wait(&mut announced);

    let mut seen: Vec<_> = [&a1, &a2].iter().map(|a| a.path.as_str()).collect();
    seen.sort();
    assert_eq!(seen, ["test1", "test2"]);

    // A freshly-built AnnounceConsumer still receives the active backlog.
    let mut fresh = w.announced(&consumer);
    let b1 = w.try_next(&mut fresh).expect("backlog: first");
    let b2 = w.try_next(&mut fresh).expect("backlog: second");
    w.assert_next_wait(&mut fresh);

    let mut seen: Vec<_> = [&b1, &b2].iter().map(|a| a.path.as_str()).collect();
    seen.sort();
    assert_eq!(seen, ["test1", "test2"]);
}

#[test]
fn announce_guards_follow_the_route() {
    let mut w = World::new();
    let origin = random().with_stats(Some(7));
    let created =
        origin.create_broadcast(&Path::new("test"), Route::new(), 0).map_err(|_| ()).unwrap();
    assert_eq!(created.ingress.session, Some(7));
    assert_eq!(created.ingress.path.as_str(), "test");
    let mut source = created.source;
    assert_eq!(source.path().as_str(), "test");

    let egress = origin.consume().with_stats(Some(9));
    let mut tagged = w.announced(&egress);

    // Attached but not announced.
    let step = source.observe(&mut w.tree, Route::new(), false);
    assert!(step.created && !step.stop);
    assert_eq!(step.guard, Guard::Keep);
    assert_eq!(source.observe(&mut w.tree, announce(), false).guard, Guard::Open);
    // Reporting the same route again changes nothing.
    assert_eq!(source.observe(&mut w.tree, announce(), false).guard, Guard::Keep);
    let delivery = tagged.try_next(&mut w.tree).unwrap();
    assert_eq!(delivery.guard, Guard::Open);
    assert_eq!(delivery.scope.session, Some(9));
    assert_eq!(delivery.scope.path.as_str(), "test");

    let step = source.end(&mut w.tree, true, false);
    assert!(step.stop && step.closed);
    assert_eq!(step.guard, Guard::Close);
    let mut task = FrontTask::new(source.place().unwrap().front);
    assert!(task.perform(&mut w.tree, FrontStep::Closed));
    assert_eq!(tagged.try_next(&mut w.tree).unwrap().guard, Guard::Close);
    // Reports of a source that is gone are refused.
    let step = source.observe(&mut w.tree, announce(), false);
    assert!(step.stop);
    assert_eq!(step.guard, Guard::Keep);
}

#[test]
fn unattached_source_leaves_nothing_behind() {
    let mut w = World::new();
    let origin = random();
    let created =
        origin.create_broadcast(&Path::new("test"), announce(), 0).map_err(|_| ()).unwrap();
    assert!(created.route.announce);
    let mut source = created.source;
    assert!(source.place().is_none());
    let step = source.end(&mut w.tree, false, false);
    assert!(step.stop && !step.closed && !step.created);
    assert!(w.get(&origin.consume(), "test").is_none());
}

#[test]
fn closing_a_cursor_stops_it() {
    let mut w = World::new();
    let origin = random();
    w.create(&origin, "test", announce()).unwrap();
    w.settle();
    let mut first = origin.consume().with_stats(Some(1)).announced(&mut w.tree);
    let mut second = origin.announces().consume(&mut w.tree);
    assert_eq!(second.root().as_str(), "");
    assert!(w.try_next(&mut first).is_some());
    assert!(!first.is_closed(&w.tree));
    // The guards that were still open are handed back.
    let open = first.close(&mut w.tree);
    assert_eq!(open.len(), 1);
    assert_eq!(open[0].as_str(), "test");
    w.assert_next_some(&mut second, "test");
    w.assert_next_wait(&mut second);
}

#[test]
fn empty_handles_reach_nothing() {
    let mut w = World::new();
    let origin = random();
    w.create(&origin, "test", announce()).unwrap();
    w.settle();

    let unset: Producer<()> = Producer::empty(*origin);
    assert_eq!(unset.allowed().len(), 0);
    assert!(w.create(&unset, "test", announce()).is_err());
    assert!(w.create(&unset, "", announce()).is_err());

    let nothing = origin.consume().empty();
    assert_eq!(*nothing, *origin);
    assert!(w.get(&nothing, "test").is_none());
    let mut announced = w.announced(&nothing);
    w.assert_next_wait(&mut announced);
}

#[test]
fn any_handle_can_be_consumed() {
    fn find<C: Consume<Consumer>>(w: &World, from: C) -> Option<Broadcast> {
        w.get(&from.consume(), "test")
    }
    let mut w = World::new();
    let origin = random();
    w.create(&origin, "test", announce()).unwrap();
    w.settle();
    let consumer = origin.consume();
    let broadcast = find(&w, &origin).unwrap();
    assert_eq!(find(&w, &consumer), Some(broadcast));
    assert_eq!(find(&w, consumer), Some(broadcast));
    assert_eq!(find(&w, origin), Some(broadcast));
    let same: Broadcast = Consume::consume(&broadcast);
    assert_eq!(same, broadcast);
}

#[test]
fn pool_and_linger_are_inherited() {
    let origin = Info::<u32>::new(Origin::new(5).unwrap())
        .with_pool(17)
        .with_cache_duration(Duration::from_millis(40))
        .with_linger(Duration::from_secs(2))
        .produce();
    let rooted = origin.with_root(&Path::new("a")).unwrap().scope(&paths(&["b"])).unwrap();
    let info = rooted.info();
    assert_eq!(info.id, Origin::new(5).unwrap());
    assert_eq!(info.pool, 17);
    assert_eq!(info.cache_duration.as_nanos(), 40_000_000);
    assert_eq!(info.linger.as_nanos(), 2_000_000_000);
    let lasting = rooted.with_linger(Duration::max());
    assert!(lasting.info().linger.as_nanos() == Duration::max().as_nanos());
    assert_eq!(lasting.absolute(&Path::new("b/c")).as_str(), "a/b/c");
}

#[test]
fn fronts_adopt_the_linger_of_their_creator() {
    let mut w = World::new();
    let origin = random();
    let lasting = random().with_linger(Duration::from_secs(5));
    let consumer = origin.consume();
    let first = w.create(&origin, "test", announce()).unwrap();
    let second = w.create(&lasting, "test", announce()).unwrap();
    w.settle();
    w.abort(&first);
    w.abort(&second);
    w.settle();
    assert!(w.get(&consumer, "test").is_none());

    let first = w.create(&lasting, "test", announce()).unwrap();
    let second = w.create(&origin, "test", announce()).unwrap();
    w.settle();
    w.abort(&first);
    w.abort(&second);
    w.settle();
    assert!(w.get(&consumer, "test").is_some());
    w.sleep(5);
    w.settle();
    assert!(w.get(&consumer, "test").is_none());
}

#[test]
fn teardown_spares_a_replacement() {
    let mut w = World::new();
    let origin = random();
    let consumer = origin.consume();
    let source = w.create(&origin, "test", announce()).unwrap();
    w.settle();
    let old = w.get(&consumer, "test").unwrap();

    // The old broadcast closed, and a new source attaches before its task notices.
    w.finish(&source);
    w.create(&origin, "test", announce()).unwrap();
    w.settle();
    let new = w.get(&consumer, "test").unwrap();
    assert_ne!(old, new);
    w.settle();
    assert_eq!(w.get(&consumer, "test"), Some(new));
}

#[test]
fn requested_tracks_come_first() {
    let mut task = FrontTask::new(3);
    assert_eq!(task.next(true, true, true, true), Some(FrontStep::Serve));
    assert_eq!(task.next(false, true, true, true), Some(FrontStep::Closed));
    assert_eq!(task.next(false, false, true, true), Some(FrontStep::Changed));
    assert_eq!(task.next(false, false, false, true), None);
    task.deadline = Some(4);
    assert_eq!(task.next(false, false, false, true), Some(FrontStep::Expired));
    assert_eq!(task.next(false, false, false, false), None);
}

#[test]
fn countdown_follows_the_clock() {
    let mut w = World::new();
    let origin = random().with_linger(Duration::from_secs(5));
    let source = w.create(&origin, "test", announce()).unwrap();
    w.settle();
    let clock = Clock::new();
    let mut task = w.tasks[0];
    task.begin(&w.tree, &clock);
    assert_eq!(task.deadline, None);
    w.entries[source.0].source.end(&mut w.tree, false, false);
    task.begin(&w.tree, &clock);
    let at = task.deadline.unwrap();
    assert!(at >= 5 * SEC && at < 65 * SEC);
    task.begin(&w.tree, &clock);
    assert_eq!(task.deadline, Some(at));
}

#[test]
fn a_linger_of_centuries_runs_out() {
    let mut w = World::new();
    let years = 1000 * 365 * 24 * 3600;
    let origin = random().with_linger(Duration::from_secs(years));
    let source = w.create(&origin, "test", announce()).unwrap();
    w.settle();
    w.abort(&source);
    w.settle();
    assert_eq!(w.tasks[0].deadline, Some(years as u128 * SEC));
    w.sleep(years - 1);
    w.settle();
    assert!(w.get(&origin.consume(), "test").is_some());
    w.sleep(1);
    w.settle();
    assert!(w.get(&origin.consume(), "test").is_none());
}

#[test]
fn created_sources_carry_their_route() {
    let origin = random();
    let route = announce().with_cost(17).with_hops(hops(&[3, 4]));
    let created =
        origin.create_broadcast(&Path::new("test"), route.clone(), 0).map_err(|_| ()).unwrap();
    assert_eq!(created.route, route);
}

#[test]
fn guards_come_back_once() {
    let mut w = World::new();
    let origin = random();
    let first = w.create(&origin, "a", announce()).unwrap();
    w.create(&origin, "b", announce()).unwrap();
    w.settle();
    let mut announced = origin.consume().with_stats(Some(1)).announced(&mut w.tree);
    w.assert_next_some(&mut announced, "a");
    w.assert_next_some(&mut announced, "b");
    // Unannounced and announced again: one guard, not two.
    w.set_route(&first, Route::new());
    w.settle();
    w.assert_next_none(&mut announced, "a");
    w.set_route(&first, announce());
    w.settle();
    w.assert_next_some(&mut announced, "a");
    let mut open: Vec<_> =
        announced.close(&mut w.tree).iter().map(|path| path.as_str().to_string()).collect();
    open.sort();
    assert_eq!(open, ["a", "b"]);
}

#[test]
fn replacement_is_seen_as_both() {
    let mut w = World::new();
    let origin = random();
    let mut announced = w.announced(&origin.consume());
    let mut told = None;
    for _ in 0..3 {
        let source = w.create(&origin, "test", announce()).unwrap();
        w.settle();
        if let Some(before) = told {
            w.assert_next_none(&mut announced, "test");
            let after = w.assert_next_some(&mut announced, "test");
            assert_ne!(before, after);
            told = Some(after);
        } else {
            told = Some(w.assert_next_some(&mut announced, "test"));
        }
        w.assert_next_wait(&mut announced);
        w.finish(&source);
        w.settle();
    }
    w.assert_next_none(&mut announced, "test");
    w.assert_next_wait(&mut announced);
}

#[test]
fn a_cursor_unknown_to_the_tree_is_closed() {
    let mut w = World::new();
    let origin = random();
    let mut announced = w.announced(&origin.consume());
    assert!(matches!(announced.next(&mut w.tree), Next::Waiting));
    let mut elsewhere = World::new();
    assert!(announced.is_closed(&elsewhere.tree));
    assert!(matches!(announced.next(&mut elsewhere.tree), Next::Closed));
    assert!(announced.try_next(&mut elsewhere.tree).is_none());
}

#[test]
fn scopes_intersect() {
    let all = OriginNodes::default();
    let some = all.select(&PathPrefixes::new(&paths(&["a", "b/c"]))).unwrap();
    let narrow = some.select(&PathPrefixes::new(&paths(&["a/x", "b", "z"]))).unwrap();
    assert!(narrow.allows(&Path::new("a/x/1")));
    assert!(narrow.allows(&Path::new("b/c")));
    assert!(!narrow.allows(&Path::new("a")));
    assert!(!narrow.allows(&Path::new("b")));
    assert!(!narrow.allows(&Path::new("z")));
    let below = narrow.root(&Path::new("b")).unwrap();
    assert!(below.allows(&Path::new("c/d")));
    assert!(!below.allows(&Path::new("x")));
    assert!(narrow.root(&Path::new("q")).is_none());
}

#[test]
fn rooted_and_scoped_consumers_find_the_same() {
    let mut w = World::new();
    let origin = random();
    let rooted = origin.with_root(&Path::new("a")).unwrap();
    w.create(&rooted, "b/c", announce()).unwrap();
    w.create(&origin, "a/x", announce()).unwrap();
    w.settle();
    let whole = origin.consume();
    let there = w.get(&whole, "a/b/c");
    assert!(there.is_some());
    assert_eq!(w.get(&whole.with_root(&Path::new("a/b")).unwrap(), "c"), there);
    assert_eq!(w.get(&whole.with_root(&Path::new("")).unwrap(), "a/b/c"), there);
    let scoped = whole.scope(&paths(&["a/b", "a/b/c"])).unwrap();
    assert_eq!(w.get(&scoped, "a/b/c"), there);
    assert_eq!(w.get(&scoped, "a/x"), None);
}

#[test]
fn announcements_toggle() {
    let mut w = World::new();
    let origin = random();
    let mut announced = w.announced(&origin.consume());
    let source = w.create(&origin, "test", announce()).unwrap();
    let mut known = false;
    for i in 0..40u32 {
        match (i * i + i / 3) % 4 {
            0 => w.set_route(&source, Route::new()),
            1 => w.set_route(&source, announce()),
            2 => w.set_route(&source, announce().with_cost(i as u64)),
            _ => {
                while let Some(next) = w.try_next(&mut announced) {
                    assert_ne!(next.broadcast.is_some(), known);
                    known = !known;
                }
            }
        }
        w.settle();
    }
    while let Some(next) = w.try_next(&mut announced) {
        assert_ne!(next.broadcast.is_some(), known);
        known = !known;
    }
    let face = w.get(&origin.consume(), "test").unwrap();
    assert_eq!(w.route(face).announce, known);
}
