use moq_origin::front::{FrontRoute, FrontState, Update};
use moq_origin::origin::{Origin, OriginList};
use moq_origin::path::Path;
use moq_origin::route::{fnv_key, key_less, route_key, route_order, Route};
use moq_origin::time::Duration;

/// An announced direct route.
fn announce() -> Route {
    Route::new().with_announce(true)
}

/// The first origin whose handover key for `name` sits above (`true`) or below (`false`) the
/// peer's, so tests exercising the carrying rule are deterministic instead of hinging on a
/// random id winning a hash comparison.
fn origin_keyed(name: &str, peer: Origin, above: bool) -> Origin {
    let name = Path::new(name);
    let peer_key = fnv_key(&name, &[peer]);
    (100u64..)
        .map(|id| Origin::new(id).unwrap())
        .find(|origin| (fnv_key(&name, &[*origin]) > peer_key) == above)
        .unwrap()
}

/// A front table for reselect tests: routes get ids in order, the first is the incumbent.
fn front_state(self_origin: Origin, routes: Vec<Route>) -> FrontState {
    FrontState {
        path: Path::new("test"),
        self_origin,
        next_route: routes.len() as u64,
        routes: routes
            .into_iter()
            .enumerate()
            .map(|(id, route)| FrontRoute { id: id as u64, route, source: 0 })
            .collect(),
        active: Some(0),
        linger: Duration::zero(),
        closed: false,
    }
}

/// A route as a warm sibling would announce it: zero cost, chain ending at the announcing
/// peer.
fn sibling_route(peer: Origin) -> Route {
    let hops = OriginList::try_from(vec![Origin::new(90).unwrap(), peer]).unwrap();
    announce().with_hops(hops)
}

/// A route as the upstream announces it: priced, one hop.
fn upstream_route(cost: u64) -> Route {
    let hops = OriginList::try_from(vec![Origin::new(90).unwrap()]).unwrap();
    announce().with_hops(hops).with_cost(cost)
}

#[test]
fn test_carrying_gate_keys() {
    let peer = Origin::new(3).unwrap();

    // We lose the key comparison: stay put while carrying, migrate when idle.
    let mut lost = front_state(
        origin_keyed("test", peer, false),
        vec![upstream_route(10), sibling_route(peer)],
    );
    lost.reselect(true);
    assert_eq!(lost.active, Some(0), "carrying front re-parented onto a higher-keyed peer");
    lost.reselect(false);
    assert_eq!(lost.active, Some(1), "idle front must take the cheaper route");

    // We win the key comparison: re-parent even while carrying.
    let mut won = front_state(
        origin_keyed("test", peer, true),
        vec![upstream_route(10), sibling_route(peer)],
    );
    won.reselect(true);
    assert_eq!(won.active, Some(1), "carrying front must follow a lower-keyed peer");
}

#[test]
fn test_carrying_gate_symmetric_race() {
    let a = Origin::new(1).unwrap();
    let b = Origin::new(2).unwrap();

    let mut a_view = front_state(a, vec![upstream_route(10), sibling_route(b)]);
    let mut b_view = front_state(b, vec![upstream_route(10), sibling_route(a)]);
    a_view.reselect(true);
    b_view.reselect(true);

    let a_moved = a_view.active == Some(1);
    let b_moved = b_view.active == Some(1);
    assert!(
        a_moved != b_moved,
        "exactly one side must re-parent (a: {a_moved}, b: {b_moved})"
    );
}

#[test]
fn test_carrying_switches_to_benign_routes() {
    let peer = Origin::new(3).unwrap();
    let lost = origin_keyed("test", peer, false);

    // A cheaper forwarder path: the relay advertised its accumulated cost.
    let mut forwarder = sibling_route(peer).with_cost(4);
    forwarder.advertised = 4;
    let mut state = front_state(lost, vec![upstream_route(10), forwarder]);
    state.reselect(true);
    assert_eq!(state.active, Some(1), "a cheaper forwarder path must win while carrying");

    // Directly from the first publisher: single-hop chain, advertised zero.
    let direct = announce().with_hops(OriginList::try_from(vec![peer]).unwrap());
    let mut state = front_state(lost, vec![upstream_route(10), direct]);
    state.reselect(true);
    assert_eq!(state.active, Some(1), "a direct publisher route must win while carrying");
}

#[test]
fn test_carrying_gate_ignores_unannounced_incumbent() {
    let peer = Origin::new(3).unwrap();
    let unannounced = upstream_route(10).with_announce(false);
    let mut state = front_state(
        origin_keyed("test", peer, false),
        vec![unannounced, sibling_route(peer)],
    );
    state.reselect(true);
    assert_eq!(state.active, Some(1), "an unannounced incumbent must always be displaced");
}

#[test]
fn hash_values_are_stable() {
    let step = |hash: u64, byte: u8| (hash ^ byte as u64).wrapping_mul(0x0000_0100_0000_01b3);
    let mut expected: u64 = 0x420C_0DEC_B00B;
    assert_eq!(fnv_key(&Path::new(""), &[]), expected);
    for byte in "a/\u{e9}".bytes() {
        expected = step(expected, byte);
    }
    assert_eq!(fnv_key(&Path::new("/a//\u{e9}/"), &[]), expected);
    for id in [7u64, 0x0102_0304_0506_0708] {
        for byte in id.to_le_bytes() {
            expected = step(expected, byte);
        }
    }
    let origins = [Origin::new(7).unwrap(), Origin::new(0x0102_0304_0506_0708).unwrap()];
    assert_eq!(fnv_key(&Path::new("a/\u{e9}"), &origins), expected);
    let list = OriginList::try_from(origins.to_vec()).unwrap();
    assert_eq!(route_key(&Path::new("a/\u{e9}"), &list), (2, expected));
    let route = announce().with_hops(list).with_cost(9);
    assert_eq!(route_order(&Path::new("a/\u{e9}"), &route), (false, 9, 2, expected));
}

#[test]
fn keys_compare_left_to_right() {
    assert!(key_less((false, 9, 9, 9), (true, 0, 0, 0)));
    assert!(key_less((false, 1, 9, 9), (false, 2, 0, 0)));
    assert!(key_less((false, 1, 1, 9), (false, 1, 2, 0)));
    assert!(key_less((false, 1, 1, 1), (false, 1, 1, 2)));
    assert!(!key_less((false, 1, 1, 1), (false, 1, 1, 1)));
    assert!(!key_less((true, 0, 0, 0), (false, 9, 9, 9)));
}

#[test]
fn equal_routes_keep_the_first() {
    let state = front_state(Origin::new(5).unwrap(), vec![announce(), announce(), announce()]);
    assert_eq!(state.best_route(), Some(0));
    let none = front_state(Origin::new(5).unwrap(), vec![]);
    assert_eq!(none.best_route(), None);
}

#[test]
fn sources_come_and_go() {
    let mut front = front_state(Origin::new(5).unwrap(), vec![]);
    front.active = None;
    assert!(front.active_route().is_none());
    let a = front.attach(upstream_route(5), 50, false);
    let b = front.attach(upstream_route(3), 51, false);
    assert_eq!((a, b), (0, 1));
    assert_eq!(front.active, Some(1));
    assert_eq!(front.active_source(), Some((1, 51)));
    assert_eq!(front.active_route().unwrap().cost, 3);

    assert_eq!(front.update(a, &upstream_route(5), false), Update::Unchanged);
    assert_eq!(front.update(a, &upstream_route(1), false), Update::Changed);
    assert_eq!(front.active, Some(0));
    assert_eq!(front.update(9, &announce(), false), Update::Missing);

    assert!(!front.detach(a, true, false));
    assert_eq!(front.active, Some(1));
    assert!(!front.detach(a, true, false));
    assert!(!front.is_attached(a));
    assert!(front.detach(b, false, false), "without a linger any last detach closes");
    assert!(front.closed);
    assert_eq!(front.active, None);
}

#[test]
fn lingering_front_expires_only_while_empty() {
    let mut front = front_state(Origin::new(5).unwrap(), vec![announce()]);
    front.linger = Duration::from_secs(5);
    assert!(!front.expire());
    assert!(!front.detach(0, false, false));
    assert!(!front.closed);
    let id = front.attach(announce(), 1, false);
    assert_eq!(id, 1);
    assert!(!front.expire());
    assert!(!front.detach(id, false, false));
    assert!(front.expire());
    assert!(front.closed);
    assert!(!front.expire());
}

#[test]
fn relays_never_hand_over_in_a_circle() {
    // Each relay of the ring carries the broadcast and sees the next one's warm copy.
    for ring in [vec![1u64, 2, 3], vec![7, 5, 3, 11], vec![400, 12, 9, 77, 31]] {
        let n = ring.len();
        let moved = (0..n)
            .filter(|i| {
                let own = Origin::new(ring[*i]).unwrap();
                let peer = Origin::new(ring[(*i + 1) % n]).unwrap();
                let mut front = front_state(own, vec![upstream_route(10), sibling_route(peer)]);
                front.reselect(true);
                front.active == Some(1)
            })
            .count();
        assert!(moved < n, "some relay must keep its own source");
    }
}

#[test]
fn source_ids_are_never_reused() {
    let mut front = front_state(Origin::new(5).unwrap(), vec![announce()]);
    front.linger = Duration::from_secs(5);
    let first = front.attach(announce(), 1, false);
    front.detach(first, false, false);
    let second = front.attach(announce(), 1, false);
    assert_ne!(first, second);
    front.detach(second, false, false);
    front.detach(0, false, false);
    assert_eq!(front.attach(announce(), 1, false), 3);
}

#[test]
fn shown_route_is_announced_while_any_source_is() {
    let offline = upstream_route(1).with_announce(false);
    let mut front = front_state(Origin::new(5).unwrap(), vec![offline.clone()]);
    front.reselect(false);
    assert!(!front.active_route().unwrap().announce);
    let id = front.attach(upstream_route(9), 1, true);
    assert!(front.active_route().unwrap().announce);
    front.update(id, &offline, true);
    assert!(!front.active_route().unwrap().announce);
}
