//! Routes to a broadcast and the order in which they are preferred.

use crate::origin::{ids, Origin, OriginList};
use crate::path::{text, Path};
use vstd::prelude::*;
use vstd::utf8::encode_utf8;

verus! {

/// The basis of the route hash. Any nonzero value works.
pub const SEED: u64 = 0x420C_0DEC_B00B;

/// The standard FNV-64 prime.
pub const FNV_PRIME: u64 = 0x0000_0100_0000_01b3;

/// How a broadcast is reached through one source: the relays it passed, what pulling it
/// costs, and whether it is advertised.
#[derive(Debug, PartialEq, Eq)]
pub struct Route {
    /// The relays the broadcast passed, oldest first.
    pub hops: OriginList,
    /// The marginal cost of pulling via this route.
    pub cost: u64,
    /// The cost the peer advertised, before the link to it was added. Zero from a relay
    /// that is already carrying the broadcast.
    pub advertised: u64,
    /// Whether the path is announced; otherwise it is reachable by exact path only.
    pub announce: bool,
}

/// The contents of a [`Route`].
#[verifier::ext_equal]
pub ghost struct RouteView {
    /// The relays the broadcast passed, oldest first.
    pub hops: Seq<Origin>,
    /// The marginal cost.
    pub cost: u64,
    /// The advertised cost.
    pub advertised: u64,
    /// Whether the path is announced.
    pub announce: bool,
}

impl View for Route {
    type V = RouteView;

    open spec fn view(&self) -> RouteView {
        RouteView {
            hops: self.hops@,
            cost: self.cost,
            advertised: self.advertised,
            announce: self.announce,
        }
    }
}

impl Route {
    /// A direct, free route that is not announced.
    pub fn new() -> (r: Self)
        ensures
            r@ == (RouteView {
                hops: Seq::<Origin>::empty(),
                cost: 0,
                advertised: 0,
                announce: false,
            }),
    {
        Route { hops: OriginList::new(), cost: 0, advertised: 0, announce: false }
    }

    /// Set whether the route is announced, returning `self` for chaining.
    pub fn with_announce(self, announce: bool) -> (r: Self)
        ensures
            r@ == (RouteView { announce, ..self@ }),
    {
        Route { announce, ..self }
    }

    /// Set the hop chain, returning `self` for chaining.
    pub fn with_hops(self, hops: OriginList) -> (r: Self)
        ensures
            r@ == (RouteView { hops: hops@, ..self@ }),
    {
        Route { hops, ..self }
    }

    /// Set the cost, returning `self` for chaining.
    pub fn with_cost(self, cost: u64) -> (r: Self)
        ensures
            r@ == (RouteView { cost, ..self@ }),
    {
        Route { cost, ..self }
    }

    /// Whether two routes hold the same.
    pub fn same(&self, other: &Route) -> (r: bool)
        ensures
            r == (self@ == other@),
    {
        if self.cost != other.cost || self.advertised != other.advertised || self.announce
            != other.announce || self.hops.len() != other.hops.len() {
            return false;
        }
        let a = self.hops.as_slice();
        let b = other.hops.as_slice();
        let mut i: usize = 0;
        while i < a.len()
            invariant
                a@ == self.hops@,
                b@ == other.hops@,
                a@.len() == b@.len(),
                i <= a@.len(),
                forall|k: int| 0 <= k < i ==> a@[k] == b@[k],
            decreases a@.len() - i,
        {
            if a[i] != b[i] {
                return false;
            }
            i = i + 1;
        }
        assert(self@ =~= other@);
        true
    }
}

impl Clone for Route {
    fn clone(&self) -> (r: Self)
        ensures
            r@ == self@,
    {
        Route {
            hops: self.hops.clone(),
            cost: self.cost,
            advertised: self.advertised,
            announce: self.announce,
        }
    }
}

impl Default for Route {
    fn default() -> (r: Self)
        ensures
            r@ == (RouteView {
                hops: Seq::<Origin>::empty(),
                cost: 0,
                advertised: 0,
                announce: false,
            }),
    {
        Self::new()
    }
}

/// One step of FNV-1a.
pub open spec fn fnv_step(hash: u64, byte: u8) -> u64 {
    (hash ^ (byte as u64)).wrapping_mul(FNV_PRIME)
}

/// FNV-1a over `bytes`, going on from `hash`.
pub open spec fn fnv(hash: u64, bytes: Seq<u8>) -> u64
    decreases bytes.len(),
{
    if bytes.len() == 0 {
        hash
    } else {
        fnv_step(fnv(hash, bytes.drop_last()), bytes.last())
    }
}

/// The low `n` bytes of `v`, least significant first.
pub open spec fn little_endian(v: u64, n: nat) -> Seq<u8>
    decreases n,
{
    if n == 0 {
        Seq::empty()
    } else {
        seq![(v % 256) as u8] + little_endian(v / 256, (n - 1) as nat)
    }
}

/// Origin ids as eight bytes each, least significant first.
pub open spec fn ids_bytes(ids: Seq<u64>) -> Seq<u8>
    decreases ids.len(),
{
    if ids.len() == 0 {
        Seq::empty()
    } else {
        ids_bytes(ids.drop_last()) + little_endian(ids.last(), 8)
    }
}

/// The hash of a broadcast name and a sequence of origin ids.
pub open spec fn key_hash(name: Seq<Seq<char>>, ids: Seq<u64>) -> u64 {
    fnv(SEED, encode_utf8(text(name)) + ids_bytes(ids))
}

/// What a route is ordered by. Lower wins, compared left to right with `false` below
/// `true`.
pub open spec fn order_key(name: Seq<Seq<char>>, route: RouteView) -> (bool, u64, usize, u64) {
    (!route.announce, route.cost, route.hops.len() as usize, key_hash(name, ids(route.hops)))
}

/// The lexicographic order of route keys.
pub open spec fn key_lt(a: (bool, u64, usize, u64), b: (bool, u64, usize, u64)) -> bool {
    if a.0 != b.0 {
        !a.0
    } else if a.1 != b.1 {
        a.1 < b.1
    } else if a.2 != b.2 {
        a.2 < b.2
    } else {
        a.3 < b.3
    }
}

proof fn lemma_fnv_concat(hash: u64, a: Seq<u8>, b: Seq<u8>)
    ensures
        fnv(hash, a + b) == fnv(fnv(hash, a), b),
    decreases b.len(),
{
    if b.len() == 0 {
        assert(a + b =~= a);
    } else {
        assert((a + b).drop_last() =~= a + b.drop_last());
        lemma_fnv_concat(hash, a, b.drop_last());
    }
}

/// Mix bytes into a hash.
fn fnv_bytes(hash: u64, bytes: &[u8]) -> (r: u64)
    ensures
        r == fnv(hash, bytes@),
{
    let mut r: u64 = hash;
    let mut i: usize = 0;
    while i < bytes.len()
        invariant
            i <= bytes@.len(),
            r == fnv(hash, bytes@.take(i as int)),
        decreases bytes@.len() - i,
    {
        let b: u8 = bytes[i];
        r = (r ^ (b as u64)).wrapping_mul(FNV_PRIME);
        assert(bytes@.take(i + 1).drop_last() =~= bytes@.take(i as int));
        i = i + 1;
    }
    assert(bytes@.take(i as int) =~= bytes@);
    r
}

/// Mix one origin id into a hash.
fn fnv_id(hash: u64, id: u64) -> (r: u64)
    ensures
        r == fnv(hash, little_endian(id, 8)),
{
    let mut r: u64 = hash;
    let mut v: u64 = id;
    let mut n: usize = 8;
    let ghost mut done: Seq<u8> = Seq::empty();
    assert(done + little_endian(v, 8) =~= little_endian(id, 8));
    while n > 0
        invariant
            n <= 8,
            done + little_endian(v, n as nat) == little_endian(id, 8),
            r == fnv(hash, done),
        decreases n,
    {
        let b: u8 = (v % 256) as u8;
        r = (r ^ (b as u64)).wrapping_mul(FNV_PRIME);
        proof {
            let next = done.push(b);
            assert(next.drop_last() =~= done);
            assert(next + little_endian(v / 256, (n - 1) as nat) =~= done + little_endian(
                v,
                n as nat,
            ));
            done = next;
        }
        v = v / 256;
        n = n - 1;
    }
    assert(done + little_endian(v, 0) =~= done);
    r
}

/// FNV-1a over the broadcast name and a sequence of origin ids.
///
/// FNV-1a, not the std hasher: its output is fixed across Rust versions and
/// builds, which matters when nodes run mismatched binaries during a rolling
/// deploy and still need to agree on the same route. [`SEED`] is a custom basis
/// (any nonzero u64 works, the textbook one is just as arbitrary); [`FNV_PRIME`] is
/// the standard FNV-64 prime and should stay put.
///
/// Two callers, two different id sequences: [`route_key`] hashes a route's hop
/// chain to pick among *routes*, and the handover rule hashes a single relay's
/// origin to pick among *relays*. Mixing the name in spreads equal candidates
/// across different winners rather than funneling onto one.
pub fn fnv_key(name: &Path, origins: &[Origin]) -> (r: u64)
    ensures
        r == key_hash(name@, ids(origins@)),
{
    let written = name.as_str();
    let mut hash: u64 = fnv_bytes(SEED, written.as_str().as_bytes());
    let mut i: usize = 0;
    let ghost prefix = encode_utf8(text(name@));
    assert(prefix + ids_bytes(Seq::empty()) =~= prefix);
    assert(ids(origins@).take(0) =~= Seq::<u64>::empty());
    while i < origins.len()
        invariant
            i <= origins@.len(),
            hash == fnv(SEED, prefix + ids_bytes(ids(origins@).take(i as int))),
        decreases origins@.len() - i,
    {
        let ghost before = ids(origins@).take(i as int);
        let id: u64 = origins[i].id();
        hash = fnv_id(hash, id);
        proof {
            let next = ids(origins@).take(i + 1);
            assert(next.drop_last() =~= before);
            lemma_fnv_concat(SEED, prefix + ids_bytes(before), little_endian(id, 8));
            assert((prefix + ids_bytes(before)) + little_endian(id, 8) =~= prefix + ids_bytes(
                next,
            ));
        }
        i = i + 1;
    }
    assert(ids(origins@).take(i as int) =~= ids(origins@));
    hash
}

/// Ordering key used to pick the active route among broadcasts at the same path.
///
/// Lower wins. Shorter hop chains sort first (routing prefers the shortest path);
/// remaining ties break on a deterministic hash of the broadcast name and hop
/// chain. Every node in the cluster, given the same candidate routes, converges
/// on the same winner: the hops are forwarded unchanged, and the hash is
/// build-stable. Mixing the name in spreads equal routes across different
/// upstreams rather than funneling onto one.
pub fn route_key(name: &Path, hops: &OriginList) -> (r: (usize, u64))
    ensures
        r.0 == hops@.len(),
        r.1 == key_hash(name@, ids(hops@)),
{
    (hops.len(), fnv_key(name, hops.as_slice()))
}

/// Full ordering key for a [`Route`]: announced routes first (an actively published
/// source beats an offline one), then the marginal cost of pulling via the route, then
/// the [`route_key`] hop ordering. Lower wins.
///
/// Hop length stays the tie-break below cost, so peers that never carry a cost rank
/// exactly as they did before route cost existed, and equal-cost warm copies resolve to
/// the closest one, which bounds same-datacenter chains to a single hop.
pub fn route_order(name: &Path, route: &Route) -> (r: (bool, u64, usize, u64))
    ensures
        r == order_key(name@, route@),
{
    let (len, hash) = route_key(name, &route.hops);
    (!route.announce, route.cost, len, hash)
}

/// Whether the first key wins over the second.
pub fn key_less(a: (bool, u64, usize, u64), b: (bool, u64, usize, u64)) -> (r: bool)
    ensures
        r == key_lt(a, b),
{
    if a.0 != b.0 {
        !a.0
    } else if a.1 != b.1 {
        a.1 < b.1
    } else if a.2 != b.2 {
        a.2 < b.2
    } else {
        a.3 < b.3
    }
}

// ---------------------------------------------------------------------------
// Laws
// ---------------------------------------------------------------------------

/// An announced route is preferred to an offline one, whatever else they hold.
pub proof fn law_announced_first(name: Seq<Seq<char>>, live: RouteView, offline: RouteView)
    requires
        live.announce,
        !offline.announce,
    ensures
        key_lt(order_key(name, live), order_key(name, offline)),
{
}

/// Between two routes that are both announced or both not, the cheaper one is preferred.
pub proof fn law_cheaper_first(name: Seq<Seq<char>>, cheap: RouteView, dear: RouteView)
    requires
        cheap.announce == dear.announce,
        cheap.cost < dear.cost,
    ensures
        key_lt(order_key(name, cheap), order_key(name, dear)),
{
}

/// Between two routes alike in announcement and cost, the shorter chain is preferred.
pub proof fn law_shorter_chain_first(name: Seq<Seq<char>>, near: Route, far: Route)
    requires
        near.announce == far.announce,
        near.cost == far.cost,
        near.hops@.len() < far.hops@.len() <= usize::MAX,
    ensures
        key_lt(order_key(name, near@), order_key(name, far@)),
{
}

/// The preference between routes is a strict weak order: no cycles, and routes that
/// neither wins have equal keys.
pub proof fn law_preference_is_strict(
    a: (bool, u64, usize, u64),
    b: (bool, u64, usize, u64),
    c: (bool, u64, usize, u64),
)
    ensures
        !key_lt(a, a),
        key_lt(a, b) ==> !key_lt(b, a),
        key_lt(a, b) && key_lt(b, c) ==> key_lt(a, c),
        !key_lt(a, b) && !key_lt(b, a) ==> a == b,
{
}

/// Of two routes to a broadcast the announced one wins, then the cheaper one, then the one with
/// the shorter chain, then the one whose chain has the lower key for the name. Nothing else
/// counts.
pub proof fn law_route_preference(
    name: Path,
    a: Route,
    b: Route,
    key_a: (bool, u64, usize, u64),
    key_b: (bool, u64, usize, u64),
    wins: bool,
)
    requires
        call_ensures(route_order, (&name, &a), key_a),
        call_ensures(route_order, (&name, &b), key_b),
        call_ensures(key_less, (key_a, key_b), wins),
        a.hops@.len() <= usize::MAX,
        b.hops@.len() <= usize::MAX,
    ensures
        wins <==> (a.announce && !b.announce) || (a.announce == b.announce && (a.cost < b.cost || (
        a.cost == b.cost && (a.hops@.len() < b.hops@.len() || (a.hops@.len() == b.hops@.len()
            && key_hash(name@, ids(a.hops@)) < key_hash(name@, ids(b.hops@))))))),
{
}

/// The key of a chain of relays for a name is that of the name and their ids, so nodes that
/// know the same chain agree on it.
pub proof fn law_keys_agree(name: Path, hops: OriginList, origins: &[Origin], a: u64, b: (usize, u64))
    requires
        call_ensures(fnv_key, (&name, origins), a),
        call_ensures(route_key, (&name, &hops), b),
    ensures
        a == key_hash(name@, ids(origins@)),
        b.0 == hops@.len(),
        b.1 == key_hash(name@, ids(hops@)),
        origins@ == hops@ ==> a == b.1,
{
}

/// FNV-1a: each byte is mixed in by an exclusive or and a multiplication with the 64-bit prime.
pub proof fn law_fnv_1a(hash: u64, bytes: Seq<u8>, byte: u8)
    ensures
        fnv(hash, Seq::empty()) == hash,
        fnv(hash, bytes.push(byte)) == ((fnv(hash, bytes) ^ (byte as u64)) * 1_099_511_628_211)
            % 0x1_0000_0000_0000_0000,
{
    assert(bytes.push(byte).drop_last() =~= bytes);
}

/// The key of a name is the hash of its text; each relay adds the eight bytes of its id, the
/// least significant first.
pub proof fn law_key_covers_the_name_and_every_id(name: Seq<Seq<char>>, ids: Seq<u64>, id: u64)
    ensures
        key_hash(name, Seq::empty()) == fnv(0x420C_0DEC_B00B, encode_utf8(text(name))),
        key_hash(name, ids.push(id)) == fnv(
            key_hash(name, ids),
            seq![
                (id % 256) as u8,
                (id / 256 % 256) as u8,
                (id / 256 / 256 % 256) as u8,
                (id / 256 / 256 / 256 % 256) as u8,
                (id / 256 / 256 / 256 / 256 % 256) as u8,
                (id / 256 / 256 / 256 / 256 / 256 % 256) as u8,
                (id / 256 / 256 / 256 / 256 / 256 / 256 % 256) as u8,
                (id / 256 / 256 / 256 / 256 / 256 / 256 / 256 % 256) as u8,
            ],
        ),
{
    let prefix = encode_utf8(text(name));
    assert(prefix + ids_bytes(Seq::empty()) =~= prefix);
    assert(ids.push(id).drop_last() =~= ids);
    lemma_fnv_concat(SEED, prefix + ids_bytes(ids), little_endian(id, 8));
    assert((prefix + ids_bytes(ids)) + little_endian(id, 8) =~= prefix + ids_bytes(ids.push(id)));
    reveal_with_fuel(little_endian, 9);
    assert(little_endian(id, 8) =~= seq![
        (id % 256) as u8,
        (id / 256 % 256) as u8,
        (id / 256 / 256 % 256) as u8,
        (id / 256 / 256 / 256 % 256) as u8,
        (id / 256 / 256 / 256 / 256 % 256) as u8,
        (id / 256 / 256 / 256 / 256 / 256 % 256) as u8,
        (id / 256 / 256 / 256 / 256 / 256 / 256 % 256) as u8,
        (id / 256 / 256 / 256 / 256 / 256 / 256 / 256 % 256) as u8,
    ]);
}

/// Two routes are the same exactly when they agree in hops, cost, advertised cost and
/// announcement.
pub proof fn law_same_routes_agree(a: Route, b: Route, same: bool)
    requires
        call_ensures(Route::same, (&a, &b), same),
    ensures
        same <==> a.hops@ =~= b.hops@ && a.cost == b.cost && a.advertised == b.advertised
            && a.announce == b.announce,
{
}

/// A route starts out direct, free and unannounced, and a builder sets its own part and leaves
/// the others.
pub proof fn law_route_builders(
    fresh: Route,
    route: Route,
    announce: bool,
    hops: OriginList,
    cost: u64,
    announced: Route,
    hopped: Route,
    priced: Route,
)
    requires
        call_ensures(Route::new, (), fresh),
        call_ensures(Route::with_announce, (route, announce), announced),
        call_ensures(Route::with_hops, (route, hops), hopped),
        call_ensures(Route::with_cost, (route, cost), priced),
    ensures
        fresh.hops@.len() == 0 && fresh.cost == 0 && fresh.advertised == 0 && !fresh.announce,
        announced.announce == announce && announced.hops@ == route.hops@ && announced.cost
            == route.cost && announced.advertised == route.advertised,
        hopped.hops@ == hops@ && hopped.announce == route.announce && hopped.cost == route.cost
            && hopped.advertised == route.advertised,
        priced.cost == cost && priced.hops@ == route.hops@ && priced.announce == route.announce
            && priced.advertised == route.advertised,
{
}

/// A default route is a new one.
pub proof fn law_default_route_is_new(fresh: Route, default: Route, route: Route, copy: Route)
    requires
        call_ensures(Route::new, (), fresh),
        call_ensures(Route::default, (), default),
        call_ensures(Route::clone, (&route,), copy),
    ensures
        default@ == fresh@,
        copy@ == route@,
{
}

} // verus!
