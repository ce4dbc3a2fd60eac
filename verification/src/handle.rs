//! Handles on an origin: what publishers and consumers hold.
//!
//! Handles are plain values; the tree and the request queue they act on are passed in.

use crate::announce::{
    delivered, first_pending, pending_at, Broadcast, OriginAnnounce, PendingUpdate,
};
use crate::dynamic::{
    after_request, requested, Dynamic, DynamicView, HandlerView, OriginDynamicState, RequestState,
    Requesting, Scope,
};
use crate::error::Error;
use crate::history::{changed, law_pending_update_toggles, possible, toggles, Change};
use crate::lifecycle::{place_for, Guard, Source, SourceView};
use crate::nodes::{
    absolute_roots, law_root_is_relative, law_scope_is_intersection, rooted, selected, OriginNodes,
};
use crate::origin::{Info, Origin};
use crate::path::{
    canonical, canonical_prefixes, covers, law_canonical_form_covers_the_same, path_lt, views, Path,
    PathPrefixes, MAX_PARTS,
};
use crate::route::{Route, RouteView};
use crate::time::{Duration, MAX_NANOS};
use crate::tree::{
    cursor_added, law_attached_broadcast_is_found, seen_more, slot_at,
    source_attached, tree_wf, CursorView, OriginTree, PathView, TreeView,
};
use vstd::prelude::*;

verus! {

/// Derive a read view from a handle.
///
/// Lets APIs accept either a producer or a consumer. The blanket `&T` impl means you can
/// pass by value (`foo(x)`) to hand off ownership, or by reference (`foo(&x)`) to keep it,
/// without spelling out `.consume()`.
pub trait Consume<T> {
    /// Derive a read view (a consumer) from this handle.
    fn consume(&self) -> T;
}

impl<T, U: Consume<T>> Consume<T> for &U {
    fn consume(&self) -> (r: T)
        ensures
            call_ensures(U::consume, (*self,), r),
    {
        (**self).consume()
    }
}

/// Announces broadcasts to consumers over the network.
pub struct Producer<P> {
    // Identity for this origin. Appended to broadcast hops when re-announcing so
    // downstream relays can detect loops and prefer the shortest path.
    info: Origin,
    // The roots of the tree that we are allowed to publish.
    nodes: OriginNodes,
    // The prefix that is automatically stripped from all paths.
    root: Path,
    // The cache pool inherited by broadcasts created under this origin.
    pool: P,
    // Retention ceiling inherited by broadcasts created under this origin.
    cache_duration: Duration,
    // How long a broadcast outlives ungracefully losing its last source.
    linger: Duration,
    // Ingress stats session that broadcasts created through this producer are attributed
    // to, if any.
    stats: Option<u64>,
}

/// The contents of a [`Producer`].
#[verifier::ext_equal]
pub ghost struct ProducerView<P> {
    /// The origin's identity.
    pub info: Origin,
    /// The paths that may be published under, relative to the root.
    pub nodes: Seq<PathView>,
    /// The prefix stripped from all paths.
    pub root: PathView,
    /// The cache pool.
    pub pool: P,
    /// The retention ceiling, in nanoseconds.
    pub cache_duration: nat,
    /// The linger window, in nanoseconds.
    pub linger: nat,
    /// The ingress stats session.
    pub stats: Option<u64>,
}

/// A source that was created but is not attached yet, and who its writes are attributed to.
pub struct Created {
    /// The source's lifecycle.
    pub source: Source,
    /// The source's initial route, which its first report carries.
    pub route: Route,
    /// Who the source's writes and announcements are attributed to.
    pub ingress: Scope,
}

impl<P> View for Producer<P> {
    type V = ProducerView<P>;

    closed spec fn view(&self) -> ProducerView<P> {
        ProducerView {
            info: self.info,
            nodes: self.nodes@,
            root: self.root@,
            pool: self.pool,
            cache_duration: self.cache_duration@,
            linger: self.linger@,
            stats: self.stats,
        }
    }
}

impl<P: Clone> Clone for Producer<P> {
    fn clone(&self) -> (r: Self)
        ensures
            r@ == (ProducerView { pool: r@.pool, ..self@ }),
            cloned(self@.pool, r@.pool),
    {
        Producer {
            info: self.info,
            nodes: self.nodes.clone(),
            root: self.root.clone(),
            pool: self.pool.clone(),
            cache_duration: self.cache_duration,
            linger: self.linger,
            stats: self.stats,
        }
    }
}

impl<P> std::ops::Deref for Producer<P> {
    type Target = Origin;

    fn deref(&self) -> (r: &Origin)
        ensures
            *r == self@.info,
    {
        &self.info
    }
}

impl Origin {
    /// Consume this [Origin] to create a producer that carries its id, with an
    /// unbounded cache pool. Use [`Info::produce`] to configure the pool.
    pub fn produce<P: Default>(self) -> (r: Producer<P>)
        ensures
            r@.info == self,
            r@.nodes == seq![Seq::<Seq<char>>::empty()],
            r@.root == Seq::<Seq<char>>::empty(),
            call_ensures(P::default, (), r@.pool),
            r@.cache_duration == MAX_NANOS,
            r@.linger == 0,
            r@.stats is None,
    {
        Info::new(self).produce()
    }
}

impl<P> Info<P> {
    /// Consume this config to create an origin [`Producer`].
    pub fn produce(self) -> (r: Producer<P>)
        ensures
            r@ == (ProducerView {
                info: self.id,
                nodes: seq![Seq::<Seq<char>>::empty()],
                root: Seq::<Seq<char>>::empty(),
                pool: self.pool,
                cache_duration: self.cache_duration@,
                linger: self.linger@,
                stats: None,
            }),
    {
        Producer::new(self)
    }
}

impl<P> Producer<P> {
    /// Build a producer from an [`Info`] (identity + cache pool) with no scoped
    /// prefix and no pre-existing broadcasts. Prefer [`Info::produce`] /
    /// [`Origin::produce`].
    pub fn new(info: Info<P>) -> (r: Self)
        ensures
            r@ == (ProducerView {
                info: info.id,
                nodes: seq![Seq::<Seq<char>>::empty()],
                root: Seq::<Seq<char>>::empty(),
                pool: info.pool,
                cache_duration: info.cache_duration@,
                linger: info.linger@,
                stats: None,
            }),
    {
        Producer {
            info: info.id,
            nodes: OriginNodes::default(),
            root: Path::empty(),
            pool: info.pool,
            cache_duration: info.cache_duration,
            linger: info.linger,
            stats: None,
        }
    }

    /// Attach an ingress stats session: broadcasts created through this handle (and
    /// any handle derived from it) are attributed to `session` on the subscriber
    /// (ingress) side. Pass `None` to opt out.
    pub fn with_stats(self, session: Option<u64>) -> (r: Self)
        ensures
            r@ == (ProducerView { stats: session, ..self@ }),
    {
        Producer { stats: session, ..self }
    }

    /// Set the linger (see [`Info::linger`]) for broadcasts created through this
    /// handle and any handle derived from it.
    ///
    /// A broadcast adopts the window of the handle whose source *created* it (the
    /// first source at the path), so set this before handing the producer to
    /// whatever attaches sources through it (e.g. a session). Lets one supplier
    /// declare its own recovery promise, like a reconnecting client lingering for
    /// as long as its retry loop keeps trying, without reconfiguring the origin.
    pub fn with_linger(self, linger: Duration) -> (r: Self)
        ensures
            r@ == (ProducerView { linger: linger@, ..self@ }),
    {
        Producer { linger, ..self }
    }

    /// This origin's [`Info`] (identity + cache pool), the parent handle a broadcast
    /// created under this origin carries.
    pub fn info(&self) -> (r: Info<P>) where P: Clone
        ensures
            r.id == self@.info,
            cloned(self@.pool, r.pool),
            r.cache_duration@ == self@.cache_duration,
            r.linger@ == self@.linger,
    {
        Info {
            id: self.info,
            pool: self.pool.clone(),
            cache_duration: self.cache_duration,
            linger: self.linger,
        }
    }

    /// A producer with *no* allowed prefixes: it can't publish anything and
    /// advertises no subscribe interest (its `allowed()` is empty). Used to fill an unset
    /// session half so both the publisher and subscriber loops still run.
    pub fn empty(info: Origin) -> (r: Self) where P: Default
        ensures
            r@.info == info,
            r@.nodes == Seq::<PathView>::empty(),
            r@.root == Seq::<Seq<char>>::empty(),
            call_ensures(P::default, (), r@.pool),
            r@.cache_duration == MAX_NANOS,
            r@.linger == 0,
            r@.stats is None,
    {
        Producer {
            info,
            nodes: OriginNodes::none(),
            root: Path::empty(),
            pool: P::default(),
            cache_duration: Duration::max(),
            linger: Duration::zero(),
            stats: None,
        }
    }

    /// Create a broadcast at `path`, fed through the source with handle `source`.
    ///
    /// This is the sole way content enters an origin. The origin owns the broadcast
    /// consumers actually see, and splices its tracks across every source created
    /// at the same path (other local publishers, or sessions attaching announces
    /// from the network), always serving from the best [`Route`] (live first, then lowest
    /// cost, then shortest hops with a deterministic tie-break).
    ///
    /// `route` is the source's initial route; report the one returned and every change of it
    /// with [`Source::observe`], and the end of the source with [`Source::end`]. Nothing is
    /// visible to consumers before the first report. The [`Route::announce`] flag controls
    /// whether the path is announced: a non-live broadcast stays reachable by exact path.
    ///
    /// Fails with [`Error::Unauthorized`] if `path` is outside the prefixes this
    /// producer may publish under (after [`scope`](Self::scope) /
    /// [`with_root`](Self::with_root)), or [`Error::BoundsExceeded`] if the full
    /// rooted path exceeds [`MAX_PARTS`], which bounds the tree depth and guarantees that
    /// the path can be re-encoded when forwarded. Callers must not use a route whose hop
    /// chain contains this origin's id (it would form a routing loop).
    pub fn create_broadcast(&self, path: &Path, route: Route, source: u64) -> (r: Result<
        Created,
        Error,
    >)
        ensures
            match r {
                Ok(created) => {
                    &&& covers(self@.nodes, path@)
                    &&& (self@.root + path@).len() <= MAX_PARTS
                    &&& created.source@ == (SourceView {
                        path: self@.root + path@,
                        self_origin: self@.info,
                        linger: self@.linger,
                        source,
                        place: None,
                        guarded: false,
                    })
                    &&& created.route@ == route@
                    &&& created.ingress.session == self@.stats
                    &&& created.ingress.path@ == self@.root + path@
                },
                Err(Error::Unauthorized) => !covers(self@.nodes, path@),
                Err(Error::BoundsExceeded) => covers(self@.nodes, path@) && (self@.root
                    + path@).len() > MAX_PARTS,
                Err(_) => false,
            },
    {
        if !self.nodes.allows(path) {
            return Err(Error::Unauthorized);
        }
        let full = self.root.join(path);
        // A decoded announce prefix and suffix are each within the wire limit, but their
        // join might not be.
        if full.part_count() > MAX_PARTS {
            return Err(Error::BoundsExceeded);
        }
        let ingress = Scope { session: self.stats, path: full.clone() };
        Ok(Created { source: Source::new(full, self.info, self.linger, source), route, ingress })
    }

    /// Returns a new Producer restricted to publishing under one of `prefixes`.
    ///
    /// Returns None if there are no legal prefixes (the requested prefixes are
    /// disjoint from this producer's current scope).
    pub fn scope(&self, prefixes: &[Path]) -> (r: Option<Self>) where P: Clone
        ensures
            canonical_prefixes(canonical(views(prefixes@)), views(prefixes@)),
            ({
                let nodes = selected(self@.nodes, canonical(views(prefixes@)));
                match r {
                    Some(producer) => nodes.len() > 0 && producer@ == (ProducerView {
                        nodes,
                        pool: producer@.pool,
                        ..self@
                    }) && cloned(self@.pool, producer@.pool),
                    None => nodes.len() == 0,
                }
            }),
    {
        let prefixes = PathPrefixes::new(prefixes);
        match self.nodes.select(&prefixes) {
            Some(nodes) => Some(
                Producer {
                    info: self.info,
                    nodes,
                    root: self.root.clone(),
                    pool: self.pool.clone(),
                    cache_duration: self.cache_duration,
                    linger: self.linger,
                    stats: self.stats,
                },
            ),
            None => None,
        }
    }

    /// Create a dynamic handler that picks up [`Consumer::request_broadcast`]
    /// calls for paths that are not announced.
    ///
    /// It serves broadcasts on demand. Crucially the served broadcasts are *not*
    /// announced, so [`Consumer::announced`] never sees them; they exist only as a
    /// fallback for a consumer that asks for an exact path with no live announcement.
    /// Close the handler (and every duplicate) to reject pending requests.
    pub fn dynamic(&self, state: &mut OriginDynamicState) -> (r: Dynamic)
        requires
            old(state).wf(),
            old(state)@.handlers < u64::MAX,
        ensures
            final(state).wf(),
            r@ == (HandlerView { info: self@.info, root: self@.root }),
            final(state)@ == (DynamicView {
                handlers: (old(state)@.handlers + 1) as u64,
                ..old(state)@
            }),
    {
        Dynamic::new(self.info, self.root.clone(), state)
    }

    /// Cheap read handle over this origin's broadcast tree.
    ///
    /// Use [`Consumer::announced`] to register interest and start receiving
    /// announcement events. Untagged: a session tags the egress consumer separately
    /// (ingress and egress are distinct sides).
    pub fn consume(&self) -> (r: Consumer)
        ensures
            r@ == (ConsumerView {
                info: self@.info,
                nodes: self@.nodes,
                root: self@.root,
                stats: None,
            }),
    {
        Consumer {
            info: self.info,
            nodes: self.nodes.clone(),
            root: self.root.clone(),
            stats: None,
        }
    }

    /// Handle to the announcement stream for this producer's subtree.
    ///
    /// Symmetric counterpart to [`Self::consume`]; call
    /// [`AnnounceProducer::consume`] to get an [`AnnounceConsumer`] that
    /// receives announce / unannounce events.
    pub fn announces(&self) -> (r: AnnounceProducer)
        ensures
            r@ == (AnnounceProducerView { nodes: self@.nodes, root: self@.root }),
    {
        AnnounceProducer { nodes: self.nodes.clone(), root: self.root.clone() }
    }

    /// Returns a new Producer that automatically strips out the provided prefix.
    ///
    /// Returns None if the provided root is not authorized; when [`Self::scope`]
    /// was already used without a wildcard.
    pub fn with_root(&self, prefix: &Path) -> (r: Option<Self>) where P: Clone
        ensures
            match r {
                Some(producer) => producer@ == (ProducerView {
                    root: self@.root + prefix@,
                    nodes: rerooted(self@.nodes, prefix@),
                    pool: producer@.pool,
                    ..self@
                }) && cloned(self@.pool, producer@.pool) && (prefix@.len() == 0 || rooted(
                    self@.nodes,
                    prefix@,
                ).len() > 0),
                None => prefix@.len() > 0 && rooted(self@.nodes, prefix@).len() == 0,
            },
    {
        match self.nodes.root(prefix) {
            Some(nodes) => Some(
                Producer {
                    info: self.info,
                    root: self.root.join(prefix),
                    nodes,
                    pool: self.pool.clone(),
                    cache_duration: self.cache_duration,
                    linger: self.linger,
                    stats: self.stats,
                },
            ),
            None => None,
        }
    }

    /// Returns the root that is automatically stripped from all paths.
    pub fn root(&self) -> (r: &Path)
        ensures
            r@ == self@.root,
    {
        &self.root
    }

    /// The path prefixes this handle is permitted to publish or subscribe under.
    pub fn allowed(&self) -> (r: &[Path])
        ensures
            views(r@) == self@.nodes,
    {
        self.nodes.as_slice()
    }

    /// Converts a relative path to an absolute path.
    pub fn absolute(&self, path: &Path) -> (r: Path)
        ensures
            r@ == self@.root + path@,
    {
        self.root.join(path)
    }
}

/// The roots of a handle after another root was added to its own.
pub open spec fn rerooted(nodes: Seq<PathView>, prefix: PathView) -> Seq<PathView> {
    if prefix.len() == 0 {
        nodes
    } else {
        rooted(nodes, prefix)
    }
}

impl<P> Consume<Consumer> for Producer<P> {
    fn consume(&self) -> (r: Consumer)
        ensures
            r@ == (ConsumerView {
                info: self@.info,
                nodes: self@.nodes,
                root: self@.root,
                stats: None,
            }),
    {
        Consumer {
            info: self.info,
            nodes: self.nodes.clone(),
            root: self.root.clone(),
            stats: None,
        }
    }
}

impl Consume<Consumer> for Consumer {
    fn consume(&self) -> (r: Consumer)
        ensures
            r@ == self@,
    {
        self.clone()
    }
}

impl Consume<Broadcast> for Broadcast {
    fn consume(&self) -> (r: Broadcast)
        ensures
            r == *self,
    {
        *self
    }
}

/// Cheap read handle over an origin's broadcast tree.
///
/// To actually receive announce / unannounce events, call [`Self::announced`] to obtain an
/// [`AnnounceConsumer`].
pub struct Consumer {
    // Identity of the origin this consumer was derived from.
    info: Origin,
    nodes: OriginNodes,
    // A prefix that is automatically stripped from all paths.
    root: Path,
    // Egress stats session that broadcasts handed out through this consumer are
    // attributed to, if any.
    stats: Option<u64>,
}

/// The contents of a [`Consumer`].
#[verifier::ext_equal]
pub ghost struct ConsumerView {
    /// The origin's identity.
    pub info: Origin,
    /// The paths that may be consumed, relative to the root.
    pub nodes: Seq<PathView>,
    /// The prefix stripped from all paths.
    pub root: PathView,
    /// The egress stats session.
    pub stats: Option<u64>,
}

impl View for Consumer {
    type V = ConsumerView;

    closed spec fn view(&self) -> ConsumerView {
        ConsumerView {
            info: self.info,
            nodes: self.nodes@,
            root: self.root@,
            stats: self.stats,
        }
    }
}

impl Clone for Consumer {
    fn clone(&self) -> (r: Self)
        ensures
            r@ == self@,
    {
        Consumer {
            info: self.info,
            nodes: self.nodes.clone(),
            root: self.root.clone(),
            stats: self.stats,
        }
    }
}

impl std::ops::Deref for Consumer {
    type Target = Origin;

    fn deref(&self) -> (r: &Origin)
        ensures
            *r == self@.info,
    {
        &self.info
    }
}

/// The broadcast a consumer finds at a path: what is published there, if it may look.
pub open spec fn found(consumer: ConsumerView, tree: TreeView, path: PathView) -> Option<Broadcast> {
    if covers(consumer.nodes, path) {
        match slot_at(tree, consumer.root + path) {
            Some(slot) => Some(Broadcast::Spliced(slot.front)),
            None => None,
        }
    } else {
        None
    }
}

impl Consumer {
    /// Attach an egress stats session: broadcasts handed out through this handle (and
    /// any handle derived from it) are attributed to `session` on the publisher
    /// (egress) side. Pass `None` to opt out.
    pub fn with_stats(self, session: Option<u64>) -> (r: Self)
        ensures
            r@ == (ConsumerView { stats: session, ..self@ }),
    {
        Consumer { stats: session, ..self }
    }

    /// A clone of this consumer with its stats session cleared, so an internal
    /// lookup stream (e.g. [`Self::announced_broadcast`]) doesn't drive the egress
    /// announce guards; the caller re-attributes the result itself.
    fn untagged(&self) -> (r: Self)
        ensures
            r@ == (ConsumerView { stats: None, ..self@ }),
    {
        let r = self.clone();
        Consumer { stats: None, ..r }
    }

    /// A view with this consumer's identity and root but no broadcasts:
    /// [`announced`](Self::announced) yields nothing. Used to answer a peer's
    /// announce-interest for a prefix outside our scope by announcing nothing,
    /// rather than tearing the stream down.
    pub fn empty(&self) -> (r: Self)
        ensures
            r@ == (ConsumerView { nodes: Seq::<PathView>::empty(), ..self@ }),
    {
        Consumer {
            info: self.info,
            nodes: OriginNodes::none(),
            root: self.root.clone(),
            stats: self.stats,
        }
    }

    /// Subscribe to announce / unannounce events for this consumer's subtree.
    ///
    /// Registers a coalescing buffer with each root in this consumer's scope, and replays
    /// the currently active broadcast set as initial announcements. Close the returned
    /// [`AnnounceConsumer`] to unregister.
    pub fn announced(&self, tree: &mut OriginTree) -> (r: AnnounceConsumer)
        requires
            old(tree).wf(),
            old(tree)@.next_cursor < u64::MAX,
        ensures
            final(tree).wf(),
            final(tree)@ == cursor_added(
                old(tree)@,
                self@.root,
                absolute_roots(self@.root, self@.nodes),
            ),
            r@ == (AnnounceConsumerView {
                id: old(tree)@.next_cursor,
                root: self@.root,
                stats: self@.stats,
                guards: Set::<PathView>::empty(),
            }),
    {
        AnnounceConsumer::new(&self.root, &self.nodes, self.stats, tree)
    }

    /// Returns a cheap duplicate of this read handle.
    pub fn consume(&self) -> (r: Self)
        ensures
            r@ == self@,
    {
        self.clone()
    }

    /// The broadcast published at `path`, if it is within this consumer's scope.
    ///
    /// Races announcement gossip (a freshly-connected consumer sees `None` even when the
    /// broadcast is about to arrive). [`Self::request_broadcast`] builds on this, then falls
    /// back to a dynamic handler. [`Self::announced_broadcast`] waits for a future
    /// announcement.
    pub fn get_broadcast(&self, tree: &OriginTree, path: &Path) -> (r: Option<Broadcast>)
        requires
            tree.wf(),
        ensures
            r == found(self@, tree@, path@),
    {
        if !self.nodes.allows(path) {
            return None;
        }
        tree.consume_broadcast(&self.root.join(path))
    }

    /// Wait for a broadcast with the given path to be announced.
    ///
    /// Returns `None` if the path is outside this consumer's allowed prefixes. Otherwise
    /// feed the announcements that the returned stream delivers to
    /// [`AnnouncedBroadcast::matches`].
    ///
    /// Prefer this over [`Self::request_broadcast`] when you know the exact path you want
    /// but cannot guarantee the announcement has already been received.
    pub fn announced_broadcast(&self, tree: &mut OriginTree, path: &Path) -> (r: Option<
        AnnouncedBroadcast,
    >)
        requires
            old(tree).wf(),
            old(tree)@.next_cursor < u64::MAX,
        ensures
            final(tree).wf(),
            r is Some <==> covers(self@.nodes, path@),
            canonical_prefixes(canonical(seq![path@]), seq![path@]),
            ({
                let nodes = selected(self@.nodes, canonical(seq![path@]));
                match r {
                    Some(wait) => {
                        &&& covers(nodes, path@)
                        &&& final(tree)@ == cursor_added(
                            old(tree)@,
                            self@.root,
                            absolute_roots(self@.root, nodes),
                        )
                        &&& wait.announced@ == (AnnounceConsumerView {
                            id: old(tree)@.next_cursor,
                            root: self@.root,
                            stats: None,
                            guards: Set::<PathView>::empty(),
                        })
                        &&& wait.path@ == path@
                        &&& wait.scope.session == self@.stats
                        &&& wait.scope.path@ == self@.root + path@
                    },
                    None => !covers(nodes, path@) && final(tree)@ == old(tree)@,
                }
            }),
    {
        // Scope a fresh consumer down to this path so we only wake up for relevant
        // announcements.
        let mut only: Vec<Path> = Vec::new();
        only.push(path.clone());
        assert(views(only@) =~= seq![path@]);
        let scoped = self.scope(only.as_slice());
        proof {
            let prefixes = canonical(seq![path@]);
            law_canonical_form_covers_the_same(prefixes, seq![path@], path@);
            law_scope_is_intersection(self@.nodes, prefixes, path@);
            assert(covers(seq![path@], path@)) by {
                assert(path@.take(path@.len() as int) =~= path@);
                assert(seq![path@][0].is_prefix_of(path@));
            }
        }
        let consumer = match scoped {
            Some(consumer) => consumer,
            None => {
                return None;
            },
        };
        // `scope` keeps narrower permissions intact: if we ask for `foo` on a consumer
        // limited to `foo/specific`, `scope` returns a consumer scoped to `foo/specific`. No
        // announcement at the exact path `foo` can ever arrive. Bail rather than wait
        // forever.
        if !consumer.nodes.allows(path) {
            return None;
        }
        // Use an untagged stream: this is a lookup, not egress announce forwarding, so
        // it must not drive the announce guards. The matched result is attributed
        // with the egress scope instead.
        let announced = consumer.untagged().announced(tree);
        let scope = Scope { session: self.stats, path: self.root.join(path) };
        Some(AnnouncedBroadcast { announced, path: path.clone(), scope })
    }

    /// Returns a new Consumer restricted to broadcasts under one of `prefixes`.
    ///
    /// Returns None if there are no legal prefixes (the requested prefixes are
    /// disjoint from this consumer's current scope, so it would always return None).
    pub fn scope(&self, prefixes: &[Path]) -> (r: Option<Self>)
        ensures
            canonical_prefixes(canonical(views(prefixes@)), views(prefixes@)),
            ({
                let nodes = selected(self@.nodes, canonical(views(prefixes@)));
                match r {
                    Some(consumer) => nodes.len() > 0 && consumer@ == (ConsumerView {
                        nodes,
                        ..self@
                    }),
                    None => nodes.len() == 0,
                }
            }),
    {
        let prefixes = PathPrefixes::new(prefixes);
        match self.nodes.select(&prefixes) {
            Some(nodes) => Some(
                Consumer {
                    info: self.info,
                    nodes,
                    root: self.root.clone(),
                    stats: self.stats,
                },
            ),
            None => None,
        }
    }

    /// Get a broadcast by path, falling back to a dynamic request when it is not announced.
    ///
    /// The lookup order is: an already-published broadcast resolves immediately; otherwise,
    /// if a [`Dynamic`] handler is live (see [`Producer::dynamic`]), a fallback request is
    /// registered and resolves when the handler accepts it (or errors if it rejects or
    /// every handler drops). Concurrent requests for the same unannounced path coalesce onto
    /// one handler request, and once served the broadcast is remembered so *later* requests
    /// for that path also share it (rather than re-invoking the handler and opening a
    /// duplicate upstream subscription) for as long as it stays live; a closed one is
    /// re-served on the next request. `closed` are served broadcasts that closed meanwhile.
    ///
    /// Resolves to [`Error::Unroutable`] when the path is not announced and no dynamic
    /// handler exists. A request that is registered while a handler is live but then loses
    /// every handler before being served also resolves to [`Error::Unroutable`].
    pub fn request_broadcast(
        &self,
        tree: &OriginTree,
        state: &mut OriginDynamicState,
        path: &Path,
        closed: &[u64],
    ) -> (r: Requesting)
        requires
            tree.wf(),
            old(state).wf(),
            old(state)@.next_channel < u64::MAX,
        ensures
            final(state).wf(),
            r.stats.session == self@.stats,
            r.stats.path@ == self@.root + path@,
            match found(self@, tree@, path@) {
                Some(broadcast) => r.inner == RequestState::Ready(broadcast) && final(state)@
                    == old(state)@,
                None => r.inner == requested(old(state)@, self@.root + path@, closed@)
                    && final(state)@ == after_request(
                    old(state)@,
                    self@.root + path@,
                    closed@,
                ),
            },
    {
        // Key requests by absolute path so a scoped/rooted consumer and the handler
        // (which may have a different root) agree on the same entry, and so the egress
        // counters resolve against the same broadcast the ingress side wrote.
        let absolute = self.root.join(path);
        // Prefer a live announcement when one is present; the dynamic queue is only a
        // fallback.
        let inner = match self.get_broadcast(tree, path) {
            Some(broadcast) => RequestState::Ready(broadcast),
            None => state.request(&absolute, closed),
        };
        Requesting { inner, stats: Scope { session: self.stats, path: absolute } }
    }

    /// Returns a new Consumer that automatically strips out the provided prefix.
    ///
    /// Returns None if the provided root is not authorized; when [`Self::scope`] was
    /// already used without a wildcard.
    pub fn with_root(&self, prefix: &Path) -> (r: Option<Self>)
        ensures
            match r {
                Some(consumer) => consumer@ == (ConsumerView {
                    root: self@.root + prefix@,
                    nodes: rerooted(self@.nodes, prefix@),
                    ..self@
                }) && (prefix@.len() == 0 || rooted(self@.nodes, prefix@).len() > 0),
                None => prefix@.len() > 0 && rooted(self@.nodes, prefix@).len() == 0,
            },
    {
        match self.nodes.root(prefix) {
            Some(nodes) => Some(
                Consumer { info: self.info, nodes, root: self.root.join(prefix), stats: self.stats },
            ),
            None => None,
        }
    }

    /// Returns the prefix that is automatically stripped from all paths.
    pub fn root(&self) -> (r: &Path)
        ensures
            r@ == self@.root,
    {
        &self.root
    }

    /// The path prefixes this handle is permitted to publish or subscribe under.
    pub fn allowed(&self) -> (r: &[Path])
        ensures
            views(r@) == self@.nodes,
    {
        self.nodes.as_slice()
    }

    /// Converts a relative path to an absolute path.
    pub fn absolute(&self, path: &Path) -> (r: Path)
        ensures
            r@ == self@.root + path@,
    {
        self.root.join(path)
    }
}

/// A wait for a broadcast to be announced at one path.
pub struct AnnouncedBroadcast {
    /// The announcements to go through.
    pub announced: AnnounceConsumer,
    /// The path waited for.
    pub path: Path,
    /// Who the reads of the broadcast are attributed to.
    pub scope: Scope,
}

impl AnnouncedBroadcast {
    /// The broadcast that an announcement makes available at the path waited for, if it
    /// does. The scope narrows by prefix, but only an exact match counts.
    pub fn matches(&self, announce: &OriginAnnounce) -> (r: Option<Broadcast>)
        ensures
            r == if announce.path@ == self.path@ {
                announce.broadcast
            } else {
                None
            },
    {
        if announce.path.same(&self.path) {
            announce.broadcast
        } else {
            None
        }
    }
}

/// Handle to the announcement stream for a subtree.
///
/// Symmetric counterpart of [`AnnounceConsumer`]; call [`Self::consume`] to obtain one that
/// receives events.
pub struct AnnounceProducer {
    nodes: OriginNodes,
    root: Path,
}

/// The contents of an [`AnnounceProducer`].
#[verifier::ext_equal]
pub ghost struct AnnounceProducerView {
    /// The paths within the subtree, relative to the root.
    pub nodes: Seq<PathView>,
    /// The prefix stripped from announced paths.
    pub root: PathView,
}

impl View for AnnounceProducer {
    type V = AnnounceProducerView;

    closed spec fn view(&self) -> AnnounceProducerView {
        AnnounceProducerView { nodes: self.nodes@, root: self.root@ }
    }
}

impl Clone for AnnounceProducer {
    fn clone(&self) -> (r: Self)
        ensures
            r@ == self@,
    {
        AnnounceProducer { nodes: self.nodes.clone(), root: self.root.clone() }
    }
}

impl AnnounceProducer {
    /// Subscribe to announce / unannounce events for this subtree.
    ///
    /// Replays the currently active broadcast set as initial announcements. Untagged: this
    /// is used for internal announce plumbing, not egress attribution.
    pub fn consume(&self, tree: &mut OriginTree) -> (r: AnnounceConsumer)
        requires
            old(tree).wf(),
            old(tree)@.next_cursor < u64::MAX,
        ensures
            final(tree).wf(),
            final(tree)@ == cursor_added(
                old(tree)@,
                self@.root,
                absolute_roots(self@.root, self@.nodes),
            ),
            r@ == (AnnounceConsumerView {
                id: old(tree)@.next_cursor,
                root: self@.root,
                stats: None,
                guards: Set::<PathView>::empty(),
            }),
    {
        AnnounceConsumer::new(&self.root, &self.nodes, None, tree)
    }

    /// Returns the prefix that is automatically stripped from announced paths.
    pub fn root(&self) -> (r: &Path)
        ensures
            r@ == self@.root,
    {
        &self.root
    }
}

/// Receives announce / unannounce events for a subtree.
///
/// Created by [`Consumer::announced`] or [`AnnounceProducer::consume`].
pub struct AnnounceConsumer {
    id: u64,
    root: Path,
    // Egress stats session (none for an untagged stream).
    stats: Option<u64>,
    // Live egress announce guards, by absolute broadcast path. An announce opens one; the
    // matching unannounce closes it.
    guards: Vec<Path>,
}

/// The contents of an [`AnnounceConsumer`].
#[verifier::ext_equal]
pub ghost struct AnnounceConsumerView {
    /// The cursor in the tree.
    pub id: u64,
    /// The prefix stripped from announced paths.
    pub root: PathView,
    /// The egress stats session.
    pub stats: Option<u64>,
    /// The absolute paths with an open announce guard.
    pub guards: Set<PathView>,
}

/// An announcement, who the reads of its broadcast are attributed to, and what happens to
/// the announce guard of its path.
pub struct Delivery {
    /// The announcement.
    pub announce: OriginAnnounce,
    /// Who the reads of the broadcast are attributed to.
    pub scope: Scope,
    /// What happens to the egress announce guard of the path.
    pub guard: Guard,
}

/// What waiting for the next update of a cursor comes to.
pub enum Next {
    /// An update.
    Update(Delivery),
    /// The cursor is closed: no update will arrive.
    Closed,
    /// No update is there yet.
    Waiting,
}

impl View for AnnounceConsumer {
    type V = AnnounceConsumerView;

    closed spec fn view(&self) -> AnnounceConsumerView {
        AnnounceConsumerView {
            id: self.id,
            root: self.root@,
            stats: self.stats,
            guards: views(self.guards@).to_set(),
        }
    }
}

/// The announce guards after an update for `path`.
pub open spec fn guards_after(
    guards: Set<PathView>,
    path: PathView,
    broadcast: Option<Broadcast>,
) -> Set<PathView> {
    if broadcast is Some {
        guards.insert(path)
    } else {
        guards.remove(path)
    }
}

/// What happens to the announce guard of `path` on an update.
pub open spec fn guard_change(
    guards: Set<PathView>,
    path: PathView,
    broadcast: Option<Broadcast>,
) -> Guard {
    if broadcast is Some && !guards.contains(path) {
        Guard::Open
    } else if broadcast is None && guards.contains(path) {
        Guard::Close
    } else {
        Guard::Keep
    }
}

/// What taking an update does: the cursor takes what is pending at the announced path, its
/// announce guards follow, and the update is attributed to the session at the absolute path.
pub open spec fn update_taken(
    consumer: AnnounceConsumerView,
    tree: TreeView,
    delivery: Delivery,
    consumer_after: AnnounceConsumerView,
    tree_after: TreeView,
) -> bool {
    let path = delivery.announce.path@;
    let absolute = consumer.root + path;
    let broadcast = delivered(tree.cursors[consumer.id].pending[path]);
    let take = Change::Take { cursor: consumer.id, path };
    &&& delivery.announce.broadcast == broadcast
    &&& delivery.scope.session == consumer.stats
    &&& delivery.scope.path@ == absolute
    &&& delivery.guard == guard_change(consumer.guards, absolute, broadcast)
    &&& consumer_after == (AnnounceConsumerView {
        guards: guards_after(consumer.guards, absolute, broadcast),
        ..consumer
    })
    &&& possible(tree, take)
    &&& tree_after == changed(tree, take)
}

impl AnnounceConsumer {
    #[verifier::type_invariant]
    spec fn inv(self) -> bool {
        views(self.guards@).no_duplicates()
    }

    fn new(root: &Path, nodes: &OriginNodes, stats: Option<u64>, tree: &mut OriginTree) -> (r: Self)
        requires
            old(tree).wf(),
            old(tree)@.next_cursor < u64::MAX,
        ensures
            final(tree).wf(),
            final(tree)@ == cursor_added(
                old(tree)@,
                root@,
                absolute_roots(root@, nodes@),
            ),
            r@ == (AnnounceConsumerView {
                id: old(tree)@.next_cursor,
                root: root@,
                stats,
                guards: Set::<PathView>::empty(),
            }),
    {
        let prefixes = nodes.absolute(root);
        let id: u64 = tree.subscribe(root.clone(), prefixes);
        let r = AnnounceConsumer { id, root: root.clone(), stats, guards: Vec::new() };
        assert(r@.guards =~= Set::<PathView>::empty());
        r
    }

    /// Drive the egress announce guards and tag the broadcast for one update.
    ///
    /// An announce opens a guard (by absolute path) and tags the yielded broadcast with the
    /// egress scope; an unannounce closes the guard.
    fn attribute(&mut self, update: OriginAnnounce) -> (r: Delivery)
        ensures
            r.announce == update,
            r.scope.session == old(self)@.stats,
            r.scope.path@ == old(self)@.root + update.path@,
            r.guard == guard_change(
                old(self)@.guards,
                old(self)@.root + update.path@,
                update.broadcast,
            ),
            final(self)@ == (AnnounceConsumerView {
                guards: guards_after(
                    old(self)@.guards,
                    old(self)@.root + update.path@,
                    update.broadcast,
                ),
                ..old(self)@
            }),
    {
        proof {
            use_type_invariant(&*self);
        }
        let absolute = self.root.join(&update.path);
        let ghost path = absolute@;
        let ghost before = views(self.guards@);
        let mut rest: Vec<Path> = Vec::new();
        let mut held = false;
        let mut i: usize = 0;
        assert(before.take(0) =~= Seq::<PathView>::empty());
        assert(views(rest@).to_set() =~= before.take(0).to_set().remove(path));
        while i < self.guards.len()
            invariant
                *self == *old(self),
                absolute@ == path,
                i <= self.guards@.len(),
                before == views(self.guards@),
                held == before.take(i as int).contains(path),
                views(rest@).to_set() == before.take(i as int).to_set().remove(path),
                before.no_duplicates(),
                views(rest@).no_duplicates(),
            decreases self.guards@.len() - i,
        {
            let ghost kept = views(rest@);
            let ghost here = self.guards@[i as int]@;
            proof {
                assert(before.take(i + 1) =~= before.take(i as int).push(here));
                lemma_push_set(before.take(i as int), here);
                lemma_push_set(kept, here);
            }
            if self.guards[i].same(&absolute) {
                held = true;
                proof {
                    assert(before.take(i + 1)[i as int] == path);
                    assert(views(rest@).to_set() =~= before.take(i + 1).to_set().remove(path));
                }
            } else {
                rest.push(self.guards[i].clone());
                proof {
                    assert(views(rest@) =~= kept.push(here));
                    assert(!kept.contains(here)) by {
                        assert(kept.to_set().contains(here) == kept.contains(here));
                        if before.take(i as int).contains(here) {
                            let k = choose|k: int|
                                0 <= k < i && before.take(i as int)[k] == here;
                            assert(before[k] == before[i as int]);
                        }
                    }
                    assert(views(rest@).to_set() =~= before.take(i + 1).to_set().remove(path));
                    assert(before.take(i + 1).contains(path) == before.take(i as int).contains(
                        path,
                    )) by {
                        assert(before.take(i + 1).to_set().contains(path) == before.take(
                            i as int,
                        ).to_set().contains(path));
                    }
                }
            }
            i = i + 1;
        }
        assert(before.take(i as int) =~= before);
        let ghost without = views(rest@);
        let guard = match update.broadcast {
            Some(_) => {
                rest.push(absolute.clone());
                proof {
                    assert(views(rest@) =~= without.push(path));
                    assert(!without.contains(path)) by {
                        assert(without.to_set().contains(path) == without.contains(path));
                    }
                    lemma_push_set(without, path);
                    assert(views(rest@).to_set() =~= before.to_set().insert(path));
                }
                if held {
                    Guard::Keep
                } else {
                    Guard::Open
                }
            },
            None => if held {
                Guard::Close
            } else {
                Guard::Keep
            },
        };
        self.guards = rest;
        Delivery { announce: update, scope: Scope { session: self.stats, path: absolute }, guard }
    }

    /// Returns the next (un)announced broadcast and its path relative to this cursor's
    /// root, if one is there, and whether to wait for one otherwise.
    ///
    /// The broadcast will only be announced if it was previously unannounced. The same path
    /// won't be announced/unannounced twice in a row; instead it toggles.
    pub fn next(&mut self, tree: &mut OriginTree) -> (r: Next)
        requires
            old(tree).wf(),
        ensures
            final(tree).wf(),
            match r {
                Next::Update(delivery) => {
                    &&& old(tree)@.cursors.contains_key(old(self)@.id)
                    &&& first_pending(
                        old(tree)@.cursors[old(self)@.id].pending,
                        delivery.announce.path@,
                    )
                    &&& update_taken(old(self)@, old(tree)@, delivery, final(self)@, final(tree)@)
                    &&& toggles(
                        old(tree)@,
                        old(self)@.id,
                        delivery.announce.path@,
                        delivery.announce.broadcast,
                    )
                },
                Next::Closed => {
                    &&& !old(tree)@.cursors.contains_key(old(self)@.id)
                    &&& final(tree)@ == old(tree)@
                    &&& final(self)@ == old(self)@
                },
                Next::Waiting => {
                    &&& old(tree)@.cursors.contains_key(old(self)@.id)
                    &&& old(tree)@.cursors[old(self)@.id].pending == Map::<
                        PathView,
                        PendingUpdate,
                    >::empty()
                    &&& final(tree)@ == old(tree)@
                    &&& final(self)@ == old(self)@
                },
            },
    {
        match self.try_next(tree) {
            Some(delivery) => Next::Update(delivery),
            None => if self.is_closed(tree) {
                Next::Closed
            } else {
                Next::Waiting
            },
        }
    }

    /// Returns the next (un)announced broadcast without waiting.
    ///
    /// Returns None if there is no update available; NOT because the cursor is closed. Use
    /// [`Self::is_closed`] to check if the cursor is closed.
    pub fn try_next(&mut self, tree: &mut OriginTree) -> (r: Option<Delivery>)
        requires
            old(tree).wf(),
        ensures
            final(tree).wf(),
            match r {
                None => {
                    &&& final(tree)@ == old(tree)@
                    &&& final(self)@ == old(self)@
                    &&& old(tree)@.cursors.contains_key(old(self)@.id) ==> old(
                        tree,
                    )@.cursors[old(self)@.id].pending == Map::<PathView, PendingUpdate>::empty()
                },
                Some(delivery) => {
                    &&& old(tree)@.cursors.contains_key(old(self)@.id)
                    &&& first_pending(
                        old(tree)@.cursors[old(self)@.id].pending,
                        delivery.announce.path@,
                    )
                    &&& update_taken(old(self)@, old(tree)@, delivery, final(self)@, final(tree)@)
                    &&& toggles(
                        old(tree)@,
                        old(self)@.id,
                        delivery.announce.path@,
                        delivery.announce.broadcast,
                    )
                },
            },
    {
        match tree.take(self.id) {
            Some(update) => {
                proof {
                    law_pending_update_toggles(old(tree)@, old(self)@.id, update.path@);
                }
                Some(self.attribute(update))
            },
            None => None,
        }
    }

    /// Returns true if the cursor is closed (no more updates will arrive).
    pub fn is_closed(&self, tree: &OriginTree) -> (r: bool)
        ensures
            r == !tree@.cursors.contains_key(self@.id),
    {
        !tree.has_cursor(self.id)
    }

    /// Returns the prefix that is automatically stripped from emitted paths.
    pub fn root(&self) -> (r: &Path)
        ensures
            r@ == self@.root,
    {
        &self.root
    }

    /// Converts a relative path to an absolute path.
    pub fn absolute(&self, path: &Path) -> (r: Path)
        ensures
            r@ == self@.root + path@,
    {
        self.root.join(path)
    }

    /// Unregister the cursor. The absolute paths with an open announce guard are returned,
    /// each once, for the guards to be let go.
    pub fn close(self, tree: &mut OriginTree) -> (guards: Vec<Path>)
        requires
            old(tree).wf(),
        ensures
            final(tree).wf(),
            views(guards@).to_set() == self@.guards,
            views(guards@).no_duplicates(),
            final(tree)@ == (TreeView {
                cursors: old(tree)@.cursors.remove(self@.id),
                ..old(tree)@
            }),
    {
        proof {
            use_type_invariant(&self);
        }
        tree.unsubscribe(self.id);
        self.guards
    }
}

proof fn lemma_push_set(s: Seq<PathView>, path: PathView)
    ensures
        s.push(path).to_set() == s.to_set().insert(path),
{
    assert forall|other: PathView| #[trigger] s.push(path).to_set().contains(other)
        == s.to_set().insert(path).contains(other) by {
        if s.contains(other) {
            let k = choose|k: int| 0 <= k < s.len() && s[k] == other;
            assert(s.push(path)[k] == other);
        }
        assert(s.push(path)[s.len() as int] == path);
    }
    assert(s.push(path).to_set() =~= s.to_set().insert(path));
}

// ---------------------------------------------------------------------------
// Laws
// ---------------------------------------------------------------------------

/// What a producer publishes, a consumer finds: by the name that the consumer's root
/// leaves of its absolute path, if that is within the consumer's scope.
pub proof fn law_published_broadcast_is_found<P>(
    producer: ProducerView<P>,
    consumer: ConsumerView,
    tree: TreeView,
    path: PathView,
    name: PathView,
    route: RouteView,
    source: u64,
    carrying: bool,
)
    requires
        tree_wf(tree),
        tree.next_front < u64::MAX,
        consumer.root + name == producer.root + path,
        covers(consumer.nodes, name),
    ensures
        found(
            consumer,
            source_attached(
                tree,
                producer.root + path,
                producer.info,
                producer.linger,
                route,
                source,
                carrying,
            ),
            name,
        ) == Some(Broadcast::Spliced(place_for(tree, producer.root + path).front)),
{
    law_attached_broadcast_is_found(
        tree,
        producer.root + path,
        producer.info,
        producer.linger,
        route,
        source,
        carrying,
    );
}

/// A consumer with another root finds the same broadcasts, by shorter names.
pub proof fn law_rooted_consumer_finds_the_same(
    consumer: ConsumerView,
    tree: TreeView,
    prefix: PathView,
    path: PathView,
)
    ensures
        found(
            ConsumerView {
                root: consumer.root + prefix,
                nodes: rerooted(consumer.nodes, prefix),
                ..consumer
            },
            tree,
            path,
        ) == found(consumer, tree, prefix + path),
{
    assert(consumer.root + prefix + path =~= consumer.root + (prefix + path));
    if prefix.len() == 0 {
        assert(prefix + path =~= path);
    } else {
        law_root_is_relative(consumer.nodes, prefix, path);
    }
}

/// A consumer restricted to some prefixes finds the same broadcasts below them, and no
/// others.
pub proof fn law_scoped_consumer_finds_what_both_allow(
    consumer: ConsumerView,
    tree: TreeView,
    prefixes: Seq<PathView>,
    path: PathView,
)
    requires
        canonical_prefixes(canonical(prefixes), prefixes),
    ensures
        found(
            ConsumerView { nodes: selected(consumer.nodes, canonical(prefixes)), ..consumer },
            tree,
            path,
        ) == if covers(prefixes, path) {
            found(consumer, tree, path)
        } else {
            None
        },
{
    law_scope_is_intersection(consumer.nodes, canonical(prefixes), path);
    law_canonical_form_covers_the_same(canonical(prefixes), prefixes, path);
}

/// Whether exactly the broadcasts that a consumer knows of have an announce guard.
pub open spec fn guards_match(
    guards: Set<PathView>,
    root: PathView,
    seen: Map<PathView, Broadcast>,
) -> bool {
    forall|rel: PathView| guards.contains(#[trigger] (root + rel)) <==> seen.contains_key(rel)
}

/// An announce opens a guard and the matching unannounce closes it: exactly the broadcasts
/// that a consumer knows of have one.
pub proof fn law_guards_match_the_announcements(
    guards: Set<PathView>,
    root: PathView,
    seen: Map<PathView, Broadcast>,
    path: PathView,
    broadcast: Option<Broadcast>,
)
    requires
        guards_match(guards, root, seen),
    ensures
        guards_match(
            guards_after(guards, root + path, broadcast),
            root,
            seen_more(seen, path, broadcast),
        ),
        guard_change(guards, root + path, broadcast) == (match (
            broadcast,
            seen.contains_key(path),
        ) {
            (Some(_), false) => Guard::Open,
            (None, true) => Guard::Close,
            _ => Guard::Keep,
        }),
{
    let after = guards_after(guards, root + path, broadcast);
    let known = seen_more(seen, path, broadcast);
    assert(guards.contains(root + path) <==> seen.contains_key(path));
    assert forall|rel: PathView| after.contains(#[trigger] (root + rel)) <==> known.contains_key(
        rel,
    ) by {
        if root + rel == root + path {
            assert(rel =~= (root + rel).skip(root.len() as int));
            assert(path =~= (root + path).skip(root.len() as int));
        }
        assert(guards.contains(root + rel) <==> seen.contains_key(rel));
    }
}

/// A broadcast is created exactly where the handle may publish and the whole path has at most 32
/// parts, whatever its route; the source is made for the whole path with the handle's identity
/// and window, the route is handed back, and writes count for the handle's session.
pub proof fn law_creation_is_authorized<P>(
    producer: Producer<P>,
    path: Path,
    route: Route,
    source: u64,
    r: Result<Created, Error>,
)
    requires
        call_ensures(Producer::<P>::create_broadcast, (&producer, &path, route, source), r),
    ensures
        ({
            let allowed = exists|i: int|
                0 <= i < producer@.nodes.len() && (#[trigger] producer@.nodes[i]).is_prefix_of(
                    path@,
                );
            let parts = producer@.root.len() + path@.len();
            &&& !allowed ==> r == Err::<Created, Error>(Error::Unauthorized)
            &&& allowed && parts > 32 ==> r == Err::<Created, Error>(Error::BoundsExceeded)
            &&& allowed && parts <= 32 ==> {
                let created = r->Ok_0;
                &&& r is Ok
                &&& created.source@.path == producer@.root + path@
                &&& created.source@.self_origin == producer@.info
                &&& created.source@.linger == producer@.linger
                &&& created.source@.source == source
                &&& created.source@.place is None
                &&& !created.source@.guarded
                &&& created.route@ == route@
                &&& created.ingress.session == producer@.stats
                &&& created.ingress.path@ == producer@.root + path@
            }
        }),
{
}

/// A producer restricted to prefixes may publish exactly where it could and one of the prefixes
/// is at or above the path; nothing else about it changes. There is none exactly if nothing is
/// left.
pub proof fn law_scoped_producer<P: Clone>(
    producer: Producer<P>,
    prefixes: &[Path],
    r: Option<Producer<P>>,
    path: PathView,
)
    requires
        call_ensures(Producer::<P>::scope, (&producer, prefixes), r),
    ensures
        ({
            let before = exists|i: int|
                0 <= i < producer@.nodes.len() && (#[trigger] producer@.nodes[i]).is_prefix_of(path);
            let within = exists|i: int|
                0 <= i < prefixes@.len() && (#[trigger] prefixes@[i])@.is_prefix_of(path);
            &&& r is None ==> !(before && within)
            &&& r is Some ==> {
                let scoped = r->0@;
                &&& scoped.nodes.len() > 0
                &&& before && within <==> exists|i: int|
                    0 <= i < scoped.nodes.len() && (#[trigger] scoped.nodes[i]).is_prefix_of(path)
                &&& scoped.info == producer@.info && scoped.root == producer@.root
                &&& scoped.cache_duration == producer@.cache_duration
                &&& scoped.linger == producer@.linger && scoped.stats == producer@.stats
                &&& cloned(producer@.pool, scoped.pool)
            }
        }),
{
    lemma_scoped(producer@.nodes, prefixes, path);
}

/// A consumer restricted to prefixes may look exactly where it could and one of the prefixes is
/// at or above the path; nothing else about it changes. There is none exactly if nothing is
/// left.
pub proof fn law_scoped_consumer(
    consumer: Consumer,
    prefixes: &[Path],
    r: Option<Consumer>,
    path: PathView,
)
    requires
        call_ensures(Consumer::scope, (&consumer, prefixes), r),
    ensures
        ({
            let before = exists|i: int|
                0 <= i < consumer@.nodes.len() && (#[trigger] consumer@.nodes[i]).is_prefix_of(path);
            let within = exists|i: int|
                0 <= i < prefixes@.len() && (#[trigger] prefixes@[i])@.is_prefix_of(path);
            &&& r is None ==> !(before && within)
            &&& r is Some ==> {
                let scoped = r->0@;
                &&& scoped.nodes.len() > 0
                &&& before && within <==> exists|i: int|
                    0 <= i < scoped.nodes.len() && (#[trigger] scoped.nodes[i]).is_prefix_of(path)
                &&& scoped.info == consumer@.info && scoped.root == consumer@.root
                &&& scoped.stats == consumer@.stats
            }
        }),
{
    lemma_scoped(consumer@.nodes, prefixes, path);
}

proof fn lemma_scoped(nodes: Seq<PathView>, prefixes: &[Path], path: PathView)
    requires
        canonical_prefixes(canonical(views(prefixes@)), views(prefixes@)),
    ensures
        covers(selected(nodes, canonical(views(prefixes@))), path) <==> covers(nodes, path)
            && exists|i: int| 0 <= i < prefixes@.len() && (#[trigger] prefixes@[i])@.is_prefix_of(
            path,
        ),
        covers(selected(nodes, canonical(views(prefixes@))), path) ==> selected(
            nodes,
            canonical(views(prefixes@)),
        ).len() > 0,
{
    let all = views(prefixes@);
    law_scope_is_intersection(nodes, canonical(all), path);
    law_canonical_form_covers_the_same(canonical(all), all, path);
    if covers(all, path) {
        let i = choose|i: int| 0 <= i < all.len() && (#[trigger] all[i]).is_prefix_of(path);
        assert(prefixes@[i]@.is_prefix_of(path));
    }
    if exists|i: int| 0 <= i < prefixes@.len() && (#[trigger] prefixes@[i])@.is_prefix_of(path) {
        let i = choose|i: int|
            0 <= i < prefixes@.len() && (#[trigger] prefixes@[i])@.is_prefix_of(path);
        assert(all[i].is_prefix_of(path));
    }
}

/// A handle with another root may use a path exactly if it could use that path below the root;
/// it keeps the rest, and its paths mean the same below the longer root. There is none exactly
/// if nothing is allowed below the root.
pub proof fn law_rooted_handles<P: Clone>(
    producer: Producer<P>,
    consumer: Consumer,
    prefix: Path,
    of_producer: Option<Producer<P>>,
    of_consumer: Option<Consumer>,
    path: PathView,
)
    requires
        call_ensures(Producer::<P>::with_root, (&producer, &prefix), of_producer),
        call_ensures(Consumer::with_root, (&consumer, &prefix), of_consumer),
    ensures
        ({
            let before = exists|i: int|
                0 <= i < producer@.nodes.len() && (#[trigger] producer@.nodes[i]).is_prefix_of(
                    prefix@ + path,
                );
            &&& of_producer is None ==> !before && prefix@.len() > 0
            &&& of_producer is Some ==> {
                let rooted = of_producer->0@;
                &&& prefix@.len() > 0 ==> rooted.nodes.len() > 0
                &&& before <==> exists|i: int|
                    0 <= i < rooted.nodes.len() && (#[trigger] rooted.nodes[i]).is_prefix_of(path)
                &&& rooted.root == producer@.root + prefix@
                &&& rooted.info == producer@.info && rooted.linger == producer@.linger
                &&& rooted.cache_duration == producer@.cache_duration
                &&& rooted.stats == producer@.stats && cloned(producer@.pool, rooted.pool)
            }
        }),
        ({
            let before = exists|i: int|
                0 <= i < consumer@.nodes.len() && (#[trigger] consumer@.nodes[i]).is_prefix_of(
                    prefix@ + path,
                );
            &&& of_consumer is None ==> !before && prefix@.len() > 0
            &&& of_consumer is Some ==> {
                let rooted = of_consumer->0@;
                &&& prefix@.len() > 0 ==> rooted.nodes.len() > 0
                &&& before <==> exists|i: int|
                    0 <= i < rooted.nodes.len() && (#[trigger] rooted.nodes[i]).is_prefix_of(path)
                &&& rooted.root == consumer@.root + prefix@
                &&& rooted.info == consumer@.info && rooted.stats == consumer@.stats
            }
        }),
{
    lemma_rooted(producer@.nodes, prefix@, path);
    lemma_rooted(consumer@.nodes, prefix@, path);
}

proof fn lemma_rooted(nodes: Seq<PathView>, prefix: PathView, path: PathView)
    ensures
        covers(rerooted(nodes, prefix), path) <==> covers(nodes, prefix + path),
        covers(rooted(nodes, prefix), path) ==> rooted(nodes, prefix).len() > 0,
{
    law_root_is_relative(nodes, prefix, path);
    if prefix.len() == 0 {
        assert(prefix + path =~= path);
    }
}

/// A consumer finds at a path what is published below its root there, announced or not, if it
/// may look, and nothing otherwise.
pub proof fn law_lookup_is_scoped(
    consumer: Consumer,
    tree: OriginTree,
    path: Path,
    r: Option<Broadcast>,
)
    requires
        call_ensures(Consumer::get_broadcast, (&consumer, &tree, &path), r),
    ensures
        ({
            let allowed = exists|i: int|
                0 <= i < consumer@.nodes.len() && (#[trigger] consumer@.nodes[i]).is_prefix_of(
                    path@,
                );
            let absolute = consumer@.root + path@;
            &&& r is Some <==> allowed && tree@.slots.contains_key(absolute)
            &&& r is Some ==> r == Some(Broadcast::Spliced(tree@.slots[absolute].front))
        }),
{
}

/// A request for what is found resolves to it and queues nothing. Any other one is a request for
/// the whole path, which is served, joined or queued as such; either way reads count for the
/// consumer's session.
pub proof fn law_request_prefers_what_is_published(
    consumer: Consumer,
    tree: OriginTree,
    state: &mut OriginDynamicState,
    path: Path,
    closed: &[u64],
    r: Requesting,
    found_now: Option<Broadcast>,
)
    requires
        call_ensures(Consumer::request_broadcast, (&consumer, &tree, state, &path, closed), r),
        call_ensures(Consumer::get_broadcast, (&consumer, &tree, &path), found_now),
    ensures
        r.stats.session == consumer@.stats,
        r.stats.path@ == consumer@.root + path@,
        found_now is Some ==> r.inner == RequestState::Ready(found_now->0) && final(state)@ == old(
            state,
        )@,
        found_now is None ==> r.inner == requested(
            old(state)@,
            consumer@.root + path@,
            closed@,
        ) && final(state)@ == after_request(old(state)@, consumer@.root + path@, closed@),
{
}

/// The announcements of a consumer are those of the broadcasts at and below its paths, by their
/// names below its root, for its own session; each announced one is pending at once.
pub proof fn law_announcements_are_scoped(
    consumer: Consumer,
    tree: &mut OriginTree,
    r: AnnounceConsumer,
    rel: PathView,
)
    requires
        call_ensures(Consumer::announced, (&consumer, tree), r),
        old(tree)@.next_cursor < u64::MAX,
    ensures
        r@.id == old(tree)@.next_cursor,
        r@.root == consumer@.root,
        r@.stats == consumer@.stats,
        r@.guards == Set::<PathView>::empty(),
        final(tree)@.cursors.contains_key(r@.id),
        final(tree)@.cursors[r@.id].root == consumer@.root,
        final(tree)@.cursors[r@.id].prefixes.len() == consumer@.nodes.len(),
        forall|i: int|
            0 <= i < consumer@.nodes.len() ==> #[trigger] final(tree)@.cursors[r@.id].prefixes[i]
                == consumer@.root + consumer@.nodes[i],
        ({
            let allowed = exists|i: int|
                0 <= i < consumer@.nodes.len() && (#[trigger] consumer@.nodes[i]).is_prefix_of(rel);
            let absolute = consumer@.root + rel;
            let announced = old(tree)@.slots.contains_key(absolute) && old(
                tree,
            )@.slots[absolute].announced;
            pending_at(final(tree)@.cursors[r@.id].pending, rel) == if allowed && announced {
                Some(
                    PendingUpdate::Announce(
                        Broadcast::Spliced(old(tree)@.slots[absolute].front),
                    ),
                )
            } else {
                None
            }
        }),
        final(tree)@.slots == old(tree)@.slots,
        final(tree)@.fronts == old(tree)@.fronts,
        final(tree)@.cursors.remove(r@.id) == old(tree)@.cursors.remove(r@.id),
        final(tree)@.next_front == old(tree)@.next_front,
        final(tree)@.next_cursor == old(tree)@.next_cursor + 1,
{
    lemma_absolute_covers(consumer@.root, consumer@.nodes, rel);
    assert(final(tree)@.cursors.remove(r@.id) =~= old(tree)@.cursors.remove(r@.id));
}

proof fn lemma_absolute_covers(root: PathView, nodes: Seq<PathView>, rel: PathView)
    ensures
        covers(absolute_roots(root, nodes), root + rel) <==> covers(nodes, rel),
{
    let all = absolute_roots(root, nodes);
    if covers(nodes, rel) {
        let i = choose|i: int| 0 <= i < nodes.len() && (#[trigger] nodes[i]).is_prefix_of(rel);
        assert((root + rel).take(all[i].len() as int) =~= root + rel.take(nodes[i].len() as int));
        assert(all[i].is_prefix_of(root + rel));
    }
    if covers(all, root + rel) {
        let i = choose|i: int| 0 <= i < all.len() && (#[trigger] all[i]).is_prefix_of(root + rel);
        assert(rel.take(nodes[i].len() as int) =~= (root + rel).take(all[i].len() as int).skip(
            root.len() as int,
        ));
        assert(nodes[i] =~= all[i].skip(root.len() as int));
        assert(nodes[i].is_prefix_of(rel));
    }
}

/// Waiting for a path is possible exactly where the consumer may look. It listens, for nobody's
/// session, to what the consumer may see at and below that path, and ends with a broadcast
/// announced at exactly that path, whose reads count for the consumer's session.
pub proof fn law_waiting_for_a_path(
    consumer: Consumer,
    tree: &mut OriginTree,
    path: Path,
    r: Option<AnnouncedBroadcast>,
    announce: OriginAnnounce,
    hit: Option<Broadcast>,
    rel: PathView,
)
    requires
        call_ensures(Consumer::announced_broadcast, (&consumer, tree, &path), r),
        r is Some ==> call_ensures(AnnouncedBroadcast::matches, (&(r->0), &announce), hit),
        old(tree)@.next_cursor < u64::MAX,
    ensures
        r is Some <==> exists|i: int|
            0 <= i < consumer@.nodes.len() && (#[trigger] consumer@.nodes[i]).is_prefix_of(path@),
        r is None ==> final(tree)@ == old(tree)@,
        r is Some ==> {
            let wait = r->0;
            let id = wait.announced@.id;
            let allowed = exists|i: int|
                0 <= i < consumer@.nodes.len() && (#[trigger] consumer@.nodes[i]).is_prefix_of(rel);
            let absolute = consumer@.root + rel;
            let announced = old(tree)@.slots.contains_key(absolute) && old(
                tree,
            )@.slots[absolute].announced;
            &&& wait.announced@.root == consumer@.root
            &&& wait.announced@.stats is None
            &&& wait.path@ == path@
            &&& wait.scope.session == consumer@.stats
            &&& wait.scope.path@ == consumer@.root + path@
            &&& id == old(tree)@.next_cursor
            &&& final(tree)@.cursors.contains_key(id)
            &&& pending_at(final(tree)@.cursors[id].pending, rel) == if allowed
                && path@.is_prefix_of(rel) && announced {
                Some(
                    PendingUpdate::Announce(
                        Broadcast::Spliced(old(tree)@.slots[absolute].front),
                    ),
                )
            } else {
                None
            }
            &&& final(tree)@.slots == old(tree)@.slots
            &&& final(tree)@.fronts == old(tree)@.fronts
            &&& final(tree)@.cursors.remove(id) == old(tree)@.cursors.remove(id)
            &&& final(tree)@.next_cursor == old(tree)@.next_cursor + 1
            &&& hit is Some <==> announce.path@ == path@ && announce.broadcast is Some
            &&& hit is Some ==> hit == announce.broadcast
        },
{
    let nodes = selected(consumer@.nodes, canonical(seq![path@]));
    if r is Some {
        let id = r->0.announced@.id;
        assert(final(tree)@.cursors.remove(id) =~= old(tree)@.cursors.remove(id));
    }
    lemma_absolute_covers(consumer@.root, nodes, rel);
    law_scope_is_intersection(consumer@.nodes, canonical(seq![path@]), rel);
    law_canonical_form_covers_the_same(canonical(seq![path@]), seq![path@], rel);
    if path@.is_prefix_of(rel) {
        assert(seq![path@][0].is_prefix_of(rel));
    }
    if covers(seq![path@], rel) {
        let i = choose|i: int| 0 <= i < 1 && (#[trigger] seq![path@][i]).is_prefix_of(rel);
        assert(seq![path@][i] == path@);
    }
}

/// An update that a cursor takes is attributed to its session at the whole path. The first
/// announce of a path opens a guard and the unannounce that follows closes it. Only what is
/// pending for that path, and that guard, change.
pub proof fn law_taken_update_is_attributed(
    cursor: &mut AnnounceConsumer,
    tree: &mut OriginTree,
    delivery: Delivery,
    waits: bool,
)
    requires
        waits ==> call_ensures(AnnounceConsumer::next, (cursor, tree), Next::Update(delivery)),
        !waits ==> call_ensures(AnnounceConsumer::try_next, (cursor, tree), Some(delivery)),
    ensures
        ({
            let path = delivery.announce.path@;
            let absolute = old(cursor)@.root + path;
            let held = old(cursor)@.guards.contains(absolute);
            let was = old(tree)@.cursors[old(cursor)@.id].pending;
            let is = final(tree)@.cursors[old(cursor)@.id].pending;
            &&& was.contains_key(path)
            &&& delivery.announce.broadcast is Some <==> was[path] is Announce
            &&& was[path] is Announce ==> delivery.announce.broadcast == Some(
                was[path]->Announce_0,
            )
            &&& was[path] is UnannounceAnnounce ==> is == was.insert(
                path,
                PendingUpdate::Announce(was[path]->UnannounceAnnounce_0),
            )
            &&& !(was[path] is UnannounceAnnounce) ==> is == was.remove(path)
            &&& delivery.scope.session == old(cursor)@.stats
            &&& delivery.scope.path@ == absolute
            &&& delivery.guard == Guard::Open <==> delivery.announce.broadcast is Some && !held
            &&& delivery.guard == Guard::Close <==> delivery.announce.broadcast is None && held
            &&& final(cursor)@.guards == if delivery.announce.broadcast is Some {
                old(cursor)@.guards.insert(absolute)
            } else {
                old(cursor)@.guards.remove(absolute)
            }
            &&& final(cursor)@.id == old(cursor)@.id && final(cursor)@.root == old(cursor)@.root
            &&& final(cursor)@.stats == old(cursor)@.stats
            &&& final(tree)@ == (TreeView {
                cursors: old(tree)@.cursors.insert(
                    old(cursor)@.id,
                    CursorView { pending: is, ..old(tree)@.cursors[old(cursor)@.id] },
                ),
                ..old(tree)@
            })
        }),
{
}

/// A look for the next update finds none only if none is pending or the cursor is not registered,
/// and then changes nothing; what it finds is the first in order.
pub proof fn law_look_finds_what_is_pending(
    cursor: &mut AnnounceConsumer,
    tree: &mut OriginTree,
    r: Option<Delivery>,
    path: PathView,
)
    requires
        call_ensures(AnnounceConsumer::try_next, (cursor, tree), r),
    ensures
        r is None ==> final(tree)@ == old(tree)@ && final(cursor)@ == old(cursor)@,
        r is None && old(tree)@.cursors.contains_key(old(cursor)@.id) ==> !old(tree)@.cursors[old(
            cursor,
        )@.id].pending.contains_key(path),
        r is Some ==> {
            let pending = old(tree)@.cursors[old(cursor)@.id].pending;
            let taken = r->0.announce.path@;
            &&& old(tree)@.cursors.contains_key(old(cursor)@.id)
            &&& pending.contains_key(taken)
            &&& pending.contains_key(path) && path != taken ==> path_lt(taken, path)
        },
{
}

/// Waiting for the next update gives one exactly if one is pending, ends exactly if the cursor is
/// not registered, and goes on otherwise.
pub proof fn law_next_update_or_wait(
    cursor: &mut AnnounceConsumer,
    tree: &mut OriginTree,
    r: Next,
    path: PathView,
)
    requires
        call_ensures(AnnounceConsumer::next, (cursor, tree), r),
    ensures
        r is Closed <==> !old(tree)@.cursors.contains_key(old(cursor)@.id),
        r is Waiting ==> !old(tree)@.cursors[old(cursor)@.id].pending.contains_key(path),
        !(r is Update) ==> final(tree)@ == old(tree)@ && final(cursor)@ == old(cursor)@,
        r is Update ==> {
            let taken = r->Update_0.announce.path@;
            let was = old(tree)@.cursors[old(cursor)@.id].pending;
            &&& was.contains_key(taken)
            &&& was.contains_key(path) && path != taken ==> path_lt(taken, path)
            &&& r->Update_0.announce.broadcast is Some <==> was[taken] is Announce
            &&& was[taken] is Announce ==> r->Update_0.announce.broadcast == Some(
                was[taken]->Announce_0,
            )
            &&& final(tree)@.cursors[old(cursor)@.id].pending == if was[taken]
                is UnannounceAnnounce {
                was.insert(taken, PendingUpdate::Announce(was[taken]->UnannounceAnnounce_0))
            } else {
                was.remove(taken)
            }
            &&& final(cursor)@.id == old(cursor)@.id
        },
{
}

/// Closing a cursor removes it and returns each path with an open guard once; nothing else in
/// the tree changes.
pub proof fn law_closed_cursor_returns_its_guards(
    cursor: AnnounceConsumer,
    tree: &mut OriginTree,
    guards: Vec<Path>,
    path: PathView,
    i: int,
    j: int,
)
    requires
        call_ensures(AnnounceConsumer::close, (cursor, tree), guards),
    ensures
        cursor@.guards.contains(path) <==> exists|k: int|
            0 <= k < guards@.len() && (#[trigger] guards@[k])@ == path,
        0 <= i < j < guards@.len() ==> guards@[i]@ != guards@[j]@,
        final(tree)@.cursors == old(tree)@.cursors.remove(cursor@.id),
        final(tree)@.slots == old(tree)@.slots,
        final(tree)@.fronts == old(tree)@.fronts,
{
    let all = views(guards@);
    assert(all.to_set().contains(path) == all.contains(path));
    if all.contains(path) {
        let k = choose|k: int| 0 <= k < all.len() && all[k] == path;
        assert(guards@[k]@ == path);
    }
    if exists|k: int| 0 <= k < guards@.len() && (#[trigger] guards@[k])@ == path {
        let k = choose|k: int| 0 <= k < guards@.len() && (#[trigger] guards@[k])@ == path;
        assert(all[k] == path);
    }
    if 0 <= i < j < guards@.len() {
        assert(all[i] != all[j]);
    }
}

/// The read side of a producer sees what the producer may publish, for nobody's session; its
/// announcements and handlers have the same root. A consumer without paths sees nothing.
pub proof fn law_derived_handles<P>(
    producer: Producer<P>,
    consumer: Consumer,
    announces: AnnounceProducer,
    state: &mut OriginDynamicState,
    handler: Dynamic,
    nothing: Consumer,
    copy: Consumer,
)
    requires
        call_ensures(Producer::<P>::consume, (&producer,), consumer),
        call_ensures(Producer::<P>::announces, (&producer,), announces),
        call_ensures(Producer::<P>::dynamic, (&producer, state), handler),
        call_ensures(Consumer::empty, (&consumer,), nothing),
        call_ensures(Consumer::consume, (&consumer,), copy),
        old(state)@.handlers < u64::MAX,
    ensures
        consumer@.info == producer@.info && consumer@.nodes == producer@.nodes && consumer@.root
            == producer@.root && consumer@.stats is None,
        announces@.nodes == producer@.nodes && announces@.root == producer@.root,
        handler@.info == producer@.info && handler@.root == producer@.root,
        final(state)@.handlers == old(state)@.handlers + 1,
        final(state)@.requests == old(state)@.requests,
        final(state)@.served == old(state)@.served,
        final(state)@.next_channel == old(state)@.next_channel,
        nothing@.nodes.len() == 0 && nothing@.root == consumer@.root && nothing@.info
            == consumer@.info && nothing@.stats == consumer@.stats,
        copy@ == consumer@,
{
}

/// A producer starts out with everything allowed, no root and no session, and the settings of its
/// configuration; a builder sets its own part and leaves the others. One without paths may
/// publish nothing.
pub proof fn law_producer_builders<P: Clone + Default>(
    info: Info<P>,
    fresh: Producer<P>,
    made: Producer<P>,
    producer: Producer<P>,
    session: Option<u64>,
    span: Duration,
    tagged: Producer<P>,
    lingering: Producer<P>,
    read: Info<P>,
    id: Origin,
    barred: Producer<P>,
    copy: Producer<P>,
)
    requires
        call_ensures(Info::<P>::produce, (info,), fresh),
        call_ensures(Producer::<P>::new, (info,), made),
        call_ensures(Producer::<P>::with_stats, (producer, session), tagged),
        call_ensures(Producer::<P>::with_linger, (producer, span), lingering),
        call_ensures(Producer::<P>::info, (&producer,), read),
        call_ensures(Producer::<P>::empty, (id,), barred),
        call_ensures(Producer::<P>::clone, (&producer,), copy),
    ensures
        made@ == fresh@,
        fresh@.info == info.id && fresh@.pool == info.pool && fresh@.linger == info.linger@,
        fresh@.cache_duration == info.cache_duration@ && fresh@.stats is None,
        fresh@.root.len() == 0 && fresh@.nodes.len() == 1 && fresh@.nodes[0].len() == 0,
        tagged@ == (ProducerView { stats: session, ..producer@ }),
        lingering@ == (ProducerView { linger: span@, ..producer@ }),
        read.id == producer@.info && read.linger@ == producer@.linger,
        read.cache_duration@ == producer@.cache_duration && cloned(producer@.pool, read.pool),
        barred@.info == id && barred@.nodes.len() == 0,
        copy@ == (ProducerView { pool: copy@.pool, ..producer@ }),
{
}

/// What a handle says of itself is true: its root, its paths, and where a path of its is in the
/// whole tree.
pub proof fn law_handles_report_themselves<P>(
    producer: Producer<P>,
    consumer: Consumer,
    path: Path,
    of_producer: Path,
    of_consumer: Path,
    allowed: &[Path],
    permitted: &[Path],
    i: int,
    session: Option<u64>,
    tagged: Consumer,
)
    requires
        call_ensures(Producer::<P>::absolute, (&producer, &path), of_producer),
        call_ensures(Consumer::absolute, (&consumer, &path), of_consumer),
        call_ensures(Producer::<P>::allowed, (&producer,), allowed),
        call_ensures(Consumer::allowed, (&consumer,), permitted),
        call_ensures(Consumer::with_stats, (consumer, session), tagged),
    ensures
        of_producer@ == producer@.root + path@,
        of_consumer@ == consumer@.root + path@,
        allowed@.len() == producer@.nodes.len(),
        permitted@.len() == consumer@.nodes.len(),
        0 <= i < allowed@.len() ==> allowed@[i]@ == producer@.nodes[i],
        0 <= i < permitted@.len() ==> permitted@[i]@ == consumer@.nodes[i],
        tagged@ == (ConsumerView { stats: session, ..consumer@ }),
{
    assert(views(allowed@).len() == allowed@.len());
    assert(views(permitted@).len() == permitted@.len());
    if 0 <= i < allowed@.len() {
        assert(views(allowed@)[i] == allowed@[i]@);
    }
    if 0 <= i < permitted@.len() {
        assert(views(permitted@)[i] == permitted@[i]@);
    }
}

/// An origin's producer has the origin's identity, everything allowed, no root, session, ceiling
/// or window.
pub proof fn law_produced_from_an_origin<P: Default>(origin: Origin, producer: Producer<P>)
    requires
        call_ensures(Origin::produce::<P>, (origin,), producer),
    ensures
        producer@.info == origin,
        producer@.root.len() == 0,
        producer@.nodes.len() == 1 && producer@.nodes[0].len() == 0,
        producer@.linger == 0 && producer@.stats is None,
        producer@.cache_duration == 18_446_744_073_709_551_616int * 1_000_000_000 - 1,
        call_ensures(P::default, (), producer@.pool),
{
}

/// The announcement stream of a producer is told of what is announced at and below the paths it
/// may publish under, for nobody's session.
pub proof fn law_producer_announcements_are_scoped(
    announces: AnnounceProducer,
    tree: &mut OriginTree,
    r: AnnounceConsumer,
    rel: PathView,
)
    requires
        call_ensures(AnnounceProducer::consume, (&announces, tree), r),
        old(tree)@.next_cursor < u64::MAX,
    ensures
        r@.id == old(tree)@.next_cursor,
        r@.root == announces@.root,
        r@.stats is None,
        r@.guards == Set::<PathView>::empty(),
        final(tree)@.cursors.contains_key(r@.id),
        final(tree)@.cursors[r@.id].prefixes == absolute_roots(announces@.root, announces@.nodes),
        ({
            let allowed = exists|i: int|
                0 <= i < announces@.nodes.len() && (#[trigger] announces@.nodes[i]).is_prefix_of(
                    rel,
                );
            let absolute = announces@.root + rel;
            let announced = old(tree)@.slots.contains_key(absolute) && old(
                tree,
            )@.slots[absolute].announced;
            pending_at(final(tree)@.cursors[r@.id].pending, rel) == if allowed && announced {
                Some(
                    PendingUpdate::Announce(
                        Broadcast::Spliced(old(tree)@.slots[absolute].front),
                    ),
                )
            } else {
                None
            }
        }),
        final(tree)@.slots == old(tree)@.slots,
        final(tree)@.fronts == old(tree)@.fronts,
        final(tree)@.cursors.remove(r@.id) == old(tree)@.cursors.remove(r@.id),
        final(tree)@.next_front == old(tree)@.next_front,
        final(tree)@.next_cursor == old(tree)@.next_cursor + 1,
{
    lemma_absolute_covers(announces@.root, announces@.nodes, rel);
    assert(final(tree)@.cursors.remove(r@.id) =~= old(tree)@.cursors.remove(r@.id));
}

/// What cursors and streams say of themselves is true.
pub proof fn law_cursors_report_themselves(
    cursor: AnnounceConsumer,
    tree: OriginTree,
    path: Path,
    closed: bool,
    root: &Path,
    absolute: Path,
    announces: AnnounceProducer,
    of_stream: &Path,
)
    requires
        call_ensures(AnnounceConsumer::is_closed, (&cursor, &tree), closed),
        call_ensures(AnnounceConsumer::root, (&cursor,), root),
        call_ensures(AnnounceConsumer::absolute, (&cursor, &path), absolute),
        call_ensures(AnnounceProducer::root, (&announces,), of_stream),
    ensures
        closed <==> !tree@.cursors.contains_key(cursor@.id),
        root@ == cursor@.root,
        absolute@ == cursor@.root + path@,
        of_stream@ == announces@.root,
{
}

/// What producers and consumers say of their root and identity is true.
pub proof fn law_handles_report_their_origin<P>(
    producer: Producer<P>,
    consumer: Consumer,
    of_producer: &Path,
    of_consumer: &Path,
    own: &Origin,
    same: &Origin,
)
    requires
        call_ensures(Producer::<P>::root, (&producer,), of_producer),
        call_ensures(Consumer::root, (&consumer,), of_consumer),
        call_ensures(<Producer<P> as std::ops::Deref>::deref, (&producer,), own),
        call_ensures(<Consumer as std::ops::Deref>::deref, (&consumer,), same),
    ensures
        of_producer@ == producer@.root,
        of_consumer@ == consumer@.root,
        *own == producer@.info,
        *same == consumer@.info,
{
}

} // verus!
