//! Announcements: what consumers of an origin are told of its broadcasts.

use crate::path::{law_path_order_is_strict, path_lt, Path, Rank};
use vstd::prelude::*;

verus! {

/// A handle on a broadcast.
#[derive(Clone, Copy, Debug, PartialEq, Eq, Structural)]
pub enum Broadcast {
    /// A broadcast of the origin, spliced from the sources attached at its path.
    Spliced(u64),
    /// A broadcast that a dynamic handler serves on demand, which is never announced.
    Served(u64),
}

/// A path and the broadcast now available there.
pub struct OriginAnnounce {
    /// The path of the broadcast, relative to the consuming cursor's root.
    pub path: Path,
    /// The broadcast now available at that path, or `None` if it is no longer available.
    ///
    /// A replacement (a relay failover, or a shorter hop path arriving) is delivered as
    /// a `None` followed by a `Some`, never as a swap in place. A route change alone is
    /// invisible here (the handles stay valid).
    pub broadcast: Option<Broadcast>,
}

/// One coalesced update queued for a consumer.
///
/// At most one entry exists per path, so a slow consumer's pending set is bounded
/// by the number of distinct paths. `UnannounceAnnounce` preserves the signal
/// that a broadcast genuinely went away and a different one took its place (the
/// consumer must see the `None` before the `Some`), while a stale `Announce`
/// cancels with a subsequent `unannounce` because the consumer has not yet
/// observed it.
#[derive(Clone, Copy, Debug, PartialEq, Eq, Structural)]
pub enum PendingUpdate {
    /// The broadcast became available.
    Announce(Broadcast),
    /// The broadcast went away.
    Unannounce,
    /// The broadcast went away and another one took its place.
    UnannounceAnnounce(Broadcast),
}

/// Pending updates by path.
pub type PendingMap = Map<Seq<Seq<char>>, PendingUpdate>;

/// What is pending for a path after a broadcast was announced there.
pub open spec fn announced(pending: Option<PendingUpdate>, broadcast: Broadcast) -> PendingUpdate {
    match pending {
        None => PendingUpdate::Announce(broadcast),
        Some(PendingUpdate::Announce(_)) => PendingUpdate::Announce(broadcast),
        Some(_) => PendingUpdate::UnannounceAnnounce(broadcast),
    }
}

/// What is pending for a path after its broadcast was unannounced.
pub open spec fn unannounced(pending: Option<PendingUpdate>) -> Option<PendingUpdate> {
    match pending {
        Some(PendingUpdate::Announce(_)) => None,
        _ => Some(PendingUpdate::Unannounce),
    }
}

/// What is pending for a path.
pub open spec fn pending_at(m: PendingMap, path: Seq<Seq<char>>) -> Option<PendingUpdate> {
    if m.contains_key(path) {
        Some(m[path])
    } else {
        None
    }
}

/// The pending updates after an announce at `path`.
pub open spec fn after_announce(
    m: PendingMap,
    path: Seq<Seq<char>>,
    broadcast: Broadcast,
) -> PendingMap {
    m.insert(path, announced(pending_at(m, path), broadcast))
}

/// The pending updates after an unannounce at `path`.
pub open spec fn after_unannounce(m: PendingMap, path: Seq<Seq<char>>) -> PendingMap {
    match unannounced(pending_at(m, path)) {
        Some(update) => m.insert(path, update),
        None => m.remove(path),
    }
}

/// What a consumer is told when it takes a pending update.
pub open spec fn delivered(update: PendingUpdate) -> Option<Broadcast> {
    match update {
        PendingUpdate::Announce(broadcast) => Some(broadcast),
        _ => None,
    }
}

/// The pending updates after the one at `path` was delivered. The announce that follows
/// an unannounce stays for the next delivery.
pub open spec fn after_take(m: PendingMap, path: Seq<Seq<char>>) -> PendingMap {
    match m[path] {
        PendingUpdate::UnannounceAnnounce(broadcast) => m.insert(
            path,
            PendingUpdate::Announce(broadcast),
        ),
        _ => m.remove(path),
    }
}

/// Whether `path` is the lexicographically first path with a pending update.
pub open spec fn first_pending(m: PendingMap, path: Seq<Seq<char>>) -> bool {
    m.contains_key(path) && forall|other: Seq<Seq<char>>| #[trigger]
        m.contains_key(other) && other != path ==> path_lt(path, other)
}

/// One queued update.
struct Queued {
    path: Path,
    update: PendingUpdate,
}

/// Pending updates keyed by path, delivered in lexicographic order.
///
/// Memory is strictly bounded by the number of distinct paths with outstanding work:
/// collapsed pairs are fully erased.
pub struct OriginConsumerState {
    pending: Vec<Queued>,
}

/// The index of the update queued for a path.
spec fn queued_at(s: Seq<Queued>, path: Seq<Seq<char>>, i: int) -> bool {
    0 <= i < s.len() && s[i].path@ == path
}

/// The updates of a queue, by path.
spec fn queue_map(s: Seq<Queued>) -> PendingMap {
    Map::new(
        |path: Seq<Seq<char>>| exists|i: int| queued_at(s, path, i),
        |path: Seq<Seq<char>>| s[choose|i: int| queued_at(s, path, i)].update,
    )
}

/// The queue is in strict lexicographic order.
spec fn queue_sorted(s: Seq<Queued>) -> bool {
    forall|i: int, j: int|
        0 <= i < j < s.len() ==> path_lt((#[trigger] s[i]).path@, (#[trigger] s[j]).path@)
}

proof fn lemma_queue_index(s: Seq<Queued>, i: int)
    requires
        queue_sorted(s),
        0 <= i < s.len(),
    ensures
        queue_map(s).contains_key(s[i].path@),
        queue_map(s)[s[i].path@] == s[i].update,
        forall|j: int| #[trigger] queued_at(s, s[i].path@, j) ==> j == i,
{
    let path = s[i].path@;
    assert(queued_at(s, path, i));
    assert forall|j: int| #[trigger] queued_at(s, path, j) implies j == i by {
        law_path_order_is_strict(path, path, path);
        if j < i {
            assert(path_lt(s[j].path@, s[i].path@));
        } else if i < j {
            assert(path_lt(s[i].path@, s[j].path@));
        }
    }
}

proof fn lemma_queue_insert(s: Seq<Queued>, at: int, queued: Queued)
    requires
        queue_sorted(s),
        0 <= at <= s.len(),
        forall|i: int| 0 <= i < at ==> path_lt((#[trigger] s[i]).path@, queued.path@),
        forall|i: int| at <= i < s.len() ==> path_lt(queued.path@, (#[trigger] s[i]).path@),
    ensures
        queue_sorted(s.insert(at, queued)),
        queue_map(s.insert(at, queued)) == queue_map(s).insert(queued.path@, queued.update),
        !queue_map(s).contains_key(queued.path@),
{
    let t = s.insert(at, queued);
    assert forall|i: int, j: int| 0 <= i < j < t.len() implies path_lt(
        (#[trigger] t[i]).path@,
        (#[trigger] t[j]).path@,
    ) by {
        let x = if i < at { i } else { i - 1 };
        let y = if j < at { j } else { j - 1 };
        if i == at {
            assert(t[j] == s[y]);
        } else if j == at {
            assert(t[i] == s[x]);
        } else {
            assert(t[i] == s[x] && t[j] == s[y]);
        }
    }
    law_path_order_is_strict(queued.path@, queued.path@, queued.path@);
    assert forall|path: Seq<Seq<char>>| #[trigger]
        queue_map(t).contains_key(path) == queue_map(s).insert(
            queued.path@,
            queued.update,
        ).contains_key(path) by {
        if exists|i: int| queued_at(s, path, i) {
            let i = choose|i: int| queued_at(s, path, i);
            let k = if i < at { i } else { i + 1 };
            assert(t[k] == s[i]);
            assert(queued_at(t, path, k));
        }
        if exists|i: int| queued_at(t, path, i) {
            let i = choose|i: int| queued_at(t, path, i);
            if i != at {
                let k = if i < at { i } else { i - 1 };
                assert(t[i] == s[k]);
                assert(queued_at(s, path, k));
            }
        }
        if path == queued.path@ {
            assert(queued_at(t, path, at));
        }
    }
    assert forall|path: Seq<Seq<char>>| #[trigger] queue_map(t).contains_key(path) implies queue_map(
        t,
    )[path] == queue_map(s).insert(queued.path@, queued.update)[path] by {
        let i = choose|i: int| queued_at(t, path, i);
        lemma_queue_index(t, i);
        if i != at {
            let k = if i < at { i } else { i - 1 };
            assert(t[i] == s[k]);
            lemma_queue_index(s, k);
        }
    }
    assert(queue_map(t) =~= queue_map(s).insert(queued.path@, queued.update));
    if queue_map(s).contains_key(queued.path@) {
        let i = choose|i: int| queued_at(s, queued.path@, i);
        assert(s[i].path@ == queued.path@);
    }
}

proof fn lemma_queue_remove(s: Seq<Queued>, at: int)
    requires
        queue_sorted(s),
        0 <= at < s.len(),
    ensures
        queue_sorted(s.remove(at)),
        queue_map(s.remove(at)) == queue_map(s).remove(s[at].path@),
{
    let t = s.remove(at);
    let gone = s[at].path@;
    assert forall|i: int, j: int| 0 <= i < j < t.len() implies path_lt(
        (#[trigger] t[i]).path@,
        (#[trigger] t[j]).path@,
    ) by {
        let x = if i < at { i } else { i + 1 };
        let y = if j < at { j } else { j + 1 };
        assert(t[i] == s[x] && t[j] == s[y]);
    }
    lemma_queue_index(s, at);
    assert forall|path: Seq<Seq<char>>| #[trigger] queue_map(t).contains_key(path) == queue_map(
        s,
    ).remove(gone).contains_key(path) by {
        if path != gone && exists|i: int| queued_at(s, path, i) {
            let i = choose|i: int| queued_at(s, path, i);
            let k = if i < at { i } else { i - 1 };
            assert(i != at);
            assert(t[k] == s[i]);
            assert(queued_at(t, path, k));
        }
        if exists|i: int| queued_at(t, path, i) {
            let i = choose|i: int| queued_at(t, path, i);
            let k = if i < at { i } else { i + 1 };
            assert(t[i] == s[k]);
            assert(queued_at(s, path, k));
        }
    }
    assert forall|path: Seq<Seq<char>>| #[trigger] queue_map(t).contains_key(path) implies queue_map(
        t,
    )[path] == queue_map(s).remove(gone)[path] by {
        let i = choose|i: int| queued_at(t, path, i);
        lemma_queue_index(t, i);
        let k = if i < at { i } else { i + 1 };
        assert(t[i] == s[k]);
        lemma_queue_index(s, k);
    }
    assert(queue_map(t) =~= queue_map(s).remove(gone));
}

impl View for OriginConsumerState {
    type V = PendingMap;

    closed spec fn view(&self) -> PendingMap {
        queue_map(self.pending@)
    }
}

impl Default for OriginConsumerState {
    fn default() -> (r: Self)
        ensures
            r@ == Map::<Seq<Seq<char>>, PendingUpdate>::empty(),
    {
        let r = OriginConsumerState { pending: Vec::new() };
        assert(r@ =~= Map::<Seq<Seq<char>>, PendingUpdate>::empty());
        r
    }
}

impl OriginConsumerState {
    #[verifier::type_invariant]
    spec fn inv(self) -> bool {
        queue_sorted(self.pending@)
    }

    /// Remove what is queued for `path`, and find where it sorts.
    fn extract(pending: &mut Vec<Queued>, path: &Path) -> (r: (usize, Option<PendingUpdate>))
        requires
            queue_sorted(old(pending)@),
        ensures
            queue_sorted(final(pending)@),
            r.1 == pending_at(queue_map(old(pending)@), path@),
            queue_map(final(pending)@) == queue_map(old(pending)@).remove(path@),
            r.0 <= final(pending)@.len(),
            forall|i: int|
                0 <= i < r.0 ==> path_lt((#[trigger] final(pending)@[i]).path@, path@),
            forall|i: int|
                r.0 <= i < final(pending)@.len() ==> path_lt(
                    path@,
                    (#[trigger] final(pending)@[i]).path@,
                ),
    {
        let mut at: usize = 0;
        let ghost start = pending@;
        while at < pending.len()
            invariant
                pending@ == start,
                queue_sorted(start),
                at <= start.len(),
                old(pending)@ == start,
                forall|i: int| 0 <= i < at ==> path_lt((#[trigger] start[i]).path@, path@),
            decreases start.len() - at,
        {
            match pending[at].path.rank(path) {
                Rank::Before => {
                    at = at + 1;
                },
                Rank::Same => {
                    proof {
                        lemma_queue_index(start, at as int);
                        lemma_queue_remove(start, at as int);
                        assert forall|i: int|
                            at <= i < start.remove(at as int).len() implies path_lt(
                            path@,
                            (#[trigger] start.remove(at as int)[i]).path@,
                        ) by {
                            assert(start.remove(at as int)[i] == start[i + 1]);
                        }
                    }
                    let queued = pending.remove(at);
                    return (at, Some(queued.update));
                },
                Rank::After => {
                    proof {
                        assert forall|i: int| at <= i < start.len() implies path_lt(
                            path@,
                            (#[trigger] start[i]).path@,
                        ) by {
                            if i > at {
                                law_path_order_is_strict(
                                    path@,
                                    start[at as int].path@,
                                    start[i].path@,
                                );
                            }
                        }
                        lemma_queue_absent(start, path@, at as int);
                    }
                    return (at, None);
                },
            }
        }
        proof {
            lemma_queue_absent(start, path@, at as int);
        }
        (at, None)
    }

    /// Queue the announcement of a broadcast.
    pub fn apply_announce(&mut self, path: Path, broadcast: Broadcast)
        ensures
            final(self)@ == after_announce(old(self)@, path@, broadcast),
    {
        proof {
            use_type_invariant(&*self);
        }
        let mut pending: Vec<Queued> = Vec::new();
        std::mem::swap(&mut pending, &mut self.pending);
        let ghost before = pending@;
        let (at, found) = Self::extract(&mut pending, &path);
        let update = match found {
            // First announce, or a stale announce being replaced.
            None => PendingUpdate::Announce(broadcast),
            Some(PendingUpdate::Announce(_)) => PendingUpdate::Announce(broadcast),
            // Consumer needs to observe the unannounce before this announce.
            Some(_) => PendingUpdate::UnannounceAnnounce(broadcast),
        };
        let queued = Queued { path, update };
        proof {
            lemma_queue_insert(pending@, at as int, queued);
            assert(queue_map(before).remove(queued.path@).insert(queued.path@, update)
                =~= queue_map(before).insert(queued.path@, update));
        }
        pending.insert(at, queued);
        self.pending = pending;
    }

    /// Queue the end of a broadcast.
    pub fn apply_unannounce(&mut self, path: Path)
        ensures
            final(self)@ == after_unannounce(old(self)@, path@),
    {
        proof {
            use_type_invariant(&*self);
        }
        let mut pending: Vec<Queued> = Vec::new();
        std::mem::swap(&mut pending, &mut self.pending);
        let ghost before = pending@;
        let (at, found) = Self::extract(&mut pending, &path);
        match found {
            // Consumer has not seen the pending announce; drop both entirely.
            Some(PendingUpdate::Announce(_)) => {},
            // The announce embedded in a pair cancels with this unannounce; the
            // consumer still needs the leading unannounce.
            _ => {
                let queued = Queued { path, update: PendingUpdate::Unannounce };
                proof {
                    lemma_queue_insert(pending@, at as int, queued);
                    assert(queue_map(before).remove(queued.path@).insert(
                        queued.path@,
                        queued.update,
                    ) =~= queue_map(before).insert(queued.path@, queued.update));
                }
                pending.insert(at, queued);
            },
        }
        self.pending = pending;
    }

    /// Take one update to deliver to the consumer, if any.
    pub fn take(&mut self) -> (r: Option<OriginAnnounce>)
        ensures
            match r {
                None => old(self)@ == Map::<Seq<Seq<char>>, PendingUpdate>::empty() && final(self)@
                    == old(self)@,
                Some(announce) => {
                    &&& first_pending(old(self)@, announce.path@)
                    &&& announce.broadcast == delivered(old(self)@[announce.path@])
                    &&& final(self)@ == after_take(old(self)@, announce.path@)
                },
            },
    {
        proof {
            use_type_invariant(&*self);
        }
        if self.pending.len() == 0 {
            assert(self@ =~= Map::<Seq<Seq<char>>, PendingUpdate>::empty());
            return None;
        }
        let mut pending: Vec<Queued> = Vec::new();
        std::mem::swap(&mut pending, &mut self.pending);
        let ghost start = pending@;
        proof {
            lemma_queue_index(start, 0);
            lemma_queue_remove(start, 0);
            assert forall|other: Seq<Seq<char>>| #[trigger]
                queue_map(start).contains_key(other) && other != start[0].path@ implies path_lt(
                start[0].path@,
                other,
            ) by {
                let i = choose|i: int| queued_at(start, other, i);
                assert(path_lt(start[0].path@, start[i].path@));
            }
        }
        let queued = pending.remove(0);
        let path = queued.path.clone();
        let broadcast = match queued.update {
            PendingUpdate::Announce(broadcast) => Some(broadcast),
            PendingUpdate::Unannounce => None,
            PendingUpdate::UnannounceAnnounce(broadcast) => {
                // Deliver the unannounce now; leave the trailing announce pending so
                // the next take returns it for the same path.
                let rest = Queued { path: queued.path, update: PendingUpdate::Announce(broadcast) };
                proof {
                    assert forall|i: int| 0 <= i < pending@.len() implies path_lt(
                        rest.path@,
                        (#[trigger] pending@[i]).path@,
                    ) by {
                        assert(pending@[i] == start[i + 1]);
                        assert(path_lt(start[0].path@, start[i + 1].path@));
                    }
                    lemma_queue_insert(pending@, 0, rest);
                    assert(queue_map(start).remove(rest.path@).insert(rest.path@, rest.update)
                        =~= queue_map(start).insert(rest.path@, rest.update));
                }
                pending.insert(0, rest);
                None
            },
        };
        self.pending = pending;
        Some(OriginAnnounce { path, broadcast })
    }

    /// Whether nothing is pending.
    pub fn is_empty(&self) -> (r: bool)
        ensures
            r == (self@ == Map::<Seq<Seq<char>>, PendingUpdate>::empty()),
    {
        proof {
            use_type_invariant(self);
            if self.pending@.len() > 0 {
                lemma_queue_index(self.pending@, 0);
            } else {
                assert(self@ =~= Map::<Seq<Seq<char>>, PendingUpdate>::empty());
            }
        }
        self.pending.len() == 0
    }
}

/// A path that sorts strictly between two neighbours is not queued.
proof fn lemma_queue_absent(s: Seq<Queued>, path: Seq<Seq<char>>, at: int)
    requires
        0 <= at <= s.len(),
        forall|i: int| 0 <= i < at ==> path_lt((#[trigger] s[i]).path@, path),
        forall|i: int| at <= i < s.len() ==> path_lt(path, (#[trigger] s[i]).path@),
    ensures
        !queue_map(s).contains_key(path),
        queue_map(s).remove(path) == queue_map(s),
{
    law_path_order_is_strict(path, path, path);
    if queue_map(s).contains_key(path) {
        let i = choose|i: int| queued_at(s, path, i);
        assert(s[i].path@ == path);
    }
    assert(queue_map(s).remove(path) =~= queue_map(s));
}

// ---------------------------------------------------------------------------
// Laws
// ---------------------------------------------------------------------------

/// What a consumer that saw `seen` at a path knows once it took all that is pending there.
pub open spec fn settled(seen: Option<Broadcast>, pending: Option<PendingUpdate>) -> Option<
    Broadcast,
> {
    match pending {
        None => seen,
        Some(PendingUpdate::Announce(broadcast)) => Some(broadcast),
        Some(PendingUpdate::Unannounce) => None,
        Some(PendingUpdate::UnannounceAnnounce(broadcast)) => Some(broadcast),
    }
}

/// Whether what is pending fits what the consumer saw: only a broadcast that it saw is
/// retracted, and it is never told of a second one without the retraction of the first.
pub open spec fn fits(seen: Option<Broadcast>, pending: Option<PendingUpdate>) -> bool {
    match pending {
        None => true,
        Some(PendingUpdate::Announce(_)) => seen is None,
        Some(PendingUpdate::Unannounce) => seen is Some,
        Some(PendingUpdate::UnannounceAnnounce(_)) => seen is Some,
    }
}

/// An announce after the consumer would have settled on nothing: it settles on the
/// announced broadcast.
pub proof fn law_announce_settles(
    seen: Option<Broadcast>,
    pending: Option<PendingUpdate>,
    broadcast: Broadcast,
)
    requires
        fits(seen, pending),
        settled(seen, pending) is None,
    ensures
        fits(seen, Some(announced(pending, broadcast))),
        settled(seen, Some(announced(pending, broadcast))) == Some(broadcast),
{
}

/// An unannounce after the consumer would have settled on a broadcast: it settles on
/// nothing.
pub proof fn law_unannounce_settles(seen: Option<Broadcast>, pending: Option<PendingUpdate>)
    requires
        fits(seen, pending),
        settled(seen, pending) is Some,
    ensures
        fits(seen, unannounced(pending)),
        settled(seen, unannounced(pending)) is None,
{
}

/// Taking an update changes what the consumer saw, not what it settles on. A `Some` is
/// delivered only over a `None` and a `None` only over a `Some`, so a replacement is
/// never a swap in place.
pub proof fn law_take_settles(
    m: PendingMap,
    path: Seq<Seq<char>>,
    seen: Option<Broadcast>,
)
    requires
        m.contains_key(path),
        fits(seen, Some(m[path])),
    ensures
        fits(delivered(m[path]), pending_at(after_take(m, path), path)),
        settled(delivered(m[path]), pending_at(after_take(m, path), path)) == settled(
            seen,
            Some(m[path]),
        ),
        delivered(m[path]) is Some <==> seen is None,
{
}

/// An announce that the consumer did not see cancels with the unannounce that follows.
pub proof fn law_unseen_announce_cancels(
    m: PendingMap,
    path: Seq<Seq<char>>,
    broadcast: Broadcast,
)
    requires
        !m.contains_key(path),
    ensures
        after_unannounce(after_announce(m, path, broadcast), path) == m,
{
    assert(after_unannounce(after_announce(m, path, broadcast), path) =~= m);
}

/// An unannounce followed by an announce is delivered as both, in that order.
pub proof fn law_replacement_is_delivered_twice(
    m: PendingMap,
    path: Seq<Seq<char>>,
    broadcast: Broadcast,
)
    requires
        !m.contains_key(path),
    ensures
        ({
            let queued = after_announce(after_unannounce(m, path), path, broadcast);
            let rest = after_take(queued, path);
            &&& delivered(queued[path]) is None
            &&& rest.contains_key(path)
            &&& delivered(rest[path]) == Some(broadcast)
            &&& after_take(rest, path) == m
        }),
{
    let queued = after_announce(after_unannounce(m, path), path, broadcast);
    assert(after_take(after_take(queued, path), path) =~= m);
}

/// An announce is pending as such unless an unannounce is, which it then follows. Whatever is
/// pending for other paths stays.
pub proof fn law_announce_is_queued(
    state: &mut OriginConsumerState,
    path: Path,
    broadcast: Broadcast,
    other: Seq<Seq<char>>,
)
    requires
        call_ensures(OriginConsumerState::apply_announce, (state, path, broadcast), ()),
    ensures
        final(state)@.contains_key(path@),
        final(state)@[path@] == if old(state)@.contains_key(path@) && !(old(state)@[path@]
            is Announce) {
            PendingUpdate::UnannounceAnnounce(broadcast)
        } else {
            PendingUpdate::Announce(broadcast)
        },
        other != path@ ==> pending_at(final(state)@, other) == pending_at(old(state)@, other),
{
}

/// An unannounce takes back an announce that nobody saw, and is pending otherwise. Whatever is
/// pending for other paths stays.
pub proof fn law_unannounce_is_queued(
    state: &mut OriginConsumerState,
    path: Path,
    other: Seq<Seq<char>>,
)
    requires
        call_ensures(OriginConsumerState::apply_unannounce, (state, path), ()),
    ensures
        final(state)@.contains_key(path@) <==> !(old(state)@.contains_key(path@) && old(
            state,
        )@[path@] is Announce),
        final(state)@.contains_key(path@) ==> final(state)@[path@] == PendingUpdate::Unannounce,
        other != path@ ==> pending_at(final(state)@, other) == pending_at(old(state)@, other),
{
}

/// The update taken is that of the first path in order. An announce is delivered and gone, an
/// unannounce is, and a replacement is delivered as an unannounce and leaves its announce.
pub proof fn law_first_update_is_taken(
    state: &mut OriginConsumerState,
    r: Option<OriginAnnounce>,
    other: Seq<Seq<char>>,
)
    requires
        call_ensures(OriginConsumerState::take, (state,), r),
    ensures
        r is None ==> !old(state)@.contains_key(other) && final(state)@ == old(state)@,
        r is Some ==> {
            let path = r->0.path@;
            let was = old(state)@[path];
            &&& old(state)@.contains_key(path)
            &&& old(state)@.contains_key(other) && other != path ==> path_lt(path, other)
            &&& was is Announce ==> r->0.broadcast == Some(was->Announce_0)
                && !final(state)@.contains_key(path)
            &&& was is Unannounce ==> r->0.broadcast is None && !final(state)@.contains_key(path)
            &&& was is UnannounceAnnounce ==> r->0.broadcast is None && final(state)@.contains_key(path) && final(state)@[path] == PendingUpdate::Announce(
                was->UnannounceAnnounce_0,
            )
            &&& other != path ==> pending_at(final(state)@, other) == pending_at(
                old(state)@,
                other,
            )
        },
{
}

/// What is pending at a path is what the map of updates holds there.
pub proof fn law_pending_is_what_is_held(m: PendingMap, path: Seq<Seq<char>>)
    ensures
        pending_at(m, path) is Some <==> m.contains_key(path),
        m.contains_key(path) ==> pending_at(m, path) == Some(m[path]),
{
}

/// A new queue has nothing pending, and a queue is empty exactly if nothing is.
pub proof fn law_new_queue_is_empty(fresh: OriginConsumerState, state: OriginConsumerState, empty: bool)
    requires
        call_ensures(OriginConsumerState::default, (), fresh),
        call_ensures(OriginConsumerState::is_empty, (&state,), empty),
    ensures
        fresh@ == Map::<Seq<Seq<char>>, PendingUpdate>::empty(),
        empty <==> state@ == Map::<Seq<Seq<char>>, PendingUpdate>::empty(),
{
}

} // verus!
