//! Relay origins: their ids, hop chains and configuration.

use crate::coding::{
    decode_varint, encode_varint, law_varint_round_trip, read_varint, varint, DecodeError,
    EncodeError, VARINT_LIMIT,
};
use crate::time::{Duration, MAX_NANOS};
use rand::RngExt;
use vstd::prelude::*;
use vstd::std_specs::convert::{FromSpecImpl, TryFromSpecImpl};
use vstd::std_specs::iter::IteratorSpec;

verus! {

/// One past the largest random id. Older clients read an id as a 53-bit number and
/// throw on anything larger, so random ids stay below 2^53 though the wire allows 62
/// bits.
pub const RANDOM_LIMIT: u64 = 0x20_0000_0000_0000;

/// Maximum number of origins (hops) an [`OriginList`] can hold.
///
/// Caps pathological or loop-induced announcements at a reasonable cluster
/// diameter; appending past this limit returns [`TooManyOrigins`] rather than
/// silently truncating.
pub const MAX_HOPS: usize = 32;

/// A relay origin, identified by a 62-bit varint on the wire.
///
/// Local origins are built with [`Origin::new`] or [`Origin::random`], both of
/// which guarantee a non-zero id so loop detection can work. Remote peers may
/// still send `0`; it is legal on the wire but cannot be used for loop detection.
#[derive(Clone, Copy, Debug, PartialEq, Eq, Hash, Structural)]
pub struct Origin {
    id: u64,
}

/// Returned when a local origin id is zero or outside the 62-bit wire range.
#[derive(Clone, Copy, Debug, PartialEq, Eq, Structural)]
#[non_exhaustive]
pub struct InvalidOrigin;

impl InvalidOrigin {
    /// What went wrong, in words.
    pub fn message(&self) -> (r: String)
        ensures
            r@ == "local origin id must be non-zero and below 2^62"@,
    {
        "local origin id must be non-zero and below 2^62".to_owned()
    }
}

/// `rand::RngExt::random_range` on the thread's generator: a number of the half-open
/// range. Which one is left to chance. The call panics on an empty range, which the
/// precondition rules out.
#[verifier::external_body]
fn random_range(low: u64, high: u64) -> (r: u64)
    requires
        low < high,
    ensures
        low <= r < high,
{
    rand::rng().random_range(low..high)
}

impl View for Origin {
    type V = u64;

    closed spec fn view(&self) -> u64 {
        self.id
    }
}

impl Origin {
    #[verifier::type_invariant]
    spec fn inv(self) -> bool {
        self.id < VARINT_LIMIT
    }

    /// Placeholder for hop entries whose actual id is not on the wire.
    /// Also used for remote peers that choose the legal but loop-blind id 0.
    pub fn unknown() -> (r: Self)
        ensures
            r@ == 0,
    {
        Origin { id: 0 }
    }

    /// Build an origin from a stable id.
    ///
    /// The id must be non-zero and fit in the 62-bit QUIC varint range. Wire
    /// decode accepts remote id 0, but local origins should not use it because
    /// downstream peers cannot exclude it for loop detection.
    pub fn new(id: u64) -> (r: Result<Self, InvalidOrigin>)
        ensures
            match r {
                Ok(origin) => 0 < id < VARINT_LIMIT && origin@ == id,
                Err(_) => id == 0 || id >= VARINT_LIMIT,
            },
    {
        if id == 0 || id >= VARINT_LIMIT {
            return Err(InvalidOrigin);
        }
        Ok(Origin { id })
    }

    /// Generate a fresh origin with a random non-zero id. Use this for any
    /// origin that does not need a stable identity across restarts.
    pub fn random() -> (r: Self)
        ensures
            0 < r@ < RANDOM_LIMIT,
            r.drawn(),
    {
        let id: u64 = random_range(1, RANDOM_LIMIT);
        Origin { id }
    }

    /// Whether the id can be drawn at random from the non-zero ids below [`RANDOM_LIMIT`].
    /// Nothing says which ids those are, so an id is one only if it was drawn.
    pub closed spec fn drawn(&self) -> bool {
        call_ensures(random_range, (1u64, RANDOM_LIMIT), self.id)
    }

    /// Return the origin's wire id.
    pub fn id(self) -> (r: u64)
        ensures
            r == self@,
            r < VARINT_LIMIT,
    {
        proof {
            use_type_invariant(&self);
        }
        self.id
    }

    /// Write the origin's id as a varint.
    pub fn encode(&self, w: &mut Vec<u8>) -> (r: Result<(), EncodeError>)
        ensures
            r == Ok::<(), EncodeError>(()),
            final(w)@ == old(w)@ + varint(self@),
    {
        proof {
            use_type_invariant(self);
        }
        encode_varint(self.id, w)
    }

    /// An origin as it comes off the wire, in whatever format its id was written. Any 62-bit
    /// id is accepted, 0 included.
    pub fn from_wire(id: u64) -> (r: Result<Self, DecodeError>)
        ensures
            match r {
                Ok(origin) => id < VARINT_LIMIT && origin@ == id,
                Err(e) => id >= VARINT_LIMIT && e == DecodeError::InvalidValue,
            },
    {
        if id >= VARINT_LIMIT {
            return Err(DecodeError::InvalidValue);
        }
        Ok(Origin { id })
    }

    /// Read an origin's id. Any 62-bit id is accepted, 0 included.
    pub fn decode(r: &mut &[u8]) -> (res: Result<Self, DecodeError>)
        ensures
            ({
                let (id, rest) = read_origin(old(r)@);
                &&& final(r)@ == rest
                &&& match id {
                    Ok(id) => res matches Ok(origin) && origin@ == id,
                    Err(e) => res == Err::<Origin, DecodeError>(e),
                }
            }),
    {
        let id: u64 = match decode_varint(r) {
            Ok(id) => id,
            Err(e) => {
                return Err(e);
            },
        };
        Self::from_wire(id)
    }
}

/// Reading an origin id: the id or the error, and the bytes left.
pub open spec fn read_origin(s: Seq<u8>) -> (Result<u64, DecodeError>, Seq<u8>) {
    let (id, rest) = read_varint(s);
    match id {
        Ok(id) => (
            if id < VARINT_LIMIT {
                Ok(id)
            } else {
                Err(DecodeError::InvalidValue)
            },
            rest,
        ),
        Err(e) => (Err(e), rest),
    }
}

impl TryFrom<u64> for Origin {
    type Error = InvalidOrigin;

    fn try_from(id: u64) -> (r: Result<Self, InvalidOrigin>)
        ensures
            match r {
                Ok(origin) => 0 < id < VARINT_LIMIT && origin@ == id,
                Err(_) => id == 0 || id >= VARINT_LIMIT,
            },
    {
        let r = Self::new(id);
        proof {
            match r {
                Ok(origin) => {
                    assert(origin == Origin { id });
                },
                Err(e) => {
                    assert(e == InvalidOrigin);
                },
            }
        }
        r
    }
}

impl TryFromSpecImpl<u64> for Origin {
    open spec fn obeys_try_from_spec() -> bool {
        true
    }

    closed spec fn try_from_spec(v: u64) -> Result<Self, InvalidOrigin> {
        if v == 0 || v >= VARINT_LIMIT {
            Err(InvalidOrigin)
        } else {
            Ok(Origin { id: v })
        }
    }
}

/// Bounded list of [`Origin`] entries, typically the hop chain of a broadcast.
///
/// Guarantees `len() <= MAX_HOPS`. Construct via [`OriginList::new`] +
/// [`OriginList::push`], or fall back to the fallible `TryFrom<Vec<Origin>>`.
#[derive(Debug, PartialEq, Eq)]
pub struct OriginList(Vec<Origin>);

/// Returned when an operation would grow an [`OriginList`] past its hop-count cap.
#[derive(Clone, Copy, Debug, PartialEq, Eq, Structural)]
#[non_exhaustive]
pub struct TooManyOrigins;

impl TooManyOrigins {
    /// What went wrong, in words.
    pub fn message(&self) -> (r: String)
        ensures
            r@ == "too many origins (max 32)"@,
    {
        "too many origins (max 32)".to_owned()
    }
}

impl From<TooManyOrigins> for DecodeError {
    fn from(e: TooManyOrigins) -> (r: Self) {
        DecodeError::BoundsExceeded
    }
}

impl FromSpecImpl<TooManyOrigins> for DecodeError {
    open spec fn obeys_from_spec() -> bool {
        true
    }

    open spec fn from_spec(e: TooManyOrigins) -> Self {
        DecodeError::BoundsExceeded
    }
}

impl View for OriginList {
    type V = Seq<Origin>;

    closed spec fn view(&self) -> Seq<Origin> {
        self.0@
    }
}

/// The ids of a hop chain.
pub open spec fn ids(list: Seq<Origin>) -> Seq<u64> {
    Seq::new(list.len(), |i: int| list[i]@)
}

/// The chain with the first entry equal to `target` replaced.
pub open spec fn replaced_first(list: Seq<Origin>, target: Origin, replacement: Origin) -> Seq<
    Origin,
>
    decreases list.len(),
{
    if list.len() == 0 {
        list
    } else if list[0] == target {
        list.update(0, replacement)
    } else {
        seq![list[0]] + replaced_first(list.skip(1), target, replacement)
    }
}

/// Origin ids on the wire, one after the other.
pub open spec fn ids_wire(ids: Seq<u64>) -> Seq<u8>
    decreases ids.len(),
{
    if ids.len() == 0 {
        Seq::empty()
    } else {
        varint(ids[0]) + ids_wire(ids.skip(1))
    }
}

/// A hop chain on the wire: the number of entries, then the entries.
pub open spec fn list_wire(ids: Seq<u64>) -> Seq<u8> {
    varint(ids.len() as u64) + ids_wire(ids)
}

/// Reading `n` origin ids: the ids or the first error, and the bytes left.
pub open spec fn read_origins(s: Seq<u8>, n: nat) -> (Result<Seq<u64>, DecodeError>, Seq<u8>)
    decreases n,
{
    if n == 0 {
        (Ok(Seq::empty()), s)
    } else {
        let (id, rest) = read_origin(s);
        match id {
            Ok(id) => {
                let (tail, end) = read_origins(rest, (n - 1) as nat);
                match tail {
                    Ok(tail) => (Ok(seq![id] + tail), end),
                    Err(e) => (Err(e), end),
                }
            },
            Err(e) => (Err(e), rest),
        }
    }
}

/// Reading a hop chain: the ids or the error, and the bytes left.
pub open spec fn read_list(s: Seq<u8>) -> (Result<Seq<u64>, DecodeError>, Seq<u8>) {
    let (count, rest) = read_varint(s);
    match count {
        Ok(count) => if count > MAX_HOPS {
            (Err(DecodeError::BoundsExceeded), rest)
        } else {
            read_origins(rest, count as nat)
        },
        Err(e) => (Err(e), rest),
    }
}

impl OriginList {
    #[verifier::type_invariant]
    spec fn inv(self) -> bool {
        self.0@.len() <= MAX_HOPS
    }

    /// Create an empty list.
    pub fn new() -> (r: Self)
        ensures
            r@ == Seq::<Origin>::empty(),
    {
        OriginList(Vec::new())
    }

    /// Append an [`Origin`]. Returns [`TooManyOrigins`] if the list is full.
    pub fn push(&mut self, origin: Origin) -> (r: Result<(), TooManyOrigins>)
        ensures
            match r {
                Ok(_) => old(self)@.len() < MAX_HOPS && final(self)@ == old(self)@.push(origin),
                Err(_) => old(self)@.len() == MAX_HOPS && final(self)@ == old(self)@,
            },
    {
        proof {
            use_type_invariant(&*self);
        }
        if self.0.len() >= MAX_HOPS {
            return Err(TooManyOrigins);
        }
        let mut list: Vec<Origin> = Vec::new();
        std::mem::swap(&mut list, &mut self.0);
        list.push(origin);
        self.0 = list;
        Ok(())
    }

    /// Replace the first entry equal to `target` with `replacement`, returning
    /// true if a match was found. The length is unchanged.
    pub fn replace_first(&mut self, target: Origin, replacement: Origin) -> (r: bool)
        ensures
            r == old(self)@.contains(target),
            final(self)@ == replaced_first(old(self)@, target, replacement),
            final(self)@.len() == old(self)@.len(),
    {
        proof {
            use_type_invariant(&*self);
        }
        let mut list: Vec<Origin> = Vec::new();
        std::mem::swap(&mut list, &mut self.0);
        let mut found = false;
        let mut i: usize = 0;
        let ghost start = list@;
        assert(start.skip(0) =~= start);
        while i < list.len()
            invariant_except_break
                !found,
                list@ == start,
                forall|k: int| 0 <= k < i ==> #[trigger] start[k] != target,
            invariant
                i <= list@.len(),
                list@.len() == start.len(),
                replaced_first(start, target, replacement) == start.take(i as int)
                    + replaced_first(start.skip(i as int), target, replacement),
            ensures
                found ==> i < start.len() && start[i as int] == target && list@ == start.update(
                    i as int,
                    replacement,
                ),
                !found ==> i == start.len() && list@ == start && !start.contains(target),
            decreases list@.len() - i,
        {
            if list[i] == target {
                list.set(i, replacement);
                found = true;
                break;
            }
            proof {
                let rest = start.skip(i as int);
                assert(rest[0] == start[i as int]);
                assert(rest.skip(1) =~= start.skip(i + 1));
                assert(start.take(i + 1) =~= start.take(i as int) + seq![start[i as int]]);
                assert(replaced_first(start, target, replacement) =~= start.take(i + 1)
                    + replaced_first(start.skip(i + 1), target, replacement));
            }
            i = i + 1;
        }
        proof {
            if found {
                assert(start.skip(i as int)[0] == target);
                assert(list@ =~= start.take(i as int) + start.skip(i as int).update(
                    0,
                    replacement,
                ));
            } else {
                assert(start.take(i as int) =~= start);
                assert(start.skip(i as int) =~= Seq::<Origin>::empty());
                assert(list@ =~= replaced_first(start, target, replacement));
            }
        }
        self.0 = list;
        found
    }

    /// Returns true if any entry matches `origin`.
    pub fn contains(&self, origin: &Origin) -> (r: bool)
        ensures
            r == self@.contains(*origin),
    {
        let mut i: usize = 0;
        while i < self.0.len()
            invariant
                i <= self.0@.len(),
                forall|k: int| 0 <= k < i ==> #[trigger] self.0@[k] != *origin,
            decreases self.0@.len() - i,
        {
            if self.0[i] == *origin {
                return true;
            }
            i = i + 1;
        }
        false
    }

    /// Number of entries currently in the list (always `<= MAX_HOPS`).
    pub fn len(&self) -> (n: usize)
        ensures
            n == self@.len(),
            n <= MAX_HOPS,
    {
        proof {
            use_type_invariant(self);
        }
        self.0.len()
    }

    /// Whether the list contains no entries.
    pub fn is_empty(&self) -> (r: bool)
        ensures
            r == (self@.len() == 0),
    {
        self.0.len() == 0
    }

    /// Iterate over the entries in hop order (oldest first).
    pub fn iter(&self) -> (r: std::slice::Iter<'_, Origin>)
        ensures
            IteratorSpec::remaining(&r) == self@.as_ref(),
    {
        self.0.iter()
    }

    /// Borrow the entries as a slice.
    pub fn as_slice(&self) -> (r: &[Origin])
        ensures
            r@ == self@,
    {
        self.0.as_slice()
    }

    /// Write the number of entries, then the entries.
    pub fn encode(&self, w: &mut Vec<u8>) -> (r: Result<(), EncodeError>)
        ensures
            r == Ok::<(), EncodeError>(()),
            final(w)@ == old(w)@ + list_wire(ids(self@)),
            self@.len() <= MAX_HOPS,
            forall|i: int| 0 <= i < self@.len() ==> #[trigger] ids(self@)[i] < VARINT_LIMIT,
    {
        proof {
            use_type_invariant(self);
        }
        match encode_varint(self.0.len() as u64, w) {
            Ok(_) => {},
            Err(e) => {
                return Err(e);
            },
        }
        let mut i: usize = 0;
        let ghost all = ids(self@);
        assert(all.skip(0) =~= all);
        while i < self.0.len()
            invariant
                i <= self.0@.len(),
                all == ids(self@),
                old(w)@ + list_wire(all) == w@ + ids_wire(all.skip(i as int)),
                forall|k: int| 0 <= k < i ==> #[trigger] all[k] < VARINT_LIMIT,
            decreases self.0@.len() - i,
        {
            let ghost before = w@;
            let origin = self.0[i];
            proof {
                use_type_invariant(&origin);
            }
            match origin.encode(w) {
                Ok(_) => {},
                Err(e) => {
                    return Err(e);
                },
            }
            proof {
                assert(all.skip(i as int).skip(1) =~= all.skip(i + 1));
                assert(before + ids_wire(all.skip(i as int)) =~= w@ + ids_wire(all.skip(i + 1)));
            }
            i = i + 1;
        }
        assert(all.skip(i as int) =~= Seq::<u64>::empty());
        assert(w@ + ids_wire(all.skip(i as int)) =~= w@);
        Ok(())
    }

    /// The number of entries of a hop chain as it comes off the wire, in whatever format it
    /// was written. More than [`MAX_HOPS`] are refused.
    pub fn count_from_wire(count: u64) -> (r: Result<usize, DecodeError>)
        ensures
            match r {
                Ok(n) => count <= MAX_HOPS && n == count,
                Err(e) => count > MAX_HOPS && e == DecodeError::BoundsExceeded,
            },
    {
        if count > MAX_HOPS as u64 {
            return Err(DecodeError::BoundsExceeded);
        }
        Ok(count as usize)
    }

    /// Read a hop chain. More than [`MAX_HOPS`] entries are refused.
    pub fn decode(r: &mut &[u8]) -> (res: Result<Self, DecodeError>)
        ensures
            ({
                let (list, rest) = read_list(old(r)@);
                &&& final(r)@ == rest
                &&& match list {
                    Ok(list) => res matches Ok(origins) && ids(origins@) == list,
                    Err(e) => res == Err::<OriginList, DecodeError>(e),
                }
            }),
    {
        let written: u64 = match decode_varint(r) {
            Ok(count) => count,
            Err(e) => {
                return Err(e);
            },
        };
        let count: usize = match Self::count_from_wire(written) {
            Ok(count) => count,
            Err(e) => {
                return Err(e);
            },
        };
        let ghost start = r@;
        let mut list: Vec<Origin> = Vec::new();
        let mut i: usize = 0;
        assert(ids(list@) =~= Seq::<u64>::empty());
        proof {
            let (tail, end) = read_origins(start, count as nat);
            if let Ok(tail) = tail {
                assert(Seq::<u64>::empty() + tail =~= tail);
            }
        }
        while i < count
            invariant
                i <= count <= MAX_HOPS,
                list@.len() == i,
                read_list(old(r)@) == read_origins(start, count as nat),
                ({
                    let (tail, end) = read_origins(r@, (count - i) as nat);
                    read_origins(start, count as nat) == match tail {
                        Ok(tail) => (Ok::<Seq<u64>, DecodeError>(ids(list@) + tail), end),
                        Err(e) => (Err::<Seq<u64>, DecodeError>(e), end),
                    }
                }),
            decreases count - i,
        {
            let ghost before = ids(list@);
            let ghost at = r@;
            match Origin::decode(r) {
                Ok(origin) => {
                    list.push(origin);
                    proof {
                        let (tail, end) = read_origins(r@, (count - i - 1) as nat);
                        assert(ids(list@) =~= before.push(origin@));
                        if let Ok(tail) = tail {
                            assert(before + (seq![origin@] + tail) =~= ids(list@) + tail);
                        }
                    }
                },
                Err(e) => {
                    return Err(e);
                },
            }
            i = i + 1;
        }
        assert(ids(list@) + Seq::<u64>::empty() =~= ids(list@));
        Ok(OriginList(list))
    }
}

impl Default for OriginList {
    fn default() -> (r: Self)
        ensures
            r@ == Seq::<Origin>::empty(),
    {
        Self::new()
    }
}

impl Clone for OriginList {
    fn clone(&self) -> (r: Self)
        ensures
            r@ == self@,
    {
        proof {
            use_type_invariant(self);
        }
        let mut list: Vec<Origin> = Vec::new();
        let mut i: usize = 0;
        while i < self.0.len()
            invariant
                i <= self.0@.len() <= MAX_HOPS,
                list@ == self.0@.take(i as int),
            decreases self.0@.len() - i,
        {
            list.push(self.0[i]);
            i = i + 1;
        }
        assert(self.0@.take(i as int) =~= self.0@);
        OriginList(list)
    }
}

impl TryFrom<Vec<Origin>> for OriginList {
    type Error = TooManyOrigins;

    fn try_from(v: Vec<Origin>) -> (r: Result<Self, TooManyOrigins>)
        ensures
            match r {
                Ok(list) => v@.len() <= MAX_HOPS && list@ == v@,
                Err(_) => v@.len() > MAX_HOPS,
            },
    {
        if v.len() > MAX_HOPS {
            return Err(TooManyOrigins);
        }
        Ok(OriginList(v))
    }
}

impl TryFromSpecImpl<Vec<Origin>> for OriginList {
    open spec fn obeys_try_from_spec() -> bool {
        true
    }

    closed spec fn try_from_spec(v: Vec<Origin>) -> Result<Self, TooManyOrigins> {
        if v@.len() > MAX_HOPS {
            Err(TooManyOrigins)
        } else {
            Ok(OriginList(v))
        }
    }
}

impl<'a> IntoIterator for &'a OriginList {
    type Item = &'a Origin;

    type IntoIter = std::slice::Iter<'a, Origin>;

    fn into_iter(self) -> (r: std::slice::Iter<'a, Origin>)
        ensures
            IteratorSpec::remaining(&r) == self@.as_ref(),
    {
        self.iter()
    }
}

/// An origin's identity plus the cache pool its broadcasts inherit.
///
/// Doubles as the construction config for an origin producer and as the parent handle
/// every broadcast carries: the origin owns the cache pool every group in the tree
/// registers with, so a relay configures one bounded pool here and every broadcast,
/// track, and group beneath it reaches that single budget by walking up the ownership
/// chain. `P` is the handle on that pool; its default is an unbounded one.
#[derive(Clone, Debug)]
#[non_exhaustive]
pub struct Info<P> {
    /// The origin's wire identity, appended to broadcast hop chains for loop
    /// detection and shortest-path routing.
    pub id: Origin,
    /// The cache pool broadcasts under this origin register their groups with.
    /// Unbounded by default; a relay sets a bounded one (via [`Self::with_pool`]) so
    /// cached groups across the whole process share one memory budget.
    pub pool: P,
    /// Ceiling on how long any non-latest group under this origin is retained. The
    /// longest span (the default) imposes no ceiling, leaving each track's own window
    /// in force.
    pub cache_duration: Duration,
    /// How long a broadcast under this origin outlives the *ungraceful* loss of its
    /// last source before closing. Within the window the path stays announced and a
    /// source re-attaching at it splices in seamlessly, so consumers never observe the
    /// gap. A source that ends deliberately closes the broadcast immediately
    /// regardless. Zero (the default) closes immediately either way; a duration too
    /// large to represent as a deadline lingers indefinitely.
    pub linger: Duration,
}

impl<P: Default> Default for Info<P> {
    /// An unknown origin (id `0`, no loop detection) with an unbounded pool. This is
    /// what a standalone broadcast (no relay origin) inherits.
    fn default() -> (r: Self)
        ensures
            r.id@ == 0,
            call_ensures(P::default, (), r.pool),
            r.cache_duration@ == MAX_NANOS,
            r.linger@ == 0,
    {
        Info {
            id: Origin::unknown(),
            pool: P::default(),
            cache_duration: Duration::max(),
            linger: Duration::zero(),
        }
    }
}

impl<P> Info<P> {
    /// Config for the given origin id with an unbounded cache pool.
    pub fn new(id: Origin) -> (r: Self) where P: Default
        ensures
            r.id == id,
            call_ensures(P::default, (), r.pool),
            r.cache_duration@ == MAX_NANOS,
            r.linger@ == 0,
    {
        let info = Self::default();
        Info { id, ..info }
    }

    /// Set the cache pool this origin's broadcasts inherit, returning `self` for chaining.
    pub fn with_pool(self, pool: P) -> (r: Self)
        ensures
            r == (Info { pool, ..self }),
    {
        Info { pool, ..self }
    }

    /// Set the retention ceiling (see [`Self::cache_duration`]) applied to every track
    /// under this origin, returning `self` for chaining.
    pub fn with_cache_duration(self, cache_duration: Duration) -> (r: Self)
        ensures
            r == (Info { cache_duration, ..self }),
    {
        Info { cache_duration, ..self }
    }

    /// Set how long a broadcast survives ungracefully losing its last source (see
    /// [`Self::linger`]), returning `self` for chaining.
    pub fn with_linger(self, linger: Duration) -> (r: Self)
        ensures
            r == (Info { linger, ..self }),
    {
        Info { linger, ..self }
    }
}

// ---------------------------------------------------------------------------
// Laws
// ---------------------------------------------------------------------------

proof fn lemma_ids_round_trip(ids: Seq<u64>, rest: Seq<u8>)
    requires
        forall|i: int| 0 <= i < ids.len() ==> #[trigger] ids[i] < VARINT_LIMIT,
    ensures
        read_origins(ids_wire(ids) + rest, ids.len()) == (Ok::<Seq<u64>, DecodeError>(ids), rest),
    decreases ids.len(),
{
    if ids.len() == 0 {
        assert(ids_wire(ids) + rest =~= rest);
        assert(ids =~= Seq::<u64>::empty());
    } else {
        let tail = ids.skip(1);
        assert(ids_wire(ids) + rest =~= varint(ids[0]) + (ids_wire(tail) + rest));
        law_varint_round_trip(ids[0], ids_wire(tail) + rest);
        assert forall|i: int| 0 <= i < tail.len() implies #[trigger] tail[i] < VARINT_LIMIT by {
            assert(ids[i + 1] < VARINT_LIMIT);
        }
        lemma_ids_round_trip(tail, rest);
        assert(seq![ids[0]] + tail =~= ids);
    }
}

/// Reading a written hop chain gives the chain back, and leaves what follows it.
pub proof fn law_list_round_trip(ids: Seq<u64>, rest: Seq<u8>)
    requires
        ids.len() <= MAX_HOPS,
        forall|i: int| 0 <= i < ids.len() ==> #[trigger] ids[i] < VARINT_LIMIT,
    ensures
        read_list(list_wire(ids) + rest) == (Ok::<Seq<u64>, DecodeError>(ids), rest),
{
    assert(list_wire(ids) + rest =~= varint(ids.len() as u64) + (ids_wire(ids) + rest));
    law_varint_round_trip(ids.len() as u64, ids_wire(ids) + rest);
    lemma_ids_round_trip(ids, rest);
}

/// Reading a written origin gives its id back, and leaves what follows it.
pub proof fn law_origin_round_trip(id: u64, rest: Seq<u8>)
    requires
        id < VARINT_LIMIT,
    ensures
        read_origin(varint(id) + rest) == (Ok::<u64, DecodeError>(id), rest),
{
    law_varint_round_trip(id, rest);
}

/// No input reads as a chain of more than [`MAX_HOPS`] entries.
pub proof fn law_list_is_bounded(s: Seq<u8>)
    ensures
        read_list(s).0 matches Ok(ids) ==> ids.len() <= MAX_HOPS,
{
    let (count, rest) = read_varint(s);
    if let Ok(count) = count {
        if count <= MAX_HOPS {
            lemma_read_len(rest, count as nat);
        }
    }
}

proof fn lemma_read_len(s: Seq<u8>, n: nat)
    ensures
        read_origins(s, n).0 matches Ok(ids) ==> ids.len() == n,
    decreases n,
{
    if n > 0 {
        lemma_read_len(read_origin(s).1, (n - 1) as nat);
    }
}

/// An id that can be drawn is one that the generator gave for the range of random ids.
proof fn lemma_drawn_from_the_range(origin: Origin)
    ensures
        origin.drawn() <==> call_ensures(random_range, (1u64, 0x20_0000_0000_0000u64), origin.id),
{
}

/// A local origin has a non-zero id of at most 62 bits, by whatever way it is made; any other id
/// is refused. A random one is drawn from the non-zero ids of at most 53 bits.
pub proof fn law_local_ids(
    id: u64,
    made: Result<Origin, InvalidOrigin>,
    converted: Result<Origin, InvalidOrigin>,
    random: Origin,
    unknown: Origin,
    read: u64,
)
    requires
        call_ensures(Origin::new, (id,), made),
        call_ensures(<Origin as TryFrom<u64>>::try_from, (id,), converted),
        call_ensures(Origin::random, (), random),
        call_ensures(Origin::unknown, (), unknown),
        made is Ok ==> call_ensures(Origin::id, (made->Ok_0,), read),
    ensures
        made is Ok <==> 0 < id < 4_611_686_018_427_387_904,
        made is Ok ==> made->Ok_0@ == id && read == id,
        converted is Ok <==> made is Ok,
        converted is Ok ==> converted->Ok_0@ == id,
        0 < random@ < 9_007_199_254_740_992,
        random.drawn(),
        unknown@ == 0,
{
    lemma_drawn_from_the_range(random);
}

/// Any id of at most 62 bits comes off the wire, zero included, and any other is invalid; a
/// chain of up to 32 entries does, and a longer one is over the limit.
pub proof fn law_wire_limits(
    id: u64,
    count: u64,
    origin: Result<Origin, DecodeError>,
    entries: Result<usize, DecodeError>,
)
    requires
        call_ensures(Origin::from_wire, (id,), origin),
        call_ensures(OriginList::count_from_wire, (count,), entries),
    ensures
        id < 4_611_686_018_427_387_904 ==> origin is Ok && origin->Ok_0@ == id,
        id >= 4_611_686_018_427_387_904 ==> origin == Err::<Origin, DecodeError>(
            DecodeError::InvalidValue,
        ),
        count <= 32 ==> entries is Ok && entries->Ok_0 == count,
        count > 32 ==> entries == Err::<usize, DecodeError>(DecodeError::BoundsExceeded),
{
}

/// Reading what was written gives an origin back, and a chain; what follows is left.
pub proof fn law_written_origins_are_read(
    origin: Origin,
    list: OriginList,
    w: &mut Vec<u8>,
    written: Result<(), EncodeError>,
    r: &mut &[u8],
    one: Result<Origin, DecodeError>,
    all: Result<OriginList, DecodeError>,
    whole: bool,
    rest: Seq<u8>,
)
    requires
        whole ==> call_ensures(OriginList::encode, (&list, w), written) && call_ensures(
            OriginList::decode,
            (r,),
            all,
        ),
        !whole ==> call_ensures(Origin::encode, (&origin, w), written) && call_ensures(
            Origin::decode,
            (r,),
            one,
        ) && origin@ < 4_611_686_018_427_387_904,
        old(w)@.len() == 0,
        old(r)@ == final(w)@ + rest,
    ensures
        written is Ok,
        final(r)@ == rest,
        !whole ==> one is Ok && one->Ok_0@ == origin@,
        whole ==> all is Ok && ids(all->Ok_0@) == ids(list@),
{
    if whole {
        assert(final(w)@ =~= list_wire(ids(list@)));
        law_list_round_trip(ids(list@), rest);
    } else {
        assert(final(w)@ =~= varint(origin@));
        law_origin_round_trip(origin@, rest);
    }
}

/// A chain is written as the number of its entries and then each of them, as numbers are.
pub proof fn law_chain_layout(ids: Seq<u64>, id: u64)
    ensures
        list_wire(ids) == varint(ids.len() as u64) + ids_wire(ids),
        ids_wire(Seq::empty()) == Seq::<u8>::empty(),
        ids_wire(ids.push(id)) == ids_wire(ids) + varint(id),
{
    lemma_ids_wire_push(ids, id);
}

proof fn lemma_ids_wire_push(ids: Seq<u64>, id: u64)
    ensures
        ids_wire(ids.push(id)) == ids_wire(ids) + varint(id),
    decreases ids.len(),
{
    if ids.len() == 0 {
        assert(ids.push(id).skip(1) =~= Seq::<u64>::empty());
        assert(ids_wire(Seq::<u64>::empty()) =~= Seq::<u8>::empty());
        assert(ids.push(id)[0] == id);
        assert(ids_wire(ids.push(id)) =~= ids_wire(ids) + varint(id));
    } else {
        lemma_ids_wire_push(ids.skip(1), id);
        assert(ids.push(id).skip(1) =~= ids.skip(1).push(id));
        assert(ids_wire(ids.push(id)) =~= ids_wire(ids) + varint(id));
    }
}

/// A chain grows to 32 entries, at its end, and refuses any more.
pub proof fn law_chain_grows_to_its_limit(
    list: &mut OriginList,
    origin: Origin,
    r: Result<(), TooManyOrigins>,
    fresh: OriginList,
    v: Vec<Origin>,
    converted: Result<OriginList, TooManyOrigins>,
)
    requires
        call_ensures(OriginList::push, (list, origin), r),
        call_ensures(OriginList::new, (), fresh),
        call_ensures(<OriginList as TryFrom<Vec<Origin>>>::try_from, (v,), converted),
    ensures
        old(list)@.len() < 32 ==> r is Ok && final(list)@ == old(list)@.push(origin),
        old(list)@.len() >= 32 ==> r is Err && final(list)@ == old(list)@,
        fresh@.len() == 0,
        v@.len() <= 32 ==> converted is Ok && converted->Ok_0@ == v@,
        v@.len() > 32 ==> converted is Err,
{
}

/// Replacing an origin changes the first entry that is it, and no other; without one nothing
/// changes.
pub proof fn law_first_match_is_replaced(
    list: &mut OriginList,
    target: Origin,
    replacement: Origin,
    r: bool,
    i: int,
)
    requires
        call_ensures(OriginList::replace_first, (list, target, replacement), r),
        0 <= i < old(list)@.len(),
    ensures
        r <==> old(list)@.contains(target),
        final(list)@.len() == old(list)@.len(),
        final(list)@[i] == if old(list)@[i] == target && forall|j: int|
            0 <= j < i ==> #[trigger] old(list)@[j] != target {
            replacement
        } else {
            old(list)@[i]
        },
{
    lemma_replaced_first(old(list)@, target, replacement, i);
}

proof fn lemma_replaced_first(list: Seq<Origin>, target: Origin, replacement: Origin, i: int)
    requires
        0 <= i < list.len(),
    ensures
        replaced_first(list, target, replacement).len() == list.len(),
        replaced_first(list, target, replacement)[i] == if list[i] == target && forall|j: int|
            0 <= j < i ==> #[trigger] list[j] != target {
            replacement
        } else {
            list[i]
        },
    decreases list.len(),
{
    if list[0] != target {
        let rest = list.skip(1);
        if i > 0 {
            lemma_replaced_first(rest, target, replacement, i - 1);
            assert(rest[i - 1] == list[i]);
            if forall|j: int| 0 <= j < i - 1 ==> #[trigger] rest[j] != target {
                assert forall|j: int| 0 <= j < i implies #[trigger] list[j] != target by {
                    if j > 0 {
                        assert(rest[j - 1] == list[j]);
                    }
                }
            }
            if forall|j: int| 0 <= j < i ==> #[trigger] list[j] != target {
                assert forall|j: int| 0 <= j < i - 1 implies #[trigger] rest[j] != target by {
                    assert(rest[j] == list[j + 1]);
                }
            }
        } else if rest.len() > 0 {
            lemma_replaced_first(rest, target, replacement, 0);
        }
    }
}

/// What a chain says of its entries is true of them.
pub proof fn law_chain_is_its_entries(
    list: OriginList,
    origin: Origin,
    there: bool,
    n: usize,
    none: bool,
    listed: &[Origin],
    copy: OriginList,
)
    requires
        call_ensures(OriginList::contains, (&list, &origin), there),
        call_ensures(OriginList::len, (&list,), n),
        call_ensures(OriginList::is_empty, (&list,), none),
        call_ensures(OriginList::as_slice, (&list,), listed),
        call_ensures(OriginList::clone, (&list,), copy),
    ensures
        there <==> exists|i: int| 0 <= i < list@.len() && #[trigger] list@[i] == origin,
        n == list@.len(),
        n <= 32,
        none <==> n == 0,
        listed@ == list@,
        copy@ == list@,
{
}

/// The ids of a chain are those of its entries, one for one.
pub proof fn law_ids_are_those_of_the_entries(list: Seq<Origin>, i: int)
    ensures
        ids(list).len() == list.len(),
        0 <= i < list.len() ==> ids(list)[i] == list[i]@,
{
}

/// A configuration starts out without a retention ceiling or a linger window, and a builder sets
/// its own part and leaves the others.
pub proof fn law_info_builders<P: Default>(
    id: Origin,
    info: Info<P>,
    fresh: Info<P>,
    pool: P,
    span: Duration,
    pooled: Info<P>,
    capped: Info<P>,
    lingering: Info<P>,
)
    requires
        call_ensures(Info::<P>::new, (id,), fresh),
        call_ensures(Info::<P>::with_pool, (info, pool), pooled),
        call_ensures(Info::<P>::with_cache_duration, (info, span), capped),
        call_ensures(Info::<P>::with_linger, (info, span), lingering),
    ensures
        fresh.id == id && fresh.linger@ == 0 && fresh.cache_duration@
            == 18_446_744_073_709_551_616int * 1_000_000_000 - 1,
        pooled.pool == pool && pooled.id == info.id && pooled.linger == info.linger
            && pooled.cache_duration == info.cache_duration,
        capped.cache_duration == span && capped.id == info.id && capped.pool == info.pool
            && capped.linger == info.linger,
        lingering.linger == span && lingering.id == info.id && lingering.pool == info.pool
            && lingering.cache_duration == info.cache_duration,
{
}

/// A default chain is empty, and a default configuration has an unknown origin, no ceiling and no
/// window.
pub proof fn law_origin_defaults<P: Default>(list: OriginList, info: Info<P>)
    requires
        call_ensures(OriginList::default, (), list),
        call_ensures(Info::<P>::default, (), info),
    ensures
        list@.len() == 0,
        info.id@ == 0,
        info.linger@ == 0,
        info.cache_duration@ == 18_446_744_073_709_551_616int * 1_000_000_000 - 1,
        call_ensures(P::default, (), info.pool),
{
}

} // verus!
