//! Clocks and spans of time.

use vstd::prelude::*;

verus! {

/// The longest span: 2^64 - 1 seconds and 999,999,999 nanoseconds.
pub const MAX_NANOS: u128 = 18_446_744_073_709_551_615_999_999_999;

/// The furthest reading of a clock that a deadline can have, in nanoseconds: 2^63 - 1 seconds
/// and 999,999,999 nanoseconds, as a signed 64-bit count of seconds allows.
pub const MAX_INSTANT: u128 = 9_223_372_036_854_775_807_999_999_999;

/// Nanoseconds in a second.
pub const NANOS_PER_SEC: u128 = 1_000_000_000;

/// Nanoseconds in a millisecond.
pub const NANOS_PER_MILLI: u128 = 1_000_000;

/// A span of time.
#[derive(Clone, Copy, Debug, PartialEq, Eq, Structural)]
pub struct Duration {
    nanos: u128,
}

impl View for Duration {
    type V = nat;

    closed spec fn view(&self) -> nat {
        self.nanos as nat
    }
}

impl Duration {
    /// The empty span.
    pub fn zero() -> (r: Self)
        ensures
            r@ == 0,
    {
        Duration { nanos: 0 }
    }

    /// The longest span.
    pub fn max() -> (r: Self)
        ensures
            r@ == MAX_NANOS,
    {
        Duration { nanos: MAX_NANOS }
    }

    /// A span of whole seconds.
    pub fn from_secs(secs: u64) -> (r: Self)
        ensures
            r@ == secs * NANOS_PER_SEC,
    {
        Duration { nanos: secs as u128 * NANOS_PER_SEC }
    }

    /// A span of whole milliseconds.
    pub fn from_millis(millis: u64) -> (r: Self)
        ensures
            r@ == millis * NANOS_PER_MILLI,
    {
        Duration { nanos: millis as u128 * NANOS_PER_MILLI }
    }

    /// A span of whole nanoseconds, cut off at the longest one.
    pub fn from_nanos(nanos: u128) -> (r: Self)
        ensures
            r@ == if nanos <= MAX_NANOS {
                nanos as nat
            } else {
                MAX_NANOS as nat
            },
    {
        if nanos <= MAX_NANOS {
            Duration { nanos }
        } else {
            Duration { nanos: MAX_NANOS }
        }
    }

    /// The span in nanoseconds.
    pub fn as_nanos(&self) -> (r: u128)
        ensures
            r == self@,
    {
        self.nanos
    }

    /// Whether the span is empty.
    pub fn is_zero(&self) -> (r: bool)
        ensures
            r == (self@ == 0),
    {
        self.nanos == 0
    }
}

/// A point in time on the clock of the async runtime.
#[verifier::external_type_specification]
#[verifier::external_body]
pub struct ExInstant(web_async::time::Instant);

/// `web_async::time::Instant::now`: the current instant. Nothing is claimed of it.
#[verifier::external_body]
fn instant_now() -> web_async::time::Instant {
    web_async::time::Instant::now()
}

/// `web_async::time::Instant::elapsed`, in whole nanoseconds. The reading depends on the
/// clock, so nothing is claimed of it.
#[verifier::external_body]
fn elapsed_nanos(epoch: &web_async::time::Instant) -> u128 {
    epoch.elapsed().as_nanos()
}

/// Measures the time since it was made.
pub struct Clock {
    epoch: web_async::time::Instant,
}

impl Clock {
    /// A clock that starts now.
    pub fn new() -> Self {
        Clock { epoch: instant_now() }
    }

    /// Whether the clock can be read as `nanos`: the time elapsed since it was made came to
    /// that. Nothing says which readings those are, so a number is one only if it was read.
    pub closed spec fn reads(&self, nanos: u128) -> bool {
        call_ensures(elapsed_nanos, (&self.epoch,), nanos)
    }

    /// Whole milliseconds since the clock was made: [`millis_of`] a reading in nanoseconds.
    pub fn millis(&self) -> (r: u64)
        ensures
            exists|nanos: u128|
                #[trigger] self.reads(nanos) && r == (nanos / NANOS_PER_MILLI)
                    % 0x1_0000_0000_0000_0000,
    {
        let nanos: u128 = self.nanos();
        assert(self.reads(nanos));
        millis_of(nanos)
    }

    /// Nanoseconds since the clock was made: a reading of it.
    pub fn nanos(&self) -> (r: u128)
        ensures
            self.reads(r),
    {
        elapsed_nanos(&self.epoch)
    }
}

/// The reading in whole milliseconds of a clock that ran for `elapsed` nanoseconds, modulo
/// 2^64.
pub fn millis_of(elapsed: u128) -> (r: u64)
    ensures
        r == (elapsed / NANOS_PER_MILLI) % 0x1_0000_0000_0000_0000,
{
    let millis: u128 = elapsed / NANOS_PER_MILLI;
    assert(millis as u64 == millis % 0x1_0000_0000_0000_0000) by (bit_vector);
    millis as u64
}

/// An instant `span` after `now`, both in nanoseconds since some fixed instant; `None`
/// when it is too far off to represent.
pub open spec fn deadline_after(now: u128, span: nat) -> Option<u128> {
    if now + span <= MAX_INSTANT {
        Some((now + span) as u128)
    } else {
        None
    }
}

/// The instant `span` after `now`, or `None` when it is too far off to represent.
pub fn deadline(now: u128, span: Duration) -> (r: Option<u128>)
    ensures
        r == deadline_after(now, span@),
{
    if now > MAX_INSTANT || span.nanos > MAX_INSTANT - now {
        None
    } else {
        Some(now + span.nanos)
    }
}

// ---------------------------------------------------------------------------
// Laws
// ---------------------------------------------------------------------------

/// A deadline is exactly one span after the instant it counts from, and is missing only when
/// that lies beyond what 2^63 seconds hold.
pub proof fn law_deadline_is_one_span_away(now: u128, span: Duration, at: Option<u128>)
    requires
        call_ensures(deadline, (now, span), at),
    ensures
        at is Some <==> now + span@ < 9_223_372_036_854_775_808int * 1_000_000_000,
        at is Some ==> at->0 - now == span@,
{
}

/// A reading in milliseconds is the number of whole milliseconds in the time elapsed, as long
/// as that fits 64 bits.
pub proof fn law_millis_round_down(elapsed: u128, millis: u64)
    requires
        call_ensures(millis_of, (elapsed,), millis),
        elapsed < 1_000_000 * 0x1_0000_0000_0000_0000int,
    ensures
        millis * 1_000_000 <= elapsed < (millis + 1) * 1_000_000,
{
}

/// A reading of a clock is what the time elapsed since its epoch came to.
proof fn lemma_readings_are_elapsed_time(clock: Clock, nanos: u128)
    ensures
        clock.reads(nanos) <==> call_ensures(elapsed_nanos, (&clock.epoch,), nanos),
{
}

/// What a clock reads in nanoseconds is a reading of that clock, and what it reads in
/// milliseconds is one in whole milliseconds.
pub proof fn law_clocks_are_read(clock: Clock, nanos: u128, millis: u64)
    ensures
        call_ensures(Clock::nanos, (&clock,), nanos) ==> clock.reads(nanos),
        call_ensures(Clock::millis, (&clock,), millis) ==> exists|at: u128|
            #[trigger] clock.reads(at) && millis == (at / 1_000_000) % 0x1_0000_0000_0000_0000,
{
    lemma_readings_are_elapsed_time(clock, nanos);
}

/// A second has a thousand milliseconds of a million nanoseconds each, whatever a span is
/// counted in.
pub proof fn law_spans_have_one_unit(n: u64, secs: Duration, millis: Duration, nanos: Duration)
    requires
        call_ensures(Duration::from_secs, (n,), secs),
        call_ensures(Duration::from_millis, (n,), millis),
        call_ensures(Duration::from_nanos, (n as u128,), nanos),
    ensures
        nanos@ == n,
        millis@ == 1_000_000 * nanos@,
        secs@ == 1_000 * millis@,
{
}

/// Measuring a span and making it again gives the span.
pub proof fn law_span_round_trip(span: Duration, nanos: u128, again: Duration)
    requires
        call_ensures(Duration::as_nanos, (&span,), nanos),
        call_ensures(Duration::from_nanos, (nanos,), again),
    ensures
        span@ < 18_446_744_073_709_551_616int * 1_000_000_000 ==> again@ == span@,
        span@ >= 18_446_744_073_709_551_616int * 1_000_000_000 ==> again@
            == 18_446_744_073_709_551_616int * 1_000_000_000 - 1,
{
}

/// The empty span is empty and no other is; no span is longer than the longest one.
pub proof fn law_span_ends(span: Duration, zero: Duration, max: Duration, made: Duration, n: u128, empty: bool)
    requires
        call_ensures(Duration::zero, (), zero),
        call_ensures(Duration::max, (), max),
        call_ensures(Duration::from_nanos, (n,), made),
        call_ensures(Duration::is_zero, (&span,), empty),
    ensures
        empty <==> span@ == zero@,
        zero@ == 0,
        max@ == 18_446_744_073_709_551_616int * 1_000_000_000 - 1,
        made@ <= max@,
{
}

} // verus!
