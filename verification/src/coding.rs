//! The QUIC variable-length integer encoding (RFC 9000, section 16).
//!
//! The two high bits of the first byte give the length (1, 2, 4 or 8 bytes); the rest
//! is the value, big-endian. Values are at most 62 bits.

use bytes::{Buf, BufMut};
use vstd::prelude::*;

verus! {

/// One past the largest value a variable-length integer holds: 2^62.
pub const VARINT_LIMIT: u64 = 0x4000_0000_0000_0000;

/// Why a value could not be written.
#[derive(Clone, Copy, Debug, PartialEq, Eq, Structural)]
pub enum EncodeError {
    /// The value has more than 62 bits.
    BoundsExceeded,
}

/// Why a value could not be read.
#[derive(Clone, Copy, Debug, PartialEq, Eq, Structural)]
pub enum DecodeError {
    /// The input ended early.
    Short,
    /// A length was over its limit.
    BoundsExceeded,
    /// A value was outside its range.
    InvalidValue,
}

/// `bytes::Buf::get_u8` on a byte slice: takes the first byte off it. The call panics
/// on an empty slice, which the precondition rules out.
#[verifier::external_body]
fn get_u8(r: &mut &[u8]) -> (b: u8)
    requires
        old(r)@.len() > 0,
    ensures
        b == old(r)@[0],
        final(r)@ == old(r)@.skip(1),
{
    r.get_u8()
}

/// `bytes::BufMut::put_u8` on a vector: appends one byte.
#[verifier::external_body]
fn put_u8(w: &mut Vec<u8>, b: u8)
    ensures
        final(w)@ == old(w)@.push(b),
{
    w.put_u8(b)
}

/// The number of bytes a variable-length integer takes at the least.
pub open spec fn varint_len(v: int) -> nat {
    if v < 0x40 {
        1
    } else if v < 0x4000 {
        2
    } else if v < 0x4000_0000 {
        4
    } else {
        8
    }
}

/// What the length tag adds to the value of the whole encoding.
pub open spec fn varint_tag(len: nat) -> int {
    if len == 1 {
        0
    } else if len == 2 {
        0x4000
    } else if len == 4 {
        0x8000_0000
    } else {
        0xC000_0000_0000_0000
    }
}

/// `v` in `n` bytes, most significant first.
pub open spec fn big_endian(v: int, n: nat) -> Seq<u8>
    decreases n,
{
    if n == 0 {
        Seq::empty()
    } else {
        big_endian(v / 256, (n - 1) as nat).push((v % 256) as u8)
    }
}

/// The number written as `s`, most significant byte first.
pub open spec fn from_big_endian(s: Seq<u8>) -> int
    decreases s.len(),
{
    if s.len() == 0 {
        0
    } else {
        from_big_endian(s.drop_last()) * 256 + s.last()
    }
}

/// The encoding of `v`.
pub open spec fn varint(v: u64) -> Seq<u8> {
    big_endian(v + varint_tag(varint_len(v as int)), varint_len(v as int))
}

/// The length that a first byte announces.
pub open spec fn tag_len(first: u8) -> nat {
    if first < 0x40 {
        1
    } else if first < 0x80 {
        2
    } else if first < 0xC0 {
        4
    } else {
        8
    }
}

/// Reading a variable-length integer: the value or the error, and the bytes left.
/// Nothing is consumed on an error.
pub open spec fn read_varint(s: Seq<u8>) -> (Result<u64, DecodeError>, Seq<u8>) {
    if s.len() == 0 || s.len() < tag_len(s[0]) {
        (Err(DecodeError::Short), s)
    } else {
        let n = tag_len(s[0]);
        (Ok((from_big_endian(s.take(n as int)) - varint_tag(n)) as u64), s.skip(n as int))
    }
}

proof fn lemma_big_endian_len(v: int, n: nat)
    ensures
        big_endian(v, n).len() == n,
    decreases n,
{
    if n > 0 {
        lemma_big_endian_len(v / 256, (n - 1) as nat);
    }
}

/// 256^n.
spec fn radix(n: nat) -> int
    decreases n,
{
    if n == 0 {
        1
    } else {
        256 * radix((n - 1) as nat)
    }
}

proof fn lemma_radix_positive(n: nat)
    ensures
        radix(n) > 0,
    decreases n,
{
    if n > 0 {
        lemma_radix_positive((n - 1) as nat);
    }
}

proof fn lemma_big_endian_inverse(v: int, n: nat)
    requires
        0 <= v < radix(n),
    ensures
        from_big_endian(big_endian(v, n)) == v,
    decreases n,
{
    if n > 0 {
        lemma_big_endian_inverse(v / 256, (n - 1) as nat);
        let s = big_endian(v, n);
        assert(s.drop_last() =~= big_endian(v / 256, (n - 1) as nat));
    }
}

/// The most significant byte of `v` in `n` bytes.
proof fn lemma_big_endian_first(v: int, n: nat)
    requires
        n > 0,
        0 <= v < radix(n),
    ensures
        big_endian(v, n).len() == n,
        big_endian(v, n)[0] == v / radix((n - 1) as nat),
    decreases n,
{
    lemma_big_endian_len(v, n);
    reveal_with_fuel(big_endian, 2);
    reveal_with_fuel(radix, 2);
    if n > 1 {
        lemma_big_endian_first(v / 256, (n - 1) as nat);
        lemma_big_endian_len(v / 256, (n - 1) as nat);
        let k = radix((n - 2) as nat);
        lemma_radix_positive((n - 2) as nat);
        vstd::arithmetic::div_mod::lemma_div_denominator(v, 256, k);
        assert((v / 256) / k == v / (256 * k));
        assert(radix((n - 1) as nat) == 256 * k);
        assert(big_endian(v, n)[0] == big_endian(v / 256, (n - 1) as nat)[0]);
    } else {
        assert(v / 1 == v);
        assert(big_endian(v, n)[0] == v % 256);
    }
}

proof fn lemma_radix()
    ensures
        radix(0) == 1,
        radix(1) == 0x100,
        radix(2) == 0x1_0000,
        radix(3) == 0x100_0000,
        radix(4) == 0x1_0000_0000,
        radix(7) == 0x100_0000_0000_0000,
        radix(8) == 0x1_0000_0000_0000_0000,
{
    reveal_with_fuel(radix, 9);
}

/// Reading what was written gives the value back, and leaves what follows it.
pub proof fn law_varint_round_trip(v: u64, rest: Seq<u8>)
    requires
        v < VARINT_LIMIT,
    ensures
        read_varint(varint(v) + rest) == (Ok::<u64, DecodeError>(v), rest),
        varint(v).len() == varint_len(v as int),
{
    let n = varint_len(v as int);
    let total = v + varint_tag(n);
    lemma_radix();
    lemma_big_endian_first(total, n);
    lemma_big_endian_inverse(total, n);
    let s = varint(v) + rest;
    assert(s[0] == varint(v)[0]);
    assert(s.take(n as int) =~= varint(v));
    assert(s.skip(n as int) =~= rest);
}

/// Append the encoding of `v`.
pub fn encode_varint(v: u64, w: &mut Vec<u8>) -> (r: Result<(), EncodeError>)
    ensures
        v < VARINT_LIMIT ==> r == Ok::<(), EncodeError>(()) && final(w)@ == old(w)@ + varint(v),
        v >= VARINT_LIMIT ==> r == Err::<(), EncodeError>(EncodeError::BoundsExceeded) && final(w)@
            == old(w)@,
{
    if v >= VARINT_LIMIT {
        return Err(EncodeError::BoundsExceeded);
    }
    if v < 0x40 {
        put_big_endian(v, 1, w);
    } else if v < 0x4000 {
        put_big_endian(v + 0x4000, 2, w);
    } else if v < 0x4000_0000 {
        put_big_endian(v + 0x8000_0000, 4, w);
    } else {
        put_big_endian(v + 0xC000_0000_0000_0000, 8, w);
    }
    Ok(())
}

/// Append `v` in `n` bytes, most significant first.
fn put_big_endian(v: u64, n: usize, w: &mut Vec<u8>)
    ensures
        final(w)@ == old(w)@ + big_endian(v as int, n as nat),
    decreases n,
{
    if n > 0 {
        put_big_endian(v / 256, n - 1, w);
        put_u8(w, (v % 256) as u8);
        assert(w@ =~= old(w)@ + big_endian(v as int, n as nat));
    } else {
        assert(w@ =~= old(w)@ + big_endian(v as int, n as nat));
    }
}

proof fn lemma_from_big_endian_bound(s: Seq<u8>)
    ensures
        0 <= from_big_endian(s) < radix(s.len()),
    decreases s.len(),
{
    if s.len() > 0 {
        lemma_from_big_endian_bound(s.drop_last());
    }
}

/// Reading one byte more.
proof fn lemma_from_big_endian_first(s: Seq<u8>)
    requires
        s.len() > 0,
    ensures
        from_big_endian(s) == s[0] * radix((s.len() - 1) as nat) + from_big_endian(s.skip(1)),
    decreases s.len(),
{
    if s.len() == 1 {
        assert(s.skip(1) =~= Seq::<u8>::empty());
        assert(s.drop_last() =~= Seq::<u8>::empty());
        assert(from_big_endian(Seq::<u8>::empty()) == 0);
        assert(radix(0) == 1);
        assert(s[0] * radix(0) == s[0]);
    } else {
        let head = s.drop_last();
        lemma_from_big_endian_first(head);
        let k = radix((s.len() - 2) as nat);
        let low = from_big_endian(head.skip(1));
        assert(head[0] == s[0]);
        assert(head.skip(1) =~= s.skip(1).drop_last());
        assert(s.skip(1).last() == s.last());
        assert(from_big_endian(s.skip(1)) == low * 256 + s.last());
        assert(radix((s.len() - 1) as nat) == 256 * k);
        assert(from_big_endian(head) == s[0] * k + low);
        assert((s[0] * k + low) * 256 == s[0] * (256 * k) + low * 256) by (nonlinear_arith);
    }
}

/// Read a variable-length integer off the front of a slice.
pub fn decode_varint(r: &mut &[u8]) -> (res: Result<u64, DecodeError>)
    ensures
        (res, final(r)@) == read_varint(old(r)@),
{
    let ghost start = r@;
    if r.len() == 0 {
        return Err(DecodeError::Short);
    }
    let first: u8 = (*r)[0];
    let mut n: usize = 8;
    let mut tag: u64 = 0xC000_0000_0000_0000;
    if first < 0x40 {
        n = 1;
        tag = 0;
    } else if first < 0x80 {
        n = 2;
        tag = 0x4000;
    } else if first < 0xC0 {
        n = 4;
        tag = 0x8000_0000;
    }
    if r.len() < n {
        return Err(DecodeError::Short);
    }
    let mut value: u64 = 0;
    let mut i: usize = 0;
    while i < n
        invariant
            n <= 8,
            i <= n <= start.len(),
            r@ == start.skip(i as int),
            value == from_big_endian(start.take(i as int)),
        decreases n - i,
    {
        proof {
            lemma_radix();
            reveal_with_fuel(radix, 9);
            lemma_from_big_endian_bound(start.take(i as int));
            assert(start.take(i + 1).drop_last() =~= start.take(i as int));
            lemma_from_big_endian_bound(start.take(i + 1));
            assert(start.skip(i as int).skip(1) =~= start.skip(i + 1));
        }
        let b: u8 = get_u8(r);
        value = value * 256 + b as u64;
        i = i + 1;
    }
    proof {
        lemma_radix();
        let s = start.take(n as int);
        lemma_from_big_endian_first(s);
        lemma_from_big_endian_bound(s.skip(1));
        assert(s[0] == first);
        if n == 2 {
            assert(first * radix(1) == first * 0x100);
        } else if n == 4 {
            assert(first * radix(3) == first * 0x100_0000);
        } else if n == 8 {
            assert(first * radix(7) == first * 0x100_0000_0000_0000);
        }
    }
    Ok(value - tag)
}

/// A value is appended in the fewest of 1, 2, 4 or 8 bytes that hold it beside the two bits that
/// say how many. One of more than 62 bits is refused and nothing is written.
pub proof fn law_values_are_written_short(v: u64, w: &mut Vec<u8>, r: Result<(), EncodeError>)
    requires
        call_ensures(encode_varint, (v, w), r),
    ensures
        r is Ok <==> v < 4_611_686_018_427_387_904,
        r is Err ==> r == Err::<(), EncodeError>(EncodeError::BoundsExceeded) && final(w)@ == old(
            w,
        )@,
        r is Ok ==> old(w)@.is_prefix_of(final(w)@) && final(w)@.len() - old(w)@.len() == if v < 64 {
            1int
        } else if v < 16_384 {
            2
        } else if v < 1_073_741_824 {
            4
        } else {
            8
        },
{
    if v < VARINT_LIMIT {
        law_varint_round_trip(v, Seq::empty());
        assert(final(w)@.take(old(w)@.len() as int) =~= old(w)@);
    }
}

/// A value is read from as many bytes as the first one announces, in whatever length it was
/// written, and what follows is left. Where fewer are there nothing is taken.
pub proof fn law_varint_reading(r: &mut &[u8], res: Result<u64, DecodeError>)
    requires
        call_ensures(decode_varint, (r,), res),
    ensures
        ({
            let s = old(r)@;
            let n: int = if s[0] < 64 {
                1
            } else if s[0] < 128 {
                2
            } else if s[0] < 192 {
                4
            } else {
                8
            };
            &&& res is Ok <==> s.len() > 0 && s.len() >= n
            &&& res is Err ==> res == Err::<u64, DecodeError>(DecodeError::Short) && final(r)@ == s
            &&& res is Ok ==> final(r)@ == s.skip(n)
            &&& res is Ok && n == 1 ==> res->Ok_0 == s[0]
            &&& res is Ok && n == 2 ==> res->Ok_0 == (s[0] - 64) * 256 + s[1]
            &&& res is Ok && n == 4 ==> res->Ok_0 == (s[0] - 128) * 16_777_216 + s[1] * 65_536
                + s[2] * 256 + s[3]
            &&& res is Ok && n == 8 ==> res->Ok_0 == (s[0] - 192) * 72_057_594_037_927_936 + s[1]
                * 281_474_976_710_656 + s[2] * 1_099_511_627_776 + s[3] * 4_294_967_296 + s[4]
                * 16_777_216 + s[5] * 65_536 + s[6] * 256 + s[7]
        }),
{
    let s = old(r)@;
    reveal_with_fuel(from_big_endian, 9);
    if s.len() > 0 && s.len() >= tag_len(s[0]) {
        let n = tag_len(s[0]) as int;
        lemma_radix();
        lemma_from_big_endian_first(s.take(n));
        lemma_from_big_endian_bound(s.take(n).skip(1));
        assert(s.take(n)[0] == s[0]);
        let a = s.take(n);
        assert(a.drop_last() =~= s.take(n - 1));
        if n >= 2 {
            assert(s.take(n - 1).drop_last() =~= s.take(n - 2));
        }
        if n >= 4 {
            assert(s.take(n - 2).drop_last() =~= s.take(n - 3));
            assert(s.take(n - 3).drop_last() =~= s.take(n - 4));
        }
        if n == 8 {
            assert(s.take(4).drop_last() =~= s.take(3));
            assert(s.take(3).drop_last() =~= s.take(2));
            assert(s.take(2).drop_last() =~= s.take(1));
            assert(s.take(1).drop_last() =~= s.take(0));
        }
    }
}

/// Reading what was written gives the value back and leaves nothing of it.
pub proof fn law_written_values_are_read(
    v: u64,
    w: &mut Vec<u8>,
    written: Result<(), EncodeError>,
    r: &mut &[u8],
    res: Result<u64, DecodeError>,
    rest: Seq<u8>,
)
    requires
        call_ensures(encode_varint, (v, w), written),
        call_ensures(decode_varint, (r,), res),
        written is Ok,
        old(w)@.len() == 0,
        old(r)@ == final(w)@ + rest,
    ensures
        res == Ok::<u64, DecodeError>(v),
        final(r)@ == rest,
{
    assert(final(w)@ =~= varint(v));
    law_varint_round_trip(v, rest);
}

} // verus!
