use moq_origin::cache::Pool;
use moq_origin::coding::{decode_varint, encode_varint, DecodeError, EncodeError};
use moq_origin::origin::{Info, InvalidOrigin, Origin, OriginList, TooManyOrigins, MAX_HOPS};
use moq_origin::time::{deadline, millis_of, Clock, Duration, MAX_INSTANT, MAX_NANOS};

#[test]
fn origin_rejects_reserved_ids() {
    assert!(Origin::new(0).is_err());
    assert!(Origin::new(1u64 << 62).is_err());
    assert_eq!(Origin::new(1).unwrap().id(), 1);

    let mut zero = [0u8].as_slice();
    assert_eq!(Origin::decode(&mut zero).unwrap(), Origin::unknown());
}

#[test]
fn origin_list_push_fails_at_limit() {
    let mut list = OriginList::new();
    for _ in 0..MAX_HOPS {
        list.push(Origin::random()).unwrap();
    }
    assert_eq!(list.len(), MAX_HOPS);
    assert!(matches!(list.push(Origin::random()), Err(TooManyOrigins { .. })));
    assert_eq!(list.len(), MAX_HOPS);
}

#[test]
fn origin_list_replace_first() {
    let mut list = OriginList::new();
    for _ in 0..3 {
        list.push(Origin::unknown()).unwrap();
    }

    // Rewrites only the first placeholder, keeping the length the same.
    assert!(list.replace_first(Origin::unknown(), Origin::new(7).unwrap()));
    assert_eq!(
        list.as_slice(),
        &[Origin::new(7).unwrap(), Origin::unknown(), Origin::unknown()]
    );

    // No match leaves the list untouched.
    assert!(!list.replace_first(Origin::new(99).unwrap(), Origin::new(8).unwrap()));
    assert_eq!(list.len(), 3);
}

#[test]
fn origin_list_try_from_vec_enforces_limit() {
    let under: Vec<Origin> = (0..MAX_HOPS).map(|_| Origin::random()).collect();
    assert!(OriginList::try_from(under).is_ok());

    let over: Vec<Origin> = (0..MAX_HOPS + 1).map(|_| Origin::random()).collect();
    assert!(matches!(OriginList::try_from(over), Err(TooManyOrigins { .. })));
}

#[test]
fn random_origins_are_small_and_differ() {
    let mut seen = Vec::new();
    for _ in 0..100 {
        let id = Origin::random().id();
        assert!(id > 0 && id < 1 << 53);
        seen.push(id);
    }
    seen.sort();
    seen.dedup();
    assert!(seen.len() > 90);
}

#[test]
fn origin_from_number() {
    assert_eq!(Origin::try_from(5u64).unwrap().id(), 5);
    let err = Origin::try_from(0u64).unwrap_err();
    assert_eq!(err.message(), "local origin id must be non-zero and below 2^62");
    assert!(matches!(Origin::try_from(1u64 << 63), Err(InvalidOrigin { .. })));
    assert_eq!(Origin::try_from((1u64 << 62) - 1).unwrap().id(), (1u64 << 62) - 1);
}

#[test]
fn list_lookups() {
    let a = Origin::new(1).unwrap();
    let b = Origin::new(2).unwrap();
    let mut list = OriginList::new();
    assert!(list.is_empty());
    list.push(a).unwrap();
    assert!(!list.is_empty());
    assert!(list.contains(&a));
    assert!(!list.contains(&b));
    assert_eq!(list.iter().count(), 1);
    assert_eq!(list.clone(), list);
    assert_eq!(OriginList::default().len(), 0);
}

#[test]
fn limit_error_in_words() {
    let err = OriginList::try_from(vec![Origin::unknown(); 33]).unwrap_err();
    assert_eq!(err.message(), "too many origins (max 32)");
    assert_eq!(DecodeError::from(err), DecodeError::BoundsExceeded);
}

#[test]
fn varint_wire_values() {
    let cases: Vec<(u64, Vec<u8>)> = vec![
        (0, vec![0]),
        (37, vec![0x25]),
        (63, vec![0x3f]),
        (64, vec![0x40, 0x40]),
        (15293, vec![0x7b, 0xbd]),
        (16384, vec![0x80, 0x00, 0x40, 0x00]),
        (494878333, vec![0x9d, 0x7f, 0x3e, 0x7d]),
        (1 << 30, vec![0xc0, 0, 0, 0, 0x40, 0, 0, 0]),
        (151288809941952652, vec![0xc2, 0x19, 0x7c, 0x5e, 0xff, 0x14, 0xe8, 0x8c]),
        ((1 << 62) - 1, vec![0xff; 8]),
    ];
    for (value, wire) in cases {
        let mut w = vec![9];
        assert_eq!(encode_varint(value, &mut w), Ok(()));
        assert_eq!(w[1..], wire);
        let mut with_rest = wire.clone();
        with_rest.push(7);
        let mut r = with_rest.as_slice();
        assert_eq!(decode_varint(&mut r), Ok(value));
        assert_eq!(r, &[7]);
        let mut short = &wire[..wire.len() - 1];
        assert_eq!(decode_varint(&mut short), Err(DecodeError::Short));
    }
    // A longer encoding than needed reads the same.
    let mut long = [0x40u8, 0x25].as_slice();
    assert_eq!(decode_varint(&mut long), Ok(37));
    let mut w = Vec::new();
    assert_eq!(encode_varint(1 << 62, &mut w), Err(EncodeError::BoundsExceeded));
    assert!(w.is_empty());
}

#[test]
fn origin_wire_round_trip() {
    let mut w = Vec::new();
    Origin::new(300).unwrap().encode(&mut w).unwrap();
    assert_eq!(w, vec![0x41, 0x2c]);
    let mut r = w.as_slice();
    assert_eq!(Origin::decode(&mut r).unwrap().id(), 300);
    assert!(r.is_empty());
    assert_eq!(Origin::decode(&mut r), Err(DecodeError::Short));
}

#[test]
fn numbers_off_the_wire() {
    assert_eq!(Origin::from_wire(0), Ok(Origin::unknown()));
    assert_eq!(Origin::from_wire((1 << 62) - 1).unwrap().id(), (1 << 62) - 1);
    assert_eq!(Origin::from_wire(1 << 62), Err(DecodeError::InvalidValue));
    assert_eq!(Origin::from_wire(u64::MAX), Err(DecodeError::InvalidValue));
    assert_eq!(OriginList::count_from_wire(0), Ok(0));
    assert_eq!(OriginList::count_from_wire(32), Ok(32));
    assert_eq!(OriginList::count_from_wire(33), Err(DecodeError::BoundsExceeded));
    assert_eq!(OriginList::count_from_wire(u64::MAX), Err(DecodeError::BoundsExceeded));
}

#[test]
fn list_wire_round_trip() {
    let mut list = OriginList::new();
    for id in [1u64, 0x1234, 1 << 40] {
        list.push(Origin::new(id).unwrap()).unwrap();
    }
    let mut w = Vec::new();
    list.encode(&mut w).unwrap();
    assert_eq!(w, vec![3, 1, 0x52, 0x34, 0xc0, 0, 1, 0, 0, 0, 0, 0]);
    w.push(5);
    let mut r = w.as_slice();
    assert_eq!(OriginList::decode(&mut r).unwrap(), list);
    assert_eq!(r, &[5]);

    // Cut off within an entry.
    let mut r = &w[..3];
    assert_eq!(OriginList::decode(&mut r), Err(DecodeError::Short));
    // One entry too many, whatever follows.
    let mut r = [33u8, 1, 2].as_slice();
    assert_eq!(OriginList::decode(&mut r), Err(DecodeError::BoundsExceeded));
    let mut r = [].as_slice();
    assert_eq!(OriginList::decode(&mut r), Err(DecodeError::Short));
    let full = vec![32u8; 33];
    let mut r = full.as_slice();
    assert_eq!(OriginList::decode(&mut r).unwrap().len(), 32);
}

#[test]
fn info_builders() {
    let id = Origin::new(4).unwrap();
    let info: Info<Pool<u32>> = Info::new(id);
    assert_eq!(info.id, id);
    assert_eq!(info.pool.capacity(), None);
    assert_eq!(info.cache_duration.as_nanos(), MAX_NANOS);
    assert!(info.linger.is_zero());

    let info = info
        .with_pool(Pool::new(10))
        .with_linger(Duration::from_secs(1))
        .with_cache_duration(Duration::from_millis(5));
    assert_eq!(info.pool.capacity(), Some(10));
    assert_eq!(info.linger.as_nanos(), 1_000_000_000);
    assert_eq!(info.cache_duration.as_nanos(), 5_000_000);
    assert_eq!(info.id, id);

    let standalone: Info<Pool<u32>> = Info::default();
    assert_eq!(standalone.id, Origin::unknown());
}

#[test]
fn durations_and_deadlines() {
    assert_eq!(Duration::max().as_nanos(), std::time::Duration::MAX.as_nanos());
    assert_eq!(Duration::from_nanos(u128::MAX), Duration::max());
    assert_eq!(Duration::from_nanos(7).as_nanos(), 7);
    assert!(Duration::zero().is_zero());
    assert_eq!(deadline(5, Duration::from_nanos(10)), Some(15));
    assert_eq!(deadline(u64::MAX as u128, Duration::from_nanos(1)), Some(1 << 64));
    assert_eq!(deadline(MAX_INSTANT - 1, Duration::from_nanos(1)), Some(MAX_INSTANT));
    assert_eq!(deadline(MAX_INSTANT, Duration::from_nanos(1)), None);
    assert_eq!(deadline(0, Duration::max()), None);
    assert_eq!(deadline(u128::MAX, Duration::max()), None);
}

#[test]
fn clocks_go_forward() {
    let clock = Clock::new();
    let a = clock.nanos();
    let mut b = clock.nanos();
    let mut spins = 0;
    while b == a && spins < 1_000_000 {
        b = clock.nanos();
        spins += 1;
    }
    assert!(b > a);
    assert!(clock.millis() < 60_000);
}

#[test]
fn clock_readings_are_cut_to_a_word() {
    assert_eq!(millis_of(0), 0);
    assert_eq!(millis_of(999_999), 0);
    assert_eq!(millis_of(1_000_000), 1);
    assert_eq!(millis_of(12_345_678_901), 12_345);
    assert_eq!(millis_of((1u128 << 64) * 1_000_000 + 7_000_000), 7);
}
