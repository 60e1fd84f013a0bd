use obzenflow_topology::{Ulid, UlidClock, UlidDecodeError, UlidGenError};

const CROCKFORD: &[u8] = b"0123456789ABCDEFGHJKMNPQRSTVWXYZ";

#[test]
fn test_ulid_creation() {
    let mut clock = UlidClock::new();
    let ulid1 = Ulid::new(&mut clock).unwrap();
    let ulid2 = Ulid::new(&mut clock).unwrap();
    assert_ne!(ulid1, ulid2);
}

#[test]
fn test_ulid_string_format() {
    let mut clock = UlidClock::new();
    let ulid = Ulid::new(&mut clock).unwrap();
    let s = ulid.to_string();
    assert_eq!(s.len(), 26);
    assert!(s.chars().all(|c| CROCKFORD.contains(&(c as u8))));
}

#[test]
fn test_ulid_binary_roundtrip() {
    let mut clock = UlidClock::new();
    let ulid = Ulid::new(&mut clock).unwrap();
    let binary = ulid.to_u128();
    let restored = Ulid::from_u128(binary);
    assert_eq!(ulid, restored);
}

#[test]
fn test_u128_conversion() {
    let mut clock = UlidClock::new();
    let ulid = Ulid::new(&mut clock).unwrap();
    let as_u128: u128 = ulid.into();
    let back: Ulid = as_u128.into();
    assert_eq!(ulid, back);
}

#[test]
fn u128_layout_splits_timestamp_and_randomness() {
    let v: u128 = (0x0123_4567_89AB_u128 << 80) | (0xCDEF_u128 << 64) | 0x1122_3344_5566_7788_u128;
    let ulid = Ulid::from_u128(v);
    assert_eq!(ulid.to_u128(), v);
    assert_eq!(ulid.as_u128(), v);
    assert_eq!(Ulid::from(v), ulid);
    assert_eq!(ulid.as_bytes(), v.to_be_bytes());
}

#[test]
fn text_of_small_values() {
    assert_eq!(Ulid::from_u128(0).to_string(), "00000000000000000000000000");
    assert_eq!(Ulid::from_u128(1).to_string(), "00000000000000000000000001");
    assert_eq!(Ulid::from_u128(31).to_string(), "0000000000000000000000000Z");
    assert_eq!(Ulid::from_u128(32).to_string(), "00000000000000000000000010");
}

#[test]
fn text_keeps_only_sixty_low_randomness_bits() {
    // The top four of the 64 low randomness bits have no digit.
    let ulid = Ulid::from_u128(0xF000_0000_0000_0001_u128);
    assert_eq!(ulid.to_string(), "00000000000000000000000001");
    // The 16 high randomness bits take four digits of their own.
    let high = Ulid::from_u128(1_u128 << 64);
    assert_eq!(high.to_string(), "00000000000001000000000000");
    // The timestamp takes the first ten digits.
    let ts = Ulid::from_u128(5_u128 << 80);
    assert_eq!(ts.to_string(), "00000000050000000000000000");
}

#[test]
fn decode_reads_timestamp_and_randomness() {
    let ulid = Ulid::decode("0000000005000000000000000Z").unwrap();
    assert_eq!(ulid.to_u128(), (5_u128 << 80) | 31);
    let ulid = Ulid::decode("00000000000000000000000001").unwrap();
    assert_eq!(ulid, Ulid::from_u128(1));
}

#[test]
fn decode_keeps_sixty_four_randomness_bits_and_top_four_as_high() {
    // 16 randomness digits hold 80 bits; only the low 64 are kept, and their
    // top four bits are also stored as the high randomness.
    let ulid = Ulid::decode("0000000000000F000000000000").unwrap();
    assert_eq!(ulid.to_u128(), (0xF_u128 << 64) | 0xF000_0000_0000_0000_u128);
    let dropped = Ulid::decode("00000000001000000000000000").unwrap();
    assert_eq!(dropped.to_u128(), 0);
}

#[test]
fn decode_rejects_wrong_length() {
    assert_eq!(Ulid::decode("0123"), Err(UlidDecodeError::WrongLength));
    assert_eq!(Ulid::decode(""), Err(UlidDecodeError::WrongLength));
    assert_eq!(UlidDecodeError::WrongLength.message(), "ULID must be 26 characters");
}

#[test]
fn decode_rejects_invalid_characters() {
    assert_eq!(Ulid::decode("0000000000000000000000000I"), Err(UlidDecodeError::InvalidCharacter));
    assert_eq!(Ulid::decode("u0000000000000000000000000"), Err(UlidDecodeError::InvalidCharacter));
    assert_eq!(UlidDecodeError::InvalidCharacter.message(), "Invalid ULID character");
}

#[test]
fn clock_counts_within_a_millisecond_and_restarts_on_a_new_one() {
    let mut clock = UlidClock::new();
    let first = clock.next(7);
    // new millisecond: randomness = 7 ^ (7 << 32)
    let r: u128 = 7 ^ (7 << 32);
    assert_eq!(first.to_u128(), (7_u128 << 80) | r);
    assert_eq!(clock.counter() as u128, r);
    let second = clock.next(7);
    assert_eq!(second.to_u128(), (7_u128 << 80) | (r + 1));
    assert_eq!(clock.counter() as u128, r + 1);
    let third = clock.next(8);
    let r8: u128 = 8 ^ (8 << 32);
    assert_eq!(third.to_u128(), (8_u128 << 80) | r8);
}

#[test]
fn generated_ids_are_distinct_and_text_round_trips() {
    let mut clock = UlidClock::new();
    let a = Ulid::new(&mut clock).unwrap();
    let b = Ulid::new(&mut clock).unwrap();
    assert_ne!(a, b);
    assert_eq!(a.to_string().len(), 26);
}

#[test]
fn text_round_trips_when_randomness_fits_sixty_four_bits() {
    let text = "0000000005000F0000000004Z1";
    assert_eq!(Ulid::decode(text).unwrap().to_string(), text);
}

#[test]
fn text_decodes_back_when_high_randomness_is_top_of_low() {
    let low: u128 = (5 << 60) | 123;
    let value: u128 = (42 << 80) | (5 << 64) | low;
    let u = Ulid::from_u128(value);
    let back = Ulid::decode(&u.to_string()).unwrap();
    assert_eq!(back, u);
    assert_eq!(back.to_u128(), value);
}

#[test]
fn text_keeps_only_four_bits_of_high_randomness() {
    // high randomness 1, low randomness 0: the text holds the high part in
    // the bits that decoding reads as the top of the low randomness.
    let u = Ulid::from_u128(1 << 64);
    let back = Ulid::decode(&u.to_string()).unwrap();
    assert_ne!(back, u);
    assert_eq!(back.to_u128(), (1 << 64) | (1 << 60));
}

#[test]
fn draw_follows_the_clock_reading() {
    let mut clock = UlidClock::new();
    assert_eq!(Ulid::draw(&mut clock, None), Err(UlidGenError::ClockBeforeEpoch));
    assert_eq!(clock.counter(), 0);
    let t: u64 = 0xFFFF_FFFF;
    let first = Ulid::draw(&mut clock, Some(t)).unwrap();
    assert_eq!(first.to_u128(), 0x0000_FFFF_FFFF_FFFF_FFFF_FFFF_FFFF_FFFF);
    assert_eq!(clock.counter(), u64::MAX);
    assert_eq!(Ulid::draw(&mut clock, Some(t)), Err(UlidGenError::CounterExhausted));
    assert_eq!(clock.counter(), u64::MAX);
    let later = Ulid::draw(&mut clock, Some(t + 1)).unwrap();
    assert!(first.to_u128() < later.to_u128());
    assert!(first < later);
}

#[test]
fn successive_draws_increase() {
    let mut clock = UlidClock::new();
    let a = Ulid::draw(&mut clock, Some(1_000)).unwrap();
    let b = Ulid::draw(&mut clock, Some(1_000)).unwrap();
    let c = Ulid::draw(&mut clock, Some(1_001)).unwrap();
    assert!(a.to_u128() < b.to_u128());
    assert!(b.to_u128() < c.to_u128());
    assert_eq!(b.to_u128(), a.to_u128() + 1);
}

#[test]
fn new_draws_from_the_system_clock() {
    let mut clock = UlidClock::new();
    let a = Ulid::new(&mut clock).unwrap();
    let b = Ulid::new(&mut clock).unwrap();
    assert!(a < b);
}
