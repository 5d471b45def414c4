use dutch_gen::RangeOrExact;
use rand::SeedableRng;
use rand::RngExt;
use rand_chacha::ChaCha8Rng;

#[test]
fn test_range_or_exact_parse_exact() {
    let parsed = RangeOrExact::parse("123").unwrap();
    assert!(matches!(parsed, RangeOrExact::Exact(123)));
}

#[test]
fn test_range_or_exact_parse_range() {
    let parsed = RangeOrExact::parse("10-20").unwrap();
    assert!(matches!(parsed, RangeOrExact::Range(10, 20)));
}

#[test]
fn test_range_or_exact_parse_invalid_format() {
    assert!(RangeOrExact::parse("abc").is_err());
    assert!(RangeOrExact::parse("10-abc").is_err());
    assert!(RangeOrExact::parse("abc-20").is_err());
}

#[test]
fn test_range_or_exact_parse_min_greater_than_max() {
    let res = RangeOrExact::parse("20-10");
    assert!(res.is_err());
    assert_eq!(res.unwrap_err(), "Min value 20 is greater than max value 10");
}

#[test]
fn parse_error_messages_name_the_bad_part() {
    assert_eq!(RangeOrExact::parse("abc").unwrap_err(), "Invalid value: abc");
    assert_eq!(RangeOrExact::parse("10-abc").unwrap_err(), "Invalid max value: abc");
    assert_eq!(RangeOrExact::parse("abc-20").unwrap_err(), "Invalid min value: abc");
    assert_eq!(RangeOrExact::parse("").unwrap_err(), "Invalid value: ");
    assert_eq!(RangeOrExact::parse("-5").unwrap_err(), "Invalid min value: ");
    assert_eq!(RangeOrExact::parse("1-2-3").unwrap_err(), "Invalid max value: 2-3");
}

#[test]
fn parse_accepts_plus_sign_and_leading_zeros() {
    assert!(matches!(RangeOrExact::parse("+7").unwrap(), RangeOrExact::Exact(7)));
    assert!(matches!(RangeOrExact::parse("007").unwrap(), RangeOrExact::Exact(7)));
    assert!(matches!(RangeOrExact::parse("+1-+2").unwrap(), RangeOrExact::Range(1, 2)));
    assert!(RangeOrExact::parse("+").is_err());
    assert!(RangeOrExact::parse(" 5").is_err());
}

#[test]
fn parse_equal_bounds_and_overflow() {
    assert!(matches!(RangeOrExact::parse("5-5").unwrap(), RangeOrExact::Range(5, 5)));
    let max = usize::MAX.to_string();
    assert!(matches!(RangeOrExact::parse(&max).unwrap(), RangeOrExact::Exact(v) if v == usize::MAX));
    let over = format!("{}0", usize::MAX);
    assert_eq!(RangeOrExact::parse(&over).unwrap_err(), format!("Invalid value: {over}"));
}

#[test]
fn parse_roundtrips_decimal_renderings() {
    for n in [0usize, 1, 9, 10, 99, 12345, usize::MAX] {
        assert!(matches!(RangeOrExact::parse(&n.to_string()).unwrap(), RangeOrExact::Exact(v) if v == n));
    }
    for (a, b) in [(0usize, 0usize), (3, 17), (100, 5000)] {
        let s = format!("{a}-{b}");
        assert!(matches!(RangeOrExact::parse(&s).unwrap(), RangeOrExact::Range(x, y) if x == a && y == b));
    }
    assert_eq!(
        RangeOrExact::parse("9-3").unwrap_err(),
        "Min value 9 is greater than max value 3"
    );
}

#[test]
fn resolve_stays_within_the_range() {
    let mut rng = ChaCha8Rng::seed_from_u64(7);
    assert_eq!(RangeOrExact::Exact(42).resolve(&mut rng), 42);
    for _ in 0..200 {
        let v = RangeOrExact::Range(10, 20).resolve(&mut rng);
        assert!((10..=20).contains(&v));
    }
    assert_eq!(RangeOrExact::Range(5, 5).resolve(&mut rng), 5);
}

#[test]
fn resolving_an_exact_count_draws_nothing() {
    let mut rng = ChaCha8Rng::seed_from_u64(8);
    let mut fresh = ChaCha8Rng::seed_from_u64(8);
    assert_eq!(RangeOrExact::Exact(17).resolve(&mut rng), 17);
    assert_eq!(rng.random_range(0..u64::MAX), fresh.random_range(0..u64::MAX));
}
