use num_bigint::BigUint;
use othello_full_search::count::{add_reach_count, add_terminal_paths, parse_big, terminal_path_total};
use othello_full_search::error::Error;

#[test]
fn counts_are_read_without_bound() {
    assert_eq!(parse_big("0").unwrap(), BigUint::from(0u8));
    assert_eq!(parse_big("0042").unwrap(), BigUint::from(42u8));
    assert_eq!(parse_big("+7").unwrap(), BigUint::from(7u8));
    assert_eq!(parse_big("1_000").unwrap(), BigUint::from(1000u16));
    let large = "340282366920938463463374607431768211456";
    assert_eq!(parse_big(large).unwrap(), BigUint::from(u128::MAX) + 1u8);
    assert_eq!(parse_big(large).unwrap().to_string(), large);
}

#[test]
fn texts_that_are_no_count_are_refused() {
    for text in ["", "+", "-1", "12a", "_1", "1 ", "++1", "+_1", "0x10", "\u{663}"] {
        let error = parse_big(text).unwrap_err();
        assert!(matches!(error, Error::Count { .. }));
        assert_eq!(error.message(), format!("invalid integer in database: {text}"));
    }
}

#[test]
fn refused_counts_tell_why() {
    for text in ["", "+"] {
        let cause = parse_big(text).unwrap_err().cause().unwrap();
        assert_eq!(cause, "cannot parse integer from empty string");
    }
    for text in ["-1", "12a", "_1", "++", "+_1", "\u{663}"] {
        let cause = parse_big(text).unwrap_err().cause().unwrap();
        assert_eq!(cause, "invalid digit found in string");
    }
}

#[test]
fn reach_counts_grow_by_the_delta() {
    let delta = BigUint::from(5u8);
    assert_eq!(add_reach_count("0", &delta).unwrap(), "5");
    assert_eq!(add_reach_count("18446744073709551615", &delta).unwrap(), "18446744073709551620");
    let error = add_reach_count("many", &delta).unwrap_err();
    assert_eq!(error.message(), "invalid integer in database: many");
}

#[test]
fn adding_twice_is_adding_the_sum() {
    let (a, b) = (BigUint::from(999u16), BigUint::from(2u8));
    let once = add_reach_count("41", &a).unwrap();
    assert_eq!(once, "1040");
    assert_eq!(add_reach_count(&once, &b).unwrap(), add_reach_count("41", &(a + b)).unwrap());
}

#[test]
fn buckets_start_at_the_delta() {
    let delta = BigUint::from(12u8);
    assert_eq!(add_terminal_paths(&None, &delta).unwrap(), "12");
    assert_eq!(add_terminal_paths(&Some("30".to_string()), &delta).unwrap(), "42");
    assert!(add_terminal_paths(&Some("x".to_string()), &delta).is_err());
}

#[test]
fn bucket_counts_are_summed() {
    assert_eq!(terminal_path_total(&vec![]).unwrap(), BigUint::from(0u8));
    let texts = vec!["18446744073709551615".to_string(), "1".to_string(), "4".to_string()];
    assert_eq!(terminal_path_total(&texts).unwrap().to_string(), "18446744073709551620");
    let broken = vec!["1".to_string(), "bad".to_string(), "worse".to_string()];
    assert_eq!(terminal_path_total(&broken).unwrap_err().message(), "invalid integer in database: bad");
}
