use pidjezdy::selection::floor_minutes;
use pidjezdy::text::{push_decimal, push_signed_decimal, trim_owned};
use pidjezdy::time::{seconds_between, UtcTime};

fn at(seconds: i64, nanos: u32) -> UtcTime {
    UtcTime { seconds, nanos }
}

#[test]
fn whole_seconds_between_round_toward_zero() {
    assert_eq!(seconds_between(&at(10, 0), &at(0, 0)), 10);
    assert_eq!(seconds_between(&at(10, 500_000_000), &at(0, 0)), 10);
    assert_eq!(seconds_between(&at(0, 0), &at(10, 500_000_000)), -10);
    assert_eq!(seconds_between(&at(0, 0), &at(0, 999_999_999)), 0);
    assert_eq!(seconds_between(&at(-5, 0), &at(5, 0)), -10);
}

#[test]
fn instants_compare_by_seconds_then_nanoseconds() {
    assert!(at(1, 0).is_before(&at(2, 0)));
    assert!(at(1, 1).is_before(&at(1, 2)));
    assert!(!at(1, 2).is_before(&at(1, 2)));
    assert!(at(3, 4).same_instant(&at(3, 4)));
    assert!(!at(3, 4).same_instant(&at(3, 5)));
    assert_eq!(UtcTime::from_seconds(7), at(7, 0));
}

#[test]
fn minutes_round_down_toward_negative_infinity() {
    assert_eq!(floor_minutes(0), 0);
    assert_eq!(floor_minutes(59), 0);
    assert_eq!(floor_minutes(60), 1);
    assert_eq!(floor_minutes(-1), -1);
    assert_eq!(floor_minutes(-60), -1);
    assert_eq!(floor_minutes(-61), -2);
    assert_eq!(floor_minutes(i64::MIN), i64::MIN.div_euclid(60));
}

#[test]
fn decimals_and_trimming_match_std() {
    for n in [0u64, 7, 10, 1234567890, u64::MAX] {
        let mut s = String::new();
        push_decimal(&mut s, n);
        assert_eq!(s, n.to_string());
    }
    for n in [0i64, -1, 42, i64::MIN, i64::MAX] {
        let mut s = String::new();
        push_signed_decimal(&mut s, n);
        assert_eq!(s, n.to_string());
    }
    for text in ["", "  ", " a b ", "\u{3000}x\u{85}", "\u{200b}y"] {
        assert_eq!(trim_owned(text), text.trim());
    }
}

#[test]
fn well_formed_instants_stay_in_range() {
    assert!(at(0, 0).is_wf());
    assert!(at(8_000_000_000_000, 999_999_999).is_wf());
    assert!(at(-8_000_000_000_000, 0).is_wf());
    assert!(!at(8_000_000_000_001, 0).is_wf());
    assert!(!at(0, 1_000_000_000).is_wf());
}
