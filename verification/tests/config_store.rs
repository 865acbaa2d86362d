use actuator::config::{
    FullConfig, GpioPin, LineCursor, MaxTime, Multiplier, RelayCount, RelayMax, Timezone,
};
use actuator::codec::{validate, FieldKind};
use actuator::errors::ConfigError;

fn unlazy_skip(num_nexts: usize, skipped_upon: &mut LineCursor) {
    for _ in 0..num_nexts {
        let _ = skipped_upon.next_line();
    }
}

#[test]
fn full_config_new() {
    let c1 = RelayCount::set("120000", None).unwrap();
    let c2 = RelayMax::set("140000", Some(&c1)).unwrap();
    let c3 = MaxTime::set("50", Some(&c2)).unwrap();
    let c4 = GpioPin::set("8", Some(&c3)).unwrap();
    let c5 = Timezone::set("America/New_York", Some(&c4)).unwrap();
    let c6 = Multiplier::set("2.31", Some(&c5)).unwrap();

    assert_eq!(
        FullConfig::new(&c6).unwrap(),
        FullConfig {
            relay_count: 120000,
            relay_max: 140000,
            max_time: String::from("50"),
            gpio_pin: 8,
            timezone: String::from("America/New_York"),
            multiplier: String::from("2.31"),
        },
        "Failed FullConfig::new test",
    );
}

#[test]
fn relay_count() {
    let test_val = String::from("140000");
    let content = RelayCount::set(&test_val, None).unwrap();

    let mut lines = LineCursor::new(&content);
    let tested = RelayCount::get(&mut lines).unwrap();

    assert_eq!(
        test_val.parse::<u64>().unwrap(),
        tested.0,
        "Failed RelayCount::get/set test",
    );
}

#[test]
fn relay_max() {
    let test_val = String::from("120000");
    let content = RelayMax::set(&test_val, None).unwrap();

    let mut lines = LineCursor::new(&content);
    unlazy_skip(1, &mut lines);

    let tested = RelayMax::get(&mut lines).unwrap();

    assert_eq!(
        test_val.parse::<u64>().unwrap(),
        tested.0,
        "Failed RelayMax::get/set test",
    );
}

#[test]
fn max_time() {
    let test_val = String::from("140000");
    let content = MaxTime::set(&test_val, None).unwrap();

    let mut lines = LineCursor::new(&content);
    unlazy_skip(2, &mut lines);

    let tested = RelayMax::get(&mut lines).unwrap();

    assert_eq!(
        test_val.parse::<u64>().unwrap(),
        tested.0,
        "Failed MaxTime::get/set test",
    );
}

#[test]
fn gpio_pin() {
    let test_val = String::from("32");
    let content = GpioPin::set(&test_val, None).unwrap();

    let mut lines = LineCursor::new(&content);
    unlazy_skip(3, &mut lines);

    let tested = GpioPin::get(&mut lines).unwrap();

    assert_eq!(
        test_val.parse::<u8>().unwrap(),
        tested.0,
        "Failed GpioPin::get/set test",
    );
}

#[test]
fn timezone_test() {
    let test_val = String::from("America/New_York");
    let content = Timezone::set(&test_val, None).unwrap();

    let mut lines = LineCursor::new(&content);
    unlazy_skip(4, &mut lines);

    let tested = Timezone::get(&mut lines).unwrap();

    assert_eq!(
        chrono_tz::Tz::from_str_insensitive(&test_val).unwrap(),
        chrono_tz::Tz::from_str_insensitive(&tested.0).unwrap(),
        "Failed Timezone::get/set test",
    );
}

#[test]
fn multiplier() {
    let test_val = String::from("3.21");
    let content = Multiplier::set(&test_val, None).unwrap();

    let mut lines = LineCursor::new(&content);
    unlazy_skip(5, &mut lines);

    let tested = Multiplier::get(&mut lines).unwrap();

    assert_eq!(
        test_val.parse::<f64>().unwrap(),
        tested.0.parse::<f64>().unwrap(),
        "Failed Multiplier::get/set test",
    );
}

#[test]
fn end_to_end_sets_then_aggregate() {
    let c1 = RelayCount::set("10", None).unwrap();
    let c2 = RelayMax::set("12", Some(&c1)).unwrap();
    let c3 = MaxTime::set("14.0", Some(&c2)).unwrap();
    let c4 = GpioPin::set("8", Some(&c3)).unwrap();
    let c5 = Timezone::set("America/New_York", Some(&c4)).unwrap();
    let c6 = Multiplier::set("5.0", Some(&c5)).unwrap();

    let full = FullConfig::new(&c6).unwrap();
    assert_eq!(full.relay_count, 10);
    assert_eq!(full.relay_max, 12);
    assert_eq!(full.max_time, "14.0");
    assert_eq!(full.gpio_pin, 8);
    assert_eq!(full.timezone, "America/New_York");
    assert_eq!(full.multiplier, "5.0");
}

#[test]
fn set_order_does_not_matter() {
    // the same six values written in a different setter order yield the
    // same aggregate
    let c1 = Multiplier::set("5.0", None).unwrap();
    let c2 = Timezone::set("America/New_York", Some(&c1)).unwrap();
    let c3 = GpioPin::set("8", Some(&c2)).unwrap();
    let c4 = MaxTime::set("14.0", Some(&c3)).unwrap();
    let c5 = RelayMax::set("12", Some(&c4)).unwrap();
    let c6 = RelayCount::set("10", Some(&c5)).unwrap();

    let full = FullConfig::new(&c6).unwrap();
    assert_eq!(full.relay_count, 10);
    assert_eq!(full.relay_max, 12);
    assert_eq!(full.max_time, "14.0");
    assert_eq!(full.gpio_pin, 8);
    assert_eq!(full.timezone, "America/New_York");
    assert_eq!(full.multiplier, "5.0");
}

#[test]
fn set_preserves_other_fields() {
    let c1 = RelayCount::set("1", None).unwrap();
    let c2 = GpioPin::set("7", Some(&c1)).unwrap();
    let c3 = RelayCount::set("2", Some(&c2)).unwrap();
    assert_eq!(c3, "RelayCount: 2\nRelayMax:\nMaxTime:\nGpioPin: 7\nTimezone:\nMultiplier:");
}

#[test]
fn fresh_set_fills_template() {
    let content = RelayMax::set("99", None).unwrap();
    assert_eq!(
        content,
        "RelayCount:\nRelayMax: 99\nMaxTime:\nGpioPin:\nTimezone:\nMultiplier:"
    );
}

#[test]
fn empty_record_is_malformed() {
    assert_eq!(FullConfig::new("").unwrap_err(), ConfigError::MalformedRecord);
}

#[test]
fn wrong_token_count_is_malformed() {
    // no value token after the key on the first line
    let missing = "RelayCount:\nRelayMax: 2\nMaxTime: 1.0\nGpioPin: 8\nTimezone: UTC\nMultiplier: 1.0";
    assert_eq!(FullConfig::new(missing).unwrap_err(), ConfigError::MalformedRecord);
    // two value tokens on a middle line
    let extra = "RelayCount: 1\nRelayMax: 2 3\nMaxTime: 1.0\nGpioPin: 8\nTimezone: UTC\nMultiplier: 1.0";
    assert_eq!(FullConfig::new(extra).unwrap_err(), ConfigError::MalformedRecord);
    // a missing line
    let short = "RelayCount: 1\nRelayMax: 2";
    assert_eq!(FullConfig::new(short).unwrap_err(), ConfigError::MalformedRecord);
}

#[test]
fn bad_values_are_field_format_errors() {
    assert_eq!(RelayCount::set("12x", None).unwrap_err(), ConfigError::FieldFormat);
    assert_eq!(GpioPin::set("256", None).unwrap_err(), ConfigError::FieldFormat);
    assert_eq!(MaxTime::set("1.2.3", None).unwrap_err(), ConfigError::FieldFormat);
    assert_eq!(Timezone::set("Not/AZone", None).unwrap_err(), ConfigError::FieldFormat);
    let bad = "RelayCount: 99999999999999999999\nRelayMax: 2\nMaxTime: 1.0\nGpioPin: 8\nTimezone: UTC\nMultiplier: 1.0";
    assert_eq!(FullConfig::new(bad).unwrap_err(), ConfigError::FieldFormat);
}

#[test]
fn numeric_text_edges() {
    // optional plus sign, as standard unsigned parsing takes it
    assert!(validate(FieldKind::Count, "+5"));
    assert!(!validate(FieldKind::Count, ""));
    assert!(!validate(FieldKind::Count, "-1"));
    assert!(validate(FieldKind::Count, "18446744073709551615"));
    assert!(!validate(FieldKind::Count, "18446744073709551616"));
    assert!(validate(FieldKind::PinId, "255"));
    assert!(!validate(FieldKind::PinId, "256"));
    // float grammar: fraction, exponent, keywords in any case
    assert!(validate(FieldKind::MaxDuration, "14.0"));
    assert!(validate(FieldKind::MaxDuration, ".5"));
    assert!(validate(FieldKind::MaxDuration, "5."));
    assert!(validate(FieldKind::MaxDuration, "-1e9"));
    assert!(validate(FieldKind::MaxDuration, "1.5E-3"));
    assert!(validate(FieldKind::MaxDuration, "iNf"));
    assert!(validate(FieldKind::MaxDuration, "Infinity"));
    assert!(validate(FieldKind::MaxDuration, "NaN"));
    assert!(!validate(FieldKind::MaxDuration, "."));
    assert!(!validate(FieldKind::MaxDuration, "1e"));
    assert!(!validate(FieldKind::MaxDuration, "e5"));
    assert!(!validate(FieldKind::MaxDuration, "1 0"));
    // the grammar matches what standard float parsing takes
    for v in ["14.0", ".5", "5.", "-1e9", "1.5E-3", "iNf", "Infinity", "NaN", ".", "1e", "e5", "1 0", "+nan", "1.e5"] {
        assert_eq!(validate(FieldKind::Factor, v), v.parse::<f64>().is_ok(), "float grammar disagrees on {v}");
    }
}

#[test]
fn timezone_is_case_insensitive() {
    assert!(validate(FieldKind::Zone, "america/new_york"));
    assert!(validate(FieldKind::Zone, "UTC"));
    assert!(!validate(FieldKind::Zone, "NoSuch/Zone"));
    assert!(!validate(FieldKind::Zone, ""));
}
