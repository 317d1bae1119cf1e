use inracker::duration::{convert_to_rounds, unit_cleared_by, unit_is_rest_bound, DurationUnit, RestKind};

#[test]
fn one_minute_is_ten_rounds_at_six_seconds_per_round() {
    assert_eq!(convert_to_rounds(1, &DurationUnit::Minutes, 6), 10);
}

#[test]
fn one_hour_is_six_hundred_rounds_at_six_seconds_per_round() {
    assert_eq!(convert_to_rounds(1, &DurationUnit::Hours, 6), 600);
}

#[test]
fn rounds_pass_through_unconverted() {
    assert_eq!(convert_to_rounds(5, &DurationUnit::Rounds, 6), 5);
    assert_eq!(convert_to_rounds(0, &DurationUnit::Rounds, 6), 0);
}

#[test]
fn fractional_leftover_truncates_toward_zero() {
    // 60 seconds / 7 seconds per round = 8.57... rounds
    assert_eq!(convert_to_rounds(1, &DurationUnit::Minutes, 7), 8);
    // shorter than one round: truncates to zero, never negative
    assert_eq!(convert_to_rounds(1, &DurationUnit::Minutes, 61), 0);
}

#[test]
fn rest_bound_units_have_no_round_equivalent() {
    assert_eq!(convert_to_rounds(4, &DurationUnit::ShortRest, 6), 0);
    assert_eq!(convert_to_rounds(4, &DurationUnit::LongRest, 6), 0);
}

#[test]
fn rest_bound_predicate_matches_units() {
    assert!(unit_is_rest_bound(&DurationUnit::ShortRest));
    assert!(unit_is_rest_bound(&DurationUnit::LongRest));
    assert!(!unit_is_rest_bound(&DurationUnit::Rounds));
    assert!(!unit_is_rest_bound(&DurationUnit::Minutes));
    assert!(!unit_is_rest_bound(&DurationUnit::Hours));
}

#[test]
fn clearing_rule_short_rest_cleared_by_either_long_rest_only_by_long() {
    assert!(unit_cleared_by(&DurationUnit::ShortRest, &RestKind::Short));
    assert!(unit_cleared_by(&DurationUnit::ShortRest, &RestKind::Long));
    assert!(!unit_cleared_by(&DurationUnit::LongRest, &RestKind::Short));
    assert!(unit_cleared_by(&DurationUnit::LongRest, &RestKind::Long));
    assert!(!unit_cleared_by(&DurationUnit::Rounds, &RestKind::Short));
    assert!(!unit_cleared_by(&DurationUnit::Rounds, &RestKind::Long));
    assert!(!unit_cleared_by(&DurationUnit::Minutes, &RestKind::Long));
    assert!(!unit_cleared_by(&DurationUnit::Hours, &RestKind::Long));
}
