use inracker::duration::{DurationUnit, RestKind};
use inracker::effects::ActiveLedger;
use inracker::errors::EngineError;
use inracker::roster::EntityKind;

fn ledger_with_three_kinds() -> (ActiveLedger, u64, u64, u64) {
    let mut ledger = ActiveLedger::new();
    let short = ledger
        .attach(10, 1, EntityKind::Player, None, DurationUnit::ShortRest, 0)
        .unwrap();
    let long = ledger
        .attach(11, 1, EntityKind::Player, None, DurationUnit::LongRest, 0)
        .unwrap();
    let timed = ledger
        .attach(12, 1, EntityKind::Player, Some(2), DurationUnit::Rounds, 0)
        .unwrap();
    (ledger, short, long, timed)
}

#[test]
fn rest_bound_effects_survive_any_number_of_ticks() {
    let (mut ledger, short, long, timed) = ledger_with_three_kinds();
    assert_eq!(ledger.tick_round(), Vec::<u64>::new());
    assert_eq!(ledger.tick_round(), vec![timed]);
    for _ in 0..10 {
        assert_eq!(ledger.tick_round(), Vec::<u64>::new());
    }
    let ids: Vec<u64> = ledger.effects.iter().map(|e| e.id).collect();
    assert_eq!(ids, vec![short, long]);
    assert_eq!(ledger.effects[0].remaining, None);
    assert_eq!(ledger.effects[1].remaining, None);
}

#[test]
fn short_rest_clears_short_rest_effects_but_not_long_rest_ones() {
    let (mut ledger, short, long, timed) = ledger_with_three_kinds();
    let cleared = ledger.apply_rest(1, EntityKind::Player, RestKind::Short);
    assert_eq!(cleared, vec![short]);
    let ids: Vec<u64> = ledger.effects.iter().map(|e| e.id).collect();
    assert_eq!(ids, vec![long, timed]);
}

#[test]
fn long_rest_clears_both_rest_bound_kinds() {
    let (mut ledger, short, long, timed) = ledger_with_three_kinds();
    let cleared = ledger.apply_rest(1, EntityKind::Player, RestKind::Long);
    assert_eq!(cleared, vec![short, long]);
    let ids: Vec<u64> = ledger.effects.iter().map(|e| e.id).collect();
    assert_eq!(ids, vec![timed]);
}

#[test]
fn rest_only_touches_the_resting_entity() {
    let mut ledger = ActiveLedger::new();
    let on_player = ledger
        .attach(10, 1, EntityKind::Player, None, DurationUnit::ShortRest, 0)
        .unwrap();
    let on_other_player = ledger
        .attach(10, 2, EntityKind::Player, None, DurationUnit::ShortRest, 0)
        .unwrap();
    let on_opponent = ledger
        .attach(10, 1, EntityKind::Opponent, None, DurationUnit::ShortRest, 0)
        .unwrap();
    let cleared = ledger.apply_rest(1, EntityKind::Player, RestKind::Short);
    assert_eq!(cleared, vec![on_player]);
    let ids: Vec<u64> = ledger.effects.iter().map(|e| e.id).collect();
    assert_eq!(ids, vec![on_other_player, on_opponent]);
}

#[test]
fn missing_duration_on_timed_unit_is_integrity_violation() {
    let mut ledger = ActiveLedger::new();
    assert_eq!(
        ledger.attach(10, 1, EntityKind::Player, None, DurationUnit::Rounds, 0),
        Err(EngineError::IntegrityViolation)
    );
    assert_eq!(
        ledger.attach(10, 1, EntityKind::Player, None, DurationUnit::Minutes, 0),
        Err(EngineError::IntegrityViolation)
    );
}

#[test]
fn duration_on_rest_bound_unit_is_integrity_violation() {
    let mut ledger = ActiveLedger::new();
    assert_eq!(
        ledger.attach(10, 1, EntityKind::Player, Some(5), DurationUnit::ShortRest, 0),
        Err(EngineError::IntegrityViolation)
    );
    assert_eq!(
        ledger.attach(10, 1, EntityKind::Player, Some(5), DurationUnit::LongRest, 0),
        Err(EngineError::IntegrityViolation)
    );
}

#[test]
fn deleting_a_template_cascades_to_its_instances() {
    let mut ledger = ActiveLedger::new();
    let of_ten_a = ledger
        .attach(10, 1, EntityKind::Player, None, DurationUnit::ShortRest, 0)
        .unwrap();
    let of_eleven = ledger
        .attach(11, 1, EntityKind::Player, Some(4), DurationUnit::Rounds, 0)
        .unwrap();
    let of_ten_b = ledger
        .attach(10, 2, EntityKind::Opponent, None, DurationUnit::LongRest, 0)
        .unwrap();
    let removed = ledger.remove_for_template(10);
    assert_eq!(removed, vec![of_ten_a, of_ten_b]);
    let ids: Vec<u64> = ledger.effects.iter().map(|e| e.id).collect();
    assert_eq!(ids, vec![of_eleven]);
}

#[test]
fn timed_active_effect_counts_down_and_expires_once() {
    let mut ledger = ActiveLedger::new();
    let id = ledger
        .attach(12, 1, EntityKind::Player, Some(3), DurationUnit::Rounds, 0)
        .unwrap();
    assert_eq!(ledger.tick_round(), Vec::<u64>::new());
    assert_eq!(ledger.effects[0].remaining, Some(2));
    assert_eq!(ledger.tick_round(), Vec::<u64>::new());
    assert_eq!(ledger.effects[0].remaining, Some(1));
    assert_eq!(ledger.tick_round(), vec![id]);
    assert_eq!(ledger.effects.len(), 0);
    assert_eq!(ledger.tick_round(), Vec::<u64>::new());
}
