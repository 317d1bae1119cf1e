use inracker::duration::DurationUnit;
use inracker::errors::EngineError;
use inracker::roster::EntityKind;
use inracker::session::{CombatSession, ParticipantInit, SessionStatus};

fn init(entity: u64, kind: EntityKind, name: &str, initiative: i64) -> ParticipantInit {
    ParticipantInit { entity, kind, name: name.to_string(), initiative }
}

fn three_fighters() -> CombatSession {
    // A: initiative 15, B: initiative 15 inserted after A, C: initiative 20
    let participants = vec![
        init(100, EntityKind::Player, "A", 15),
        init(101, EntityKind::Player, "B", 15),
        init(102, EntityKind::Opponent, "C", 20),
    ];
    CombatSession::start(1, 7, Some(3), participants, 0)
}

#[test]
fn turn_order_sorts_by_initiative_with_stable_ties() {
    let session = three_fighters();
    // participant ids are assigned in insertion order: A = 0, B = 1, C = 2
    assert_eq!(session.turn_order(), vec![2, 0, 1]);
}

#[test]
fn turn_order_is_deterministic() {
    let session = three_fighters();
    assert_eq!(session.turn_order(), session.turn_order());
}

#[test]
fn start_sets_first_in_order_active_at_round_one() {
    let session = three_fighters();
    assert_eq!(session.active, Some(2));
    assert_eq!(session.round, 1);
    assert_eq!(session.status, SessionStatus::Running);
}

#[test]
fn start_with_empty_roster_has_no_active_participant() {
    let session = CombatSession::start(1, 7, None, Vec::new(), 0);
    assert_eq!(session.active, None);
    assert_eq!(session.round, 1);
}

#[test]
fn three_advances_wrap_to_first_and_tick_once() {
    let mut session = three_fighters();
    let poison = session
        .attach_effect(0, "poison".to_string(), "".to_string(), 1, DurationUnit::Rounds, 6)
        .unwrap();

    // C -> A
    assert_eq!(session.advance_turn().unwrap(), Vec::<u64>::new());
    assert_eq!(session.active, Some(0));
    assert_eq!(session.round, 1);
    // A -> B
    assert_eq!(session.advance_turn().unwrap(), Vec::<u64>::new());
    assert_eq!(session.active, Some(1));
    assert_eq!(session.round, 1);
    // B -> C: wrap, round increments, the one-round effect expires now
    assert_eq!(session.advance_turn().unwrap(), vec![poison]);
    assert_eq!(session.active, Some(2));
    assert_eq!(session.round, 2);
}

#[test]
fn advance_on_empty_roster_clears_active_and_keeps_round() {
    let mut session = CombatSession::start(1, 7, None, Vec::new(), 0);
    assert_eq!(session.advance_turn().unwrap(), Vec::<u64>::new());
    assert_eq!(session.active, None);
    assert_eq!(session.round, 1);
}

#[test]
fn advance_after_active_removal_picks_first_in_order() {
    let mut session = three_fighters();
    session.remove_participant(2).unwrap();
    assert_eq!(session.active, None);
    // turn order is now [A, B]; advancing from a cleared pointer starts at A
    assert_eq!(session.advance_turn().unwrap(), Vec::<u64>::new());
    assert_eq!(session.active, Some(0));
    assert_eq!(session.round, 1);
}

#[test]
fn removing_active_participant_clears_pointer() {
    let mut session = three_fighters();
    assert_eq!(session.active, Some(2));
    session.remove_participant(2).unwrap();
    assert_eq!(session.active, None);
}

#[test]
fn removing_inactive_participant_keeps_pointer() {
    let mut session = three_fighters();
    session.remove_participant(1).unwrap();
    assert_eq!(session.active, Some(2));
    assert_eq!(session.turn_order(), vec![2, 0]);
}

#[test]
fn removing_participant_cascades_to_its_effects() {
    let mut session = three_fighters();
    let on_a = session
        .attach_effect(0, "bless".to_string(), "".to_string(), 3, DurationUnit::Rounds, 6)
        .unwrap();
    let on_b = session
        .attach_effect(1, "bane".to_string(), "".to_string(), 3, DurationUnit::Rounds, 6)
        .unwrap();
    let removed = session.remove_participant(0).unwrap();
    assert_eq!(removed, vec![on_a]);
    assert_eq!(session.effects.effects.len(), 1);
    assert_eq!(session.effects.effects[0].id, on_b);
}

#[test]
fn removing_unknown_participant_is_not_found() {
    let mut session = three_fighters();
    assert_eq!(session.remove_participant(99), Err(EngineError::NotFound));
}

#[test]
fn set_active_overrides_without_advancing_round() {
    let mut session = three_fighters();
    session.set_active(1).unwrap();
    assert_eq!(session.active, Some(1));
    assert_eq!(session.round, 1);
}

#[test]
fn set_active_unknown_participant_is_not_found() {
    let mut session = three_fighters();
    assert_eq!(session.set_active(42), Err(EngineError::NotFound));
    assert_eq!(session.active, Some(2));
}

#[test]
fn ended_session_rejects_advance_and_keeps_state() {
    let mut session = three_fighters();
    session.end().unwrap();
    assert_eq!(session.status, SessionStatus::Ended);
    assert_eq!(session.advance_turn(), Err(EngineError::InvalidState));
    assert_eq!(session.round, 1);
    assert_eq!(session.active, Some(2));
}

#[test]
fn ended_session_rejects_all_mutations() {
    let mut session = three_fighters();
    session.end().unwrap();
    assert_eq!(session.end(), Err(EngineError::InvalidState));
    assert_eq!(session.set_active(0), Err(EngineError::InvalidState));
    assert_eq!(session.tick_round(), Err(EngineError::InvalidState));
    assert_eq!(session.remove_participant(0), Err(EngineError::InvalidState));
    assert_eq!(
        session.add_participant(103, EntityKind::Opponent, "D".to_string(), 1, false),
        Err(EngineError::InvalidState)
    );
    assert_eq!(
        session.attach_effect(0, "x".to_string(), "".to_string(), 1, DurationUnit::Rounds, 6),
        Err(EngineError::InvalidState)
    );
}

#[test]
fn duplicate_entity_rejected_only_on_request() {
    let mut session = three_fighters();
    // repeated tokens of the same opponent are allowed by default
    let id = session
        .add_participant(102, EntityKind::Opponent, "C2".to_string(), 12, false)
        .unwrap();
    assert_eq!(id, 3);
    // but rejected when the caller requests uniqueness
    assert_eq!(
        session.add_participant(102, EntityKind::Opponent, "C3".to_string(), 12, true),
        Err(EngineError::IntegrityViolation)
    );
}

#[test]
fn attach_to_foreign_participant_is_reference_mismatch() {
    let mut session = three_fighters();
    assert_eq!(
        session.attach_effect(9, "x".to_string(), "".to_string(), 1, DurationUnit::Rounds, 6),
        Err(EngineError::ReferenceMismatch)
    );
}

#[test]
fn attach_rest_bound_combat_effect_is_integrity_violation() {
    let mut session = three_fighters();
    assert_eq!(
        session.attach_effect(0, "x".to_string(), "".to_string(), 0, DurationUnit::ShortRest, 6),
        Err(EngineError::IntegrityViolation)
    );
}

#[test]
fn attach_converts_minutes_to_rounds() {
    let mut session = three_fighters();
    session
        .attach_effect(0, "haste".to_string(), "".to_string(), 1, DurationUnit::Minutes, 6)
        .unwrap();
    assert_eq!(session.effects.effects[0].duration, 10);
    assert_eq!(session.effects.effects[0].total_duration, 10);
}

#[test]
fn rounds_effect_expires_exactly_once_after_total_duration_ticks() {
    let mut session = three_fighters();
    let id = session
        .attach_effect(0, "stun".to_string(), "".to_string(), 3, DurationUnit::Rounds, 6)
        .unwrap();
    assert_eq!(session.tick_round().unwrap(), Vec::<u64>::new());
    assert_eq!(session.effects.effects[0].duration, 2);
    assert_eq!(session.tick_round().unwrap(), Vec::<u64>::new());
    assert_eq!(session.effects.effects[0].duration, 1);
    // the third tick drives the duration to zero: one expiry event
    assert_eq!(session.tick_round().unwrap(), vec![id]);
    assert_eq!(session.effects.effects.len(), 0);
    // and never another one for the same effect
    assert_eq!(session.tick_round().unwrap(), Vec::<u64>::new());
}

#[test]
fn equal_initiative_keeps_insertion_order() {
    let participants = vec![
        init(1, EntityKind::Player, "first", 10),
        init(2, EntityKind::Player, "second", 10),
        init(3, EntityKind::Player, "third", 10),
    ];
    let session = CombatSession::start(1, 7, None, participants, 0);
    assert_eq!(session.turn_order(), vec![0, 1, 2]);
}

#[test]
fn advance_after_manual_override_continues_from_there() {
    let mut session = three_fighters();
    // jump to B, the last in turn order [C, A, B]
    session.set_active(1).unwrap();
    assert_eq!(session.round, 1);
    // the next advance wraps: back to C, round two
    session.advance_turn().unwrap();
    assert_eq!(session.active, Some(2));
    assert_eq!(session.round, 2);
}

#[test]
fn participant_names_are_snapshots() {
    let session = three_fighters();
    assert_eq!(session.roster.participants[0].name, "A");
    assert_eq!(session.roster.participants[2].entity, 102);
    assert_eq!(session.roster.participants[2].kind, EntityKind::Opponent);
}
