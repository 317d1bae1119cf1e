use inracker::errors::EngineError;
use inracker::migrations::{db_file_name, standard_plan, Migration, MigrationPlan, MigrationTracker};
use inracker::settings::Settings;

#[test]
fn seconds_per_round_defaults_to_six() {
    let settings = Settings::new();
    assert_eq!(settings.seconds_per_round(), 6);
}

#[test]
fn seconds_per_round_reads_the_stored_entry() {
    let mut settings = Settings::new();
    settings.set("seconds_per_round".to_string(), 10);
    assert_eq!(settings.seconds_per_round(), 10);
}

#[test]
fn set_replaces_and_other_keys_are_untouched() {
    let mut settings = Settings::new();
    settings.set("seconds_per_round".to_string(), 10);
    settings.set("grid_size".to_string(), 64);
    settings.set("seconds_per_round".to_string(), 8);
    assert_eq!(settings.seconds_per_round(), 8);
    assert_eq!(settings.get(&"grid_size".to_string()), Some(64));
    assert_eq!(settings.get(&"unknown".to_string()), None);
}

#[test]
fn standard_plan_is_linear_with_eleven_steps() {
    let plan = standard_plan();
    assert_eq!(plan.len(), 11);
    for (i, step) in plan.steps.iter().enumerate() {
        assert_eq!(step.version, i as u64 + 1);
        assert!(!step.sql.is_empty());
    }
    assert_eq!(plan.steps[0].description, "create parties table");
    assert_eq!(plan.steps[10].description, "create active_effects table");
}

#[test]
fn fresh_store_needs_every_step_and_reapplying_needs_none() {
    let plan = standard_plan();
    let mut tracker = MigrationTracker::new();
    let first = tracker.apply(&plan);
    assert_eq!(first, (0..11).collect::<Vec<usize>>());
    assert_eq!(tracker.highest_applied, 11);
    // applying the same plan again is idempotent: nothing is scheduled
    let second = tracker.apply(&plan);
    assert_eq!(second, Vec::<usize>::new());
    assert_eq!(tracker.highest_applied, 11);
}

#[test]
fn partially_applied_store_gets_only_the_tail() {
    let plan = standard_plan();
    assert_eq!(plan.pending(5), vec![5, 6, 7, 8, 9, 10]);
    assert_eq!(plan.pending(11), Vec::<usize>::new());
}

#[test]
fn out_of_order_versions_are_rejected() {
    let steps = vec![
        Migration { version: 2, description: "b".to_string(), sql: "B".to_string() },
        Migration { version: 1, description: "a".to_string(), sql: "A".to_string() },
    ];
    match MigrationPlan::new(steps) {
        Err(e) => assert_eq!(e, EngineError::IntegrityViolation),
        Ok(_) => panic!("a plan with decreasing versions must be rejected"),
    }
    let repeated = vec![
        Migration { version: 1, description: "a".to_string(), sql: "A".to_string() },
        Migration { version: 1, description: "b".to_string(), sql: "B".to_string() },
    ];
    assert!(MigrationPlan::new(repeated).is_err());
}

#[test]
fn database_name_follows_the_profile() {
    assert_eq!(db_file_name("inracker_dev"), "sqlite:inracker_dev.db");
    assert_eq!(db_file_name("inracker"), "sqlite:inracker.db");
}
