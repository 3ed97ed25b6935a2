use fahrtenbuch::add_trip::{
    begin_validation, continue_validation, counts_as_other, validate_trip, Neighbor, Probe, TripData,
    TripValidationConfig, ValidationError, ValidationStep,
};
use fahrtenbuch::records::{Expense, Trip, TripEntry};
use fahrtenbuch::update_trip::plan_trip_update;
use fahrtenbuch::users::UserSet;

fn trip(id: i64, start: u64, end: u64, users: Vec<i64>) -> Trip {
    Trip {
        id,
        created_at: 0,
        start,
        end,
        description: None,
        users: UserSet::from_vec(users),
        price: 0,
    }
}

fn entry(id: i64, start: i64, end: i64) -> TripEntry {
    TripEntry {
        id,
        created_at: 0,
        start,
        end,
        description: None,
    }
}

#[test]
fn trip_distance_is_split_with_the_remainder_to_the_smallest_user() {
    let t = trip(1, 100, 110, vec![7, 3, 5]);
    assert_eq!(t.distance(), 10);
    assert_eq!(t.distance_for(3), 4);
    assert_eq!(t.distance_for(5), 3);
    assert_eq!(t.distance_for(7), 3);
    assert_eq!(t.distance_for(4), 0);
}

#[test]
fn trip_without_users_gives_nobody_a_share() {
    let t = trip(1, 0, 10, vec![]);
    assert_eq!(t.distance_for(1), 0);
}

#[test]
fn expense_amount_is_split_with_the_remainder_to_the_smallest_user() {
    let e = Expense {
        id: 1,
        created_at: 0,
        amount: 101,
        description: None,
        users: UserSet::from_vec(vec![2, 1]),
    };
    assert_eq!(e.amount_for(1), 51);
    assert_eq!(e.amount_for(2), 50);
    assert_eq!(e.amount_for(3), 0);
}

#[test]
fn timeline_accepts_connected_trips_and_refuses_the_rest() {
    let config = TripValidationConfig::default();
    let mut timeline: Vec<Trip> = vec![];

    let first = trip(1, 0, 150, vec![1]);
    assert_eq!(validate_trip(&timeline, &first, &config), Ok(()));
    timeline.push(first);

    let second = trip(2, 150, 200, vec![1]);
    assert_eq!(validate_trip(&timeline, &second, &config), Ok(()));
    timeline.push(second);

    assert_eq!(
        validate_trip(&timeline, &trip(3, 150, 250, vec![1]), &config),
        Err(ValidationError::OverlappingInterval { start: 150 })
    );
    assert_eq!(
        validate_trip(&timeline, &trip(3, 100, 200, vec![1]), &config),
        Err(ValidationError::DisconnectedStart { start: 100 })
    );
}

#[test]
fn validation_gives_the_same_verdict_every_time() {
    let config = TripValidationConfig::default();
    let timeline = vec![trip(1, 0, 150, vec![1]), trip(2, 150, 200, vec![2])];
    let next = trip(0, 200, 260, vec![1, 2]);
    assert_eq!(validate_trip(&timeline, &next, &config), Ok(()));
    assert_eq!(validate_trip(&timeline, &next, &config), Ok(()));
    assert_eq!(timeline.len(), 2);
}

#[test]
fn trip_without_users_is_refused_first() {
    let config = TripValidationConfig::default();
    assert_eq!(
        validate_trip(&vec![], &trip(1, 10, 5, vec![]), &config),
        Err(ValidationError::EmptyUserSet)
    );
}

#[test]
fn trip_with_start_not_below_end_is_refused() {
    let config = TripValidationConfig::default();
    assert_eq!(
        validate_trip(&vec![], &trip(1, 10, 10, vec![1]), &config),
        Err(ValidationError::InvalidInterval { start: 10, end: 10 })
    );
    assert_eq!(
        validate_trip(&vec![], &trip(1, 10, 5, vec![1]), &config),
        Err(ValidationError::InvalidInterval { start: 10, end: 5 })
    );
}

#[test]
fn start_check_can_be_switched_off() {
    let config = TripValidationConfig {
        disable_start_check: true,
        ..TripValidationConfig::default()
    };
    assert_eq!(
        validate_trip(&vec![], &trip(1, 100, 200, vec![1]), &config),
        Ok(())
    );
    let timeline = vec![trip(1, 0, 150, vec![1])];
    assert_eq!(
        validate_trip(&timeline, &trip(2, 100, 200, vec![1]), &config),
        Err(ValidationError::OverlappingInterval { start: 100 })
    );
}

#[test]
fn the_edited_trip_does_not_count_as_another_trip() {
    let timeline = vec![trip(1, 0, 150, vec![1]), trip(2, 150, 200, vec![1])];
    let config = TripValidationConfig {
        disable_start_check: false,
        ignore_id: Some(2),
        ignore_gaps: false,
    };
    assert_eq!(
        validate_trip(&timeline, &trip(2, 150, 210, vec![1]), &config),
        Ok(())
    );
    let strict = TripValidationConfig::default();
    assert_eq!(
        validate_trip(&timeline, &trip(2, 150, 210, vec![1]), &strict),
        Err(ValidationError::OverlappingInterval { start: 150 })
    );
}

#[test]
fn ignoring_gaps_leaves_only_the_checks_of_the_trip_itself() {
    let timeline = vec![trip(1, 0, 150, vec![1])];
    let config = TripValidationConfig {
        disable_start_check: false,
        ignore_id: Some(9),
        ignore_gaps: true,
    };
    assert_eq!(
        validate_trip(&timeline, &trip(9, 100, 120, vec![1]), &config),
        Ok(())
    );
    assert_eq!(
        validate_trip(&timeline, &trip(9, 120, 100, vec![1]), &config),
        Err(ValidationError::InvalidInterval { start: 120, end: 100 })
    );
}

#[test]
fn validation_asks_the_store_step_by_step() {
    let config = TripValidationConfig::default();
    let candidate = trip(0, 150, 200, vec![1]);
    let first = begin_validation(&candidate, &config);
    assert_eq!(
        first,
        ValidationStep::Ask(Probe::EndsAt { reading: 150, ignore_id: None })
    );
    let asked = Probe::EndsAt { reading: 150, ignore_id: None };
    assert_eq!(
        continue_validation(&config, asked, false),
        ValidationStep::Refuse(ValidationError::DisconnectedStart { start: 150 })
    );
    let second = continue_validation(&config, asked, true);
    assert_eq!(
        second,
        ValidationStep::Ask(Probe::Blocks { reading: 150, ignore_id: None })
    );
    let asked = Probe::Blocks { reading: 150, ignore_id: None };
    assert_eq!(continue_validation(&config, asked, false), ValidationStep::Accept);
    assert_eq!(
        continue_validation(&config, asked, true),
        ValidationStep::Refuse(ValidationError::OverlappingInterval { start: 150 })
    );
    assert_eq!(
        begin_validation(&trip(0, 0, 10, vec![1]), &config),
        ValidationStep::Ask(Probe::Blocks { reading: 0, ignore_id: None })
    );
}

#[test]
fn probes_are_answered_on_a_timeline() {
    let timeline = vec![trip(1, 0, 150, vec![1]), trip(2, 150, 200, vec![1])];
    assert!(Probe::EndsAt { reading: 150, ignore_id: None }.answer(&timeline));
    assert!(!Probe::EndsAt { reading: 150, ignore_id: Some(1) }.answer(&timeline));
    assert!(!Probe::EndsAt { reading: 100, ignore_id: None }.answer(&timeline));
    assert!(Probe::Blocks { reading: 199, ignore_id: None }.answer(&timeline));
    assert!(!Probe::Blocks { reading: 200, ignore_id: None }.answer(&timeline));
    assert!(Probe::Blocks { reading: 150, ignore_id: Some(1) }.answer(&timeline));
    assert!(!Probe::Blocks { reading: 150, ignore_id: Some(2) }.answer(&timeline));
}

#[test]
fn new_trip_becomes_a_candidate() {
    let data = TripData {
        created_at: None,
        start: 10,
        end: 20,
        description: Some("shopping".to_string()),
        users: UserSet::from_vec(vec![2, 1]),
        disable_start_check: true,
    };
    let config = data.validation_config();
    assert!(config.disable_start_check);
    assert_eq!(config.ignore_id, None);
    assert!(!config.ignore_gaps);
    let candidate = data.candidate(1234);
    assert_eq!(candidate.id, 0);
    assert_eq!(candidate.created_at, 1234);
    assert_eq!(candidate.start, 10);
    assert_eq!(candidate.end, 20);
    assert_eq!(candidate.description, Some("shopping".to_string()));
    assert_eq!(candidate.users.to_vec(), vec![1, 2]);
    assert_eq!(candidate.price, 0);
}

fn change(start: Option<i64>, end: Option<i64>, users: Vec<i64>) -> fahrtenbuch::update_trip::TripData {
    fahrtenbuch::update_trip::TripData {
        original_end: 200,
        start,
        end,
        description: None,
        users: UserSet::from_vec(users),
    }
}

#[test]
fn edit_moves_the_neighbours_with_the_trip() {
    let plan = plan_trip_update(
        trip(2, 150, 200, vec![1]),
        Some(entry(1, 0, 150)),
        Some(entry(3, 200, 300)),
        change(Some(140), Some(220), vec![]),
    )
    .unwrap();
    assert_eq!(plan.trip.start, 140);
    assert_eq!(plan.trip.end, 220);
    assert_eq!(plan.trip.users.to_vec(), vec![1]);
    assert!(!plan.replace_users);
    let before = plan.before.unwrap();
    assert_eq!((before.id, before.start, before.end), (1, 0, 140));
    let after = plan.after.unwrap();
    assert_eq!((after.id, after.start, after.end), (3, 220, 300));
}

#[test]
fn edit_without_moved_boundaries_leaves_the_neighbours() {
    let plan = plan_trip_update(
        trip(2, 150, 200, vec![1]),
        Some(entry(1, 0, 150)),
        Some(entry(3, 200, 300)),
        change(Some(150), None, vec![4, 2]),
    )
    .unwrap();
    assert!(plan.before.is_none());
    assert!(plan.after.is_none());
    assert!(plan.replace_users);
    assert_eq!(plan.trip.users.to_vec(), vec![2, 4]);
    assert_eq!((plan.trip.start, plan.trip.end), (150, 200));
}

#[test]
fn edit_that_swallows_the_trip_before_is_refused() {
    let plan = plan_trip_update(
        trip(2, 150, 200, vec![1]),
        Some(entry(1, 100, 150)),
        None,
        change(Some(100), None, vec![]),
    );
    assert_eq!(
        plan.err(),
        Some(ValidationError::NeighborWouldBecomeInvalid {
            neighbor: Neighbor::Before,
            neighbor_start: 100,
            neighbor_end: 100,
        })
    );
}

#[test]
fn edit_that_swallows_the_trip_after_is_refused() {
    let plan = plan_trip_update(
        trip(2, 150, 200, vec![1]),
        None,
        Some(entry(3, 200, 300)),
        change(None, Some(300), vec![]),
    );
    assert_eq!(
        plan.err(),
        Some(ValidationError::NeighborWouldBecomeInvalid {
            neighbor: Neighbor::After,
            neighbor_start: 300,
            neighbor_end: 300,
        })
    );
}

#[test]
fn edit_that_turns_the_trip_round_is_refused() {
    let plan = plan_trip_update(
        trip(2, 150, 200, vec![1]),
        None,
        None,
        change(Some(250), None, vec![]),
    );
    assert_eq!(
        plan.err(),
        Some(ValidationError::InvalidInterval { start: 250, end: 200 })
    );
}

#[test]
fn edit_of_a_trip_without_users_is_refused() {
    let plan = plan_trip_update(trip(2, 150, 200, vec![]), None, None, change(None, None, vec![]));
    assert_eq!(plan.err(), Some(ValidationError::EmptyUserSet));
}

#[test]
fn every_stored_trip_counts_where_none_is_edited() {
    let config = TripValidationConfig::default();
    let timeline = vec![trip(-1, 0, 150, vec![1])];
    assert_eq!(
        validate_trip(&timeline, &trip(0, 0, 100, vec![1]), &config),
        Err(ValidationError::OverlappingInterval { start: 0 })
    );
    assert_eq!(
        validate_trip(&timeline, &trip(0, 150, 200, vec![1]), &config),
        Ok(())
    );
    assert!(Probe::EndsAt { reading: 150, ignore_id: None }.answer(&timeline));
    assert!(Probe::Blocks { reading: 0, ignore_id: None }.answer(&timeline));
    assert!(!Probe::Blocks { reading: 0, ignore_id: Some(-1) }.answer(&timeline));
}

#[test]
fn the_order_of_the_stored_trips_does_not_change_the_verdict() {
    let config = TripValidationConfig::default();
    let forward = vec![trip(1, 0, 150, vec![1]), trip(2, 150, 200, vec![1])];
    let backward = vec![trip(2, 150, 200, vec![1]), trip(1, 0, 150, vec![1])];
    for candidate in [trip(3, 200, 250, vec![1]), trip(3, 150, 250, vec![1]), trip(3, 100, 250, vec![1])] {
        assert_eq!(
            validate_trip(&forward, &candidate, &config),
            validate_trip(&backward, &candidate, &config)
        );
    }
    assert_eq!(validate_trip(&forward, &trip(3, 200, 250, vec![1]), &config), Ok(()));
}

#[test]
fn counts_as_other_unless_it_is_the_edited_trip() {
    assert!(counts_as_other(None, -1));
    assert!(counts_as_other(None, 5));
    assert!(counts_as_other(Some(4), 5));
    assert!(!counts_as_other(Some(5), 5));
}
