use grid_ops::placement::{
    allocate_weights, check_pressure_samples, publish_weights, validate_config, PlacementError, PlacementState,
    PressureInput, PressureWeightedConfig, ShareCandidate, ONE_BITS,
};
use grid_ops::weights::WeightTable;

fn config() -> PressureWeightedConfig {
    PressureWeightedConfig {
        minimum_weight: 1,
        maximum_weight: 1000,
        availability_floor_percent: 5,
        smoothing_factor_bits: 1.0_f64.to_bits(),
        change_threshold_percent: 0,
    }
}

/// The whole units and the remainder key of `raw / total` of `max` units.
fn share(id: &str, group: u32, raw: f64, total: f64, max: u32) -> ShareCandidate {
    let exact = (raw / total) * f64::from(max);
    let floor = exact.floor() as u64;
    ShareCandidate {
        stable_id: id.to_owned(),
        selection_group: group,
        floor_share: floor,
        remainder_key: (exact - floor as f64).to_bits(),
    }
}

fn input(id: &str, pressure: Option<f64>) -> PressureInput {
    PressureInput {
        stable_id: id.to_owned(),
        selection_group: 0,
        capacity_weight: 1,
        pressure_bits: pressure.map(f64::to_bits),
    }
}

#[test]
fn pressure_and_capacity_produce_inverse_group_local_weights() {
    // Availability 1 - pressure: a = 1.0, b = 0.5, capacity 1 each.
    let shares = vec![share("a", 0, 1.0, 1.5, 1000), share("b", 0, 0.5, 1.5, 1000)];
    let weights = publish_weights(&shares, &config(), &mut PlacementState::new()).ok().unwrap();
    assert_eq!(weights.get("a"), Some(667));
    assert_eq!(weights.get("b"), Some(333));
}

#[test]
fn input_order_does_not_change_weights() {
    // a: capacity 2, availability 0.8; b: capacity 1, availability 0.6.
    let total = 2.0 * 0.8 + 0.6;
    let a = vec![share("a", 0, 2.0 * 0.8, total, 1000), share("b", 0, 0.6, total, 1000)];
    let b = vec![share("b", 0, 0.6, total, 1000), share("a", 0, 2.0 * 0.8, total, 1000)];
    let mut one = PlacementState::new();
    let mut two = PlacementState::new();
    let first = publish_weights(&a, &config(), &mut one).ok().unwrap();
    let second = publish_weights(&b, &config(), &mut two).ok().unwrap();
    assert!(first.same_weights(&second));
}

#[test]
fn invalid_or_missing_pressure_fails_closed() {
    let input = vec![input("a", None)];
    assert!(check_pressure_samples(&input).is_err());
}

#[test]
fn failed_calculation_does_not_commit_partial_smoothing_state() {
    // The smoothing state is kept by the program around the library, which
    // commits it only after a published result; here a refused calculation
    // must leave the published weights as they were.
    let mut state = PlacementState::new();
    let valid = vec![share("a", 0, 0.8, 0.8, 1000)];
    let _unused = publish_weights(&valid, &config(), &mut state).ok().unwrap();
    let before = state.weights().duplicate();
    let invalid = vec![input("a", Some(0.2)), input("b", None)];
    assert!(check_pressure_samples(&invalid).is_err());
    let mut bad = config();
    bad.smoothing_factor_bits = 0.0_f64.to_bits();
    assert!(publish_weights(&valid, &bad, &mut state).is_err());
    assert!(state.weights().same_weights(&before));
}

#[test]
fn pressure_samples_must_be_numbers_in_the_unit_interval() {
    for ok in [0.0, -0.0, 0.5, 1.0] {
        assert!(check_pressure_samples(&vec![input("a", Some(ok))]).is_ok());
    }
    for bad in [1.0000001, -0.1, f64::NAN, f64::INFINITY] {
        assert!(check_pressure_samples(&vec![input("a", Some(bad))]).is_err());
    }
    match check_pressure_samples(&vec![input("a", Some(0.1)), input("b", None), input("c", None)]) {
        Err(PlacementError::MissingPressure(id)) => assert_eq!(id, "b"),
        _ => panic!("expected the first provider without a sample"),
    }
    assert_eq!(
        PlacementError::MissingPressure("b".to_owned()).message(),
        "provider b has no fresh valid pressure sample"
    );
}

#[test]
fn config_validation_errors() {
    assert!(validate_config(&config()).is_ok());
    let mut c = config();
    c.minimum_weight = 0;
    assert!(matches!(validate_config(&c), Err(PlacementError::WeightBounds)));
    let mut c = config();
    c.minimum_weight = 5;
    c.maximum_weight = 4;
    assert!(matches!(validate_config(&c), Err(PlacementError::WeightBounds)));
    let mut c = config();
    c.maximum_weight = 1001;
    assert!(matches!(validate_config(&c), Err(PlacementError::WeightBounds)));
    for bad in [0.0, -0.5, 1.5, f64::NAN] {
        let mut c = config();
        c.smoothing_factor_bits = f64::to_bits(bad);
        assert!(matches!(validate_config(&c), Err(PlacementError::SmoothingFactor)));
    }
    let mut c = config();
    c.smoothing_factor_bits = ONE_BITS;
    assert!(validate_config(&c).is_ok());
    for bad in [0, 101] {
        let mut c = config();
        c.availability_floor_percent = bad;
        assert!(matches!(validate_config(&c), Err(PlacementError::AvailabilityFloor)));
    }
    assert_eq!(
        PlacementError::WeightBounds.message(),
        "pressure weight bounds must satisfy 1 <= minimum <= maximum <= 1000"
    );
}

#[test]
fn groups_are_normalized_independently() {
    let shares = vec![
        share("a", 0, 1.0, 2.0, 100),
        share("c", 1, 3.0, 3.0, 100),
        share("b", 0, 1.0, 2.0, 100),
    ];
    let mut c = config();
    c.maximum_weight = 100;
    let weights = allocate_weights(&shares, &c);
    assert_eq!(weights.get("a"), Some(50));
    assert_eq!(weights.get("b"), Some(50));
    assert_eq!(weights.get("c"), Some(100));
    assert_eq!(weights.get("d"), None);
}

#[test]
fn leftover_units_follow_remainder_then_identity_order() {
    // Three equal thirds of 100: 33 each and one leftover unit, which the
    // smallest identity receives.
    let shares = vec![
        share("c", 0, 1.0, 3.0, 100),
        share("a", 0, 1.0, 3.0, 100),
        share("b", 0, 1.0, 3.0, 100),
    ];
    let mut c = config();
    c.maximum_weight = 100;
    let weights = allocate_weights(&shares, &c);
    assert_eq!(weights.get("a"), Some(34));
    assert_eq!(weights.get("b"), Some(33));
    assert_eq!(weights.get("c"), Some(33));
}

#[test]
fn minimum_weight_is_enforced() {
    // 0.5% of 100 rounds to zero and is raised to the minimum of 2.
    let shares = vec![share("big", 0, 199.0, 200.0, 100), share("small", 0, 1.0, 200.0, 100)];
    let mut c = config();
    c.maximum_weight = 100;
    c.minimum_weight = 2;
    let weights = allocate_weights(&shares, &c);
    assert_eq!(weights.get("small"), Some(2));
    assert_eq!(weights.get("big"), Some(100));
}

#[test]
fn leftover_after_bounds_goes_to_providers_below_maximum() {
    let shares = vec![
        ShareCandidate { stable_id: "a".to_owned(), selection_group: 0, floor_share: 1, remainder_key: 0 },
        ShareCandidate { stable_id: "b".to_owned(), selection_group: 0, floor_share: 1, remainder_key: 0 },
    ];
    let mut c = config();
    c.maximum_weight = 5;
    let weights = allocate_weights(&shares, &c);
    // Three units are left: one each in the first pass, one more for "a".
    assert_eq!(weights.get("a"), Some(3));
    assert_eq!(weights.get("b"), Some(2));
}

#[test]
fn change_threshold_keeps_small_changes() {
    let mut c = config();
    c.change_threshold_percent = 5;
    let mut state = PlacementState::new();
    let first = vec![share("a", 0, 1.0, 2.0, 1000), share("b", 0, 1.0, 2.0, 1000)];
    let published = publish_weights(&first, &c, &mut state).ok().unwrap();
    assert_eq!(published.get("a"), Some(500));
    // 510 / 490 is a 2% change: the published weights stay.
    let small = vec![share("a", 0, 0.51, 1.0, 1000), share("b", 0, 0.49, 1.0, 1000)];
    let kept = publish_weights(&small, &c, &mut state).ok().unwrap();
    assert_eq!(kept.get("a"), Some(500));
    assert_eq!(state.weights().get("a"), Some(500));
    // 600 / 400 is a 20% change: it is published.
    let large = vec![share("a", 0, 0.6, 1.0, 1000), share("b", 0, 0.4, 1.0, 1000)];
    let moved = publish_weights(&large, &c, &mut state).ok().unwrap();
    assert_eq!(moved.get("a"), Some(600));
    // A provider that disappears is a material change.
    let only_a = vec![share("a", 0, 1.0, 1.0, 1000)];
    let shrunk = publish_weights(&only_a, &c, &mut state).ok().unwrap();
    assert_eq!(shrunk.get("b"), None);
    assert_eq!(shrunk.get("a"), Some(1000));
}

#[test]
fn weight_table_basics() {
    let mut t = WeightTable::new();
    t.insert("x".to_owned(), 3);
    t.insert("y".to_owned(), 4);
    t.insert("x".to_owned(), 5);
    assert_eq!(t.get("x"), Some(5));
    assert_eq!(t.entries().len(), 2);
    let copy = t.duplicate();
    assert!(copy.same_weights(&t));
    let mut other = WeightTable::new();
    other.insert("x".to_owned(), 5);
    assert!(!other.same_weights(&t));
}

#[test]
fn publishing_the_same_shares_twice_keeps_the_weights() {
    let mut c = config();
    c.change_threshold_percent = 5;
    let mut state = PlacementState::new();
    let shares = vec![share("a", 0, 2.0, 3.0, 1000), share("b", 0, 1.0, 3.0, 1000)];
    let first = publish_weights(&shares, &c, &mut state).ok().unwrap();
    let second = publish_weights(&shares, &c, &mut state).ok().unwrap();
    assert_eq!(first.get("a"), Some(667));
    assert_eq!(first.get("b"), Some(333));
    assert!(first.same_weights(&second));
    assert!(state.weights().same_weights(&first));
}

#[test]
fn a_group_is_unaffected_by_other_groups() {
    let mut c = config();
    c.maximum_weight = 100;
    let alone = vec![share("a", 0, 1.0, 3.0, 100), share("b", 0, 2.0, 3.0, 100)];
    let mixed = vec![
        share("x", 1, 1.0, 7.0, 100),
        share("b", 0, 2.0, 3.0, 100),
        share("y", 1, 6.0, 7.0, 100),
        share("a", 0, 1.0, 3.0, 100),
    ];
    let one = allocate_weights(&alone, &c);
    let two = allocate_weights(&mixed, &c);
    assert_eq!(one.get("a"), Some(33));
    assert_eq!(one.get("b"), Some(67));
    assert_eq!(two.get("a"), one.get("a"));
    assert_eq!(two.get("b"), one.get("b"));
    assert_eq!(two.get("x"), Some(14));
    assert_eq!(two.get("y"), Some(86));
}

#[test]
fn zero_threshold_publishes_every_change() {
    let mut state = PlacementState::new();
    let first = vec![share("a", 0, 1.0, 2.0, 1000), share("b", 0, 1.0, 2.0, 1000)];
    let _unused = publish_weights(&first, &config(), &mut state).ok().unwrap();
    let next = vec![share("a", 0, 1.0, 4.0, 1000), share("b", 0, 3.0, 4.0, 1000)];
    let published = publish_weights(&next, &config(), &mut state).ok().unwrap();
    assert_eq!(published.get("a"), Some(250));
    assert_eq!(published.get("b"), Some(750));
    assert_eq!(state.weights().get("a"), Some(250));
}

#[test]
fn every_placement_error_has_its_text() {
    assert_eq!(PlacementError::SmoothingFactor.message(), "smoothingFactor must be finite and in (0, 1]");
    assert_eq!(
        PlacementError::AvailabilityFloor.message(),
        "availabilityFloorPercent must be between 1 and 100"
    );
    assert_eq!(
        PlacementError::NoPositiveCapacity.message(),
        "pressure weights have no positive finite capacity"
    );
}
