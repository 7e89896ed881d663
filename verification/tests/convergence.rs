use grid_ops::convergence::{ConsumerReading, ConvergenceWatch, FlagReading};
use grid_ops::overlay::TextMap;

fn states(pairs: &[(&str, &str)]) -> TextMap {
    let mut map = TextMap::new();
    for (k, v) in pairs {
        map.insert((*k).to_owned(), (*v).to_owned());
    }
    map
}

fn read(revision: &str, pairs: &[(&str, &str)], accepted: Option<&str>, serving: Option<&str>) -> ConsumerReading {
    ConsumerReading::Read {
        revision: revision.to_owned(),
        states: states(pairs),
        accepted: accepted.map(|s| s.to_owned()),
        serving: serving.map(|s| s.to_owned()),
    }
}

fn drained() -> Vec<FlagReading> {
    vec![FlagReading::Read(true)]
}

#[test]
fn convergence_needs_two_identical_valid_rounds() {
    let names = vec!["p".to_owned()];
    let consumers = vec!["c".to_owned()];
    let mut watch = ConvergenceWatch::new();
    let good = || vec![read("r1", &[("p", "existing_only")], Some("r1"), Some("r1"))];
    let (done, first) = watch.observe(&names, true, &consumers, &good(), &drained());
    assert!(!done);
    assert_eq!(watch.stable_observations(), 1);
    assert_eq!(
        first,
        r#"grid=r1 accepted=Some("r1") serving=Some("r1") states_match=true states={"p": "existing_only"} expected=existing_only; provider=p drain=true"#
    );
    let (done, second) = watch.observe(&names, true, &consumers, &good(), &drained());
    assert!(done);
    assert_eq!(first, second);
}

#[test]
fn a_changed_or_invalid_round_resets_the_count() {
    let names = vec!["p".to_owned()];
    let consumers = vec!["c".to_owned()];
    let mut watch = ConvergenceWatch::new();
    let r1 = vec![read("r1", &[("p", "existing_only")], Some("r1"), Some("r1"))];
    let r2 = vec![read("r2", &[("p", "existing_only")], Some("r2"), Some("r2"))];
    assert!(!watch.observe(&names, true, &consumers, &r1, &drained()).0);
    assert!(!watch.observe(&names, true, &consumers, &r2, &drained()).0);
    assert_eq!(watch.stable_observations(), 1);
    let lagging = vec![read("r2", &[("p", "existing_only")], Some("r2"), Some("r1"))];
    assert!(!watch.observe(&names, true, &consumers, &lagging, &drained()).0);
    assert_eq!(watch.stable_observations(), 0);
    let wrong_state = vec![read("r2", &[("p", "new_and_existing")], Some("r2"), Some("r2"))];
    assert!(!watch.observe(&names, true, &consumers, &wrong_state, &drained()).0);
    assert_eq!(watch.stable_observations(), 0);
    let empty_revision = vec![read("", &[("p", "existing_only")], Some(""), Some(""))];
    assert!(!watch.observe(&names, true, &consumers, &empty_revision, &drained()).0);
    assert_eq!(watch.stable_observations(), 0);
}

#[test]
fn errors_are_observed_and_never_converge() {
    let names = vec!["p".to_owned()];
    let consumers = vec!["b".to_owned(), "a".to_owned()];
    let mut watch = ConvergenceWatch::new();
    let readings = vec![
        ConsumerReading::OverlayFailed("boom".to_owned()),
        ConsumerReading::RevisionsFailed("logs".to_owned()),
    ];
    let flags = vec![FlagReading::Failed("gone".to_owned())];
    let (done, text) = watch.observe(&names, false, &consumers, &readings, &flags);
    assert!(!done);
    assert_eq!(text, "revision_error=logs; overlay_error=boom; provider=p drain_error=gone");
    let (done, _) = watch.observe(&names, false, &consumers, &readings, &flags);
    assert!(!done);
    assert_eq!(watch.stable_observations(), 0);
}

#[test]
fn every_consumer_must_converge() {
    let names = vec!["p".to_owned(), "q".to_owned()];
    let consumers = vec!["a".to_owned(), "b".to_owned()];
    let mut watch = ConvergenceWatch::new();
    let ok = read("r", &[("p", "new_and_existing"), ("q", "new_and_existing")], Some("r"), Some("r"));
    let missing_q = read("r", &[("p", "new_and_existing")], Some("r"), Some("r"));
    let readings = vec![ok, missing_q];
    watch.observe(&names, false, &consumers, &readings, &vec![FlagReading::Read(false), FlagReading::Read(false)]);
    assert_eq!(watch.stable_observations(), 0);
}

#[test]
fn every_provider_must_store_the_requested_drain_state() {
    let names = vec!["p".to_owned()];
    let consumers = vec!["c".to_owned()];
    let mut watch = ConvergenceWatch::new();
    let good = || vec![read("r1", &[("p", "existing_only")], Some("r1"), Some("r1"))];
    let undrained = vec![FlagReading::Read(false)];
    let (done, text) = watch.observe(&names, true, &consumers, &good(), &undrained);
    assert!(!done);
    assert!(text.ends_with("; provider=p drain=false"));
    assert_eq!(watch.stable_observations(), 0);
    assert!(!watch.observe(&names, true, &consumers, &good(), &undrained).0);
    assert_eq!(watch.stable_observations(), 0);
    assert!(!watch.observe(&names, true, &consumers, &good(), &drained()).0);
    assert!(watch.observe(&names, true, &consumers, &good(), &drained()).0);
}

#[test]
fn observation_lines_quote_like_debug() {
    let names = vec!["q".to_owned()];
    let consumers = vec!["c".to_owned()];
    let mut watch = ConvergenceWatch::new();
    let readings = vec![read("r\"1", &[("z", "b"), ("a\\x", "y\"z")], None, Some("s"))];
    let (done, text) = watch.observe(&names, false, &consumers, &readings, &vec![FlagReading::Read(false)]);
    assert!(!done);
    assert_eq!(
        text,
        r#"grid=r"1 accepted=None serving=Some("s") states_match=false states={"a\\x": "y\"z", "z": "b"} expected=new_and_existing; provider=q drain=false"#
    );
}
