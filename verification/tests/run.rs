use grid_ops::drain::{Provider, ProviderList, ProviderMetadata, ProviderSpec};
use grid_ops::run::{DrainAction, DrainEvent, DrainFailure, DrainOutcome, DrainPhase, DrainRequest, DrainRun};

fn request(gateway: Option<&str>, provider: Option<&str>) -> DrainRequest {
    DrainRequest {
        gateway: gateway.map(|s| s.to_owned()),
        provider: provider.map(|s| s.to_owned()),
        dry_run: false,
        undrain: false,
        network: None,
        consumers: Vec::new(),
    }
}

fn listing(entries: &[(&str, &str)]) -> ProviderList {
    ProviderList {
        items: entries
            .iter()
            .map(|(name, gw)| Provider {
                metadata: ProviderMetadata { name: Some((*name).to_owned()) },
                spec: ProviderSpec { gateway_ref: Some((*gw).to_owned()) },
            })
            .collect(),
    }
}

fn drain_doc(drain: bool) -> Vec<u8> {
    format!(r#"{{"spec":{{"trafficPolicy":{{"drain":{drain}}}}}}}"#).into_bytes()
}

#[test]
fn gateway_drain_reads_patches_and_stores() {
    let mut run = DrainRun::new(request(Some("gw"), None));
    assert!(matches!(run.step(DrainEvent::Begin), DrainAction::ListProviders));
    match run.step(DrainEvent::ProvidersListed(listing(&[("b", "gw"), ("a", "gw"), ("c", "x")]))) {
        DrainAction::Announce(names) => assert_eq!(names, ["a", "b"]),
        _ => panic!("expected the selection"),
    }
    assert!(matches!(run.step(DrainEvent::Announced), DrainAction::ReadDrainState(n) if n == "a"));
    assert!(matches!(run.step(DrainEvent::DrainStateOutput(drain_doc(false))), DrainAction::ReadDrainState(n) if n == "b"));
    assert!(matches!(run.step(DrainEvent::DrainStateOutput(drain_doc(true))), DrainAction::Patch(n, true) if n == "a"));
    assert!(matches!(run.step(DrainEvent::Patched), DrainAction::Patch(n, true) if n == "b"));
    assert!(matches!(run.step(DrainEvent::Patched), DrainAction::Finish(DrainOutcome::Stored)));
    assert!(run.phase == DrainPhase::Done);
    assert_eq!(run.originals, [false, true]);
}

#[test]
fn failed_patch_restores_changed_providers() {
    let mut run = DrainRun::new(request(Some("gw"), None));
    run.step(DrainEvent::Begin);
    run.step(DrainEvent::ProvidersListed(listing(&[("a", "gw"), ("b", "gw"), ("c", "gw")])));
    run.step(DrainEvent::Announced);
    run.step(DrainEvent::DrainStateOutput(drain_doc(true)));
    run.step(DrainEvent::DrainStateOutput(drain_doc(false)));
    assert!(matches!(run.step(DrainEvent::DrainStateOutput(drain_doc(false))), DrainAction::Patch(n, true) if n == "a"));
    run.step(DrainEvent::Patched);
    assert!(matches!(run.step(DrainEvent::Patched), DrainAction::Patch(n, true) if n == "c"));
    // Patching c fails: a and b are patched back to their original states.
    assert!(matches!(run.step(DrainEvent::Failed("denied".to_owned())), DrainAction::Patch(n, true) if n == "a"));
    assert!(matches!(run.step(DrainEvent::Failed("gone".to_owned())), DrainAction::Patch(n, false) if n == "b"));
    match run.step(DrainEvent::Patched) {
        DrainAction::Finish(DrainOutcome::PatchFailed { name, error, restoration_errors }) => {
            assert_eq!(name, "c");
            assert_eq!(error, "denied");
            assert_eq!(restoration_errors, ["a: gone"]);
        },
        _ => panic!("expected the patch failure"),
    }
}

#[test]
fn first_patch_failure_needs_no_restoration() {
    let mut run = DrainRun::new(request(None, Some("p")));
    assert!(matches!(run.step(DrainEvent::Begin), DrainAction::FetchProvider(n) if n == "p"));
    let fetched = Provider {
        metadata: ProviderMetadata { name: Some("p".to_owned()) },
        spec: ProviderSpec { gateway_ref: None },
    };
    run.step(DrainEvent::ProviderFetched(fetched));
    run.step(DrainEvent::Announced);
    run.step(DrainEvent::DrainStateOutput(drain_doc(false)));
    match run.step(DrainEvent::Failed("denied".to_owned())) {
        DrainAction::Finish(DrainOutcome::PatchFailed { name, error, restoration_errors }) => {
            assert_eq!(name, "p");
            assert_eq!(error, "denied");
            assert!(restoration_errors.is_empty());
        },
        _ => panic!("expected the patch failure"),
    }
}

#[test]
fn dry_run_only_shows_the_selection() {
    let mut req = request(Some("gw"), None);
    req.dry_run = true;
    let mut run = DrainRun::new(req);
    run.step(DrainEvent::Begin);
    run.step(DrainEvent::ProvidersListed(listing(&[("a", "gw")])));
    assert!(matches!(run.step(DrainEvent::Announced), DrainAction::Finish(DrainOutcome::DryRun)));
}

#[test]
fn refusals_and_empty_selection() {
    let mut run = DrainRun::new(request(None, None));
    assert!(matches!(run.step(DrainEvent::Begin), DrainAction::Finish(DrainOutcome::Refused(_))));
    let mut run = DrainRun::new(request(Some("gw"), None));
    run.step(DrainEvent::Begin);
    assert!(matches!(run.step(DrainEvent::ProvidersListed(listing(&[("a", "x")]))), DrainAction::Finish(DrainOutcome::NoMatch)));
    let mut req = request(Some("gw"), None);
    req.network = Some("net".to_owned());
    let mut run = DrainRun::new(req);
    run.step(DrainEvent::Begin);
    run.step(DrainEvent::ProvidersListed(listing(&[("a", "gw")])));
    assert!(matches!(run.step(DrainEvent::Announced), DrainAction::Finish(DrainOutcome::TargetsMismatch)));
}

#[test]
fn undrain_with_convergence_targets() {
    let mut req = request(Some("gw"), None);
    req.undrain = true;
    req.network = Some("net".to_owned());
    req.consumers = vec!["consumer".to_owned()];
    let mut run = DrainRun::new(req);
    run.step(DrainEvent::Begin);
    run.step(DrainEvent::ProvidersListed(listing(&[("a", "gw")])));
    run.step(DrainEvent::Announced);
    assert!(matches!(run.step(DrainEvent::DrainStateOutput(drain_doc(true))), DrainAction::Patch(n, false) if n == "a"));
    match run.step(DrainEvent::Patched) {
        DrainAction::AwaitConvergence { names, draining } => {
            assert_eq!(names, ["a"]);
            assert!(!draining);
        },
        _ => panic!("expected the convergence wait"),
    }
    assert!(matches!(run.step(DrainEvent::Converged), DrainAction::Finish(DrainOutcome::Converged)));
}

#[test]
fn read_failures_and_out_of_order_events() {
    let mut run = DrainRun::new(request(None, Some("p")));
    run.step(DrainEvent::Begin);
    assert!(matches!(run.step(DrainEvent::Failed("no such provider".to_owned())), DrainAction::Finish(DrainOutcome::Failed(DrainFailure::Command(m))) if m == "no such provider"));
    let mut run = DrainRun::new(request(None, Some("p")));
    assert!(matches!(run.step(DrainEvent::Patched), DrainAction::Finish(DrainOutcome::OutOfOrder)));
    let mut run = DrainRun::new(request(Some("gw"), None));
    run.step(DrainEvent::Begin);
    run.step(DrainEvent::ProvidersListed(listing(&[("a", "gw")])));
    run.step(DrainEvent::Announced);
    assert!(matches!(run.step(DrainEvent::DrainStateOutput(b"{".to_vec())), DrainAction::Finish(DrainOutcome::Failed(DrainFailure::Json(_)))));
}
