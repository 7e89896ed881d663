use grid_ops::drain::{
    drain_requested, patch_drain_state, read_drain_state, read_revisions, select, select_provider,
    validate_selector, KubectlRequest, Provider, ProviderList, ProviderMetadata, ProviderSpec, SelectorError,
};
use grid_ops::json::JsonValue;

fn provider(name: Option<&str>, gateway_ref: Option<&str>) -> Provider {
    Provider {
        metadata: ProviderMetadata { name: name.map(|n| n.to_owned()) },
        spec: ProviderSpec { gateway_ref: gateway_ref.map(|g| g.to_owned()) },
    }
}

#[test]
fn provider_selection_uses_explicit_gateway_ref() {
    let list = ProviderList {
        items: vec![
            provider(Some("b"), Some("gw")),
            provider(Some("a"), Some("gw")),
            provider(Some("other"), Some("other")),
        ],
    };
    let names = select(&list, "gw");
    assert_eq!(names, ["a", "b"]);
}

#[test]
fn omitted_gateway_ref_does_not_match() {
    let list = ProviderList { items: vec![provider(Some("p"), None)] };
    assert!(select(&list, "gw").is_empty());
}

#[test]
fn gateway_membership_requires_an_exact_reference() {
    let list = ProviderList {
        items: vec![
            provider(Some("prefix"), Some("gateway-a-extra")),
            provider(Some("match"), Some("gateway-a")),
            provider(Some("suffix"), Some("x-gateway-a")),
        ],
    };
    assert_eq!(select(&list, "gateway-a"), ["match"]);
}

#[test]
fn selection_is_sorted_without_repetition_and_skips_unnamed() {
    let list = ProviderList {
        items: vec![
            provider(Some("zeta"), Some("gw")),
            provider(None, Some("gw")),
            provider(Some("alpha"), Some("gw")),
            provider(Some("zeta"), Some("gw")),
            provider(Some("Beta"), Some("gw")),
        ],
    };
    assert_eq!(select(&list, "gw"), ["Beta", "alpha", "zeta"]);
}

#[test]
fn named_provider_selection() {
    assert_eq!(select_provider(&provider(Some("p"), None)), ["p"]);
    assert!(select_provider(&provider(None, Some("gw"))).is_empty());
}

#[test]
fn selector_requires_one_mode() {
    assert!(validate_selector(None, None).is_err());
    assert!(validate_selector(Some(""), None).is_err());
    assert!(validate_selector(Some("gw"), Some("provider")).is_err());
    assert!(validate_selector(Some("gw"), None).is_ok());
    assert!(validate_selector(None, Some("provider")).is_ok());
}

#[test]
fn selector_errors_are_distinguished() {
    assert!(matches!(validate_selector(None, None), Err(SelectorError::ExactlyOne)));
    assert!(matches!(validate_selector(Some("a"), Some("b")), Err(SelectorError::ExactlyOne)));
    assert!(matches!(validate_selector(None, Some(" \t")), Err(SelectorError::Empty)));
    assert_eq!(
        SelectorError::ExactlyOne.message(),
        "exactly one of --gateway or --provider is required"
    );
    assert_eq!(SelectorError::Empty.message(), "--gateway and --provider must not be empty");
}

#[test]
fn patch_arguments_set_the_drain_flag() {
    assert_eq!(
        patch_drain_state("provider-one", true),
        [
            "patch",
            "inferenceproviders",
            "provider-one",
            "--type",
            "merge",
            "-p",
            r#"{"spec":{"trafficPolicy":{"drain":true}}}"#
        ]
    );
    assert_eq!(
        patch_drain_state("p", false)[6],
        r#"{"spec":{"trafficPolicy":{"drain":false}}}"#
    );
}

#[test]
fn kubectl_request_arguments() {
    assert_eq!(KubectlRequest::ListProviders.args(), ["get", "inferenceproviders", "-o", "json"]);
    assert_eq!(
        KubectlRequest::GetProvider("p".to_owned()).args(),
        ["get", "inferenceproviders", "p", "-o", "json"]
    );
    assert_eq!(
        KubectlRequest::ListOverlays.args(),
        ["-n", "grid-system", "get", "configmaps", "-o", "json"]
    );
    assert_eq!(
        KubectlRequest::ConsumerLogs("consumer-a".to_owned()).args(),
        ["-n", "grid-system", "logs", "deployment/consumer-a", "-c", "praxis"]
    );
}

#[test]
fn drain_state_is_read_from_the_traffic_policy() {
    let on = br#"{"metadata":{"name":"p"},"spec":{"trafficPolicy":{"drain":true}}}"#;
    let off = br#"{"spec":{"trafficPolicy":{"drain":false}}}"#;
    let missing = br#"{"spec":{}}"#;
    let not_bool = br#"{"spec":{"trafficPolicy":{"drain":"yes"}}}"#;
    assert!(read_drain_state(on).unwrap());
    assert!(!read_drain_state(off).unwrap());
    assert!(!read_drain_state(missing).unwrap());
    assert!(!read_drain_state(not_bool).unwrap());
    assert!(read_drain_state(b"not json").is_err());
}

#[test]
fn drain_flag_in_a_model_document() {
    let doc = JsonValue::Object(vec![(
        "spec".to_owned(),
        JsonValue::Object(vec![(
            "trafficPolicy".to_owned(),
            JsonValue::Object(vec![("drain".to_owned(), JsonValue::Bool(true))]),
        )]),
    )]);
    assert!(drain_requested(&doc));
    assert!(!drain_requested(&JsonValue::Array(vec![doc])));
}

#[test]
fn revisions_are_read_from_raw_log_bytes() {
    let output = b"\x1b[32maccepted_revision=r1\x1b[0m serving_revision=r0\nserving_revision=\"r1\"\n";
    let (accepted, serving) = read_revisions(output);
    assert_eq!(accepted.as_deref(), Some("r1"));
    assert_eq!(serving.as_deref(), Some("r1"));
    let (accepted, serving) = read_revisions(b"nothing here");
    assert_eq!(accepted, None);
    assert_eq!(serving, None);
    // Invalid UTF-8 is replaced, not fatal.
    let (accepted, _) = read_revisions(b"\xff accepted_revision=\xffx");
    assert_eq!(accepted.as_deref(), Some("\u{fffd}x"));
}
