use grid_ops::json::JsonValue;
use grid_ops::overlay::{is_overlay_config_map, overlay_contents, read_overlay, OverlayError};

fn text(s: &str) -> JsonValue {
    JsonValue::Text(s.to_owned())
}

fn object(members: Vec<(&str, JsonValue)>) -> JsonValue {
    JsonValue::Object(members.into_iter().map(|(k, v)| (k.to_owned(), v)).collect())
}

fn labelled(network: &str, gateway: &str) -> JsonValue {
    object(vec![(
        "metadata",
        object(vec![(
            "labels",
            object(vec![
                ("grid.praxis-proxy.io/network", text(network)),
                ("grid.praxis-proxy.io/gateway", text(gateway)),
            ]),
        )]),
    )])
}

#[test]
fn overlay_lookup_requires_exact_network_and_gateway_labels() {
    let matching = labelled("network-a", "consumer-gateway-a");
    let wrong_network = labelled("network-a-backup", "consumer-gateway-a");
    let wrong_gateway = labelled("network-a", "consumer-gateway-a-backup");
    assert!(is_overlay_config_map(&matching, "network-a", "consumer-gateway-a"));
    assert!(!is_overlay_config_map(&wrong_network, "network-a", "consumer-gateway-a"));
    assert!(!is_overlay_config_map(&wrong_gateway, "network-a", "consumer-gateway-a"));
}

#[test]
fn overlay_lookup_without_labels_does_not_match() {
    assert!(!is_overlay_config_map(&object(vec![]), "n", "c"));
    assert!(!is_overlay_config_map(&object(vec![("metadata", object(vec![]))]), "n", "c"));
    assert!(!is_overlay_config_map(&text("x"), "n", "c"));
}

const LISTING: &str = r#"{"items":[
  {"metadata":{"labels":{"grid.praxis-proxy.io/network":"net","grid.praxis-proxy.io/gateway":"other"}},
   "data":{"routing-overlay.json":"{}"}},
  {"metadata":{"labels":{"grid.praxis-proxy.io/network":"net","grid.praxis-proxy.io/gateway":"consumer"}}},
  {"metadata":{"labels":{"grid.praxis-proxy.io/network":"net","grid.praxis-proxy.io/gateway":"consumer"}},
   "data":{"routing-overlay.json":"{\"revision\":{\"value\":\"rev-7\"},\"overlay\":{\"candidates\":[{\"cluster\":\"a\",\"admission_state\":\"existing_only\"},{\"cluster\":\"b\",\"admission_state\":\"new_and_existing\"},{\"cluster\":\"a\",\"admission_state\":\"new_and_existing\"},{\"cluster\":\"c\"}]}}"}}
]}"#;

#[test]
fn overlay_is_read_from_the_matching_config_map() {
    let (revision, states) = read_overlay(LISTING.as_bytes(), "net", "consumer").unwrap();
    assert_eq!(revision, "rev-7");
    assert_eq!(states.get("a").as_deref(), Some("new_and_existing"));
    assert_eq!(states.get("b").as_deref(), Some("new_and_existing"));
    assert_eq!(states.get("c"), None);
}

#[test]
fn overlay_errors() {
    match read_overlay(LISTING.as_bytes(), "net", "nobody") {
        Err(OverlayError::NotFound { network, consumer }) => {
            assert_eq!(network, "net");
            assert_eq!(consumer, "nobody");
        },
        _ => panic!("expected a missing overlay"),
    }
    let no_doc = r#"{"items":[{"metadata":{"labels":{"grid.praxis-proxy.io/network":"n","grid.praxis-proxy.io/gateway":"c"}},"data":{"routing-overlay.json":5}}]}"#;
    match read_overlay(no_doc.as_bytes(), "n", "c") {
        Err(e @ OverlayError::NoDocument { .. }) => {
            assert_eq!(e.message().as_deref(), Some("overlay ConfigMap for c has no routing-overlay.json"));
        },
        _ => panic!("expected a missing document"),
    }
    let bad_inner = r#"{"items":[{"metadata":{"labels":{"grid.praxis-proxy.io/network":"n","grid.praxis-proxy.io/gateway":"c"}},"data":{"routing-overlay.json":"{not json"}}]}"#;
    assert!(matches!(read_overlay(bad_inner.as_bytes(), "n", "c"), Err(OverlayError::Json(_))));
    assert!(matches!(read_overlay(b"[", "n", "c"), Err(OverlayError::Json(_))));
    assert_eq!(
        OverlayError::NotFound { network: "n".to_owned(), consumer: "c".to_owned() }.message().as_deref(),
        Some("overlay ConfigMap for network=n consumer=c not found")
    );
}

#[test]
fn envelope_without_revision_or_candidates() {
    let (revision, states) = overlay_contents(&object(vec![]));
    assert_eq!(revision, "");
    assert!(states.entries().is_empty());
}
