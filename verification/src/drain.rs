//! Administrative provider drain: selection, drain state and the kubectl
//! requests the drain command issues.
//!
//! Selection is based only on the explicit `spec.gatewayRef` relationship.

use vstd::prelude::*;

use crate::json::{bool_of, member, member_of, parse_json, parsed_json, JsonValue};
use crate::order::{sorted_unique, strictly_ascending, texts};
use crate::text::{blank, field_key, is_blank, latest_field, latest_value, lossy_utf8, strip_ansi, utf8_lossy, without_ansi};

verus! {

/// Why a drain selector was refused.
#[derive(Debug)]
pub enum SelectorError {
    /// Neither or both of `--gateway` and `--provider` were given.
    ExactlyOne,
    /// A given selector is empty once trimmed.
    Empty,
}

/// The text that describes `e`.
pub open spec fn selector_error_text(e: SelectorError) -> Seq<char> {
    match e {
        SelectorError::ExactlyOne => "exactly one of --gateway or --provider is required"@,
        SelectorError::Empty => "--gateway and --provider must not be empty"@,
    }
}

impl SelectorError {
    /// The human-readable description of the error.
    pub fn message(&self) -> (text: String)
        ensures
            text@ == selector_error_text(*self),
    {
        match self {
            SelectorError::ExactlyOne => "exactly one of --gateway or --provider is required".to_owned(),
            SelectorError::Empty => "--gateway and --provider must not be empty".to_owned(),
        }
    }
}

/// The selector is blank where given.
pub open spec fn blank_selector(value: Option<&str>) -> bool {
    match value {
        Some(v) => blank(v@),
        None => false,
    }
}

/// Validate the mutually exclusive administrative selector.
pub fn validate_selector(gateway: Option<&str>, provider: Option<&str>) -> (result: Result<(), SelectorError>)
    ensures
        result matches Err(SelectorError::ExactlyOne) <==> (gateway is None) == (provider is None),
        result matches Err(SelectorError::Empty) <==> (gateway is None) != (provider is None) && (
        blank_selector(gateway) || blank_selector(provider)),
        result is Ok <==> (gateway is None) != (provider is None) && !blank_selector(gateway)
            && !blank_selector(provider),
{
    if gateway.is_none() == provider.is_none() {
        return Err(SelectorError::ExactlyOne);
    }
    let gateway_blank: bool = match gateway {
        Some(value) => is_blank(value),
        None => false,
    };
    let provider_blank: bool = match provider {
        Some(value) => is_blank(value),
        None => false,
    };
    if gateway_blank || provider_blank {
        return Err(SelectorError::Empty);
    }
    Ok(())
}

/// A kubectl invocation the drain command makes, without its context and
/// timeout.
pub enum KubectlRequest {
    /// List all InferenceProvider objects as JSON.
    ListProviders,
    /// Read one InferenceProvider object as JSON.
    GetProvider(String),
    /// Store one provider's desired administrative drain state.
    PatchDrain(String, bool),
    /// List the ConfigMaps of the Grid namespace as JSON.
    ListOverlays,
    /// Read the Praxis logs of a consumer gateway's deployment.
    ConsumerLogs(String),
}

/// The merge patch that sets `spec.trafficPolicy.drain`.
pub open spec fn drain_patch_document(drain: bool) -> Seq<char> {
    if drain {
        "{\"spec\":{\"trafficPolicy\":{\"drain\":true}}}"@
    } else {
        "{\"spec\":{\"trafficPolicy\":{\"drain\":false}}}"@
    }
}

/// The arguments of the kubectl merge patch of one provider's drain state.
pub open spec fn patch_args(name: Seq<char>, drain: bool) -> Seq<Seq<char>> {
    seq!["patch"@, "inferenceproviders"@, name, "--type"@, "merge"@, "-p"@, drain_patch_document(drain)]
}

/// The arguments of a kubectl request.
pub open spec fn request_args(request: KubectlRequest) -> Seq<Seq<char>> {
    match request {
        KubectlRequest::ListProviders => seq!["get"@, "inferenceproviders"@, "-o"@, "json"@],
        KubectlRequest::GetProvider(name) => seq!["get"@, "inferenceproviders"@, name@, "-o"@, "json"@],
        KubectlRequest::PatchDrain(name, drain) => patch_args(name@, drain),
        KubectlRequest::ListOverlays => seq!["-n"@, "grid-system"@, "get"@, "configmaps"@, "-o"@, "json"@],
        KubectlRequest::ConsumerLogs(consumer) => seq![
            "-n"@,
            "grid-system"@,
            "logs"@,
            "deployment/"@ + consumer@,
            "-c"@,
            "praxis"@,
        ],
    }
}

impl KubectlRequest {
    /// The kubectl arguments of this request.
    pub fn args(&self) -> (args: Vec<String>)
        ensures
            texts(args@) == request_args(*self),
    {
        let mut args: Vec<String> = Vec::new();
        match self {
            KubectlRequest::ListProviders => {
                args.push("get".to_owned());
                args.push("inferenceproviders".to_owned());
                args.push("-o".to_owned());
                args.push("json".to_owned());
            },
            KubectlRequest::GetProvider(name) => {
                args.push("get".to_owned());
                args.push("inferenceproviders".to_owned());
                args.push(name.clone());
                args.push("-o".to_owned());
                args.push("json".to_owned());
            },
            KubectlRequest::PatchDrain(name, drain) => {
                args.push("patch".to_owned());
                args.push("inferenceproviders".to_owned());
                args.push(name.clone());
                args.push("--type".to_owned());
                args.push("merge".to_owned());
                args.push("-p".to_owned());
                if *drain {
                    args.push("{\"spec\":{\"trafficPolicy\":{\"drain\":true}}}".to_owned());
                } else {
                    args.push("{\"spec\":{\"trafficPolicy\":{\"drain\":false}}}".to_owned());
                }
            },
            KubectlRequest::ListOverlays => {
                args.push("-n".to_owned());
                args.push("grid-system".to_owned());
                args.push("get".to_owned());
                args.push("configmaps".to_owned());
                args.push("-o".to_owned());
                args.push("json".to_owned());
            },
            KubectlRequest::ConsumerLogs(consumer) => {
                args.push("-n".to_owned());
                args.push("grid-system".to_owned());
                args.push("logs".to_owned());
                let mut deployment: String = "deployment/".to_owned();
                deployment.append(consumer.as_str());
                args.push(deployment);
                args.push("-c".to_owned());
                args.push("praxis".to_owned());
            },
        }
        assert(texts(args@) =~= request_args(*self));
        args
    }
}

/// Store one provider's desired administrative drain state: the kubectl
/// arguments of the merge patch.
pub fn patch_drain_state(name: &str, drain: bool) -> (args: Vec<String>)
    ensures
        texts(args@) == patch_args(name@, drain),
{
    KubectlRequest::PatchDrain(name.to_owned(), drain).args()
}

/// An InferenceProvider's metadata, as far as selection reads it.
pub struct ProviderMetadata {
    pub name: Option<String>,
}

/// An InferenceProvider's spec, as far as selection reads it.
pub struct ProviderSpec {
    /// The explicit gateway membership, `spec.gatewayRef`.
    pub gateway_ref: Option<String>,
}

/// An InferenceProvider object.
pub struct Provider {
    pub metadata: ProviderMetadata,
    pub spec: ProviderSpec,
}

/// A list of InferenceProvider objects.
pub struct ProviderList {
    pub items: Vec<Provider>,
}

/// `provider` names the gateway `gateway` exactly in `spec.gatewayRef`.
pub open spec fn assigned_to(provider: Provider, gateway: Seq<char>) -> bool {
    provider.spec.gateway_ref matches Some(g) && g@ == gateway
}

/// `provider` carries the name `name`.
pub open spec fn named(provider: Provider, name: Seq<char>) -> bool {
    provider.metadata.name matches Some(n) && n@ == name
}

/// The names of the named providers among `items` assigned to `gateway`.
pub open spec fn gateway_members(items: Seq<Provider>, gateway: Seq<char>) -> Set<Seq<char>> {
    Set::new(|name: Seq<char>| exists|i: int| 0 <= i < items.len() && assigned_to(items[i], gateway)
        && #[trigger] named(items[i], name))
}

/// The names of the providers whose `spec.gatewayRef` is exactly
/// `gateway`, sorted and without repetition.
pub fn select(list: &ProviderList, gateway: &str) -> (names: Vec<String>)
    ensures
        strictly_ascending(texts(names@)),
        texts(names@).to_set() == gateway_members(list.items@, gateway@),
{
    let wanted: String = gateway.to_owned();
    let mut names: Vec<String> = Vec::new();
    let mut k: usize = 0;
    while k < list.items.len()
        invariant
            k <= list.items.len(),
            wanted@ == gateway@,
            texts(names@).to_set() == gateway_members(list.items@.take(k as int), gateway@),
        decreases list.items.len() - k,
    {
        let provider: &Provider = &list.items[k];
        let ghost before = names@;
        let assigned: bool = match &provider.spec.gateway_ref {
            Some(g) => *g == wanted,
            None => false,
        };
        if assigned {
            match &provider.metadata.name {
                Some(n) => {
                    names.push(n.clone());
                    assert(assigned_to(list.items@[k as int], gateway@));
                    assert(named(list.items@[k as int], names@.last()@));
                },
                None => {},
            }
        }
        assert(names@.len() > before.len() ==> assigned_to(list.items@[k as int], gateway@) && named(
            list.items@[k as int],
            names@.last()@,
        ));
        assert(names@.len() == before.len() ==> names@ == before);
        assert(names@.len() > before.len() ==> names@ == before.push(names@.last()));
        assert(names@.len() == before.len() ==> !(assigned_to(list.items@[k as int], gateway@)
            && list.items@[k as int].metadata.name is Some));
        proof {
            let prev = list.items@.take(k as int);
            let cur = list.items@.take(k + 1);
            assert(cur =~= prev.push(list.items@[k as int]));
            assert(texts(names@).to_set() =~= gateway_members(cur, gateway@)) by {
                assert forall|t: Seq<char>| texts(names@).to_set().contains(t) implies gateway_members(cur, gateway@).contains(t) by {
                    let j = choose|j: int| 0 <= j < texts(names@).len() && texts(names@)[j] == t;
                    if j < before.len() {
                        assert(texts(before)[j] == t);
                        assert(texts(before).to_set().contains(t));
                        let i = choose|i: int| 0 <= i < prev.len() && assigned_to(prev[i], gateway@)
                            && #[trigger] named(prev[i], t);
                        assert(cur[i] == prev[i]);
                    } else {
                        assert(cur[k as int] == list.items@[k as int]);
                        assert(named(cur[k as int], t));
                    }
                }
                assert forall|t: Seq<char>| gateway_members(cur, gateway@).contains(t) implies texts(names@).to_set().contains(t) by {
                    let i = choose|i: int| 0 <= i < cur.len() && assigned_to(cur[i], gateway@)
                        && #[trigger] named(cur[i], t);
                    if i < k {
                        assert(prev[i] == cur[i]);
                        assert(gateway_members(prev, gateway@).contains(t));
                        let j = choose|j: int| 0 <= j < texts(before).len() && texts(before)[j] == t;
                        assert(texts(names@)[j] == t);
                    } else {
                        assert(cur[i] == list.items@[k as int]);
                        assert(texts(names@)[names@.len() - 1] == t);
                    }
                }
            }
        }
        k = k + 1;
    }
    assert(list.items@.take(list.items.len() as int) =~= list.items@);
    sorted_unique(names)
}

/// Select one explicitly named provider: its name, if the object has one.
pub fn select_provider(provider: &Provider) -> (names: Vec<String>)
    ensures
        match provider.metadata.name {
            Some(n) => texts(names@) == seq![n@],
            None => names@.len() == 0,
        },
{
    let mut names: Vec<String> = Vec::new();
    match &provider.metadata.name {
        Some(n) => {
            names.push(n.clone());
            assert(texts(names@) =~= seq![n@]);
        },
        None => {},
    }
    names
}

/// The desired administrative drain state recorded in a provider document:
/// `spec.trafficPolicy.drain` when it is a boolean, else false. (The JSON
/// pointer `/spec/trafficPolicy/drain` has no escaped and no numeric token,
/// so it resolves exactly as these member lookups do.)
pub open spec fn drain_flag(doc: JsonValue) -> bool {
    match bool_of(member_of(member_of(member(doc, "spec"@), "trafficPolicy"@), "drain"@)) {
        Some(b) => b,
        None => false,
    }
}

/// Read the desired administrative drain state from a provider document.
pub fn drain_requested(doc: &JsonValue) -> (drain: bool)
    ensures
        drain == drain_flag(*doc),
{
    match doc.get("spec") {
        Some(spec) => match spec.get("trafficPolicy") {
            Some(policy) => match policy.get("drain") {
                Some(flag) => match flag.as_bool() {
                    Some(b) => b,
                    None => false,
                },
                None => false,
            },
            None => false,
        },
        None => false,
    }
}

/// Read the desired administrative drain state from the JSON output of
/// `kubectl get inferenceproviders <name> -o json`.
pub fn read_drain_state(output: &[u8]) -> (result: Result<bool, serde_json::Error>)
    ensures
        match result {
            Ok(drain) => parsed_json(output@) matches Some(doc) && drain == drain_flag(doc),
            Err(_) => parsed_json(output@) is None,
        },
{
    match parse_json(output) {
        Ok(doc) => Ok(drain_requested(&doc)),
        Err(error) => Err(error),
    }
}

/// The accepted and the serving revision in Praxis logs: the latest
/// `accepted_revision=` and `serving_revision=` values of the logs decoded
/// from `output` with ANSI escapes removed.
pub fn read_revisions(output: &[u8]) -> (revisions: (Option<String>, Option<String>))
    ensures
        match revisions.0 {
            Some(v) => latest_value(without_ansi(lossy_utf8(output@)), field_key("accepted_revision"@)) == Some(v@),
            None => latest_value(without_ansi(lossy_utf8(output@)), field_key("accepted_revision"@)) is None,
        },
        match revisions.1 {
            Some(v) => latest_value(without_ansi(lossy_utf8(output@)), field_key("serving_revision"@)) == Some(v@),
            None => latest_value(without_ansi(lossy_utf8(output@)), field_key("serving_revision"@)) is None,
        },
{
    let text: String = utf8_lossy(output);
    let logs: String = strip_ansi(text.as_str());
    (latest_field(logs.as_str(), "accepted_revision"), latest_field(logs.as_str(), "serving_revision"))
}

} // verus!
