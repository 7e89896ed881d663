//! Reading a consumer's routing overlay: the projected ConfigMap, its
//! semantic revision and the admission state of each candidate.

use vstd::prelude::*;
use vstd::string::StringExecFns;

use crate::json::{items_of, member, member_of, parse_json, parsed_json, text_of, JsonValue};
use crate::text::str_eq;
use crate::weights::{
    entries_map, keys_distinct, last_entry_of, lemma_distinct_push, lemma_distinct_update, lemma_last_entry_of,
    lemma_replace_entry,
};

verus! {

/// Texts keyed by name: a later text for a name replaces an earlier one.
pub struct TextMap {
    entries: Vec<(String, String)>,
}

impl View for TextMap {
    type V = Map<Seq<char>, Seq<char>>;

    closed spec fn view(&self) -> Map<Seq<char>, Seq<char>> {
        entries_map(self.entries@).map_values(|v: String| v@)
    }
}

impl TextMap {
    /// Each name has one entry.
    #[verifier::type_invariant]
    spec fn one_entry_per_name(self) -> bool {
        keys_distinct(self.entries@)
    }

    /// No texts.
    pub fn new() -> (states: TextMap)
        ensures
            states@ == Map::<Seq<char>, Seq<char>>::empty(),
    {
        let states = TextMap { entries: Vec::new() };
        assert(states@ =~= Map::<Seq<char>, Seq<char>>::empty());
        states
    }

    /// The text recorded for `cluster`, if any.
    pub fn get(&self, cluster: &str) -> (state: Option<String>)
        ensures
            match state {
                Some(s) => self@.contains_key(cluster@) && self@[cluster@] == s@,
                None => !self@.contains_key(cluster@),
            },
    {
        let wanted: String = cluster.to_owned();
        let mut p: usize = self.entries.len();
        assert(self.entries@.take(p as int) =~= self.entries@);
        while p > 0
            invariant
                p <= self.entries.len(),
                wanted@ == cluster@,
                last_entry_of(self.entries@, cluster@) == last_entry_of(
                    self.entries@.take(p as int),
                    cluster@,
                ),
            decreases p,
        {
            assert(self.entries@.take(p as int).last() == self.entries@[p - 1]);
            if self.entries[p - 1].0 == wanted {
                proof {
                    lemma_last_entry_of(self.entries@, cluster@);
                }
                return Some(self.entries[p - 1].1.clone());
            }
            assert(self.entries@.take(p as int).drop_last() =~= self.entries@.take(p - 1));
            p = p - 1;
        }
        proof {
            lemma_last_entry_of(self.entries@, cluster@);
        }
        None
    }

    /// Record `state` for `cluster`, replacing any text recorded for it.
    pub fn insert(&mut self, cluster: String, state: String)
        ensures
            final(self)@ == old(self)@.insert(cluster@, state@),
    {
        proof {
            use_type_invariant(&*self);
        }
        let ghost key = cluster@;
        let ghost value = state@;
        let ghost stored = state;
        let mut entries: Vec<(String, String)> = Vec::new();
        std::mem::swap(&mut entries, &mut self.entries);
        let ghost start = entries@;
        let mut p: usize = entries.len();
        assert(entries@.take(p as int) =~= entries@);
        while p > 0
            invariant
                p <= entries.len(),
                entries@ == start,
                start == old(self).entries@,
                keys_distinct(start),
                key == cluster@,
                value == state@,
                stored == state,
                last_entry_of(entries@, cluster@) == last_entry_of(entries@.take(p as int), cluster@),
            decreases p,
        {
            assert(entries@.take(p as int).last() == entries@[p - 1]);
            if entries[p - 1].0 == cluster {
                let ghost entry = (cluster, state);
                proof {
                    lemma_last_entry_of(entries@, cluster@);
                    lemma_replace_entry(entries@, p - 1, entry);
                    lemma_distinct_update(entries@, p - 1, entry);
                }
                let ghost prior = entries@;
                entries.set(p - 1, (cluster, state));
                assert(entries@ == prior.update(p - 1, entry));
                assert(entries_map(entries@) == entries_map(start).insert(key, stored));
                self.entries = entries;
                assert(self@ =~= old(self)@.insert(key, value));
                return;
            }
            assert(entries@.take(p as int).drop_last() =~= entries@.take(p - 1));
            p = p - 1;
        }
        proof {
            lemma_last_entry_of(entries@, cluster@);
            lemma_distinct_push(entries@, (cluster, state));
        }
        let ghost before = entries@;
        entries.push((cluster, state));
        assert(entries@.drop_last() =~= before);
        self.entries = entries;
        assert(self@ =~= old(self)@.insert(key, value));
    }

    /// The recorded `(name, text)` pairs, in the order first recorded, each
    /// name once.
    pub fn entries(&self) -> (entries: &Vec<(String, String)>)
        ensures
            entries_map(entries@).map_values(|v: String| v@) == self@,
            keys_distinct(entries@),
    {
        proof {
            use_type_invariant(self);
        }
        &self.entries
    }
}

/// Admission states of overlay candidates, by cluster.
pub type CandidateStates = TextMap;

/// The ConfigMap label naming the overlay's network.
pub open spec fn network_label() -> Seq<char> {
    "grid.praxis-proxy.io/network"@
}

/// The ConfigMap label naming the overlay's consumer gateway.
pub open spec fn gateway_label() -> Seq<char> {
    "grid.praxis-proxy.io/gateway"@
}

/// `item` is the overlay ConfigMap of `network` and `consumer`: its
/// `metadata.labels` name both exactly.
pub open spec fn overlay_labels_match(item: JsonValue, network: Seq<char>, consumer: Seq<char>) -> bool {
    match member_of(member(item, "metadata"@), "labels"@) {
        Some(labels) => text_of(member(labels, network_label())) == Some(network) && text_of(
            member(labels, gateway_label()),
        ) == Some(consumer),
        None => false,
    }
}

/// Match an operator-produced overlay by its structured identity labels.
///
/// Names are length-limited and may contain a hash suffix, so the labels
/// are the authoritative lookup key. Exact equality also prevents a gateway
/// or network whose name is a substring of another from being selected.
pub fn is_overlay_config_map(item: &JsonValue, network: &str, consumer: &str) -> (matches: bool)
    ensures
        matches == overlay_labels_match(*item, network@, consumer@),
{
    let labels: &JsonValue = match item.get("metadata") {
        Some(metadata) => match metadata.get("labels") {
            Some(labels) => labels,
            None => {
                return false;
            },
        },
        None => {
            return false;
        },
    };
    let network_matches: bool = match labels.get("grid.praxis-proxy.io/network") {
        Some(value) => match value.as_str() {
            Some(text) => str_eq(text, network),
            None => false,
        },
        None => false,
    };
    let gateway_matches: bool = match labels.get("grid.praxis-proxy.io/gateway") {
        Some(value) => match value.as_str() {
            Some(text) => str_eq(text, consumer),
            None => false,
        },
        None => false,
    };
    network_matches && gateway_matches
}

/// The data key that holds the routing overlay document.
pub open spec fn overlay_key() -> Seq<char> {
    "routing-overlay.json"@
}

/// `item` is the overlay ConfigMap sought and carries an overlay document.
pub open spec fn is_overlay_item(item: JsonValue, network: Seq<char>, consumer: Seq<char>) -> bool {
    overlay_labels_match(item, network, consumer) && member_of(member(item, "data"@), overlay_key()) is Some
}

/// The first overlay ConfigMap of `network` and `consumer` among `items`.
pub open spec fn first_overlay_item(items: Seq<JsonValue>, network: Seq<char>, consumer: Seq<char>) -> Option<JsonValue>
    decreases items.len(),
{
    if items.len() == 0 {
        None
    } else if is_overlay_item(items[0], network, consumer) {
        Some(items[0])
    } else {
        first_overlay_item(items.drop_first(), network, consumer)
    }
}

/// The overlay ConfigMap of `network` and `consumer` in a ConfigMap list.
pub open spec fn overlay_item_of(doc: JsonValue, network: Seq<char>, consumer: Seq<char>) -> Option<JsonValue> {
    match items_of(member(doc, "items"@)) {
        Some(items) => first_overlay_item(items, network, consumer),
        None => None,
    }
}

/// Why an overlay could not be read.
#[derive(Debug)]
pub enum OverlayError {
    /// A document is not JSON.
    Json(serde_json::Error),
    /// No overlay ConfigMap for the network and consumer was listed.
    NotFound { network: String, consumer: String },
    /// The overlay ConfigMap's document is not a string.
    NoDocument { consumer: String },
}

/// The text that describes `e`, where it is not the parser's own.
pub open spec fn overlay_error_text(e: OverlayError) -> Option<Seq<char>> {
    match e {
        OverlayError::Json(_) => None,
        OverlayError::NotFound { network, consumer } => Some(
            "overlay ConfigMap for network="@ + network@ + " consumer="@ + consumer@ + " not found"@,
        ),
        OverlayError::NoDocument { consumer } => Some(
            "overlay ConfigMap for "@ + consumer@ + " has no routing-overlay.json"@,
        ),
    }
}

impl OverlayError {
    /// The human-readable description of the error, where it is not the
    /// parser's own.
    pub fn message(&self) -> (text: Option<String>)
        ensures
            match text {
                Some(t) => overlay_error_text(*self) == Some(t@),
                None => overlay_error_text(*self) is None,
            },
    {
        match self {
            OverlayError::Json(_) => None,
            OverlayError::NotFound { network, consumer } => {
                let mut text: String = "overlay ConfigMap for network=".to_owned();
                text.append(network.as_str());
                text.append(" consumer=");
                text.append(consumer.as_str());
                text.append(" not found");
                Some(text)
            },
            OverlayError::NoDocument { consumer } => {
                let mut text: String = "overlay ConfigMap for ".to_owned();
                text.append(consumer.as_str());
                text.append(" has no routing-overlay.json");
                Some(text)
            },
        }
    }
}

/// Find the overlay document of `network` and `consumer` in a parsed
/// ConfigMap list.
pub fn overlay_document(doc: &JsonValue, network: &str, consumer: &str) -> (result: Result<String, OverlayError>)
    ensures
        match overlay_item_of(*doc, network@, consumer@) {
            None => result matches Err(OverlayError::NotFound { network: n, consumer: c }) && n@
                == network@ && c@ == consumer@,
            Some(item) => match text_of(member_of(member(item, "data"@), overlay_key())) {
                Some(text) => result matches Ok(t) && t@ == text,
                None => result matches Err(OverlayError::NoDocument { consumer: c }) && c@
                    == consumer@,
            },
        },
{
    let items: &Vec<JsonValue> = match doc.get("items") {
        Some(list) => match list.as_array() {
            Some(items) => items,
            None => {
                return Err(
                    OverlayError::NotFound { network: network.to_owned(), consumer: consumer.to_owned() },
                );
            },
        },
        None => {
            return Err(
                OverlayError::NotFound { network: network.to_owned(), consumer: consumer.to_owned() },
            );
        },
    };
    let mut i: usize = 0;
    assert(items@.skip(0) =~= items@);
    while i < items.len()
        invariant
            i <= items.len(),
            overlay_item_of(*doc, network@, consumer@) == first_overlay_item(
                items@.skip(i as int),
                network@,
                consumer@,
            ),
        decreases items.len() - i,
    {
        let item: &JsonValue = &items[i];
        assert(items@.skip(i as int)[0] == *item);
        let has_document: bool = match item.get("data") {
            Some(data) => data.get("routing-overlay.json").is_some(),
            None => false,
        };
        if is_overlay_config_map(item, network, consumer) && has_document {
            let text: Option<&str> = match item.get("data") {
                Some(data) => match data.get("routing-overlay.json") {
                    Some(value) => value.as_str(),
                    None => None,
                },
                None => None,
            };
            return match text {
                Some(t) => Ok(t.to_owned()),
                None => Err(OverlayError::NoDocument { consumer: consumer.to_owned() }),
            };
        }
        assert(items@.skip(i as int).drop_first() =~= items@.skip(i + 1));
        i = i + 1;
    }
    Err(OverlayError::NotFound { network: network.to_owned(), consumer: consumer.to_owned() })
}

/// The text of an optional string value, or the empty text.
pub open spec fn text_or_empty(value: Option<JsonValue>) -> Seq<char> {
    match text_of(value) {
        Some(t) => t,
        None => Seq::empty(),
    }
}

/// The semantic revision of an overlay envelope: `revision.value`, or the
/// empty text.
pub open spec fn envelope_revision(envelope: JsonValue) -> Seq<char> {
    text_or_empty(member_of(member(envelope, "revision"@), "value"@))
}

/// The admission states of `candidates`, in order: a later candidate for a
/// cluster replaces an earlier one; candidates without a textual cluster
/// and admission state are skipped.
pub open spec fn states_of(candidates: Seq<JsonValue>) -> Map<Seq<char>, Seq<char>>
    decreases candidates.len(),
{
    if candidates.len() == 0 {
        Map::empty()
    } else {
        let before = states_of(candidates.drop_last());
        let c = candidates.last();
        match (text_of(member(c, "cluster"@)), text_of(member(c, "admission_state"@))) {
            (Some(cluster), Some(state)) => before.insert(cluster, state),
            _ => before,
        }
    }
}

/// The candidate admission states of an overlay envelope:
/// `overlay.candidates`, or none.
pub open spec fn envelope_states(envelope: JsonValue) -> Map<Seq<char>, Seq<char>> {
    match items_of(member_of(member(envelope, "overlay"@), "candidates"@)) {
        Some(candidates) => states_of(candidates),
        None => Map::empty(),
    }
}

/// The projected revision and the candidate admission states of a parsed
/// overlay envelope.
pub fn overlay_contents(envelope: &JsonValue) -> (contents: (String, CandidateStates))
    ensures
        contents.0@ == envelope_revision(*envelope),
        contents.1@ == envelope_states(*envelope),
{
    let revision: String = match envelope.get("revision") {
        Some(r) => match r.get("value") {
            Some(v) => match v.as_str() {
                Some(t) => t.to_owned(),
                None => String::new(),
            },
            None => String::new(),
        },
        None => String::new(),
    };
    let mut states: CandidateStates = TextMap::new();
    let candidates: Option<&Vec<JsonValue>> = match envelope.get("overlay") {
        Some(o) => match o.get("candidates") {
            Some(c) => c.as_array(),
            None => None,
        },
        None => None,
    };
    match candidates {
        Some(candidates) => {
            let mut i: usize = 0;
            while i < candidates.len()
                invariant
                    i <= candidates.len(),
                    states@ == states_of(candidates@.take(i as int)),
                decreases candidates.len() - i,
            {
                let candidate: &JsonValue = &candidates[i];
                assert(candidates@.take(i + 1).drop_last() =~= candidates@.take(i as int));
                assert(candidates@.take(i + 1).last() == *candidate);
                let cluster: Option<&str> = match candidate.get("cluster") {
                    Some(v) => v.as_str(),
                    None => None,
                };
                let state: Option<&str> = match candidate.get("admission_state") {
                    Some(v) => v.as_str(),
                    None => None,
                };
                match (cluster, state) {
                    (Some(c), Some(s)) => {
                        states.insert(c.to_owned(), s.to_owned());
                    },
                    _ => {},
                }
                i = i + 1;
            }
            assert(candidates@.take(candidates.len() as int) =~= candidates@);
        },
        None => {},
    }
    (revision, states)
}

/// Read the projected overlay revision and candidate admission states of
/// `network` and `consumer` from the JSON output of
/// `kubectl -n grid-system get configmaps -o json`.
pub fn read_overlay(listing: &[u8], network: &str, consumer: &str) -> (result: Result<(String, CandidateStates), OverlayError>)
    ensures
        match parsed_json(listing@) {
            None => result matches Err(OverlayError::Json(_)),
            Some(doc) => match overlay_item_of(doc, network@, consumer@) {
                None => result matches Err(OverlayError::NotFound { network: n, consumer: c }) && n@
                    == network@ && c@ == consumer@,
                Some(item) => match text_of(member_of(member(item, "data"@), overlay_key())) {
                    None => result matches Err(OverlayError::NoDocument { consumer: c }) && c@
                        == consumer@,
                    Some(text) => match parsed_json(vstd::utf8::encode_utf8(text)) {
                        None => result matches Err(OverlayError::Json(_)),
                        Some(envelope) => result matches Ok((revision, states)) && revision@
                            == envelope_revision(envelope) && states@ == envelope_states(envelope),
                    },
                },
            },
        },
{
    let doc: JsonValue = match parse_json(listing) {
        Ok(doc) => doc,
        Err(error) => {
            return Err(OverlayError::Json(error));
        },
    };
    let text: String = match overlay_document(&doc, network, consumer) {
        Ok(text) => text,
        Err(error) => {
            return Err(error);
        },
    };
    let envelope: JsonValue = match parse_json(text.as_str().as_bytes()) {
        Ok(envelope) => envelope,
        Err(error) => {
            return Err(OverlayError::Json(error));
        },
    };
    Ok(overlay_contents(&envelope))
}

} // verus!
