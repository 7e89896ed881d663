//! Deciding when a drain has converged: every selected provider stores the
//! requested drain state, every consumer serves the accepted overlay
//! revision and shows every selected provider in the requested admission
//! state, and the same observation is made twice in a row.

use vstd::prelude::*;
use vstd::string::StringExecFns;

use crate::order::{lemma_ascending_unique, sorted_unique, strictly_ascending, texts};
use crate::overlay::TextMap;
use crate::weights::{last_entry_of, lemma_last_entry_of};
use crate::text::str_eq;

verus! {

/// The admission state a drained provider shows, or an undrained one.
pub open spec fn expected_state(draining: bool) -> Seq<char> {
    if draining {
        "existing_only"@
    } else {
        "new_and_existing"@
    }
}

/// The admission state that a drained (or undrained) provider shows in a
/// consumer overlay.
pub fn expected_state_text(draining: bool) -> (state: &'static str)
    ensures
        state@ == expected_state(draining),
{
    if draining {
        "existing_only"
    } else {
        "new_and_existing"
    }
}

/// What one round read of one consumer.
pub enum ConsumerReading {
    /// Reading the overlay failed, for the reason given.
    OverlayFailed(String),
    /// The overlay was read; reading the revisions failed, for the reason
    /// given.
    RevisionsFailed(String),
    /// The overlay revision and candidate states, and the accepted and
    /// serving revisions.
    Read { revision: String, states: TextMap, accepted: Option<String>, serving: Option<String> },
}

/// The text of an optional string.
pub open spec fn opt_text(value: Option<String>) -> Option<Seq<char>> {
    match value {
        Some(s) => Some(s@),
        None => None,
    }
}

/// Every named provider shows `expected` in `states`.
pub open spec fn states_match(names: Seq<String>, states: Map<Seq<char>, Seq<char>>, expected: Seq<char>) -> bool {
    forall|i: int| 0 <= i < names.len() ==> states.contains_key(#[trigger] names[i]@) && states[names[i]@] == expected
}

/// The consumer accepted and serves the overlay's non-empty revision.
pub open spec fn revision_match(revision: Seq<char>, accepted: Option<Seq<char>>, serving: Option<Seq<char>>) -> bool {
    revision.len() > 0 && accepted == Some(revision) && serving == Some(revision)
}

/// The reading shows the consumer converged for `names`.
pub open spec fn reading_valid(names: Seq<String>, draining: bool, reading: ConsumerReading) -> bool {
    match reading {
        ConsumerReading::Read { revision, states, accepted, serving } => states_match(
            names,
            states@,
            expected_state(draining),
        ) && revision_match(revision@, opt_text(accepted), opt_text(serving)),
        _ => false,
    }
}

/// What one round read of one selected provider's desired drain state.
pub enum FlagReading {
    /// Reading the provider failed, for the reason given.
    Failed(String),
    /// The provider's `spec.trafficPolicy.drain`.
    Read(bool),
}

/// The provider's stored drain state is the requested one.
pub open spec fn flag_valid(draining: bool, reading: FlagReading) -> bool {
    reading matches FlagReading::Read(b) && b == draining
}

/// The diagnostic line of one provider's drain state.
pub open spec fn flag_text(name: String, reading: FlagReading) -> Seq<char> {
    match reading {
        FlagReading::Read(b) => "provider="@ + name@ + " drain="@ + (if b {
            "true"@
        } else {
            "false"@
        }),
        FlagReading::Failed(e) => "provider="@ + name@ + " drain_error="@ + e@,
    }
}

/// The lines of the providers' drain states, in the order of `names`.
pub open spec fn flag_lines(names: Seq<String>, flags: Seq<FlagReading>) -> Seq<Seq<char>> {
    Seq::new(names.len(), |i: int| flag_text(names[i], flags[i]))
}

/// What `format!("{:?}", s)` makes of the string `s`: the text in double
/// quotes, with Rust's escapes.
pub uninterp spec fn debug_quoted(s: Seq<char>) -> Seq<char>;

/// `format!("{:?}")` of a string. The contract names the text and claims
/// only that it depends on the string alone; it does not spell out the
/// escapes.
#[verifier::external_body]
fn debug_str(s: &str) -> (text: String)
    ensures
        text@ == debug_quoted(s@),
{
    format!("{s:?}")
}

/// The `Debug` text of an optional string.
pub open spec fn option_debug(value: Option<Seq<char>>) -> Seq<char> {
    match value {
        Some(v) => "Some("@ + debug_quoted(v) + ")"@,
        None => "None"@,
    }
}

/// The text of a boolean.
pub open spec fn bool_text(b: bool) -> Seq<char> {
    if b {
        "true"@
    } else {
        "false"@
    }
}

/// One `key: value` part of a map's `Debug` text.
pub open spec fn map_entry_debug(m: Map<Seq<char>, Seq<char>>, k: Seq<char>) -> Seq<char> {
    debug_quoted(k) + ": "@ + debug_quoted(m[k])
}

/// The `Debug` text of an ordered map of strings: its entries by ascending
/// key, `{"key": "value", ...}`.
pub open spec fn map_debug(m: Map<Seq<char>, Seq<char>>) -> Seq<char> {
    "{"@ + join(ascending_of(m.dom()).map_values(|k: Seq<char>| map_entry_debug(m, k)), ", "@) + "}"@
}

/// The diagnostic line of a consumer that was read:
/// `grid={revision} accepted={accepted:?} serving={serving:?}
/// states_match={states_match} states={states:?} expected={expected}`, with
/// the states shown as an ordered map.
pub open spec fn observation_text(
    revision: Seq<char>,
    accepted: Option<Seq<char>>,
    serving: Option<Seq<char>>,
    states_match: bool,
    states: Map<Seq<char>, Seq<char>>,
    expected: Seq<char>,
) -> Seq<char> {
    "grid="@ + revision + " accepted="@ + option_debug(accepted) + " serving="@ + option_debug(serving)
        + " states_match="@ + bool_text(states_match) + " states="@ + map_debug(states) + " expected="@
        + expected
}

fn option_debug_text(value: &Option<String>) -> (text: String)
    ensures
        text@ == option_debug(opt_text(*value)),
{
    match value {
        Some(v) => {
            let mut text: String = "Some(".to_owned();
            let quoted: String = debug_str(v.as_str());
            text.append(quoted.as_str());
            text.append(")");
            text
        },
        None => "None".to_owned(),
    }
}

fn states_debug_text(states: &TextMap) -> (text: String)
    ensures
        text@ == map_debug(states@),
{
    let entries: &Vec<(String, String)> = states.entries();
    let mut keys: Vec<String> = Vec::new();
    let mut i: usize = 0;
    while i < entries.len()
        invariant
            i <= entries.len(),
            keys@.len() == i,
            forall|j: int| 0 <= j < i ==> (#[trigger] keys@[j])@ == entries@[j].0@,
        decreases entries.len() - i,
    {
        keys.push(entries[i].0.clone());
        i = i + 1;
    }
    proof {
        assert forall|k: Seq<char>| texts(keys@).to_set().contains(k) implies states@.dom().contains(k) by {
            let j = choose|j: int| 0 <= j < texts(keys@).len() && texts(keys@)[j] == k;
            assert(entries@[j].0@ == k);
            lemma_last_entry_of(entries@, k);
        }
        assert forall|k: Seq<char>| states@.dom().contains(k) implies texts(keys@).to_set().contains(k) by {
            lemma_last_entry_of(entries@, k);
            let p = last_entry_of(entries@, k)->0;
            assert(texts(keys@)[p] == k);
        }
        assert(texts(keys@).to_set() =~= states@.dom());
    }
    let sorted: Vec<String> = sorted_unique(keys);
    let ghost order = ascending_of(states@.dom());
    proof {
        lemma_ascending_unique(texts(sorted@), order);
    }
    let ghost parts = order.map_values(|k: Seq<char>| map_entry_debug(states@, k));
    let mut text: String = "{".to_owned();
    let mut t: usize = 0;
    while t < sorted.len()
        invariant
            t <= sorted.len(),
            texts(sorted@) == order,
            states@.dom() == order.to_set(),
            parts == order.map_values(|k: Seq<char>| map_entry_debug(states@, k)),
            text@ == "{"@ + join(parts.take(t as int), ", "@),
        decreases sorted.len() - t,
    {
        assert(order[t as int] == sorted@[t as int]@);
        assert(states@.contains_key(order[t as int]));
        let value: String = match states.get(sorted[t].as_str()) {
            Some(v) => v,
            None => String::new(),
        };
        let key_text: String = debug_str(sorted[t].as_str());
        let value_text: String = debug_str(value.as_str());
        let ghost before = text@;
        if t > 0 {
            text.append(", ");
        }
        text.append(key_text.as_str());
        text.append(": ");
        text.append(value_text.as_str());
        proof {
            let pt = parts.take(t + 1);
            let piece = key_text@ + ": "@ + value_text@;
            assert(pt.drop_last() =~= parts.take(t as int));
            assert(parts[t as int] == map_entry_debug(states@, order[t as int]));
            assert(pt.last() == piece);
            if t == 0 {
                assert(parts.take(t as int) =~= Seq::<Seq<char>>::empty());
                assert(text@ =~= "{"@ + pt[0]);
            } else {
                assert(text@ =~= before + ", "@ + piece);
            }
        }
        t = t + 1;
    }
    assert(parts.take(sorted.len() as int) =~= parts);
    text.append("}");
    text
}

/// A read consumer's diagnostic line.
fn render_observation(
    revision: &str,
    accepted: &Option<String>,
    serving: &Option<String>,
    states_match: bool,
    states: &TextMap,
    expected: &str,
) -> (text: String)
    ensures
        text@ == observation_text(revision@, opt_text(*accepted), opt_text(*serving), states_match, states@, expected@),
{
    let mut text: String = "grid=".to_owned();
    text.append(revision);
    text.append(" accepted=");
    let a: String = option_debug_text(accepted);
    text.append(a.as_str());
    text.append(" serving=");
    let v: String = option_debug_text(serving);
    text.append(v.as_str());
    text.append(" states_match=");
    text.append(if states_match {
        "true"
    } else {
        "false"
    });
    text.append(" states=");
    let m: String = states_debug_text(states);
    text.append(m.as_str());
    text.append(" expected=");
    text.append(expected);
    text
}

/// The diagnostic line of one consumer's reading.
pub open spec fn reading_text(names: Seq<String>, draining: bool, reading: ConsumerReading) -> Seq<char> {
    match reading {
        ConsumerReading::OverlayFailed(e) => "overlay_error="@ + e@,
        ConsumerReading::RevisionsFailed(e) => "revision_error="@ + e@,
        ConsumerReading::Read { revision, states, accepted, serving } => observation_text(
            revision@,
            opt_text(accepted),
            opt_text(serving),
            states_match(names, states@, expected_state(draining)),
            states@,
            expected_state(draining),
        ),
    }
}

/// The diagnostic lines of a round, by consumer; a later reading of a
/// consumer replaces an earlier one.
pub open spec fn observations(consumers: Seq<String>, lines: Seq<Seq<char>>) -> Map<Seq<char>, Seq<char>>
    decreases consumers.len(),
{
    if consumers.len() == 0 || lines.len() == 0 {
        Map::empty()
    } else {
        observations(consumers.drop_last(), lines.drop_last()).insert(consumers.last()@, lines.last())
    }
}

/// `parts` joined by `sep`.
pub open spec fn join(parts: Seq<Seq<char>>, sep: Seq<char>) -> Seq<char>
    decreases parts.len(),
{
    if parts.len() == 0 {
        Seq::empty()
    } else if parts.len() == 1 {
        parts[0]
    } else {
        join(parts.drop_last(), sep) + sep + parts.last()
    }
}

/// The names of a finite set in ascending order.
pub open spec fn ascending_of(names: Set<Seq<char>>) -> Seq<Seq<char>> {
    choose|s: Seq<Seq<char>>| strictly_ascending(s) && s.to_set() == names
}

/// The lines of a round: the consumers' lines in consumer order, then the
/// providers' drain-state lines.
pub open spec fn round_parts(obs: Map<Seq<char>, Seq<char>>, flags: Seq<Seq<char>>) -> Seq<Seq<char>> {
    ascending_of(obs.dom()).map_values(|k: Seq<char>| obs[k]) + flags
}

/// A round's fingerprint: its lines joined by `"; "`.
pub open spec fn fingerprint(obs: Map<Seq<char>, Seq<char>>, flags: Seq<Seq<char>>) -> Seq<char> {
    join(round_parts(obs, flags), "; "@)
}

/// The lines of the readings of a round.
pub open spec fn round_lines(names: Seq<String>, draining: bool, readings: Seq<ConsumerReading>) -> Seq<Seq<char>> {
    Seq::new(readings.len(), |i: int| reading_text(names, draining, readings[i]))
}

/// Every consumer of the round converged, and every selected provider
/// stores the requested drain state.
pub open spec fn round_valid(
    names: Seq<String>,
    draining: bool,
    readings: Seq<ConsumerReading>,
    flags: Seq<FlagReading>,
) -> bool {
    &&& forall|i: int| 0 <= i < readings.len() ==> reading_valid(names, draining, #[trigger] readings[i])
    &&& forall|i: int| 0 <= i < flags.len() ==> flag_valid(draining, #[trigger] flags[i])
}

/// Consecutive identical converged rounds after a round with fingerprint
/// `fp`, given the count and fingerprint before it.
pub open spec fn next_stable_count(before: (u64, Seq<char>), valid: bool, fp: Seq<char>) -> u64 {
    if valid && fp == before.1 {
        if before.0 == u64::MAX {
            u64::MAX
        } else {
            (before.0 + 1) as u64
        }
    } else if valid {
        1u64
    } else {
        0u64
    }
}

/// A drain counts as converged only after a converged round whose
/// observation repeats the previous round's, itself converged; the count
/// is positive exactly after a converged round.
pub proof fn lemma_convergence_needs_repeated_observation(before: (u64, Seq<char>), valid: bool, fp: Seq<char>)
    ensures
        next_stable_count(before, valid, fp) >= 1 <==> valid,
        next_stable_count(before, valid, fp) >= 2 ==> valid && fp == before.1 && before.0 >= 1,
{
}

/// A consumer's reading counts as converged exactly when the overlay was
/// read with a non-empty revision, the consumer both accepted and serves
/// that very revision, and the overlay shows every selected provider in
/// the admission state that the requested drain state calls for.
pub proof fn lemma_converged_reading(names: Seq<String>, draining: bool, reading: ConsumerReading)
    ensures
        reading_valid(names, draining, reading) <==> match reading {
            ConsumerReading::Read { revision, states, accepted, serving } => {
                &&& revision@.len() > 0
                &&& accepted matches Some(a) && a@ == revision@
                &&& serving matches Some(s) && s@ == revision@
                &&& forall|i: int| 0 <= i < names.len() ==> states@.contains_key(#[trigger] names[i]@)
                    && states@[names[i]@] == (if draining {
                    "existing_only"@
                } else {
                    "new_and_existing"@
                })
            },
            _ => false,
        },
{
}

/// A converged round has every selected provider storing the requested
/// drain state and every consumer accepting and serving the overlay's
/// non-empty revision.
pub proof fn lemma_converged_round(
    names: Seq<String>,
    draining: bool,
    readings: Seq<ConsumerReading>,
    flags: Seq<FlagReading>,
)
    requires
        round_valid(names, draining, readings, flags),
    ensures
        forall|i: int| 0 <= i < flags.len() ==> #[trigger] flags[i] == FlagReading::Read(draining),
        forall|k: int|
            0 <= k < readings.len() ==> (#[trigger] readings[k] matches ConsumerReading::Read {
                revision,
                accepted: Some(a),
                serving: Some(s),
                ..
            } && revision@.len() > 0 && a@ == revision@ && s@ == revision@),
{
    assert forall|i: int| 0 <= i < flags.len() implies #[trigger] flags[i] == FlagReading::Read(draining) by {
        assert(flag_valid(draining, flags[i]));
    }
    assert forall|k: int| 0 <= k < readings.len() implies (#[trigger] readings[k] matches ConsumerReading::Read {
        revision,
        accepted: Some(a),
        serving: Some(s),
        ..
    } && revision@.len() > 0 && a@ == revision@ && s@ == revision@) by {
        assert(reading_valid(names, draining, readings[k]));
        lemma_converged_reading(names, draining, readings[k]);
    }
}

/// Tracks consecutive identical converged observations.
pub struct ConvergenceWatch {
    stable_observations: u64,
    previous: String,
}

impl View for ConvergenceWatch {
    type V = (u64, Seq<char>);

    closed spec fn view(&self) -> (u64, Seq<char>) {
        (self.stable_observations, self.previous@)
    }
}

fn reading_line(names: &Vec<String>, draining: bool, reading: &ConsumerReading) -> (result: (String, bool))
    ensures
        result.0@ == reading_text(names@, draining, *reading),
        result.1 == reading_valid(names@, draining, *reading),
{
    match reading {
        ConsumerReading::OverlayFailed(e) => {
            let mut line: String = "overlay_error=".to_owned();
            line.append(e.as_str());
            (line, false)
        },
        ConsumerReading::RevisionsFailed(e) => {
            let mut line: String = "revision_error=".to_owned();
            line.append(e.as_str());
            (line, false)
        },
        ConsumerReading::Read { revision, states, accepted, serving } => {
            let expected: &str = expected_state_text(draining);
            let mut all: bool = true;
            let mut k: usize = 0;
            while k < names.len()
                invariant
                    k <= names.len(),
                    expected@ == expected_state(draining),
                    all == (forall|i: int| 0 <= i < k ==> states@.contains_key(#[trigger] names@[i]@)
                        && states@[names@[i]@] == expected@),
                decreases names.len() - k,
            {
                let shown: bool = match states.get(names[k].as_str()) {
                    Some(state) => str_eq(state.as_str(), expected),
                    None => false,
                };
                all = all && shown;
                k = k + 1;
            }
            let revision_ok: bool = !revision.as_str().is_empty() && match accepted {
                Some(a) => *a == *revision,
                None => false,
            } && match serving {
                Some(s) => *s == *revision,
                None => false,
            };
            let line: String = render_observation(revision.as_str(), accepted, serving, all, states, expected);
            (line, all && revision_ok)
        },
    }
}

fn flag_line(name: &String, draining: bool, reading: &FlagReading) -> (result: (String, bool))
    ensures
        result.0@ == flag_text(*name, *reading),
        result.1 == flag_valid(draining, *reading),
{
    let mut line: String = "provider=".to_owned();
    line.append(name.as_str());
    match reading {
        FlagReading::Read(b) => {
            line.append(" drain=");
            if *b {
                line.append("true");
            } else {
                line.append("false");
            }
            (line, *b == draining)
        },
        FlagReading::Failed(e) => {
            line.append(" drain_error=");
            line.append(e.as_str());
            (line, false)
        },
    }
}

impl ConvergenceWatch {
    /// No observation yet.
    pub fn new() -> (watch: ConvergenceWatch)
        ensures
            watch@ == (0u64, Seq::<char>::empty()),
    {
        ConvergenceWatch { stable_observations: 0, previous: String::new() }
    }

    /// Consecutive identical converged observations so far.
    pub fn stable_observations(&self) -> (n: u64)
        ensures
            n == self@.0,
    {
        self.stable_observations
    }

    /// Take in one round: the reading of each consumer, in the order given,
    /// and the drain state read of each selected provider, in the order of
    /// `names`. Returns whether the drain has converged, and the round's
    /// fingerprint.
    pub fn observe(
        &mut self,
        names: &Vec<String>,
        draining: bool,
        consumers: &Vec<String>,
        readings: &Vec<ConsumerReading>,
        flags: &Vec<FlagReading>,
    ) -> (result: (bool, String))
        requires
            consumers.len() == readings.len(),
            names.len() == flags.len(),
        ensures
            ({
                let fp = fingerprint(
                    observations(consumers@, round_lines(names@, draining, readings@)),
                    flag_lines(names@, flags@),
                );
                let valid = round_valid(names@, draining, readings@, flags@);
                &&& result.1@ == fp
                &&& final(self)@.1 == fp
                &&& final(self)@.0 == next_stable_count(old(self)@, valid, fp)
                &&& result.0 == (final(self)@.0 >= 2)
                &&& result.0 ==> valid && fp == old(self)@.1 && old(self)@.0 >= 1
            }),
    {
        let ghost lines = round_lines(names@, draining, readings@);
        let mut obs: TextMap = TextMap::new();
        let mut valid: bool = true;
        let mut k: usize = 0;
        while k < readings.len()
            invariant
                k <= readings.len(),
                consumers.len() == readings.len(),
                lines == round_lines(names@, draining, readings@),
                obs@ == observations(consumers@.take(k as int), lines.take(k as int)),
                valid == (forall|i: int| 0 <= i < k ==> reading_valid(names@, draining, #[trigger] readings@[i])),
            decreases readings.len() - k,
        {
            let (line, ok) = reading_line(names, draining, &readings[k]);
            proof {
                assert(consumers@.take(k + 1).drop_last() =~= consumers@.take(k as int));
                assert(lines.take(k + 1).drop_last() =~= lines.take(k as int));
                assert(lines.take(k + 1).last() == line@);
            }
            obs.insert(consumers[k].clone(), line);
            valid = valid && ok;
            k = k + 1;
        }
        assert(consumers@.take(k as int) =~= consumers@);
        assert(lines.take(k as int) =~= lines);
        let keys: Vec<String> = sorted_unique(consumers.clone());
        proof {
            lemma_observation_keys(consumers@, lines);
            assert(texts(keys@).to_set() =~= obs@.dom());
            lemma_ascending_unique(texts(keys@), ascending_of(obs@.dom()));
        }
        let ghost order = ascending_of(obs@.dom());
        let ghost extra = flag_lines(names@, flags@);
        let ghost parts = round_parts(obs@, extra);
        assert(parts.len() == keys.len() + names.len());
        let mut fp: String = String::new();
        let mut t: usize = 0;
        while t < keys.len()
            invariant
                t <= keys.len(),
                texts(keys@) == order,
                obs@.dom() == order.to_set(),
                parts == round_parts(obs@, extra),
                order == ascending_of(obs@.dom()),
                fp@ == join(parts.take(t as int), "; "@),
            decreases keys.len() - t,
        {
            assert(order[t as int] == keys@[t as int]@);
            assert(obs@.contains_key(order[t as int]));
            let line: String = match obs.get(keys[t].as_str()) {
                Some(l) => l,
                None => String::new(),
            };
            let ghost before = fp@;
            if t > 0 {
                fp.append("; ");
            }
            fp.append(line.as_str());
            proof {
                let pt = parts.take(t + 1);
                assert(pt.drop_last() =~= parts.take(t as int));
                assert(parts[t as int] == obs@[order[t as int]]);
                assert(pt.last() == line@);
                if t == 0 {
                    assert(fp@ =~= pt[0]);
                } else {
                    assert(fp@ =~= before + "; "@ + line@);
                }
            }
            t = t + 1;
        }
        let mut flags_ok: bool = true;
        let mut u: usize = 0;
        while u < names.len()
            invariant
                u <= names.len(),
                names.len() == flags.len(),
                keys.len() == order.len(),
                parts == round_parts(obs@, extra),
                order == ascending_of(obs@.dom()),
                extra == flag_lines(names@, flags@),
                fp@ == join(parts.take(keys.len() + u), "; "@),
                flags_ok == (forall|i: int| 0 <= i < u ==> flag_valid(draining, #[trigger] flags@[i])),
            decreases names.len() - u,
        {
            let (line, ok) = flag_line(&names[u], draining, &flags[u]);
            let ghost before = fp@;
            let ghost n: int = keys.len() + u;
            if keys.len() > 0 || u > 0 {
                fp.append("; ");
            }
            fp.append(line.as_str());
            proof {
                let pt = parts.take(n + 1);
                assert(pt.drop_last() =~= parts.take(n));
                assert(parts[n] == extra[u as int]);
                assert(pt.last() == line@);
                if n == 0 {
                    assert(fp@ =~= pt[0]);
                } else {
                    assert(fp@ =~= before + "; "@ + line@);
                }
            }
            flags_ok = flags_ok && ok;
            u = u + 1;
        }
        assert(parts.take(parts.len() as int) =~= parts);
        let valid: bool = valid && flags_ok;
        let same: bool = fp == self.previous;
        self.stable_observations = if valid && same {
            if self.stable_observations == u64::MAX {
                u64::MAX
            } else {
                self.stable_observations + 1
            }
        } else if valid {
            1
        } else {
            0
        };
        self.previous = fp.clone();
        (self.stable_observations >= 2, fp)
    }
}

proof fn lemma_observation_keys(consumers: Seq<String>, lines: Seq<Seq<char>>)
    requires
        consumers.len() == lines.len(),
    ensures
        observations(consumers, lines).dom() == texts(consumers).to_set(),
    decreases consumers.len(),
{
    if consumers.len() > 0 {
        lemma_observation_keys(consumers.drop_last(), lines.drop_last());
        assert(texts(consumers) =~= texts(consumers.drop_last()).push(consumers.last()@));
        assert(observations(consumers, lines).dom() =~= texts(consumers).to_set()) by {
            let prev = texts(consumers.drop_last());
            assert forall|t: Seq<char>| texts(consumers).to_set().contains(t) implies observations(consumers, lines).dom().contains(t) by {
                let j = choose|j: int| 0 <= j < texts(consumers).len() && texts(consumers)[j] == t;
                if j < consumers.len() - 1 {
                    assert(prev[j] == t);
                    assert(prev.to_set().contains(t));
                }
            }
            assert forall|t: Seq<char>| observations(consumers, lines).dom().contains(t) implies texts(consumers).to_set().contains(t) by {
                if t != consumers.last()@ {
                    assert(prev.to_set().contains(t));
                    let j = choose|j: int| 0 <= j < prev.len() && prev[j] == t;
                    assert(texts(consumers)[j] == t);
                } else {
                    assert(texts(consumers)[consumers.len() - 1] == t);
                }
            }
        }
    } else {
        assert(texts(consumers).to_set() =~= Set::<Seq<char>>::empty());
    }
}

} // verus!
