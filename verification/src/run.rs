//! The administrative drain command as a state machine: the caller performs
//! each action it is handed (a kubectl call, a message, the convergence
//! wait) and reports what came of it; the machine decides what follows.
//!
//! Gateway-wide mutation is a bounded fan-out and is not transactional: when
//! a patch fails, every provider already changed is patched back to the
//! drain state it had before, best effort, and the failure is reported.

use vstd::prelude::*;
use vstd::string::StringExecFns;

use crate::drain::{
    drain_flag, gateway_members, read_drain_state, select, select_provider,
    validate_selector, Provider, ProviderList, SelectorError,
};
use crate::json::parsed_json;
use crate::order::{strictly_ascending, texts};
use crate::text::blank;

verus! {

/// The drain command's arguments.
pub struct DrainRequest {
    /// Select every provider whose `spec.gatewayRef` is this gateway.
    pub gateway: Option<String>,
    /// Select the provider of this name.
    pub provider: Option<String>,
    /// Only show the selection.
    pub dry_run: bool,
    /// Restore instead of drain.
    pub undrain: bool,
    /// Network whose consumer overlays must show the change.
    pub network: Option<String>,
    /// Consumers whose overlays must show the change.
    pub consumers: Vec<String>,
}

/// Where a drain run stands.
#[derive(Clone, Copy, PartialEq, Eq, Structural)]
pub enum DrainPhase {
    /// Nothing done yet.
    Start,
    /// Waiting for the provider listing or the named provider.
    Selecting,
    /// Waiting for the selection to be shown.
    Announcing,
    /// Waiting for the recorded drain state of the selected provider at
    /// this position.
    Reading(usize),
    /// Waiting for the patch of the selected provider at this position.
    Patching(usize),
    /// Waiting for the restoring patch of the changed provider at this
    /// position.
    Restoring(usize),
    /// Waiting for the consumers to converge.
    Converging,
    /// Finished.
    Done,
}

/// What the caller reports back.
pub enum DrainEvent {
    /// Start the run.
    Begin,
    /// The InferenceProvider listing.
    ProvidersListed(ProviderList),
    /// The named InferenceProvider.
    ProviderFetched(Provider),
    /// The selection was shown.
    Announced,
    /// The JSON output of reading a provider.
    DrainStateOutput(Vec<u8>),
    /// The requested patch was stored.
    Patched,
    /// The consumers converged.
    Converged,
    /// The requested action failed, for the reason given.
    Failed(String),
}

/// Why a run failed on its way.
pub enum DrainFailure {
    /// A command failed, for the reason given.
    Command(String),
    /// A provider's recorded state is not JSON.
    Json(serde_json::Error),
}

/// How a run ended.
pub enum DrainOutcome {
    /// The selector was refused.
    Refused(SelectorError),
    /// No InferenceProvider matches the selector.
    NoMatch,
    /// Dry run: the selection was shown, nothing changed.
    DryRun,
    /// `--network` and `--consumer` were not supplied together.
    TargetsMismatch,
    /// A read or the convergence wait failed.
    Failed(DrainFailure),
    /// Patching `name` failed with `error`; the restoring patches failed
    /// with `restoration_errors`.
    PatchFailed { name: String, error: String, restoration_errors: Vec<String> },
    /// The requested drain state was stored; convergence was not requested.
    Stored,
    /// The requested drain state was stored and the consumers converged.
    Converged,
    /// The reported event does not answer the last action.
    OutOfOrder,
}

/// What the caller does next.
pub enum DrainAction {
    /// List the InferenceProvider objects.
    ListProviders,
    /// Read the named InferenceProvider object for selection.
    FetchProvider(String),
    /// Show the selected providers.
    Announce(Vec<String>),
    /// Read the named provider's recorded drain state.
    ReadDrainState(String),
    /// Store the named provider's drain state.
    Patch(String, bool),
    /// Wait for the consumers to show `names` drained (or undrained).
    AwaitConvergence { names: Vec<String>, draining: bool },
    /// Stop with this outcome.
    Finish(DrainOutcome),
}

/// A drain run.
pub struct DrainRun {
    /// The command's arguments.
    pub request: DrainRequest,
    /// Where the run stands.
    pub phase: DrainPhase,
    /// The selected providers, sorted.
    pub selected: Vec<String>,
    /// Each selected provider's drain state before the run, by position.
    pub originals: Vec<bool>,
    /// Position of the provider whose patch failed.
    pub failed_at: usize,
    /// Why that patch failed.
    pub failure: String,
    /// Why restoring patches failed, each as `name: reason`.
    pub restoration_errors: Vec<String>,
}

/// The selector is blank where given.
pub open spec fn blank_option(value: Option<String>) -> bool {
    match value {
        Some(v) => blank(v@),
        None => false,
    }
}

/// The request names exactly one selector, and it is not blank.
pub open spec fn request_valid(request: DrainRequest) -> bool {
    (request.gateway is None) != (request.provider is None) && !blank_option(request.gateway)
        && !blank_option(request.provider)
}

/// The data of `new` is that of `old`, but for the phase.
pub open spec fn same_data(new: DrainRun, old: DrainRun) -> bool {
    &&& new.request == old.request
    &&& new.selected == old.selected
    &&& new.originals == old.originals
    &&& new.failed_at == old.failed_at
    &&& new.failure == old.failure
    &&& new.restoration_errors == old.restoration_errors
}

/// The run stopped with `outcome`, its data unchanged.
pub open spec fn finished(new: DrainRun, old: DrainRun, action: DrainAction) -> bool {
    &&& new.phase == DrainPhase::Done
    &&& same_data(new, old)
    &&& action is Finish
}

/// The run stopped because the event does not answer the last action.
pub open spec fn out_of_order(new: DrainRun, old: DrainRun, action: DrainAction) -> bool {
    finished(new, old, action) && (action matches DrainAction::Finish(DrainOutcome::OutOfOrder))
}

/// `action` fetches the named provider for selection.
pub open spec fn fetches(action: DrainAction, name: Seq<char>) -> bool {
    action matches DrainAction::FetchProvider(n) && n@ == name
}

/// `action` shows the selection `names`.
pub open spec fn announces(action: DrainAction, names: Seq<Seq<char>>) -> bool {
    action matches DrainAction::Announce(shown) && texts(shown@) == names
}

/// `action` reads the named provider's drain state.
pub open spec fn reads(action: DrainAction, name: Seq<char>) -> bool {
    action matches DrainAction::ReadDrainState(n) && n@ == name
}

/// `action` stores `drain` as the named provider's drain state.
pub open spec fn patches(action: DrainAction, name: Seq<char>, drain: bool) -> bool {
    action matches DrainAction::Patch(n, d) && n@ == name && d == drain
}

/// `action` waits for the consumers to show `names` drained or undrained.
pub open spec fn awaits(action: DrainAction, names: Seq<Seq<char>>, draining: bool) -> bool {
    action matches DrainAction::AwaitConvergence { names: n, draining: d } && texts(n@) == names && d
        == draining
}

/// `action` reports that a command failed for `reason`.
pub open spec fn reports_failure(action: DrainAction, reason: Seq<char>) -> bool {
    action matches DrainAction::Finish(DrainOutcome::Failed(DrainFailure::Command(r))) && r@ == reason
}

/// `action` reports the failed patch of `name` and the restoration errors.
pub open spec fn reports_patch_failure(
    action: DrainAction,
    name: Seq<char>,
    error: Seq<char>,
    errors: Seq<Seq<char>>,
) -> bool {
    action matches DrainAction::Finish(DrainOutcome::PatchFailed { name: n, error: e, restoration_errors: r })
        && n@ == name && e@ == error && texts(r@) == errors
}

/// `action` ends the run with `outcome`'s kind.
pub open spec fn ends_with(action: DrainAction, outcome: spec_fn(DrainOutcome) -> bool) -> bool {
    match action {
        DrainAction::Finish(o) => outcome(o),
        _ => false,
    }
}

/// The selection `names` was taken in: none matched, or it is shown.
pub open spec fn selection_taken(names: Seq<Seq<char>>, new: DrainRun, old: DrainRun, action: DrainAction) -> bool {
    if names.len() == 0 {
        finished(new, old, action) && ends_with(action, |o: DrainOutcome| o is NoMatch)
    } else {
        &&& new.phase == DrainPhase::Announcing
        &&& texts(new.selected@) == names
        &&& new.request == old.request
        &&& new.originals == old.originals
        &&& new.failed_at == old.failed_at
        &&& new.failure == old.failure
        &&& new.restoration_errors == old.restoration_errors
        &&& announces(action, names)
    }
}

/// The patch after the one of position `i`: the next provider's, or the
/// convergence wait, or the end.
pub open spec fn after_patch(i: int, new: DrainRun, old: DrainRun, action: DrainAction) -> bool {
    if i + 1 < old.selected.len() {
        &&& new.phase == DrainPhase::Patching((i + 1) as usize)
        &&& same_data(new, old)
        &&& patches(action, old.selected@[i + 1]@, !old.request.undrain)
    } else if old.request.network is Some {
        &&& new.phase == DrainPhase::Converging
        &&& same_data(new, old)
        &&& awaits(action, texts(old.selected@), !old.request.undrain)
    } else {
        finished(new, old, action) && ends_with(action, |o: DrainOutcome| o is Stored)
    }
}

/// The restoring patch after the one of position `j`: the next changed
/// provider's, back to its original state, or the report of the failure.
pub open spec fn after_restore(j: int, new: DrainRun, old: DrainRun, action: DrainAction) -> bool {
    if j + 1 < old.failed_at && j + 1 < old.originals.len() && old.failed_at < old.selected.len() {
        &&& new.phase == DrainPhase::Restoring((j + 1) as usize)
        &&& patches(action, old.selected@[j + 1]@, old.originals@[j + 1])
    } else if old.failed_at < old.selected.len() {
        &&& new.phase == DrainPhase::Done
        &&& reports_patch_failure(
            action,
            old.selected@[old.failed_at as int]@,
            old.failure@,
            texts(new.restoration_errors@),
        )
    } else {
        new.phase == DrainPhase::Done && ends_with(action, |o: DrainOutcome| o is OutOfOrder)
    }
}

/// One step of a drain run: what `event` does in the state `old`.
pub open spec fn drain_step(old: DrainRun, event: DrainEvent, new: DrainRun, action: DrainAction) -> bool {
    match old.phase {
        DrainPhase::Start => match event {
            DrainEvent::Begin => if request_valid(old.request) {
                &&& new.phase == DrainPhase::Selecting
                &&& same_data(new, old)
                &&& match old.request.provider {
                    Some(p) => fetches(action, p@),
                    None => action is ListProviders,
                }
            } else {
                finished(new, old, action) && ends_with(action, |o: DrainOutcome| o is Refused)
            },
            _ => out_of_order(new, old, action),
        },
        DrainPhase::Selecting => match event {
            DrainEvent::ProvidersListed(list) => {
                let gateway = match old.request.gateway {
                    Some(g) => g@,
                    None => Seq::empty(),
                };
                exists|names: Seq<Seq<char>>|
                    strictly_ascending(names) && names.to_set() == gateway_members(list.items@, gateway)
                        && #[trigger] selection_taken(names, new, old, action)
            },
            DrainEvent::ProviderFetched(provider) => match provider.metadata.name {
                Some(n) => selection_taken(seq![n@], new, old, action),
                None => selection_taken(Seq::empty(), new, old, action),
            },
            DrainEvent::Failed(reason) => finished(new, old, action) && reports_failure(action, reason@),
            _ => out_of_order(new, old, action),
        },
        DrainPhase::Announcing => match event {
            DrainEvent::Announced => if old.request.dry_run {
                finished(new, old, action) && ends_with(action, |o: DrainOutcome| o is DryRun)
            } else if (old.request.network is Some) == (old.request.consumers.len() == 0) {
                finished(new, old, action) && ends_with(action, |o: DrainOutcome| o is TargetsMismatch)
            } else if old.selected.len() == 0 {
                out_of_order(new, old, action)
            } else {
                &&& new.phase == DrainPhase::Reading(0)
                &&& same_data(new, old)
                &&& reads(action, old.selected@[0]@)
            },
            _ => out_of_order(new, old, action),
        },
        DrainPhase::Reading(i) => if i >= old.selected.len() {
            out_of_order(new, old, action)
        } else {
            match event {
                DrainEvent::DrainStateOutput(output) => match parsed_json(output@) {
                    None => finished(new, old, action) && ends_with(
                        action,
                        |o: DrainOutcome| o matches DrainOutcome::Failed(DrainFailure::Json(_)),
                    ),
                    Some(doc) => {
                        &&& new.originals@ == old.originals@.push(drain_flag(doc))
                        &&& new.request == old.request
                        &&& new.selected == old.selected
                        &&& new.failed_at == old.failed_at
                        &&& new.failure == old.failure
                        &&& new.restoration_errors == old.restoration_errors
                        &&& if i + 1 < old.selected.len() {
                            new.phase == DrainPhase::Reading((i + 1) as usize) && reads(
                                action,
                                old.selected@[i + 1]@,
                            )
                        } else {
                            new.phase == DrainPhase::Patching(0) && patches(
                                action,
                                old.selected@[0]@,
                                !old.request.undrain,
                            )
                        }
                    },
                },
                DrainEvent::Failed(reason) => finished(new, old, action) && reports_failure(action, reason@),
                _ => out_of_order(new, old, action),
            }
        },
        DrainPhase::Patching(i) => if i >= old.selected.len() {
            out_of_order(new, old, action)
        } else {
            match event {
                DrainEvent::Patched => after_patch(i as int, new, old, action),
                DrainEvent::Failed(reason) => {
                    &&& new.request == old.request
                    &&& new.selected == old.selected
                    &&& new.originals == old.originals
                    &&& new.failed_at == i
                    &&& new.failure@ == reason@
                    &&& new.restoration_errors == old.restoration_errors
                    &&& if i == 0 || old.originals.len() == 0 {
                        new.phase == DrainPhase::Done && reports_patch_failure(
                            action,
                            old.selected@[i as int]@,
                            reason@,
                            texts(old.restoration_errors@),
                        )
                    } else {
                        new.phase == DrainPhase::Restoring(0) && patches(
                            action,
                            old.selected@[0]@,
                            old.originals@[0],
                        )
                    }
                },
                _ => out_of_order(new, old, action),
            }
        },
        DrainPhase::Restoring(j) => if j >= old.selected.len() {
            out_of_order(new, old, action)
        } else {
            match event {
                DrainEvent::Patched => {
                    &&& new.request == old.request
                    &&& new.selected == old.selected
                    &&& new.originals == old.originals
                    &&& new.failed_at == old.failed_at
                    &&& new.failure == old.failure
                    &&& new.restoration_errors == old.restoration_errors
                    &&& after_restore(j as int, new, old, action)
                },
                DrainEvent::Failed(reason) => {
                    &&& new.request == old.request
                    &&& new.selected == old.selected
                    &&& new.originals == old.originals
                    &&& new.failed_at == old.failed_at
                    &&& new.failure == old.failure
                    &&& texts(new.restoration_errors@) == texts(old.restoration_errors@).push(
                        old.selected@[j as int]@ + ": "@ + reason@,
                    )
                    &&& after_restore(j as int, new, old, action)
                },
                _ => out_of_order(new, old, action),
            }
        },
        DrainPhase::Converging => match event {
            DrainEvent::Converged => finished(new, old, action) && ends_with(action, |o: DrainOutcome| o is Converged),
            DrainEvent::Failed(reason) => finished(new, old, action) && reports_failure(action, reason@),
            _ => out_of_order(new, old, action),
        },
        DrainPhase::Done => out_of_order(new, old, action),
    }
}

fn option_as_str(value: &Option<String>) -> (out: Option<&str>)
    ensures
        match value {
            Some(v) => out matches Some(o) && o@ == v@,
            None => out is None,
        },
{
    match value {
        Some(v) => Some(v.as_str()),
        None => None,
    }
}

fn copy_names(names: &Vec<String>) -> (out: Vec<String>)
    ensures
        texts(out@) == texts(names@),
{
    let mut out: Vec<String> = Vec::new();
    let mut k: usize = 0;
    while k < names.len()
        invariant
            k <= names.len(),
            texts(out@) == texts(names@.take(k as int)),
        decreases names.len() - k,
    {
        out.push(names[k].clone());
        assert(texts(names@.take(k + 1)) =~= texts(names@.take(k as int)).push(names@[k as int]@));
        assert(texts(out@) =~= texts(names@.take(k as int)).push(names@[k as int]@));
        k = k + 1;
    }
    assert(names@.take(names.len() as int) =~= names@);
    out
}

impl DrainRun {
    /// A run of `request` that has not started.
    pub fn new(request: DrainRequest) -> (run: DrainRun)
        ensures
            run.phase == DrainPhase::Start,
            run.request == request,
            run.selected@.len() == 0,
            run.originals@.len() == 0,
            run.restoration_errors@.len() == 0,
            run.failed_at == 0,
            run.failure@.len() == 0,
    {
        DrainRun {
            request,
            phase: DrainPhase::Start,
            selected: Vec::new(),
            originals: Vec::new(),
            failed_at: 0,
            failure: String::new(),
            restoration_errors: Vec::new(),
        }
    }

    fn finish(&mut self, outcome: DrainOutcome) -> (action: DrainAction)
        ensures
            final(self).phase == DrainPhase::Done,
            same_data(*final(self), *old(self)),
            action == DrainAction::Finish(outcome),
    {
        self.phase = DrainPhase::Done;
        DrainAction::Finish(outcome)
    }

    fn take_selection(&mut self, names: Vec<String>) -> (action: DrainAction)
        ensures
            selection_taken(texts(names@), *final(self), *old(self), action),
    {
        if names.len() == 0 {
            return self.finish(DrainOutcome::NoMatch);
        }
        let shown: Vec<String> = copy_names(&names);
        self.selected = names;
        self.phase = DrainPhase::Announcing;
        DrainAction::Announce(shown)
    }

    fn after_patch(&mut self, i: usize) -> (action: DrainAction)
        requires
            i < old(self).selected.len(),
        ensures
            after_patch(i as int, *final(self), *old(self), action),
    {
        if i + 1 < self.selected.len() {
            self.phase = DrainPhase::Patching(i + 1);
            DrainAction::Patch(self.selected[i + 1].clone(), !self.request.undrain)
        } else if self.request.network.is_some() {
            self.phase = DrainPhase::Converging;
            DrainAction::AwaitConvergence { names: copy_names(&self.selected), draining: !self.request.undrain }
        } else {
            self.finish(DrainOutcome::Stored)
        }
    }

    fn after_restore(&mut self, j: usize) -> (action: DrainAction)
        requires
            j < old(self).selected.len(),
        ensures
            after_restore(j as int, *final(self), *old(self), action),
            same_data(*final(self), *old(self)),
    {
        if j + 1 < self.failed_at && j + 1 < self.originals.len() && self.failed_at < self.selected.len() {
            self.phase = DrainPhase::Restoring(j + 1);
            DrainAction::Patch(self.selected[j + 1].clone(), self.originals[j + 1])
        } else if self.failed_at < self.selected.len() {
            let name: String = self.selected[self.failed_at].clone();
            let error: String = self.failure.clone();
            let errors: Vec<String> = copy_names(&self.restoration_errors);
            self.finish(DrainOutcome::PatchFailed { name, error, restoration_errors: errors })
        } else {
            self.finish(DrainOutcome::OutOfOrder)
        }
    }

    /// Take in what came of the last action and decide the next one.
    pub fn step(&mut self, event: DrainEvent) -> (action: DrainAction)
        ensures
            drain_step(*old(self), event, *final(self), action),
    {
        match self.phase {
            DrainPhase::Start => match event {
                DrainEvent::Begin => {
                    let gateway: Option<&str> = option_as_str(&self.request.gateway);
                    let provider: Option<&str> = option_as_str(&self.request.provider);
                    match validate_selector(gateway, provider) {
                        Err(error) => self.finish(DrainOutcome::Refused(error)),
                        Ok(()) => {
                            self.phase = DrainPhase::Selecting;
                            match &self.request.provider {
                                Some(p) => DrainAction::FetchProvider(p.clone()),
                                None => DrainAction::ListProviders,
                            }
                        },
                    }
                },
                _ => self.finish(DrainOutcome::OutOfOrder),
            },
            DrainPhase::Selecting => match event {
                DrainEvent::ProvidersListed(list) => {
                    let gateway: &str = match &self.request.gateway {
                        Some(g) => g.as_str(),
                        None => "",
                    };
                    let ghost wanted = match old(self).request.gateway {
                        Some(g) => g@,
                        None => Seq::<char>::empty(),
                    };
                    proof {
                        if self.request.gateway is None {
                            reveal_strlit("");
                            assert(gateway@ =~= wanted);
                        }
                    }
                    let ghost items = list.items@;
                    let names: Vec<String> = select(&list, gateway);
                    let ghost chosen = texts(names@);
                    assert(strictly_ascending(chosen) && chosen.to_set() == gateway_members(items, wanted));
                    let action = self.take_selection(names);
                    assert(selection_taken(chosen, *self, *old(self), action));
                    action
                },
                DrainEvent::ProviderFetched(provider) => {
                    let names: Vec<String> = select_provider(&provider);
                    proof {
                        if provider.metadata.name is None {
                            assert(texts(names@) =~= Seq::<Seq<char>>::empty());
                        }
                    }
                    self.take_selection(names)
                },
                DrainEvent::Failed(reason) => self.finish(DrainOutcome::Failed(DrainFailure::Command(reason))),
                _ => self.finish(DrainOutcome::OutOfOrder),
            },
            DrainPhase::Announcing => match event {
                DrainEvent::Announced => {
                    if self.request.dry_run {
                        self.finish(DrainOutcome::DryRun)
                    } else if self.request.network.is_some() == (self.request.consumers.len() == 0) {
                        self.finish(DrainOutcome::TargetsMismatch)
                    } else if self.selected.len() == 0 {
                        self.finish(DrainOutcome::OutOfOrder)
                    } else {
                        self.phase = DrainPhase::Reading(0);
                        DrainAction::ReadDrainState(self.selected[0].clone())
                    }
                },
                _ => self.finish(DrainOutcome::OutOfOrder),
            },
            DrainPhase::Reading(i) => {
                if i >= self.selected.len() {
                    return self.finish(DrainOutcome::OutOfOrder);
                }
                match event {
                    DrainEvent::DrainStateOutput(output) => match read_drain_state(output.as_slice()) {
                        Err(error) => self.finish(DrainOutcome::Failed(DrainFailure::Json(error))),
                        Ok(drain) => {
                            self.originals.push(drain);
                            if i + 1 < self.selected.len() {
                                self.phase = DrainPhase::Reading(i + 1);
                                DrainAction::ReadDrainState(self.selected[i + 1].clone())
                            } else {
                                self.phase = DrainPhase::Patching(0);
                                DrainAction::Patch(self.selected[0].clone(), !self.request.undrain)
                            }
                        },
                    },
                    DrainEvent::Failed(reason) => self.finish(DrainOutcome::Failed(DrainFailure::Command(reason))),
                    _ => self.finish(DrainOutcome::OutOfOrder),
                }
            },
            DrainPhase::Patching(i) => {
                if i >= self.selected.len() {
                    return self.finish(DrainOutcome::OutOfOrder);
                }
                match event {
                    DrainEvent::Patched => self.after_patch(i),
                    DrainEvent::Failed(reason) => {
                        self.failed_at = i;
                        self.failure = reason.clone();
                        if i == 0 || self.originals.len() == 0 {
                            let name: String = self.selected[i].clone();
                            let errors: Vec<String> = copy_names(&self.restoration_errors);
                            self.phase = DrainPhase::Done;
                            DrainAction::Finish(DrainOutcome::PatchFailed { name, error: reason, restoration_errors: errors })
                        } else {
                            self.phase = DrainPhase::Restoring(0);
                            DrainAction::Patch(self.selected[0].clone(), self.originals[0])
                        }
                    },
                    _ => self.finish(DrainOutcome::OutOfOrder),
                }
            },
            DrainPhase::Restoring(j) => {
                if j >= self.selected.len() {
                    return self.finish(DrainOutcome::OutOfOrder);
                }
                match event {
                    DrainEvent::Patched => self.after_restore(j),
                    DrainEvent::Failed(reason) => {
                        let mut entry: String = self.selected[j].clone();
                        entry.append(": ");
                        entry.append(reason.as_str());
                        let ghost before = self.restoration_errors@;
                        self.restoration_errors.push(entry);
                        assert(texts(self.restoration_errors@) =~= texts(before).push(self.restoration_errors@.last()@));
                        self.after_restore(j)
                    },
                    _ => self.finish(DrainOutcome::OutOfOrder),
                }
            },
            DrainPhase::Converging => match event {
                DrainEvent::Converged => self.finish(DrainOutcome::Converged),
                DrainEvent::Failed(reason) => self.finish(DrainOutcome::Failed(DrainFailure::Command(reason))),
                _ => self.finish(DrainOutcome::OutOfOrder),
            },
            DrainPhase::Done => self.finish(DrainOutcome::OutOfOrder),
        }
    }
}

/// The phases a dry run can be in.
pub open spec fn dry_run_phase(phase: DrainPhase) -> bool {
    phase == DrainPhase::Start || phase == DrainPhase::Selecting || phase == DrainPhase::Announcing
        || phase == DrainPhase::Done
}

/// A dry run never reads or changes a provider's drain state: from the
/// phases a dry run starts in, every step stays among them and asks for no
/// drain-state read, patch or convergence wait.
pub proof fn lemma_dry_run_changes_nothing(old: DrainRun, event: DrainEvent, new: DrainRun, action: DrainAction)
    requires
        old.request.dry_run,
        dry_run_phase(old.phase),
        drain_step(old, event, new, action),
    ensures
        new.request == old.request,
        dry_run_phase(new.phase),
        !(action is Patch),
        !(action is ReadDrainState),
        !(action is AwaitConvergence),
{
}

/// An invalid selector ends the run at once, before any kubectl call.
pub proof fn lemma_invalid_selector_refused(old: DrainRun, new: DrainRun, action: DrainAction)
    requires
        old.phase == DrainPhase::Start,
        !request_valid(old.request),
        drain_step(old, DrainEvent::Begin, new, action),
    ensures
        new.phase == DrainPhase::Done,
        action matches DrainAction::Finish(DrainOutcome::Refused(_)),
{
}

/// Once a patch has failed, the run only patches changed providers back to
/// their original drain state, in selection order, and then reports: every
/// step from a restoring phase either patches the next changed provider
/// with its original state or ends the run.
pub proof fn lemma_restoration_restores_originals(old: DrainRun, event: DrainEvent, new: DrainRun, action: DrainAction)
    requires
        old.phase matches DrainPhase::Restoring(_),
        drain_step(old, event, new, action),
    ensures
        match action {
            DrainAction::Patch(name, drain) => new.phase matches DrainPhase::Restoring(k) && 0 < k
                < old.failed_at && k < old.originals.len() && name@ == old.selected@[k as int]@ && drain
                == old.originals@[k as int],
            DrainAction::Finish(_) => new.phase == DrainPhase::Done,
            _ => false,
        },
{
}

/// A failed patch of a provider is answered by restoration: when the patch
/// of the provider at position `i` fails and providers before it were
/// already changed, the run next patches the first selected provider back
/// to the drain state it had before the run; when nothing was changed yet,
/// the run reports the failure at once.
pub proof fn lemma_failed_patch_starts_restoration(
    old: DrainRun,
    i: usize,
    reason: String,
    new: DrainRun,
    action: DrainAction,
)
    requires
        old.phase == DrainPhase::Patching(i),
        i < old.selected.len(),
        old.originals.len() == old.selected.len(),
        old.restoration_errors@.len() == 0,
        drain_step(old, DrainEvent::Failed(reason), new, action),
    ensures
        new.failed_at == i,
        new.failure@ == reason@,
        0 < i ==> new.phase == DrainPhase::Restoring(0) && (action matches DrainAction::Patch(name, drain)
            && name@ == old.selected@[0]@ && drain == old.originals@[0]),
        i == 0 ==> new.phase == DrainPhase::Done && (action matches DrainAction::Finish(
            DrainOutcome::PatchFailed { name, error, restoration_errors },
        ) && name@ == old.selected@[0]@ && error@ == reason@ && restoration_errors@.len() == 0),
{
    if i == 0 {
        if let DrainAction::Finish(DrainOutcome::PatchFailed { name, error, restoration_errors }) = action {
            assert(texts(restoration_errors@).len() == restoration_errors@.len());
        }
    }
}

/// Every provider changed before the failed one is patched back before the
/// failure is reported: after the restoring patch of position `j`, whether
/// it succeeded or not, the run patches the provider at `j + 1` back to its
/// original drain state while `j + 1` is before the failed position, and
/// reports the failed patch only once `j + 1` reaches it.
pub proof fn lemma_restoration_reaches_every_changed(
    old: DrainRun,
    j: usize,
    event: DrainEvent,
    new: DrainRun,
    action: DrainAction,
)
    requires
        old.phase == DrainPhase::Restoring(j),
        j < old.failed_at,
        old.failed_at < old.selected.len(),
        old.originals.len() == old.selected.len(),
        event is Patched || event is Failed,
        drain_step(old, event, new, action),
    ensures
        j + 1 < old.failed_at ==> new.phase == DrainPhase::Restoring((j + 1) as usize) && (action matches DrainAction::Patch(
            name,
            drain,
        ) && name@ == old.selected@[j + 1]@ && drain == old.originals@[j + 1]),
        j + 1 == old.failed_at ==> new.phase == DrainPhase::Done && (action matches DrainAction::Finish(
            DrainOutcome::PatchFailed { name, error, restoration_errors: _ },
        ) && name@ == old.selected@[old.failed_at as int]@ && error@ == old.failure@),
{
}

} // verus!
