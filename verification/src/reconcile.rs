//! One reconciliation, step by step: collect the hostnames, patch and write
//! the configuration, restart the DNS server's instances.
//!
//! The caller carries out each action against the platform and hands back
//! what came of it; every decision is taken here.

use crate::config::{document_text, has_document, resource_patched, ConfigResource};
use crate::corefile::text_has_anchor;
use crate::entry::host_names;
use crate::error::ConfigFormatError;
use crate::ingress::{collect_hostnames, declared_hosts, skipped_items, Collected, Ingress};
use vstd::prelude::*;

verus! {

/// How often a write that met a conflict is tried again, from a fresh read.
pub const CONFLICT_RETRIES: usize = 3;

/// An instance that could not be deleted.
#[derive(Debug, Clone, PartialEq, Eq)]
pub struct DeleteFailure {
    pub instance: String,
    pub cause: String,
}

/// Why a reconciliation failed.
#[derive(Debug, Clone, PartialEq, Eq)]
pub enum ReconcileError {
    /// A request to the platform could not be carried out.
    Transport(String),
    /// The configuration resource does not exist.
    ConfigurationMissing,
    /// The configuration resource does not have the shape that patching needs.
    ConfigFormat(ConfigFormatError),
    /// The resource changed between each read and the write that followed it,
    /// as often as a write is tried.
    Conflict,
    /// The configuration was written, and these instances could not be
    /// deleted. Every instance was tried.
    PartialRestart(Vec<DeleteFailure>),
    /// The event does not answer the action that was asked for.
    OutOfTurn,
}

/// What came of the last action.
#[derive(Debug, Clone, PartialEq, Eq)]
pub enum Event {
    /// The ingresses of all namespaces.
    Ingresses(Vec<Ingress>),
    /// The configuration resource as it stands.
    Config(ConfigResource),
    /// There is no configuration resource.
    ConfigMissing,
    /// The configuration was written.
    Written,
    /// The write was refused: the resource has changed since it was read.
    Conflict,
    /// The names of the DNS server's running instances.
    Instances(Vec<String>),
    /// The instance was deleted, or was gone already.
    Deleted,
    /// The instance could not be deleted.
    DeleteFailed(String),
    /// The request could not be carried out.
    Failed(String),
}

/// What to do next.
#[derive(Debug, Clone, PartialEq, Eq)]
pub enum Action {
    /// List the ingresses of all namespaces.
    ListIngresses,
    /// Read the configuration resource.
    FetchConfig,
    /// Write this resource back, on condition that its version still stands.
    WriteConfig(ConfigResource),
    /// List the DNS server's running instances.
    ListInstances,
    /// Delete the instance of this name.
    DeleteInstance(String),
    /// Nothing: the reconciliation is complete.
    Succeed,
    /// Nothing: the reconciliation failed.
    Fail(ReconcileError),
}

/// Status with which the platform refuses a write to a resource that has
/// changed since it was read.
pub const STATUS_CONFLICT: u16 = 409;

/// Status with which the platform answers for something that is not there.
pub const STATUS_NOT_FOUND: u16 = 404;

/// The event for a write that the platform refused with `status`: a conflict
/// where the resource has changed since it was read, which may be tried
/// again, and a failed request otherwise.
pub fn write_refused(status: u16, cause: String) -> (event: Event)
    ensures
        event == if status == STATUS_CONFLICT {
            Event::Conflict
        } else {
            Event::Failed(cause)
        },
{
    if status == STATUS_CONFLICT {
        Event::Conflict
    } else {
        Event::Failed(cause)
    }
}

/// The event for a deletion that the platform refused with `status`: an
/// instance that is gone already counts as deleted, anything else as a
/// failure of that one deletion.
pub fn delete_refused(status: u16, cause: String) -> (event: Event)
    ensures
        event == if status == STATUS_NOT_FOUND {
            Event::Deleted
        } else {
            Event::DeleteFailed(cause)
        },
{
    if status == STATUS_NOT_FOUND {
        Event::Deleted
    } else {
        Event::DeleteFailed(cause)
    }
}

/// Where a reconciliation stands: which answer it waits for, and what it has
/// to remember until then.
#[derive(Debug, Clone, PartialEq, Eq)]
pub enum Reconciliation {
    /// Waiting for the ingresses.
    Collecting { target: String, retries_left: usize },
    /// Waiting for the configuration resource.
    Fetching { target: String, retries_left: usize, found: Collected },
    /// Waiting for the outcome of the write.
    Writing { target: String, retries_left: usize, found: Collected },
    /// Waiting for the instances.
    Listing,
    /// Waiting for the outcome of deleting the first of `pending`.
    Deleting { pending: Vec<String>, failures: Vec<DeleteFailure> },
    /// Nothing is left to do.
    Finished,
}

/// The reconciliation has ended with `error`.
pub open spec fn failed_with(post: Reconciliation, action: Action, error: ReconcileError) -> bool {
    post == Reconciliation::Finished && action == Action::Fail(error)
}

/// What follows when the deletion of the first of `pending` is over and
/// `failures` is what has failed so far: the next instance is deleted, or,
/// after the last one, the reconciliation ends, in failure exactly where a
/// deletion failed.
pub open spec fn restart_goes_on(
    pending: Seq<String>,
    failures: Seq<DeleteFailure>,
    post: Reconciliation,
    action: Action,
) -> bool {
    if pending.len() > 1 {
        &&& post matches Reconciliation::Deleting { pending: rest, failures: failed }
        &&& rest@ == pending.drop_first()
        &&& failed@ == failures
        &&& action == Action::DeleteInstance(pending[1])
    } else if failures.len() == 0 {
        post == Reconciliation::Finished && action == Action::Succeed
    } else {
        &&& post == Reconciliation::Finished
        &&& action matches Action::Fail(ReconcileError::PartialRestart(failed))
        &&& failed@ == failures
    }
}

/// `post` and `action` are what follows when a reconciliation that stands at
/// `pre` receives `event`.
pub open spec fn follows(pre: Reconciliation, event: Event, post: Reconciliation, action: Action)
    -> bool {
    match pre {
        Reconciliation::Collecting { target, retries_left } => match event {
            Event::Ingresses(ingresses) => {
                &&& action == Action::FetchConfig
                &&& post matches Reconciliation::Fetching { target: t, retries_left: r, found }
                &&& t == target
                &&& r == retries_left
                &&& host_names(found.hostnames@) == declared_hosts(ingresses@)
                &&& found.skipped@ == skipped_items(ingresses@)
            },
            Event::Failed(cause) => failed_with(post, action, ReconcileError::Transport(cause)),
            _ => failed_with(post, action, ReconcileError::OutOfTurn),
        },
        Reconciliation::Fetching { target, retries_left, found } => match event {
            Event::Config(resource) => {
                if !has_document(resource.data@) {
                    failed_with(
                        post,
                        action,
                        ReconcileError::ConfigFormat(ConfigFormatError::MissingDocument),
                    )
                } else if !text_has_anchor(document_text(resource.data@)) {
                    failed_with(
                        post,
                        action,
                        ReconcileError::ConfigFormat(ConfigFormatError::MissingAnchor),
                    )
                } else {
                    &&& post == (Reconciliation::Writing { target, retries_left, found })
                    &&& action matches Action::WriteConfig(patched)
                    &&& resource_patched(resource, patched, host_names(found.hostnames@), target@)
                }
            },
            Event::ConfigMissing => failed_with(post, action, ReconcileError::ConfigurationMissing),
            Event::Failed(cause) => failed_with(post, action, ReconcileError::Transport(cause)),
            _ => failed_with(post, action, ReconcileError::OutOfTurn),
        },
        Reconciliation::Writing { target, retries_left, found } => match event {
            Event::Written => post == Reconciliation::Listing && action == Action::ListInstances,
            Event::Conflict => {
                if retries_left > 0 {
                    &&& action == Action::FetchConfig
                    &&& post == (Reconciliation::Fetching {
                        target,
                        retries_left: (retries_left - 1) as usize,
                        found,
                    })
                } else {
                    failed_with(post, action, ReconcileError::Conflict)
                }
            },
            Event::Failed(cause) => failed_with(post, action, ReconcileError::Transport(cause)),
            _ => failed_with(post, action, ReconcileError::OutOfTurn),
        },
        Reconciliation::Listing => match event {
            Event::Instances(names) => {
                if names@.len() == 0 {
                    post == Reconciliation::Finished && action == Action::Succeed
                } else {
                    &&& post matches Reconciliation::Deleting { pending, failures }
                    &&& pending == names
                    &&& failures@.len() == 0
                    &&& action == Action::DeleteInstance(names@[0])
                }
            },
            Event::Failed(cause) => failed_with(post, action, ReconcileError::Transport(cause)),
            _ => failed_with(post, action, ReconcileError::OutOfTurn),
        },
        Reconciliation::Deleting { pending, failures } => {
            if pending@.len() == 0 {
                failed_with(post, action, ReconcileError::OutOfTurn)
            } else {
                match event {
                    Event::Deleted => restart_goes_on(pending@, failures@, post, action),
                    Event::DeleteFailed(cause) | Event::Failed(cause) => restart_goes_on(
                        pending@,
                        failures@.push(DeleteFailure { instance: pending@[0], cause }),
                        post,
                        action,
                    ),
                    _ => failed_with(post, action, ReconcileError::OutOfTurn),
                }
            }
        },
        Reconciliation::Finished => failed_with(post, action, ReconcileError::OutOfTurn),
    }
}

/// How far a reconciliation is from its end, by the kind of answer it waits
/// for.
pub open spec fn stage(state: Reconciliation) -> nat {
    match state {
        Reconciliation::Collecting { .. } => 4,
        Reconciliation::Fetching { .. } => 3,
        Reconciliation::Writing { .. } => 3,
        Reconciliation::Listing => 2,
        Reconciliation::Deleting { .. } => 1,
        Reconciliation::Finished => 0,
    }
}

/// How much is left to do within a stage: the reads and writes that may still
/// follow, or the instances that are still to be deleted.
pub open spec fn work_left(state: Reconciliation) -> nat {
    match state {
        Reconciliation::Fetching { retries_left, .. } => 2 * retries_left as nat + 1,
        Reconciliation::Writing { retries_left, .. } => 2 * retries_left as nat,
        Reconciliation::Deleting { pending, .. } => pending@.len(),
        _ => 0,
    }
}

/// Every step brings a reconciliation nearer to its end: it reaches a later
/// stage, or has less left to do in the same one. So a write is tried again
/// only as often as there are retries, every instance is deleted in turn
/// whether or not the one before it failed, and no reconciliation goes on
/// for ever.
pub proof fn lemma_step_advances(
    pre: Reconciliation,
    event: Event,
    post: Reconciliation,
    action: Action,
)
    requires
        follows(pre, event, post, action),
        pre != Reconciliation::Finished,
    ensures
        stage(post) < stage(pre) || (stage(post) == stage(pre) && work_left(post) < work_left(
            pre,
        )),
{
}

/// A reconciliation is finished exactly when the action is to succeed or to
/// fail.
pub proof fn lemma_finished_iff_last_action(
    pre: Reconciliation,
    event: Event,
    post: Reconciliation,
    action: Action,
)
    requires
        follows(pre, event, post, action),
    ensures
        post == Reconciliation::Finished <==> (action == Action::Succeed || action is Fail),
{
}

/// `event` is what comes of deleting an instance.
pub open spec fn is_delete_outcome(event: Event) -> bool {
    event is Deleted || event is DeleteFailed || event is Failed
}

/// The failures among the first `tried` deletions, where `events[i]` is what
/// came of deleting `instances[i]`: one for each deletion that failed, with
/// the instance and the cause, in the order of the instances.
pub open spec fn delete_failures(instances: Seq<String>, events: Seq<Event>, tried: nat) -> Seq<
    DeleteFailure,
>
    decreases tried,
{
    if tried == 0 {
        Seq::empty()
    } else {
        let earlier = delete_failures(instances, events, (tried - 1) as nat);
        match events[tried - 1] {
            Event::DeleteFailed(cause) | Event::Failed(cause) => earlier.push(
                DeleteFailure { instance: instances[tried - 1], cause },
            ),
            _ => earlier,
        }
    }
}

/// `states`, `events` and `actions` are a run of the restart over
/// `instances`: it begins with all of them pending and none failed, and each
/// state follows from the one before by the outcome of one deletion.
pub open spec fn restart_run(
    instances: Seq<String>,
    states: Seq<Reconciliation>,
    events: Seq<Event>,
    actions: Seq<Action>,
) -> bool {
    &&& instances.len() > 0
    &&& events.len() == instances.len()
    &&& actions.len() == instances.len()
    &&& states.len() == instances.len() + 1
    &&& states[0] matches Reconciliation::Deleting { pending, failures }
    &&& pending@ == instances
    &&& failures@.len() == 0
    &&& forall|i: int|
        0 <= i < instances.len() ==> is_delete_outcome(#[trigger] events[i]) && follows(
            states[i],
            events[i],
            states[i + 1],
            actions[i],
        )
}

proof fn lemma_restart_state(
    instances: Seq<String>,
    states: Seq<Reconciliation>,
    events: Seq<Event>,
    actions: Seq<Action>,
    tried: nat,
)
    requires
        restart_run(instances, states, events, actions),
        tried < instances.len(),
    ensures
        states[tried as int] matches Reconciliation::Deleting { pending, failures }
            && pending@ == instances.skip(tried as int) && failures@ == delete_failures(
            instances,
            events,
            tried,
        ),
        tried > 0 ==> actions[tried - 1] == Action::DeleteInstance(instances[tried as int]),
    decreases tried,
{
    if tried == 0 {
        assert(instances.skip(0) =~= instances);
        assert(states[0]->Deleting_failures@ =~= delete_failures(instances, events, 0));
    } else {
        let before = (tried - 1) as nat;
        lemma_restart_state(instances, states, events, actions, before);
        assert(is_delete_outcome(events[before as int]));
        assert(instances.skip(before as int).drop_first() =~= instances.skip(tried as int));
        assert(instances.skip(before as int)[0] == instances[before as int]);
        assert(instances.skip(before as int)[1] == instances[tried as int]);
    }
}

/// A restart tries every instance, in order, whatever comes of the ones
/// before: after each deletion but the last the next instance is deleted. It
/// ends after the last one, in success where no deletion failed, and else in
/// one failure that names every instance that could not be deleted, with its
/// cause.
pub proof fn lemma_restart_tries_every_instance(
    instances: Seq<String>,
    states: Seq<Reconciliation>,
    events: Seq<Event>,
    actions: Seq<Action>,
)
    requires
        restart_run(instances, states, events, actions),
    ensures
        forall|i: int|
            0 <= i < instances.len() - 1 ==> #[trigger] actions[i] == Action::DeleteInstance(
                instances[i + 1],
            ),
        states.last() == Reconciliation::Finished,
        ({
            let failed = delete_failures(instances, events, instances.len());
            if failed.len() == 0 {
                actions.last() == Action::Succeed
            } else {
                actions.last() matches Action::Fail(ReconcileError::PartialRestart(reported))
                    && reported@ == failed
            }
        }),
{
    assert forall|i: int| 0 <= i < instances.len() - 1 implies #[trigger] actions[i]
        == Action::DeleteInstance(instances[i + 1]) by {
        lemma_restart_state(instances, states, events, actions, (i + 1) as nat);
    }
    let last = (instances.len() - 1) as nat;
    lemma_restart_state(instances, states, events, actions, last);
    assert(is_delete_outcome(events[last as int]));
    assert(instances.skip(last as int).len() == 1);
    assert(instances.skip(last as int)[0] == instances[last as int]);
}

/// Ends the reconciliation with `error`.
fn fail(error: ReconcileError) -> (next: (Reconciliation, Action))
    ensures
        failed_with(next.0, next.1, error),
{
    (Reconciliation::Finished, Action::Fail(error))
}

/// Goes on after the deletion of the first of `pending`.
fn continue_restart(pending: Vec<String>, failures: Vec<DeleteFailure>) -> (next: (
    Reconciliation,
    Action,
))
    requires
        pending@.len() > 0,
    ensures
        restart_goes_on(pending@, failures@, next.0, next.1),
{
    let mut pending = pending;
    let _ = pending.remove(0);
    if pending.len() > 0 {
        let instance = pending[0].clone();
        (Reconciliation::Deleting { pending, failures }, Action::DeleteInstance(instance))
    } else if failures.len() == 0 {
        (Reconciliation::Finished, Action::Succeed)
    } else {
        (Reconciliation::Finished, Action::Fail(ReconcileError::PartialRestart(failures)))
    }
}

impl Reconciliation {
    /// Begins a reconciliation that rewrites hostnames to `target`: the first
    /// thing to do is to list the ingresses.
    pub fn start(target: String) -> (begin: (Reconciliation, Action))
        ensures
            begin.0 == (Reconciliation::Collecting { target, retries_left: CONFLICT_RETRIES }),
            begin.1 == Action::ListIngresses,
    {
        (Reconciliation::Collecting { target, retries_left: CONFLICT_RETRIES }, Action::ListIngresses)
    }

    /// Takes what came of the last action and says what to do next.
    pub fn step(self, event: Event) -> (next: (Reconciliation, Action))
        ensures
            follows(self, event, next.0, next.1),
    {
        match self {
            Reconciliation::Collecting { target, retries_left } => match event {
                Event::Ingresses(ingresses) => {
                    let found = collect_hostnames(&ingresses);
                    (Reconciliation::Fetching { target, retries_left, found }, Action::FetchConfig)
                },
                Event::Failed(cause) => fail(ReconcileError::Transport(cause)),
                _ => fail(ReconcileError::OutOfTurn),
            },
            Reconciliation::Fetching { target, retries_left, found } => match event {
                Event::Config(resource) => {
                    match resource.apply_hostnames(&found.hostnames, target.as_str()) {
                        Ok(patched) => (
                            Reconciliation::Writing { target, retries_left, found },
                            Action::WriteConfig(patched),
                        ),
                        Err(error) => fail(ReconcileError::ConfigFormat(error)),
                    }
                },
                Event::ConfigMissing => fail(ReconcileError::ConfigurationMissing),
                Event::Failed(cause) => fail(ReconcileError::Transport(cause)),
                _ => fail(ReconcileError::OutOfTurn),
            },
            Reconciliation::Writing { target, retries_left, found } => match event {
                Event::Written => (Reconciliation::Listing, Action::ListInstances),
                Event::Conflict => {
                    if retries_left > 0 {
                        (
                            Reconciliation::Fetching {
                                target,
                                retries_left: retries_left - 1,
                                found,
                            },
                            Action::FetchConfig,
                        )
                    } else {
                        fail(ReconcileError::Conflict)
                    }
                },
                Event::Failed(cause) => fail(ReconcileError::Transport(cause)),
                _ => fail(ReconcileError::OutOfTurn),
            },
            Reconciliation::Listing => match event {
                Event::Instances(names) => {
                    if names.len() == 0 {
                        (Reconciliation::Finished, Action::Succeed)
                    } else {
                        let instance = names[0].clone();
                        (
                            Reconciliation::Deleting { pending: names, failures: Vec::new() },
                            Action::DeleteInstance(instance),
                        )
                    }
                },
                Event::Failed(cause) => fail(ReconcileError::Transport(cause)),
                _ => fail(ReconcileError::OutOfTurn),
            },
            Reconciliation::Deleting { pending, failures } => {
                if pending.len() == 0 {
                    fail(ReconcileError::OutOfTurn)
                } else {
                    match event {
                        Event::Deleted => continue_restart(pending, failures),
                        Event::DeleteFailed(cause) | Event::Failed(cause) => {
                            let mut failures = failures;
                            failures.push(DeleteFailure { instance: pending[0].clone(), cause });
                            continue_restart(pending, failures)
                        },
                        _ => fail(ReconcileError::OutOfTurn),
                    }
                }
            },
            Reconciliation::Finished => fail(ReconcileError::OutOfTurn),
        }
    }
}

} // verus!
