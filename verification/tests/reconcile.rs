use cert_fixer::config::{ConfigResource, DataEntry};
use cert_fixer::error::ConfigFormatError;
use cert_fixer::ingress::{Collected, Ingress, IngressRule, Skipped};
use cert_fixer::reconcile::{
    delete_refused, write_refused, Action, DeleteFailure, Event, ReconcileError, Reconciliation,
    CONFLICT_RETRIES, STATUS_CONFLICT, STATUS_NOT_FOUND,
};

fn ingresses() -> Vec<Ingress> {
    vec![
        Ingress { name: "broken".to_string(), namespace: "x".to_string(), rules: None },
        Ingress {
            name: "web".to_string(),
            namespace: "default".to_string(),
            rules: Some(vec![IngressRule { host: Some("a.example.com".to_string()) }]),
        },
    ]
}

fn config(version: &str, corefile: &str) -> ConfigResource {
    ConfigResource {
        name: "coredns".to_string(),
        namespace: "kube-system".to_string(),
        version: version.to_string(),
        data: vec![DataEntry { key: "Corefile".to_string(), value: corefile.to_string() }],
    }
}

fn names(list: &[&str]) -> Vec<String> {
    list.iter().map(|n| n.to_string()).collect()
}

fn found() -> Collected {
    Collected {
        hostnames: names(&["a.example.com"]),
        skipped: vec![Skipped::NoRules { ingress: 0 }],
    }
}

fn writing(retries_left: usize) -> Reconciliation {
    Reconciliation::Writing { target: "ctl.svc".to_string(), retries_left, found: found() }
}

fn fetching(retries_left: usize) -> Reconciliation {
    Reconciliation::Fetching { target: "ctl.svc".to_string(), retries_left, found: found() }
}

#[test]
fn reconciliation_runs_from_ingresses_to_restart() {
    let (state, action) = Reconciliation::start("ctl.svc".to_string());
    assert_eq!(action, Action::ListIngresses);
    assert_eq!(
        state,
        Reconciliation::Collecting { target: "ctl.svc".to_string(), retries_left: 3 }
    );

    let (state, action) = state.step(Event::Ingresses(ingresses()));
    assert_eq!(action, Action::FetchConfig);
    assert_eq!(state, fetching(3));

    let (state, action) = state.step(Event::Config(config("7", ".:53 {\n    log\n}\n")));
    assert_eq!(
        action,
        Action::WriteConfig(config(
            "7",
            ".:53 {\n    rewrite name a.example.com ctl.svc  # Added by cert-fixer\n    log\n}\n"
        ))
    );
    assert_eq!(state, writing(3));

    let (state, action) = state.step(Event::Written);
    assert_eq!(action, Action::ListInstances);
    assert_eq!(state, Reconciliation::Listing);

    let (state, action) = state.step(Event::Instances(names(&["dns-1", "dns-2"])));
    assert_eq!(action, Action::DeleteInstance("dns-1".to_string()));
    assert_eq!(
        state,
        Reconciliation::Deleting { pending: names(&["dns-1", "dns-2"]), failures: vec![] }
    );

    let (state, action) = state.step(Event::Deleted);
    assert_eq!(action, Action::DeleteInstance("dns-2".to_string()));

    let (state, action) = state.step(Event::Deleted);
    assert_eq!(action, Action::Succeed);
    assert_eq!(state, Reconciliation::Finished);
}

#[test]
fn conflict_is_retried_from_a_fresh_read() {
    let (state, action) = writing(2).step(Event::Conflict);
    assert_eq!(action, Action::FetchConfig);
    assert_eq!(state, fetching(1));
    let (state, action) = state.step(Event::Config(config("8", ".:53 {\n")));
    assert_eq!(
        action,
        Action::WriteConfig(config(
            "8",
            ".:53 {\n    rewrite name a.example.com ctl.svc  # Added by cert-fixer\n"
        ))
    );
    assert_eq!(state, writing(1));
}

#[test]
fn conflict_fails_when_the_retries_are_used_up() {
    assert_eq!(CONFLICT_RETRIES, 3);
    let (mut state, _) = Reconciliation::start("ctl.svc".to_string());
    state = state.step(Event::Ingresses(ingresses())).0;
    let mut writes = 0;
    let last = loop {
        let (next, action) = state.step(Event::Config(config("1", ".:53 {\n")));
        assert!(matches!(action, Action::WriteConfig(_)));
        writes += 1;
        let (next, action) = next.step(Event::Conflict);
        state = next;
        if action != Action::FetchConfig {
            break action;
        }
    };
    assert_eq!(writes, 4);
    assert_eq!(last, Action::Fail(ReconcileError::Conflict));
    assert_eq!(state, Reconciliation::Finished);
}

#[test]
fn missing_configuration_is_fatal() {
    let (state, action) = fetching(3).step(Event::ConfigMissing);
    assert_eq!(action, Action::Fail(ReconcileError::ConfigurationMissing));
    assert_eq!(state, Reconciliation::Finished);
}

#[test]
fn configuration_without_document_or_anchor_is_a_format_error() {
    let mut no_key = config("1", ".:53 {\n");
    no_key.data[0].key = "Other".to_string();
    let (state, action) = fetching(3).step(Event::Config(no_key));
    assert_eq!(
        action,
        Action::Fail(ReconcileError::ConfigFormat(ConfigFormatError::MissingDocument))
    );
    assert_eq!(state, Reconciliation::Finished);

    let (state, action) = fetching(3).step(Event::Config(config("1", "example.org {\n}\n")));
    assert_eq!(
        action,
        Action::Fail(ReconcileError::ConfigFormat(ConfigFormatError::MissingAnchor))
    );
    assert_eq!(state, Reconciliation::Finished);
}

#[test]
fn failed_deletions_are_collected_and_every_instance_is_tried() {
    let state = Reconciliation::Listing;
    let (state, action) = state.step(Event::Instances(names(&["dns-a", "dns-b", "dns-c", "dns-d"])));
    assert_eq!(action, Action::DeleteInstance("dns-a".to_string()));
    let (state, action) = state.step(Event::DeleteFailed("forbidden".to_string()));
    assert_eq!(action, Action::DeleteInstance("dns-b".to_string()));
    let (state, action) = state.step(Event::Deleted);
    assert_eq!(action, Action::DeleteInstance("dns-c".to_string()));
    let (state, action) = state.step(Event::Failed("timeout".to_string()));
    assert_eq!(action, Action::DeleteInstance("dns-d".to_string()));
    assert_eq!(
        state,
        Reconciliation::Deleting {
            pending: names(&["dns-d"]),
            failures: vec![
                DeleteFailure { instance: "dns-a".to_string(), cause: "forbidden".to_string() },
                DeleteFailure { instance: "dns-c".to_string(), cause: "timeout".to_string() },
            ],
        }
    );
    let (state, action) = state.step(Event::Deleted);
    assert_eq!(
        action,
        Action::Fail(ReconcileError::PartialRestart(vec![
            DeleteFailure { instance: "dns-a".to_string(), cause: "forbidden".to_string() },
            DeleteFailure { instance: "dns-c".to_string(), cause: "timeout".to_string() },
        ]))
    );
    assert_eq!(state, Reconciliation::Finished);
}

#[test]
fn failure_of_the_last_deletion_is_reported() {
    let state = Reconciliation::Deleting { pending: names(&["dns-a"]), failures: vec![] };
    let (state, action) = state.step(Event::DeleteFailed("gone wrong".to_string()));
    assert_eq!(
        action,
        Action::Fail(ReconcileError::PartialRestart(vec![DeleteFailure {
            instance: "dns-a".to_string(),
            cause: "gone wrong".to_string(),
        }]))
    );
    assert_eq!(state, Reconciliation::Finished);
}

#[test]
fn no_instances_means_nothing_to_restart() {
    let (state, action) = Reconciliation::Listing.step(Event::Instances(vec![]));
    assert_eq!(action, Action::Succeed);
    assert_eq!(state, Reconciliation::Finished);
}

#[test]
fn failed_request_ends_the_reconciliation() {
    let cause = || Event::Failed("connection refused".to_string());
    let error = || Action::Fail(ReconcileError::Transport("connection refused".to_string()));
    let (start, _) = Reconciliation::start("t".to_string());
    assert_eq!(start.step(cause()), (Reconciliation::Finished, error()));
    assert_eq!(fetching(3).step(cause()), (Reconciliation::Finished, error()));
    assert_eq!(writing(3).step(cause()), (Reconciliation::Finished, error()));
    assert_eq!(Reconciliation::Listing.step(cause()), (Reconciliation::Finished, error()));
}

#[test]
fn event_out_of_turn_ends_the_reconciliation() {
    let out_of_turn = (Reconciliation::Finished, Action::Fail(ReconcileError::OutOfTurn));
    let (start, _) = Reconciliation::start("t".to_string());
    assert_eq!(start.step(Event::Written), out_of_turn);
    assert_eq!(fetching(3).step(Event::Ingresses(vec![])), out_of_turn);
    assert_eq!(writing(3).step(Event::Deleted), out_of_turn);
    assert_eq!(Reconciliation::Listing.step(Event::Conflict), out_of_turn);
    assert_eq!(Reconciliation::Finished.step(Event::Deleted), out_of_turn);
    let nothing_pending = Reconciliation::Deleting { pending: vec![], failures: vec![] };
    assert_eq!(nothing_pending.step(Event::Deleted), out_of_turn);
    let deleting = Reconciliation::Deleting { pending: names(&["dns-a"]), failures: vec![] };
    assert_eq!(deleting.step(Event::Written), out_of_turn);
}

#[test]
fn refused_write_is_a_conflict_only_on_its_status() {
    assert_eq!(STATUS_CONFLICT, 409);
    assert_eq!(write_refused(409, "changed".to_string()), Event::Conflict);
    assert_eq!(
        write_refused(403, "forbidden".to_string()),
        Event::Failed("forbidden".to_string())
    );
    assert_eq!(write_refused(404, "gone".to_string()), Event::Failed("gone".to_string()));
}

#[test]
fn instance_that_is_gone_counts_as_deleted() {
    assert_eq!(STATUS_NOT_FOUND, 404);
    assert_eq!(delete_refused(404, "not found".to_string()), Event::Deleted);
    assert_eq!(
        delete_refused(409, "busy".to_string()),
        Event::DeleteFailed("busy".to_string())
    );
    assert_eq!(
        delete_refused(500, "boom".to_string()),
        Event::DeleteFailed("boom".to_string())
    );
}
