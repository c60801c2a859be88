use cert_fixer::watcher::{
    start, step, subscribe_after, Watch, WatchAction, WatchEvent, WatchState, FIRST_DELAY_MS,
    LONGEST_DELAY_MS,
};

fn watching(lapses: u32) -> Watch {
    Watch { state: WatchState::Watching, lapses }
}

fn reconnecting(lapses: u32) -> Watch {
    Watch { state: WatchState::Reconnecting, lapses }
}

#[test]
fn watch_starts_by_subscribing() {
    assert_eq!(start(), (watching(0), WatchAction::Subscribe { delay_ms: 0 }));
    assert_eq!(
        step(watching(0), WatchEvent::Subscribed, 7),
        (watching(0), WatchAction::AwaitChange)
    );
}

#[test]
fn each_change_is_answered_by_a_reconciliation() {
    assert_eq!(step(watching(0), WatchEvent::Touched, 7), (watching(0), WatchAction::Reconcile));
    assert_eq!(
        step(watching(0), WatchEvent::Reconciled, 7),
        (watching(0), WatchAction::AwaitChange)
    );
}

#[test]
fn failed_reconciliation_keeps_the_watch() {
    assert_eq!(
        step(watching(0), WatchEvent::ReconcileFailed, 7),
        (watching(0), WatchAction::AwaitChange)
    );
    assert_eq!(
        step(watching(2), WatchEvent::ReconcileFailed, 7),
        (watching(2), WatchAction::AwaitChange)
    );
}

#[test]
fn ended_subscription_is_opened_again_at_once() {
    assert_eq!(
        step(watching(0), WatchEvent::SubscriptionEnded, 12345),
        (reconnecting(1), WatchAction::Subscribe { delay_ms: 0 })
    );
    assert_eq!(
        step(reconnecting(1), WatchEvent::Subscribed, 12345),
        (watching(1), WatchAction::AwaitChange)
    );
}

#[test]
fn repeated_lapses_wait_longer_each_time() {
    assert_eq!(
        step(watching(1), WatchEvent::SubscriptionEnded, 0),
        (reconnecting(2), WatchAction::Subscribe { delay_ms: 500 })
    );
    assert_eq!(
        step(reconnecting(2), WatchEvent::SubscriptionEnded, 0),
        (reconnecting(3), WatchAction::Subscribe { delay_ms: 1000 })
    );
    assert_eq!(
        step(watching(3), WatchEvent::SubscriptionEnded, 0),
        (reconnecting(4), WatchAction::Subscribe { delay_ms: 2000 })
    );
}

#[test]
fn change_clears_the_lapses() {
    assert_eq!(step(watching(5), WatchEvent::Touched, 1), (watching(0), WatchAction::Reconcile));
}

#[test]
fn lapses_stop_counting_at_the_top() {
    let (next, action) = step(reconnecting(u32::MAX), WatchEvent::SubscriptionEnded, 0);
    assert_eq!(next, reconnecting(u32::MAX));
    assert_eq!(action, WatchAction::Subscribe { delay_ms: 30_000 });
}

#[test]
fn nothing_but_subscribing_happens_while_reconnecting() {
    for event in [WatchEvent::Touched, WatchEvent::Reconciled, WatchEvent::ReconcileFailed] {
        assert_eq!(
            step(reconnecting(1), event, 1000),
            (reconnecting(1), WatchAction::Subscribe { delay_ms: 999 })
        );
    }
}

#[test]
fn wait_doubles_up_to_its_bound() {
    assert_eq!(FIRST_DELAY_MS, 1_000);
    assert_eq!(LONGEST_DELAY_MS, 60_000);
    let full = |lapses: u32| subscribe_after(lapses, 0) * 2;
    assert_eq!(full(0), 0);
    assert_eq!(full(1), 1_000);
    assert_eq!(full(2), 2_000);
    assert_eq!(full(3), 4_000);
    assert_eq!(full(6), 32_000);
    assert_eq!(full(7), 60_000);
    assert_eq!(full(8), 60_000);
    assert_eq!(full(1_000_000), 60_000);
    assert_eq!(full(u32::MAX), 60_000);
}

#[test]
fn jitter_stays_between_half_and_all_of_the_wait() {
    assert_eq!(subscribe_after(0, 99), 0);
    assert_eq!(subscribe_after(1, 0), 500);
    assert_eq!(subscribe_after(1, 500), 1_000);
    assert_eq!(subscribe_after(1, 501), 500);
    assert_eq!(subscribe_after(3, 777), 2_777);
    assert_eq!(subscribe_after(9, u64::MAX), 30_000 + u64::MAX % 30_001);
    for chance in [0u64, 1, 29_999, 30_000, 30_001, 1 << 40, u64::MAX] {
        let wait = subscribe_after(20, chance);
        assert!((30_000..=60_000).contains(&wait));
    }
}
