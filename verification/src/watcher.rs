//! The watch on ingress changes: when to subscribe, when to wait, when to
//! reconcile, and how long to hold off before subscribing again.

use vstd::prelude::*;

verus! {

/// The wait before the second attempt in a row to subscribe, in milliseconds.
pub const FIRST_DELAY_MS: u64 = 1_000;

/// The longest wait before an attempt to subscribe, in milliseconds.
pub const LONGEST_DELAY_MS: u64 = 60_000;

/// Which of its two states the watch is in.
#[derive(Debug, Clone, Copy, PartialEq, Eq, Structural)]
pub enum WatchState {
    /// A subscription is open, or is being opened for the first time.
    Watching,
    /// The subscription ended and a fresh one is being opened.
    Reconnecting,
}

/// Where the watch stands.
#[derive(Debug, Clone, Copy, PartialEq, Eq, Structural)]
pub struct Watch {
    pub state: WatchState,
    /// How many subscriptions have ended since the last change arrived.
    pub lapses: u32,
}

/// What happened since the last action.
#[derive(Debug, Clone, Copy, PartialEq, Eq, Structural)]
pub enum WatchEvent {
    /// The subscription was opened.
    Subscribed,
    /// An ingress was created, changed or deleted.
    Touched,
    /// The reconciliation ran to its end.
    Reconciled,
    /// The reconciliation failed.
    ReconcileFailed,
    /// The subscription ended: it broke, or the server closed it.
    SubscriptionEnded,
}

/// What to do next.
#[derive(Debug, Clone, Copy, PartialEq, Eq, Structural)]
pub enum WatchAction {
    /// Wait for this many milliseconds, then open a fresh subscription to
    /// ingress changes.
    Subscribe { delay_ms: u64 },
    /// Wait for the next change on the open subscription.
    AwaitChange,
    /// Run one full reconciliation.
    Reconcile,
}

/// The full wait before subscribing after `lapses` subscriptions have ended in
/// a row: none after the first, then `FIRST_DELAY_MS`, doubled with each
/// further one and never more than `LONGEST_DELAY_MS`.
pub open spec fn backoff(lapses: nat) -> nat
    decreases lapses,
{
    if lapses == 0 {
        0
    } else if lapses == 1 {
        FIRST_DELAY_MS as nat
    } else if 2 * backoff((lapses - 1) as nat) < LONGEST_DELAY_MS {
        2 * backoff((lapses - 1) as nat)
    } else {
        LONGEST_DELAY_MS as nat
    }
}

/// A wait between half of `delay` and all of it, picked by `chance`.
pub open spec fn with_jitter(delay: nat, chance: nat) -> nat {
    delay / 2 + chance % (delay / 2 + 1)
}

/// The wait before a subscription is opened by a watch that has seen `lapses`
/// subscriptions end in a row.
pub open spec fn reconnect_delay(lapses: u32, chance: u64) -> nat {
    with_jitter(backoff(lapses as nat), chance as nat)
}

/// The state after `event`. Only the end of the subscription leaves
/// `Watching`, and only a new subscription leaves `Reconnecting`; a failed
/// reconciliation changes nothing. A change that arrives shows that the
/// subscription works, and clears the count of lapses; each subscription that
/// ends adds to it.
pub open spec fn next_watch(watch: Watch, event: WatchEvent) -> Watch {
    match event {
        WatchEvent::SubscriptionEnded => Watch {
            state: WatchState::Reconnecting,
            lapses: if watch.lapses < u32::MAX {
                (watch.lapses + 1) as u32
            } else {
                watch.lapses
            },
        },
        WatchEvent::Subscribed => Watch { state: WatchState::Watching, lapses: watch.lapses },
        WatchEvent::Touched => match watch.state {
            WatchState::Watching => Watch { state: WatchState::Watching, lapses: 0 },
            WatchState::Reconnecting => watch,
        },
        _ => watch,
    }
}

/// The action after `event`. When the subscription ends, and for as long as
/// the watch is reconnecting, the only thing to do is to subscribe, after the
/// wait that the lapses so far call for. While watching, each change is
/// answered by one reconciliation, and after it, failed or not, the watch
/// waits for the next change.
pub open spec fn next_action(watch: Watch, event: WatchEvent, chance: u64) -> WatchAction {
    match next_watch(watch, event).state {
        WatchState::Reconnecting => WatchAction::Subscribe {
            delay_ms: reconnect_delay(watch.lapses, chance) as u64,
        },
        WatchState::Watching => match event {
            WatchEvent::Touched => WatchAction::Reconcile,
            _ => WatchAction::AwaitChange,
        },
    }
}

/// Once the wait has reached its bound it stays there.
proof fn lemma_backoff_stays(reached: nat, later: nat)
    requires
        1 <= reached <= later,
        backoff(reached) == LONGEST_DELAY_MS,
    ensures
        backoff(later) == LONGEST_DELAY_MS,
    decreases later,
{
    if later > reached {
        lemma_backoff_stays(reached, (later - 1) as nat);
    }
}

/// The wait is bounded, and it never gets shorter as lapses add up.
pub proof fn lemma_backoff_bounded(fewer: nat, more: nat)
    requires
        fewer <= more,
    ensures
        backoff(fewer) <= backoff(more) <= LONGEST_DELAY_MS,
    decreases more,
{
    if more > fewer {
        lemma_backoff_bounded(fewer, (more - 1) as nat);
        lemma_backoff_bounded((more - 1) as nat, (more - 1) as nat);
    } else if more > 0 {
        lemma_backoff_bounded((more - 1) as nat, (more - 1) as nat);
    }
}

/// Jitter shortens a wait by half at most and never lengthens it.
pub proof fn lemma_jitter_bounded(delay: nat, chance: nat)
    ensures
        delay / 2 <= with_jitter(delay, chance) <= delay,
{
}

/// The full wait after `lapses` subscriptions have ended in a row.
fn backoff_ms(lapses: u32) -> (delay: u64)
    ensures
        delay == backoff(lapses as nat),
        delay <= LONGEST_DELAY_MS,
{
    if lapses == 0 {
        return 0;
    }
    let mut delay: u64 = FIRST_DELAY_MS;
    let mut counted: u32 = 1;
    while counted < lapses && delay < LONGEST_DELAY_MS
        invariant
            1 <= counted <= lapses,
            delay == backoff(counted as nat),
            delay <= LONGEST_DELAY_MS,
        decreases lapses - counted,
    {
        delay = if 2 * delay < LONGEST_DELAY_MS {
            2 * delay
        } else {
            LONGEST_DELAY_MS
        };
        counted += 1;
    }
    proof {
        if counted < lapses {
            lemma_backoff_stays(counted as nat, lapses as nat);
        }
    }
    delay
}

/// The wait before subscribing after `lapses` subscriptions have ended in a
/// row, with jitter picked by `chance`.
pub fn subscribe_after(lapses: u32, chance: u64) -> (delay_ms: u64)
    ensures
        delay_ms == reconnect_delay(lapses, chance),
        delay_ms <= LONGEST_DELAY_MS,
{
    let full = backoff_ms(lapses);
    let half = full / 2;
    half + chance % (half + 1)
}

/// The watch begins in `Watching`, by opening a subscription at once.
pub fn start() -> (begin: (Watch, WatchAction))
    ensures
        begin.0 == (Watch { state: WatchState::Watching, lapses: 0 }),
        begin.1 == (WatchAction::Subscribe { delay_ms: 0 }),
{
    (Watch { state: WatchState::Watching, lapses: 0 }, WatchAction::Subscribe { delay_ms: 0 })
}

/// Takes one event and says where the watch stands then and what to do next.
/// `chance` is any number, best a random one: it spreads the waits of many
/// watchers. There is always something to do next: the watch has no last
/// state.
pub fn step(watch: Watch, event: WatchEvent, chance: u64) -> (next: (Watch, WatchAction))
    ensures
        next.0 == next_watch(watch, event),
        next.1 == next_action(watch, event, chance),
{
    let subscribe = WatchAction::Subscribe { delay_ms: subscribe_after(watch.lapses, chance) };
    match event {
        WatchEvent::SubscriptionEnded => {
            let lapses = if watch.lapses < u32::MAX {
                watch.lapses + 1
            } else {
                watch.lapses
            };
            (Watch { state: WatchState::Reconnecting, lapses }, subscribe)
        },
        WatchEvent::Subscribed => (
            Watch { state: WatchState::Watching, lapses: watch.lapses },
            WatchAction::AwaitChange,
        ),
        WatchEvent::Touched => match watch.state {
            WatchState::Watching => (
                Watch { state: WatchState::Watching, lapses: 0 },
                WatchAction::Reconcile,
            ),
            WatchState::Reconnecting => (watch, subscribe),
        },
        WatchEvent::Reconciled | WatchEvent::ReconcileFailed => match watch.state {
            WatchState::Watching => (watch, WatchAction::AwaitChange),
            WatchState::Reconnecting => (watch, subscribe),
        },
    }
}

/// A reconciliation is started only by a change that arrives while watching.
pub proof fn lemma_reconcile_only_on_change(watch: Watch, event: WatchEvent, chance: u64)
    ensures
        next_action(watch, event, chance) == WatchAction::Reconcile <==> watch.state
            == WatchState::Watching && event == WatchEvent::Touched,
{
}

/// The first subscription after one that worked is opened at once, and no
/// wait is ever longer than the bound.
pub proof fn lemma_subscribe_delay(watch: Watch, event: WatchEvent, chance: u64)
    requires
        next_action(watch, event, chance) is Subscribe,
    ensures
        next_action(watch, event, chance)->delay_ms <= LONGEST_DELAY_MS,
        watch.lapses == 0 ==> next_action(watch, event, chance)->delay_ms == 0,
{
    lemma_backoff_bounded(watch.lapses as nat, watch.lapses as nat);
    lemma_jitter_bounded(backoff(watch.lapses as nat), chance as nat);
}

} // verus!
