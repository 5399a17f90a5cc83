use motif_core::config::EdgeConfig;
use motif_core::sync::retry::{next_retry_step, ApplyOutcome, RetryAction, RetryState};
use motif_core::ControllerError;

#[test]
fn controller_error_helpers() {
    let t = ControllerError::transient("network down");
    assert!(t.is_transient());
    let p = ControllerError::permanent("auth failed");
    assert!(!p.is_transient());
}

#[test]
fn controller_error_keeps_its_reason() {
    assert_eq!(ControllerError::transient("network down").reason(), "network down");
    assert_eq!(ControllerError::permanent("auth failed").reason(), "auth failed");
}

fn edge(max_attempts: u32, max_backoff_ms: u64) -> EdgeConfig {
    EdgeConfig {
        controller_retry_max_attempts: max_attempts,
        controller_retry_max_backoff_ms: max_backoff_ms,
        ..EdgeConfig::default()
    }
}

#[test]
fn edge_config_defaults() {
    let e = EdgeConfig::default();
    assert!(e.foreshadow_eager);
    assert_eq!(e.retention_confirmed_secs, 3600);
    assert_eq!(e.schema_cache, "push");
    assert_eq!(e.controller_retry_max_backoff_ms, 30_000);
    assert_eq!(e.controller_retry_max_attempts, 0);
}

#[test]
fn applied_and_permanent_end_the_mutation() {
    let cfg = edge(0, 30_000);
    let s = RetryState::new();
    assert_eq!(next_retry_step(s, ApplyOutcome::Applied, &cfg).1, RetryAction::Done);
    assert_eq!(next_retry_step(s, ApplyOutcome::Permanent, &cfg).1, RetryAction::Drop);
}

#[test]
fn transient_backoff_doubles_up_to_the_ceiling() {
    let cfg = edge(0, 500);
    let mut s = RetryState::new();
    let mut sleeps = Vec::new();
    for _ in 0..5 {
        let (next, action) = next_retry_step(s, ApplyOutcome::Transient, &cfg);
        match action {
            RetryAction::Retry { sleep_ms } => sleeps.push(sleep_ms),
            other => panic!("unexpected {other:?}"),
        }
        s = next;
    }
    assert_eq!(sleeps, vec![100, 200, 400, 500, 500]);
    assert_eq!(s.attempt, 5);
}

#[test]
fn retry_budget_gives_up_at_the_limit() {
    let cfg = edge(3, 30_000);
    let mut s = RetryState::new();
    let (n1, a1) = next_retry_step(s, ApplyOutcome::Transient, &cfg);
    assert!(matches!(a1, RetryAction::Retry { sleep_ms: 100 }));
    s = n1;
    let (n2, a2) = next_retry_step(s, ApplyOutcome::Transient, &cfg);
    assert!(matches!(a2, RetryAction::Retry { sleep_ms: 200 }));
    s = n2;
    let (_, a3) = next_retry_step(s, ApplyOutcome::Transient, &cfg);
    assert_eq!(a3, RetryAction::GiveUp { attempts: 3 });
}

#[test]
fn retry_sleeps_never_exceed_the_ceiling() {
    let cfg = edge(0, 50);
    let mut s = RetryState::new();
    let mut total: u64 = 0;
    for _ in 0..3 {
        let (next, action) = next_retry_step(s, ApplyOutcome::Transient, &cfg);
        match action {
            RetryAction::Retry { sleep_ms } => {
                assert_eq!(sleep_ms, 50);
                total += sleep_ms;
            }
            other => panic!("unexpected {other:?}"),
        }
        s = next;
    }
    assert_eq!(total, 150);
}
