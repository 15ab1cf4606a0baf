use soil_ingest::retry::{run_retry, RetryAction, RetryPolicy};

#[test]
fn test_backoff_bound_always_failing() {
    let outcomes: Vec<bool> = Vec::new();
    let run = run_retry(&outcomes, 10);
    assert!(!run.succeeded);
    assert_eq!(run.attempts, 9);
    assert!(run.attempts <= 10);
    assert_eq!(run.delays, vec![1, 2, 4, 8, 16, 32, 32, 32]);
    assert!(run.delays.iter().all(|d| *d <= 32));
}

#[test]
fn test_retry_success_path() {
    let outcomes = vec![false, false, true];
    let run = run_retry(&outcomes, 5);
    assert!(run.succeeded);
    assert_eq!(run.attempts, 3);
    assert_eq!(run.delays, vec![1, 2]);
}

#[test]
fn test_no_retry_on_success() {
    let outcomes = vec![true, true];
    let run = run_retry(&outcomes, 5);
    assert!(run.succeeded);
    assert_eq!(run.attempts, 1);
    assert!(run.delays.is_empty());
}

#[test]
fn test_small_ceiling_gives_one_attempt() {
    let outcomes: Vec<bool> = Vec::new();
    let run = run_retry(&outcomes, 2);
    assert!(!run.succeeded);
    assert_eq!(run.attempts, 1);
    assert!(run.delays.is_empty());
}

#[test]
fn test_exhaustion_surfaces_failure() {
    let outcomes = vec![false, false, false, false];
    let run = run_retry(&outcomes, 5);
    assert!(!run.succeeded);
    assert_eq!(run.attempts, 4);
}

#[test]
fn test_policy_doubles_and_gives_up() {
    let mut p = RetryPolicy::new(5);
    assert_eq!(p.on_failure(), RetryAction::RetryAfter { delay_secs: 1 });
    assert_eq!(p.on_failure(), RetryAction::RetryAfter { delay_secs: 2 });
    assert_eq!(p.on_failure(), RetryAction::RetryAfter { delay_secs: 4 });
    assert_eq!(p.on_failure(), RetryAction::GiveUp);
}

#[test]
fn test_policy_delay_caps_at_32() {
    let mut p = RetryPolicy::new(20);
    let mut last: u64 = 0;
    for _ in 0..10 {
        match p.on_failure() {
            RetryAction::RetryAfter { delay_secs } => {
                assert!(delay_secs <= 32);
                last = delay_secs;
            }
            RetryAction::GiveUp => panic!("gave up too early"),
        }
    }
    assert_eq!(last, 32);
}

#[test]
fn test_zero_ceiling_makes_no_attempt() {
    let run = run_retry(&vec![true], 0);
    assert!(!run.succeeded);
    assert_eq!(run.attempts, 0);
    assert!(run.delays.is_empty());
}
