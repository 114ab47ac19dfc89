use route_rs::convergence::{secant_outcome, SecantOutcome};

#[test]
fn pass_within_budget_converges() {
    assert_eq!(secant_outcome(0, 100, 3), SecantOutcome::Converged);
}

#[test]
fn exhausted_pass_retries_with_larger_budget() {
    assert_eq!(
        secant_outcome(0, 100, 101),
        SecantOutcome::Retry { tries: 1, max_iterations: 125 }
    );
    assert_eq!(
        secant_outcome(3, 175, 175),
        SecantOutcome::Retry { tries: 4, max_iterations: 200 }
    );
}

#[test]
fn fifth_exhausted_pass_gives_up() {
    assert_eq!(secant_outcome(4, 200, 201), SecantOutcome::GaveUp { tries: 5 });
}

#[test]
fn retries_stop_after_four() {
    let (mut tries, mut budget) = (0u32, 100u32);
    let mut passes = 0;
    loop {
        passes += 1;
        match secant_outcome(tries, budget, budget + 1) {
            SecantOutcome::Retry { tries: t, max_iterations: m } => {
                tries = t;
                budget = m;
            }
            other => {
                assert_eq!(other, SecantOutcome::GaveUp { tries: 5 });
                break;
            }
        }
    }
    assert_eq!(passes, 5);
    assert_eq!(budget, 200);
}
