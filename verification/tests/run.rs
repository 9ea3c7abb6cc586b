use spikenorm::run::{Failure, Outcome, Run, Step};

#[test]
fn one_failed_conversion_of_three_aborts_the_run() {
    let mut run = Run::new(3);
    assert_eq!(run.record(0, Outcome::Exited(0)), Step::Await);
    let failure = Failure { sample: 1, outcome: Outcome::Exited(1) };
    assert_eq!(run.record(1, Outcome::Exited(1)), Step::Abort(failure));
    assert_eq!(run.record(2, Outcome::Exited(0)), Step::Abort(failure));
    assert_eq!(run.step(), Step::Abort(failure));
}

#[test]
fn the_factor_file_is_written_after_the_last_success() {
    let mut run = Run::new(3);
    assert_eq!(run.step(), Step::Await);
    assert_eq!(run.record(2, Outcome::Exited(0)), Step::Await);
    assert_eq!(run.record(0, Outcome::Exited(0)), Step::Await);
    assert_eq!(run.record(1, Outcome::Exited(0)), Step::WriteFactors);
    assert_eq!(run.step(), Step::WriteFactors);
}

#[test]
fn a_failure_stays_after_every_later_report() {
    for failed in 0..3usize {
        let mut run = Run::new(3);
        let mut aborted = false;
        for sample in 0..3usize {
            let outcome = if sample == failed { Outcome::Exited(2) } else { Outcome::Exited(0) };
            let step = run.record(sample, outcome);
            if sample >= failed {
                aborted = true;
            }
            assert_eq!(matches!(step, Step::Abort(_)), aborted);
            assert_ne!(step, Step::WriteFactors);
        }
        assert_eq!(
            run.step(),
            Step::Abort(Failure { sample: failed, outcome: Outcome::Exited(2) })
        );
    }
}

#[test]
fn the_first_failure_is_the_one_kept() {
    let mut run = Run::new(4);
    run.record(3, Outcome::NotStarted);
    run.record(1, Outcome::Exited(9));
    assert_eq!(run.step(), Step::Abort(Failure { sample: 3, outcome: Outcome::NotStarted }));
}

#[test]
fn a_process_that_did_not_start_or_left_no_code_has_failed() {
    assert!(Outcome::Exited(0).succeeded());
    assert!(!Outcome::Exited(1).succeeded());
    assert!(!Outcome::Exited(-1).succeeded());
    assert!(!Outcome::Exited(255).succeeded());
    assert!(!Outcome::Killed.succeeded());
    assert!(!Outcome::NotStarted.succeeded());
    let mut run = Run::new(1);
    assert_eq!(
        run.record(0, Outcome::Killed),
        Step::Abort(Failure { sample: 0, outcome: Outcome::Killed })
    );
}

#[test]
fn a_success_reported_twice_counts_once() {
    let mut run = Run::new(2);
    assert_eq!(run.record(0, Outcome::Exited(0)), Step::Await);
    assert_eq!(run.record(0, Outcome::Exited(0)), Step::Await);
    assert_eq!(run.record(1, Outcome::Exited(0)), Step::WriteFactors);
}

#[test]
fn a_success_for_a_sample_outside_the_batch_is_passed_over() {
    let mut run = Run::new(2);
    assert_eq!(run.record(2, Outcome::Exited(0)), Step::Await);
    assert_eq!(run.record(7, Outcome::Exited(0)), Step::Await);
    assert_eq!(run.record(0, Outcome::Exited(0)), Step::Await);
    assert_eq!(run.record(1, Outcome::Exited(0)), Step::WriteFactors);
}

#[test]
fn a_failure_for_a_sample_outside_the_batch_still_aborts() {
    let mut run = Run::new(2);
    let failure = Failure { sample: 5, outcome: Outcome::Exited(3) };
    assert_eq!(run.record(5, Outcome::Exited(3)), Step::Abort(failure));
}

#[test]
fn a_failure_after_the_last_success_aborts_as_well() {
    let mut run = Run::new(1);
    assert_eq!(run.record(0, Outcome::Exited(0)), Step::WriteFactors);
    assert_eq!(
        run.record(0, Outcome::Exited(1)),
        Step::Abort(Failure { sample: 0, outcome: Outcome::Exited(1) })
    );
}

#[test]
fn a_run_without_samples_has_nothing_to_wait_for() {
    assert_eq!(Run::new(0).step(), Step::WriteFactors);
}

#[test]
fn samples_are_handed_out_in_order_and_once() {
    let mut run = Run::new(3);
    assert_eq!(run.claim(), Some(0));
    assert_eq!(run.claim(), Some(1));
    assert_eq!(run.record(1, Outcome::Exited(0)), Step::Await);
    assert_eq!(run.claim(), Some(2));
    assert_eq!(run.claim(), None);
    assert_eq!(run.record(0, Outcome::Exited(0)), Step::Await);
    assert_eq!(run.claim(), None);
    assert_eq!(run.record(2, Outcome::Exited(0)), Step::WriteFactors);
    assert_eq!(run.claim(), None);
}

#[test]
fn no_sample_is_handed_out_after_a_failure() {
    let mut run = Run::new(3);
    assert_eq!(run.claim(), Some(0));
    let failure = Failure { sample: 0, outcome: Outcome::Exited(1) };
    assert_eq!(run.record(0, Outcome::Exited(1)), Step::Abort(failure));
    assert_eq!(run.claim(), None);
    assert_eq!(run.claim(), None);
    assert_eq!(run.step(), Step::Abort(failure));
}

#[test]
fn a_run_without_samples_hands_out_nothing() {
    assert_eq!(Run::new(0).claim(), None);
}
