//! The run of a batch, from the first conversion to the verdict.
//!
//! The conversions run outside this library, side by side and in any order.
//! A worker asks the run for a sample to convert, and reports how the
//! conversion ended; the run answers with what is to be done next. One
//! conversion that fails ends the run for good: no further sample is handed
//! out, and the factor file is written only once every sample is converted.

use vstd::prelude::*;

verus! {

/// How one call of the converter ended.
#[derive(Debug, Clone, Copy, PartialEq, Eq)]
pub enum Outcome {
    /// The process ran and left this exit code.
    Exited(i32),
    /// The process ran and ended without an exit code.
    Killed,
    /// The process could not be started.
    NotStarted,
}

impl Outcome {
    /// Whether the conversion succeeded: the process left exit code zero.
    pub open spec fn is_success(self) -> bool {
        self == Outcome::Exited(0)
    }

    /// Whether the conversion succeeded.
    pub fn succeeded(&self) -> (success: bool)
        ensures
            success == self.is_success(),
    {
        match self {
            Outcome::Exited(code) => *code == 0,
            _ => false,
        }
    }
}

/// The conversion that ended a run: the sample it was reported for, and how
/// it ended.
#[derive(Debug, Clone, Copy, PartialEq, Eq)]
pub struct Failure {
    pub sample: usize,
    pub outcome: Outcome,
}

/// What the caller is to do next.
#[derive(Debug, Clone, Copy, PartialEq, Eq)]
pub enum Step {
    /// Conversions are still under way: wait for the next one to end.
    Await,
    /// A conversion failed: give up the run, and write no factor file.
    Abort(Failure),
    /// Every sample is converted: write the factor file.
    WriteFactors,
}

/// What happens to a run: a worker claims the next sample, or reports how
/// the conversion of a sample ended.
pub enum Event {
    /// A worker asks for the next sample to convert.
    Claim,
    /// The conversion of this sample ended, with this outcome.
    Ended(usize, Outcome),
}

impl Event {
    /// Whether the event tells of a conversion that did not succeed.
    pub open spec fn is_failure(self) -> bool {
        self matches Event::Ended(_, outcome) && !outcome.is_success()
    }

    /// Whether the event tells that the conversion of `sample` succeeded.
    pub open spec fn is_success_of(self, sample: int) -> bool {
        self matches Event::Ended(ended, outcome) && ended == sample && outcome.is_success()
    }
}

/// What a run knows: how many samples are handed out, which samples are
/// converted, and the first failure.
pub struct Progress {
    pub claimed: nat,
    pub converted: Seq<bool>,
    pub failure: Option<Failure>,
}

impl Progress {
    /// A run of `samples` samples before any event.
    pub open spec fn start(samples: nat) -> Progress {
        Progress { claimed: 0, converted: Seq::new(samples, |i: int| false), failure: None }
    }

    /// Whether every sample is converted.
    pub open spec fn all_converted(self) -> bool {
        forall|i: int| 0 <= i < self.converted.len() ==> #[trigger] self.converted[i]
    }

    /// The sample that the next claim is answered with: the samples are
    /// handed out in their order, each once, and none after a failure.
    pub open spec fn next_claim(self) -> Option<usize> {
        if self.failure is None && self.claimed < self.converted.len() {
            Some(self.claimed as usize)
        } else {
            None
        }
    }

    /// The run after a claim.
    pub open spec fn after_claim(self) -> Progress {
        if self.next_claim() is Some {
            Progress { claimed: self.claimed + 1, ..self }
        } else {
            self
        }
    }

    /// The run after the report that the conversion of `sample` ended with
    /// `outcome`. After a failure nothing changes any more. Otherwise a
    /// conversion that did not succeed is the failure of the run, whatever
    /// sample it names, and a success marks its sample as converted; a
    /// success for a sample that the batch does not have is passed over.
    pub open spec fn after_report(self, sample: usize, outcome: Outcome) -> Progress {
        if self.failure is Some {
            self
        } else if !outcome.is_success() {
            Progress { failure: Some(Failure { sample, outcome }), ..self }
        } else if sample < self.converted.len() {
            Progress { converted: self.converted.update(sample as int, true), ..self }
        } else {
            self
        }
    }

    /// The run after one event.
    pub open spec fn after(self, event: Event) -> Progress {
        match event {
            Event::Claim => self.after_claim(),
            Event::Ended(sample, outcome) => self.after_report(sample, outcome),
        }
    }

    /// The run after a series of events, in the order in which they came.
    pub open spec fn after_all(self, events: Seq<Event>) -> Progress
        decreases events.len(),
    {
        if events.len() == 0 {
            self
        } else {
            self.after_all(events.drop_last()).after(events.last())
        }
    }

    /// What is to be done at this point of the run.
    pub open spec fn step(self) -> Step {
        match self.failure {
            Some(failure) => Step::Abort(failure),
            None => if self.all_converted() {
                Step::WriteFactors
            } else {
                Step::Await
            },
        }
    }
}

/// The run of one batch.
pub struct Run {
    claimed: usize,
    converted: Vec<bool>,
    failure: Option<Failure>,
}

impl View for Run {
    type V = Progress;

    closed spec fn view(&self) -> Progress {
        Progress {
            claimed: self.claimed as nat,
            converted: self.converted@,
            failure: self.failure,
        }
    }
}

impl Run {
    /// Starts the run of a batch of `samples` samples.
    pub fn new(samples: usize) -> (run: Run)
        ensures
            run@ == Progress::start(samples as nat),
    {
        let mut converted: Vec<bool> = Vec::new();
        let mut i: usize = 0;
        while i < samples
            invariant
                i <= samples,
                converted@.len() == i,
                forall|j: int| 0 <= j < i ==> !#[trigger] converted@[j],
            decreases samples - i,
        {
            converted.push(false);
            i += 1;
        }
        assert(converted@ =~= Progress::start(samples as nat).converted);
        Run { claimed: 0, converted, failure: None }
    }

    /// Hands out the next sample to convert, if there is one left and no
    /// conversion has failed.
    pub fn claim(&mut self) -> (sample: Option<usize>)
        ensures
            sample == old(self)@.next_claim(),
            final(self)@ == old(self)@.after_claim(),
    {
        if self.failure.is_none() && self.claimed < self.converted.len() {
            let sample = self.claimed;
            self.claimed = sample + 1;
            Some(sample)
        } else {
            None
        }
    }

    /// Takes the report that the conversion of `sample` ended with `outcome`,
    /// and says what is to be done next.
    pub fn record(&mut self, sample: usize, outcome: Outcome) -> (step: Step)
        ensures
            final(self)@ == old(self)@.after_report(sample, outcome),
            step == final(self)@.step(),
    {
        if self.failure.is_none() {
            if !outcome.succeeded() {
                self.failure = Some(Failure { sample, outcome });
            } else if sample < self.converted.len() {
                self.converted.set(sample, true);
            }
        }
        self.step()
    }

    /// What is to be done at this point of the run.
    pub fn step(&self) -> (step: Step)
        ensures
            step == self@.step(),
    {
        match self.failure {
            Some(failure) => Step::Abort(failure),
            None => {
                let mut i: usize = 0;
                while i < self.converted.len()
                    invariant
                        i <= self.converted.len(),
                        self.failure is None,
                        forall|j: int| 0 <= j < i ==> #[trigger] self.converted@[j],
                    decreases self.converted.len() - i,
                {
                    if !self.converted[i] {
                        assert(!self@.converted[i as int]);
                        return Step::Await;
                    }
                    i += 1;
                }
                Step::WriteFactors
            },
        }
    }
}

/// Whether none of the events tells of a failed conversion.
pub open spec fn none_failed(events: Seq<Event>) -> bool {
    forall|k: int| 0 <= k < events.len() ==> !(#[trigger] events[k]).is_failure()
}

/// Whether one of the events tells that the conversion of `sample` succeeded.
pub open spec fn is_converted(events: Seq<Event>, sample: int) -> bool {
    exists|k: int| 0 <= k < events.len() && (#[trigger] events[k]).is_success_of(sample)
}

/// A failure is final: whatever happens after it, the run stays as it is. No
/// sample is handed out any more, and the run says to give up.
pub proof fn lemma_failure_is_final(progress: Progress, events: Seq<Event>)
    requires
        progress.failure is Some,
    ensures
        progress.after_all(events) == progress,
        progress.after_all(events).next_claim() is None,
        progress.after_all(events).step() is Abort,
    decreases events.len(),
{
    if events.len() > 0 {
        lemma_failure_is_final(progress, events.drop_last());
    }
}

/// Events taken in two parts leave the run where the whole series does.
pub proof fn lemma_after_all_splits(progress: Progress, first: Seq<Event>, second: Seq<Event>)
    ensures
        progress.after_all(first + second) == progress.after_all(first).after_all(second),
    decreases second.len(),
{
    if second.len() == 0 {
        assert(first + second == first);
    } else {
        lemma_after_all_splits(progress, first, second.drop_last());
        assert((first + second).drop_last() == first + second.drop_last());
        assert((first + second).last() == second.last());
    }
}

/// What a run knows after a series of events: it has failed exactly if some
/// report told of a failure, and otherwise the samples that it holds as
/// converted are those whose success was reported. It never hands out more
/// samples than the batch has.
pub proof fn lemma_progress(samples: nat, events: Seq<Event>)
    ensures
        Progress::start(samples).after_all(events).converted.len() == samples,
        Progress::start(samples).after_all(events).claimed <= samples,
        Progress::start(samples).after_all(events).failure is None <==> none_failed(events),
        none_failed(events) ==> forall|i: int|
            0 <= i < samples ==> (#[trigger] Progress::start(samples).after_all(
                events,
            ).converted[i] <==> is_converted(events, i)),
    decreases events.len(),
{
    let now = Progress::start(samples).after_all(events);
    if events.len() > 0 {
        let earlier = events.drop_last();
        let before = Progress::start(samples).after_all(earlier);
        let last = events.last();
        lemma_progress(samples, earlier);
        assert(forall|k: int| 0 <= k < earlier.len() ==> earlier[k] == events[k]);
        assert(events[events.len() - 1] == last);
        if none_failed(events) {
            assert(none_failed(earlier));
            assert(!last.is_failure());
            assert forall|i: int| 0 <= i < samples implies (#[trigger] now.converted[i]
                <==> is_converted(events, i)) by {
                if is_converted(earlier, i) {
                    let k = choose|k: int| 0 <= k < earlier.len() && earlier[k].is_success_of(i);
                    assert(events[k].is_success_of(i));
                }
                if is_converted(events, i) && !is_converted(earlier, i) {
                    let k = choose|k: int| 0 <= k < events.len() && events[k].is_success_of(i);
                    if k < earlier.len() {
                        assert(earlier[k].is_success_of(i));
                    }
                }
            }
        } else if none_failed(earlier) {
            assert(last.is_failure()) by {
                if !last.is_failure() {
                    assert forall|k: int| 0 <= k < events.len() implies !(
                    #[trigger] events[k]).is_failure() by {
                        if k < earlier.len() {
                            assert(!earlier[k].is_failure());
                        }
                    }
                }
            }
        }
    } else {
        assert forall|i: int| 0 <= i < samples implies !is_converted(events, i) by {}
    }
}

/// One conversion that fails keeps the factor file from being written: after
/// a series of events of which one tells of a failure, the run says to give
/// up and hands out no further sample, however many successes were reported
/// before or after.
pub proof fn lemma_failed_conversion_aborts(samples: nat, events: Seq<Event>, failed: int)
    requires
        0 <= failed < events.len(),
        events[failed].is_failure(),
    ensures
        Progress::start(samples).after_all(events).step() is Abort,
        Progress::start(samples).after_all(events).step() != Step::WriteFactors,
        Progress::start(samples).after_all(events).next_claim() is None,
{
    lemma_progress(samples, events);
}

/// The failure that a run gives up with is the first that was reported.
pub proof fn lemma_first_failure_is_kept(samples: nat, events: Seq<Event>, failed: int)
    requires
        0 <= failed < events.len(),
        none_failed(events.take(failed)),
        events[failed] matches Event::Ended(_, outcome) && !outcome.is_success(),
    ensures
        events[failed] matches Event::Ended(sample, outcome) && Progress::start(samples).after_all(
            events,
        ).step() == Step::Abort(Failure { sample, outcome }),
{
    let start = Progress::start(samples);
    let upto = events.take(failed + 1);
    let rest = events.skip(failed + 1);
    assert(upto.drop_last() == events.take(failed));
    assert(upto.last() == events[failed]);
    lemma_progress(samples, events.take(failed));
    assert(start.after_all(upto).failure is Some);
    lemma_after_all_splits(start, upto, rest);
    assert(upto + rest == events);
    lemma_failure_is_final(start.after_all(upto), rest);
}

/// The factor file is written exactly when no report told of a failure and
/// the success of every sample of the batch was reported.
pub proof fn lemma_factor_file_is_earned(samples: nat, events: Seq<Event>)
    ensures
        Progress::start(samples).after_all(events).step() == Step::WriteFactors <==> (none_failed(
            events,
        ) && forall|i: int| 0 <= i < samples ==> #[trigger] is_converted(events, i)),
{
    lemma_progress(samples, events);
    let now = Progress::start(samples).after_all(events);
    if none_failed(events) && now.all_converted() {
        assert forall|i: int| 0 <= i < samples implies #[trigger] is_converted(events, i) by {
            assert(now.converted[i]);
        }
    }
}

} // verus!
