//! The loop that refreshes at regular intervals and on request.
//!
//! A [`Worker`] says what to do next ([`Worker::action`]) and takes what came of it
//! ([`Worker::step`]).
use vstd::prelude::*;

verus! {

/// What ended a sleep.
#[derive(Clone, Copy, Debug, PartialEq, Eq, Structural)]
pub enum Wake {
    /// The time was up.
    Timer,
    /// A request came in.
    Request,
    /// No more requests can come in.
    Closed,
}

/// What to do next.
#[derive(Clone, Copy, Debug, PartialEq, Eq, Structural)]
pub enum Task {
    /// Refresh.
    Refresh,
    /// Answer the request that ended the sleep.
    Answer(bool),
    /// See whether there is another request.
    Poll,
    /// Answer the request that was found.
    AnswerPolled(bool),
    /// Read the clock.
    ReadClock,
    /// Sleep for so many milliseconds, or until a request comes in.
    Sleep(u64),
    /// Give up: there is no interval to keep to.
    Panic,
}

/// What came of it.
#[derive(Clone, Copy, Debug, PartialEq, Eq, Structural)]
pub enum Outcome {
    /// The refresh went through, or failed.
    Refreshed(bool),
    /// The request was answered.
    Answered,
    /// There was another request, or none.
    Polled(bool),
    /// It is so many milliseconds after the epoch.
    Clock(u64),
    /// The sleep has ended.
    Woke(Wake),
}

/// Where the loop stands.
#[derive(Clone, Copy, Debug, PartialEq, Eq, Structural)]
pub enum Step {
    Refreshing,
    Answering(bool),
    Polling(bool),
    AnsweringPolled(bool),
    Timing,
    Sleeping(u64),
    Panicked,
}

/// The interval in milliseconds.
pub fn delay_millis(interval: u16) -> (delay: u64)
    ensures
        delay == interval * 1000,
{
    interval as u64 * 1000
}

/// How long to sleep at `now`.
pub open spec fn sleep_of(delay: u64, now: u64) -> int {
    delay - now % delay
}

/// How long to sleep at `now`, so that the sleep ends at a multiple of the interval.
pub fn sleep_millis(delay: u64, now: u64) -> (sleep: u64)
    requires
        delay > 0,
    ensures
        sleep == sleep_of(delay, now),
        0 < sleep <= delay,
        (now + sleep) % (delay as int) == 0,
{
    proof {
        law_sleep(delay, now);
    }
    delay - now % delay
}

/// A sleep is not longer than the interval, and ends at the next multiple of it.
pub proof fn law_sleep(delay: u64, now: u64)
    requires
        delay > 0,
    ensures
        0 < sleep_of(delay, now) <= delay,
        (now + sleep_of(delay, now)) % (delay as int) == 0,
{
    let d = delay as int;
    let n = now as int;
    vstd::arithmetic::div_mod::lemma_fundamental_div_mod(n, d);
    assert(n + sleep_of(delay, now) == d * (n / d + 1)) by (nonlinear_arith)
        requires
            n == d * (n / d) + n % d,
            sleep_of(delay, now) == d - n % d,
    ;
    vstd::arithmetic::div_mod::lemma_mod_multiples_basic(n / d + 1, d);
    assert((n / d + 1) * d == d * (n / d + 1)) by (nonlinear_arith);
}

/// The loop.
#[derive(Clone, Copy, Debug, PartialEq, Eq, Structural)]
pub struct Worker {
    /// The interval in milliseconds.
    pub delay: u64,
    /// The request that ended the sleep has not been answered yet.
    pub pending: bool,
    pub at: Step,
}

impl Worker {
    /// A request is pending only until the refresh that it asked for has been answered.
    pub open spec fn wf(self) -> bool {
        self.pending ==> self.at is Refreshing || self.at is Answering
    }

    /// A worker that refreshes every `interval` seconds, at its start.
    pub open spec fn fresh(interval: u16) -> Worker {
        Worker { delay: (interval * 1000) as u64, pending: false, at: Step::Refreshing }
    }

    pub open spec fn moved(self, at: Step) -> Worker {
        Worker { at, ..self }
    }

    /// What to do next.
    pub open spec fn task(self) -> Task {
        match self.at {
            Step::Refreshing => Task::Refresh,
            Step::Answering(ok) => Task::Answer(ok),
            Step::Polling(_) => Task::Poll,
            Step::AnsweringPolled(ok) => Task::AnswerPolled(ok),
            Step::Timing => Task::ReadClock,
            Step::Sleeping(millis) => Task::Sleep(millis),
            Step::Panicked => Task::Panic,
        }
    }

    /// After a refresh the request that asked for it, if any, is answered, then all that have
    /// come in since; then the worker sleeps. An outcome that does not fit the task changes
    /// nothing.
    pub open spec fn after(self, outcome: Outcome) -> Worker {
        match (self.at, outcome) {
            (Step::Refreshing, Outcome::Refreshed(ok)) => if self.pending {
                self.moved(Step::Answering(ok))
            } else {
                self.moved(Step::Polling(ok))
            },
            (Step::Answering(ok), Outcome::Answered) => Worker {
                pending: false,
                at: Step::Polling(ok),
                ..self
            },
            (Step::Polling(ok), Outcome::Polled(found)) => if found {
                self.moved(Step::AnsweringPolled(ok))
            } else {
                self.moved(Step::Timing)
            },
            (Step::AnsweringPolled(ok), Outcome::Answered) => self.moved(Step::Polling(ok)),
            (Step::Timing, Outcome::Clock(now)) => if self.delay == 0 {
                self.moved(Step::Panicked)
            } else {
                self.moved(Step::Sleeping(sleep_of(self.delay, now) as u64))
            },
            (Step::Sleeping(_), Outcome::Woke(wake)) => Worker {
                pending: wake == Wake::Request,
                at: Step::Refreshing,
                ..self
            },
            _ => self,
        }
    }

    /// A worker that refreshes every `interval` seconds. It begins with a refresh.
    pub fn new(interval: u16) -> (worker: Worker)
        ensures
            worker == Worker::fresh(interval),
            worker.delay == interval * 1000,
            worker.task() == Task::Refresh,
            !worker.pending,
            worker.wf(),
    {
        Worker { delay: delay_millis(interval), pending: false, at: Step::Refreshing }
    }

    /// What to do next.
    pub fn action(&self) -> (task: Task)
        ensures
            task == self.task(),
    {
        match self.at {
            Step::Refreshing => Task::Refresh,
            Step::Answering(ok) => Task::Answer(ok),
            Step::Polling(_) => Task::Poll,
            Step::AnsweringPolled(ok) => Task::AnswerPolled(ok),
            Step::Timing => Task::ReadClock,
            Step::Sleeping(millis) => Task::Sleep(millis),
            Step::Panicked => Task::Panic,
        }
    }

    /// Take what came of the task.
    pub fn step(&mut self, outcome: Outcome)
        ensures
            *final(self) == old(self).after(outcome),
            old(self).wf() ==> final(self).wf(),
    {
        match (self.at, outcome) {
            (Step::Refreshing, Outcome::Refreshed(ok)) => {
                self.at = if self.pending {
                    Step::Answering(ok)
                } else {
                    Step::Polling(ok)
                };
            },
            (Step::Answering(ok), Outcome::Answered) => {
                self.pending = false;
                self.at = Step::Polling(ok);
            },
            (Step::Polling(ok), Outcome::Polled(found)) => {
                self.at = if found {
                    Step::AnsweringPolled(ok)
                } else {
                    Step::Timing
                };
            },
            (Step::AnsweringPolled(ok), Outcome::Answered) => {
                self.at = Step::Polling(ok);
            },
            (Step::Timing, Outcome::Clock(now)) => {
                self.at = if self.delay == 0 {
                    Step::Panicked
                } else {
                    Step::Sleeping(sleep_millis(self.delay, now))
                };
            },
            (Step::Sleeping(_), Outcome::Woke(wake)) => {
                self.pending = match wake {
                    Wake::Request => true,
                    _ => false,
                };
                self.at = Step::Refreshing;
            },
            _ => {},
        }
    }
}

/// A request that ends the sleep starts a refresh, and the answer to it is the outcome of that
/// refresh. Until it is answered, no other is polled for and the worker does not sleep.
pub proof fn law_request_is_answered(worker: Worker, millis: u64, ok: bool)
    requires
        worker.at == Step::Sleeping(millis),
    ensures
        ({
            let woken = worker.after(Outcome::Woke(Wake::Request));
            let refreshed = woken.after(Outcome::Refreshed(ok));
            let answered = refreshed.after(Outcome::Answered);
            &&& woken.task() == Task::Refresh
            &&& refreshed.task() == Task::Answer(ok)
            &&& answered.task() == Task::Poll
            &&& !answered.pending
        }),
{
}

/// A request that came in during a refresh is answered with the outcome of that refresh, and then
/// the next one is looked for.
pub proof fn law_polled_request_is_answered(worker: Worker, ok: bool)
    requires
        worker.at == Step::Polling(ok),
    ensures
        ({
            let found = worker.after(Outcome::Polled(true));
            &&& found.task() == Task::AnswerPolled(ok)
            &&& found.after(Outcome::Answered) == worker
        }),
{
}

/// The worker goes to sleep only when no request was found, and none is pending.
pub proof fn law_sleeps_when_idle(worker: Worker, outcome: Outcome)
    requires
        worker.wf(),
        !(worker.at is Timing) && !(worker.at is Sleeping),
    ensures
        worker.after(outcome).at is Timing ==> outcome == Outcome::Polled(false)
            && !worker.after(outcome).pending,
        !(worker.after(outcome).at is Sleeping),
{
}

/// The worker after a trace: what came of one task after the other.
pub open spec fn traced(worker: Worker, trace: Seq<Outcome>) -> Worker
    decreases trace.len(),
{
    if trace.len() == 0 {
        worker
    } else {
        traced(worker, trace.drop_last()).after(trace.last())
    }
}

/// The outcome is that of the task.
pub open spec fn fits(task: Task, outcome: Outcome) -> bool {
    match (task, outcome) {
        (Task::Refresh, Outcome::Refreshed(_)) => true,
        (Task::Answer(_), Outcome::Answered) => true,
        (Task::AnswerPolled(_), Outcome::Answered) => true,
        (Task::Poll, Outcome::Polled(_)) => true,
        (Task::ReadClock, Outcome::Clock(_)) => true,
        (Task::Sleep(_), Outcome::Woke(_)) => true,
        _ => false,
    }
}

/// How many requests came in over a trace.
pub open spec fn taken(worker: Worker, trace: Seq<Outcome>) -> nat
    decreases trace.len(),
{
    if trace.len() == 0 {
        0
    } else {
        let before = traced(worker, trace.drop_last());
        let outcome = trace.last();
        taken(worker, trace.drop_last()) + if fits(before.task(), outcome) && (outcome
            == Outcome::Woke(Wake::Request) || outcome == Outcome::Polled(true)) {
            1nat
        } else {
            0nat
        }
    }
}

/// How many requests were answered over a trace.
pub open spec fn answered(worker: Worker, trace: Seq<Outcome>) -> nat
    decreases trace.len(),
{
    if trace.len() == 0 {
        0
    } else {
        let before = traced(worker, trace.drop_last());
        let outcome = trace.last();
        answered(worker, trace.drop_last()) + if fits(before.task(), outcome) && outcome
            == Outcome::Answered {
            1nat
        } else {
            0nat
        }
    }
}

/// How many refreshes ended over a trace.
pub open spec fn refreshes(worker: Worker, trace: Seq<Outcome>) -> nat
    decreases trace.len(),
{
    if trace.len() == 0 {
        0
    } else {
        let before = traced(worker, trace.drop_last());
        let outcome = trace.last();
        refreshes(worker, trace.drop_last()) + if fits(before.task(), outcome) && outcome
            is Refreshed {
            1nat
        } else {
            0nat
        }
    }
}

/// The outcome of the refresh that ended last, if one has ended.
pub open spec fn last_refresh(worker: Worker, trace: Seq<Outcome>) -> Option<bool>
    decreases trace.len(),
{
    if trace.len() == 0 {
        None
    } else {
        match (traced(worker, trace.drop_last()).task(), trace.last()) {
            (Task::Refresh, Outcome::Refreshed(ok)) => Some(ok),
            _ => last_refresh(worker, trace.drop_last()),
        }
    }
}

/// What a worker holds after any trace.
proof fn lemma_traced(interval: u16, trace: Seq<Outcome>)
    ensures
        ({
            let worker = Worker::fresh(interval);
            let now = traced(worker, trace);
            &&& now.wf()
            &&& now.delay == interval * 1000
            &&& taken(worker, trace) == answered(worker, trace) + if now.pending
                || now.at is AnsweringPolled {
                1nat
            } else {
                0nat
            }
            &&& now.at matches Step::Answering(ok) ==> now.pending && last_refresh(worker, trace)
                == Some(ok)
            &&& now.at matches Step::Polling(ok) ==> last_refresh(worker, trace) == Some(ok)
            &&& now.at matches Step::AnsweringPolled(ok) ==> last_refresh(worker, trace) == Some(ok)
        }),
    decreases trace.len(),
{
    if trace.len() > 0 {
        lemma_traced(interval, trace.drop_last());
    }
}

/// Whatever happens from the start on, at most one request that came in is unanswered, and none is
/// when the worker reads the clock or sleeps.
pub proof fn law_every_request_is_answered(interval: u16, trace: Seq<Outcome>)
    ensures
        ({
            let worker = Worker::fresh(interval);
            let task = traced(worker, trace).task();
            let waiting = taken(worker, trace) - answered(worker, trace);
            &&& 0 <= waiting <= 1
            &&& task is Answer || task is AnswerPolled ==> waiting == 1
            &&& task is Poll || task is ReadClock || task is Sleep || task is Panic ==> waiting == 0
        }),
{
    lemma_traced(interval, trace);
}

/// Whatever happened from the start on, a request is answered with the outcome of the refresh that
/// ended last.
pub proof fn law_answers_tell_the_last_refresh(interval: u16, trace: Seq<Outcome>)
    ensures
        ({
            let worker = Worker::fresh(interval);
            let last = last_refresh(worker, trace);
            match traced(worker, trace).task() {
                Task::Answer(ok) => last == Some(ok),
                Task::AnswerPolled(ok) => last == Some(ok),
                _ => true,
            }
        }),
{
    lemma_traced(interval, trace);
}

/// Without an interval to keep to, the worker refreshes once, answers and gives up when it has read
/// the clock: it never sleeps and never refreshes again.
pub proof fn law_no_interval(trace: Seq<Outcome>)
    ensures
        ({
            let worker = Worker::fresh(0);
            let now = traced(worker, trace);
            &&& !(now.task() is Sleep)
            &&& forall|time: u64|
                now.task() is ReadClock ==> (#[trigger] now.after(Outcome::Clock(time))).task()
                    is Panic
            &&& forall|outcome: Outcome|
                now.task() is Panic ==> #[trigger] now.after(outcome) == now
            &&& refreshes(worker, trace) == if now.task() is Refresh {
                0nat
            } else {
                1nat
            }
        }),
    decreases trace.len(),
{
    lemma_traced(0, trace);
    if trace.len() > 0 {
        lemma_traced(0, trace.drop_last());
        law_no_interval(trace.drop_last());
    }
}

/// Whatever ends a sleep, the worker refreshes next, for a request exactly if one ended the sleep.
pub proof fn law_waking_refreshes(worker: Worker, millis: u64, wake: Wake)
    requires
        worker.at == Step::Sleeping(millis),
    ensures
        worker.task() == Task::Sleep(millis),
        worker.after(Outcome::Woke(wake)).task() == Task::Refresh,
        worker.after(Outcome::Woke(wake)).pending <==> wake == Wake::Request,
        worker.after(Outcome::Woke(wake)).delay == worker.delay,
{
}

/// A worker begins with a refresh that nobody asked for, and keeps to an interval of so many
/// seconds.
pub proof fn law_fresh(interval: u16)
    ensures
        Worker::fresh(interval).task() == Task::Refresh,
        !Worker::fresh(interval).pending,
        Worker::fresh(interval).delay == interval * 1000,
{
}

/// After a refresh its outcome is told to the request that asked for it, if any, and then to all
/// that are found, until none is.
pub proof fn law_after_a_refresh(worker: Worker, ok: bool)
    ensures
        worker.task() == Task::Refresh ==> {
            let next = worker.after(Outcome::Refreshed(ok));
            let polling = if worker.pending {
                next.after(Outcome::Answered)
            } else {
                next
            };
            &&& worker.pending ==> next.task() == Task::Answer(ok)
            &&& polling.task() == Task::Poll
            &&& !polling.pending
            &&& polling.after(Outcome::Polled(true)).task() == Task::AnswerPolled(ok)
            &&& polling.after(Outcome::Polled(true)).after(Outcome::Answered) == polling
            &&& polling.after(Outcome::Polled(false)).task() == Task::ReadClock
            &&& polling.delay == worker.delay
        },
{
}

/// When the worker has read the clock, it sleeps until the next multiple of the interval.
pub proof fn law_then_sleeps(worker: Worker, now: u64)
    requires
        worker.task() == Task::ReadClock,
        worker.delay > 0,
    ensures
        worker.after(Outcome::Clock(now)).task() matches Task::Sleep(millis) && {
            &&& 0 < millis <= worker.delay
            &&& (now + millis) % (worker.delay as int) == 0
            &&& worker.after(Outcome::Clock(now)).at == Step::Sleeping(millis)
        },
        worker.after(Outcome::Clock(now)).delay == worker.delay,
        worker.after(Outcome::Clock(now)).pending == worker.pending,
{
    law_sleep(worker.delay, now);
}

/// The interval never changes, and what is not the outcome of the task changes nothing.
pub proof fn law_other_outcomes(worker: Worker, outcome: Outcome)
    ensures
        worker.after(outcome).delay == worker.delay,
        !(outcome is Refreshed) && worker.task() == Task::Refresh ==> worker.after(outcome)
            == worker,
        !(outcome is Answered) && (worker.task() is Answer || worker.task() is AnswerPolled)
            ==> worker.after(outcome) == worker,
        !(outcome is Polled) && worker.task() == Task::Poll ==> worker.after(outcome) == worker,
        !(outcome is Clock) && worker.task() == Task::ReadClock ==> worker.after(outcome) == worker,
        !(outcome is Woke) && worker.task() is Sleep ==> worker.after(outcome) == worker,
        worker.task() == Task::Panic ==> worker.after(outcome) == worker,
{
}

/// Every round from one refresh to the next goes through a sleep until a multiple of the interval:
/// a refresh, no requests, the clock, the sleep, and the next refresh.
pub proof fn law_round(worker: Worker, ok: bool, now: u64, wake: Wake)
    requires
        worker.task() == Task::Refresh,
        !worker.pending,
        worker.delay > 0,
    ensures
        ({
            let polled = worker.after(Outcome::Refreshed(ok)).after(Outcome::Polled(false));
            let asleep = polled.after(Outcome::Clock(now));
            let woken = asleep.after(Outcome::Woke(wake));
            &&& polled.task() == Task::ReadClock
            &&& asleep.task() matches Task::Sleep(millis) && (now + millis) % (worker.delay as int)
                == 0 && 0 < millis <= worker.delay
            &&& woken.task() == Task::Refresh
            &&& woken.pending <==> wake == Wake::Request
            &&& woken.delay == worker.delay
        }),
{
    law_sleep(worker.delay, now);
}

} // verus!
