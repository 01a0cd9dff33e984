use traffic_stats::worker::{delay_millis, sleep_millis, Outcome, Step, Task, Wake, Worker};

#[test]
fn intervals() {
    assert_eq!(delay_millis(300), 300_000);
    assert_eq!(delay_millis(0), 0);
    assert_eq!(delay_millis(u16::MAX), 65_535_000);
}

#[test]
fn sleeps_end_at_multiples_of_the_interval() {
    assert_eq!(sleep_millis(300_000, 0), 300_000);
    assert_eq!(sleep_millis(300_000, 1), 299_999);
    assert_eq!(sleep_millis(300_000, 299_999), 1);
    assert_eq!(sleep_millis(300_000, 300_000), 300_000);
    assert_eq!(sleep_millis(300_000, 1_700_000_000_123), 99_877);
    for now in [0u64, 5, 999, 1_000, 123_456_789] {
        let sleep: u64 = sleep_millis(1_000, now);
        assert!(0 < sleep && sleep <= 1_000);
        assert_eq!((now + sleep) % 1_000, 0);
    }
}

#[test]
fn a_round_without_requests() {
    let mut worker = Worker::new(1);
    assert_eq!(worker.action(), Task::Refresh);
    worker.step(Outcome::Refreshed(true));
    assert_eq!(worker.action(), Task::Poll);
    worker.step(Outcome::Polled(false));
    assert_eq!(worker.action(), Task::ReadClock);
    worker.step(Outcome::Clock(250));
    assert_eq!(worker.action(), Task::Sleep(750));
    worker.step(Outcome::Woke(Wake::Timer));
    assert_eq!(worker, Worker::new(1));
}

#[test]
fn a_request_is_answered_after_its_refresh() {
    for ok in [true, false] {
        let mut worker = Worker::new(1);
        worker.step(Outcome::Refreshed(true));
        worker.step(Outcome::Polled(false));
        worker.step(Outcome::Clock(0));
        worker.step(Outcome::Woke(Wake::Request));
        assert_eq!(worker.action(), Task::Refresh);
        worker.step(Outcome::Refreshed(ok));
        assert_eq!(worker.action(), Task::Answer(ok));
        worker.step(Outcome::Answered);
        assert_eq!(worker.action(), Task::Poll);
        assert!(!worker.pending);
    }
}

#[test]
fn requests_that_came_in_meanwhile_are_answered() {
    let mut worker = Worker::new(1);
    worker.step(Outcome::Refreshed(false));
    for _ in 0..3 {
        assert_eq!(worker.action(), Task::Poll);
        worker.step(Outcome::Polled(true));
        assert_eq!(worker.action(), Task::AnswerPolled(false));
        worker.step(Outcome::Answered);
    }
    worker.step(Outcome::Polled(false));
    assert_eq!(worker.action(), Task::ReadClock);
}

#[test]
fn a_closed_channel_starts_a_refresh() {
    let mut worker = Worker::new(1);
    worker.step(Outcome::Refreshed(true));
    worker.step(Outcome::Polled(false));
    worker.step(Outcome::Clock(0));
    worker.step(Outcome::Woke(Wake::Closed));
    assert_eq!(worker.action(), Task::Refresh);
    assert!(!worker.pending);
}

#[test]
fn no_interval() {
    let mut worker = Worker::new(0);
    worker.step(Outcome::Refreshed(true));
    worker.step(Outcome::Polled(false));
    worker.step(Outcome::Clock(1_000));
    assert_eq!(worker.action(), Task::Panic);
    worker.step(Outcome::Woke(Wake::Timer));
    assert_eq!(worker.at, Step::Panicked);
}

#[test]
fn outcomes_of_other_tasks_change_nothing() {
    let mut worker = Worker::new(5);
    for outcome in [
        Outcome::Answered,
        Outcome::Polled(true),
        Outcome::Clock(3),
        Outcome::Woke(Wake::Request),
    ] {
        worker.step(outcome);
        assert_eq!(worker, Worker::new(5));
    }
}

#[test]
fn every_request_is_answered_once() {
    let mut worker = Worker::new(1);
    let mut waiting: u32 = 0;
    let mut last: Option<bool> = None;
    let mut answers: u32 = 0;
    for round in 0u64..200 {
        let ok = round % 3 == 0;
        let outcome = match worker.action() {
            Task::Refresh => {
                last = Some(ok);
                Outcome::Refreshed(ok)
            }
            Task::Answer(told) | Task::AnswerPolled(told) => {
                assert_eq!(waiting, 1);
                assert_eq!(Some(told), last);
                waiting -= 1;
                answers += 1;
                Outcome::Answered
            }
            Task::Poll => {
                assert_eq!(waiting, 0);
                let found = round % 4 == 1;
                if found {
                    waiting += 1;
                }
                Outcome::Polled(found)
            }
            Task::ReadClock => {
                assert_eq!(waiting, 0);
                Outcome::Clock(round)
            }
            Task::Sleep(_) => {
                assert_eq!(waiting, 0);
                if round % 2 == 0 {
                    waiting += 1;
                    Outcome::Woke(Wake::Request)
                } else {
                    Outcome::Woke(Wake::Timer)
                }
            }
            Task::Panic => panic!("there is an interval"),
        };
        worker.step(outcome);
    }
    assert!(answers > 0);
}
