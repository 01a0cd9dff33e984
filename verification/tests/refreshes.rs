use std::collections::BTreeMap;

use traffic_stats::lark::{RefreshContext, Start};
use traffic_stats::refresh::{Action, Event, Fault, Refresh, Statement, Totals};
use traffic_stats::report::{report_record, traffic_stats, Month, Record, ReportedRecord};
use traffic_stats::users::User;

type Samples = Option<Vec<(u32, u64, u64)>>;

/// The four tables, in memory.
#[derive(Clone, Debug, Default, PartialEq)]
struct Tables {
    records: Vec<Record>,
    last: BTreeMap<i64, i64>,
    months: BTreeMap<i32, i64>,
    meta: Option<i64>,
}

impl Tables {
    fn run(&mut self, statement: Statement) {
        match statement {
            Statement::Begin | Statement::Commit => {}
            Statement::InsertRecord { tid, time, tx, rx } => {
                self.records.push(Record { tid, time, tx, rx });
            }
            Statement::ReplaceLast { tid, time } => {
                self.last.insert(tid, time);
            }
            Statement::ResetMonths => {
                for sum in self.months.values_mut() {
                    *sum = 0;
                }
            }
            Statement::AddMonth { uid, sum } => {
                *self.months.entry(uid).or_insert(0) += sum;
            }
            Statement::ReplaceMeta { time } => {
                self.meta = Some(time);
            }
        }
    }

    fn month_rows(&self) -> Vec<Month> {
        self.months.iter().map(|(uid, sum)| Month { uid: i64::from(*uid), sum: *sum }).collect()
    }
}

/// A context that runs at `time` in `month`, after `last`.
fn context(last: Option<i64>, time: i64, month: u8) -> RefreshContext {
    match RefreshContext::begin(last, time, Some(month), true) {
        Start::Go(ctx) => ctx,
        other => panic!("{:?}", other),
    }
}

/// Writes the refresh to the tables, with the actions that it takes. The action `failing`, counted
/// from zero, fails.
fn drive(refresh: &mut Refresh, tables: &mut Tables, failing: Option<usize>) -> Vec<Action> {
    let mut actions = Vec::new();
    let mut saved: Option<Tables> = None;
    loop {
        let action = refresh.action();
        let fails = failing == Some(actions.len());
        actions.push(action);
        match action {
            Action::Finish => {
                assert!(saved.is_none());
                return actions;
            }
            Action::Fail | Action::Panic(_) => {
                if let Some(before) = saved {
                    *tables = before;
                }
                return actions;
            }
            _ if fails => refresh.step(Event::Failed),
            Action::QueryLast { tid } => {
                refresh.step(Event::LastTime(tables.last.get(&tid).copied()));
            }
            Action::Execute(statement) => {
                match statement {
                    Statement::Begin => saved = Some(tables.clone()),
                    Statement::Commit => saved = None,
                    _ => {}
                }
                tables.run(statement);
                refresh.step(Event::Done);
            }
        }
    }
}

/// One refresh at `time` in `month`, with the last one's month.
fn refresh_once(
    tables: &mut Tables,
    time: i64,
    month: u8,
    last_month: u8,
    xray: Samples,
    hysteria: Samples,
) -> Vec<Action> {
    let ctx = context(tables.meta, time, month);
    let mut refresh = Refresh::new(ctx, Some(last_month), xray, hysteria);
    drive(&mut refresh, tables, None)
}

fn record(tid: i64, time: i64, tx: i64, rx: i64) -> Record {
    Record { tid, time, tx, rx }
}

#[test]
fn whether_a_refresh_runs() {
    assert_eq!(RefreshContext::begin(Some(10), 10, Some(1), true), Start::TooSoon);
    assert_eq!(RefreshContext::begin(Some(10), 9, Some(1), true), Start::TooSoon);
    assert_eq!(RefreshContext::begin(None, 0, Some(1), true), Start::TooSoon);
    assert_eq!(
        RefreshContext::begin(Some(10), 11, Some(4), false),
        Start::Go(RefreshContext {
            time: 11,
            month: 4,
            last_time: 10,
            reset: false,
            stat_updated: 0,
            stat_skipped: 0,
            stat_tx: 0,
            stat_rx: 0,
        }),
    );
    let ctx = context(None, 5, 12);
    assert_eq!((ctx.time, ctx.last_time, ctx.month, ctx.reset), (5, 0, 12, true));
    // A clock before the epoch wraps around.
    assert_eq!(context(Some(10), -1, 12).time, u64::MAX);
}

#[test]
fn a_refresh_that_cannot_run() {
    assert_eq!(
        RefreshContext::begin(Some(-1), 5, Some(1), true),
        Start::Panic(Fault::NegativeMetaTime),
    );
    assert_eq!(
        RefreshContext::begin(Some(-1), 5, None, true),
        Start::Panic(Fault::NegativeMetaTime),
    );
    assert_eq!(
        RefreshContext::begin(Some(1), 5, None, true),
        Start::Panic(Fault::ClockOutOfRange),
    );
    assert_eq!(
        RefreshContext::start(Some(1), 253_402_300_799, 1, true),
        Start::Panic(Fault::ClockOutOfRange),
    );
}

#[test]
fn the_month_is_that_of_the_zone() {
    match RefreshContext::start(None, 1_709_251_199, 0, true) {
        Start::Go(ctx) => assert_eq!(ctx.month, 2),
        other => panic!("{:?}", other),
    }
    match RefreshContext::start(None, 1_709_251_199, 28_800, true) {
        Start::Go(ctx) => assert_eq!(ctx.month, 3),
        other => panic!("{:?}", other),
    }
}

#[test]
fn the_first_refresh() {
    let mut tables = Tables::default();
    let xray = Some(vec![(1, 10, 20)]);
    let hysteria = Some(vec![(1, 1, 2), (2, 0, 5)]);
    let actions = refresh_once(&mut tables, 100, 3, 0, xray, hysteria);
    assert_eq!(
        actions,
        vec![
            Action::Execute(Statement::ResetMonths),
            Action::Execute(Statement::Begin),
            Action::Execute(Statement::ReplaceLast { tid: 256, time: 100 }),
            Action::Execute(Statement::InsertRecord { tid: 256, time: 100, tx: 10, rx: 20 }),
            Action::Execute(Statement::Commit),
            Action::Execute(Statement::Begin),
            Action::Execute(Statement::ReplaceLast { tid: 257, time: 100 }),
            Action::Execute(Statement::InsertRecord { tid: 257, time: 100, tx: 1, rx: 2 }),
            Action::Execute(Statement::Commit),
            Action::Execute(Statement::Begin),
            Action::Execute(Statement::ReplaceLast { tid: 513, time: 100 }),
            Action::Execute(Statement::InsertRecord { tid: 513, time: 100, tx: 0, rx: 5 }),
            Action::Execute(Statement::Commit),
            Action::Execute(Statement::AddMonth { uid: 1, sum: 33 }),
            Action::Execute(Statement::AddMonth { uid: 2, sum: 5 }),
            Action::Execute(Statement::ReplaceMeta { time: 100 }),
            Action::Finish,
        ],
    );
    assert_eq!(tables.meta, Some(100));
    assert_eq!(tables.months, BTreeMap::from([(1, 33), (2, 5)]));
}

#[test]
fn zeros_are_recorded_where_a_refresh_was_missed() {
    let mut tables = Tables::default();
    refresh_once(&mut tables, 100, 3, 0, Some(vec![(1, 1, 1)]), Some(vec![]));
    // User 2 appears, user 1 goes on.
    let actions =
        refresh_once(&mut tables, 200, 3, 3, Some(vec![(1, 2, 2), (2, 3, 3)]), Some(vec![]));
    assert_eq!(actions[0], Action::Execute(Statement::Begin));
    assert_eq!(actions[1], Action::QueryLast { tid: 256 });
    // User 1 is idle, then comes back.
    refresh_once(&mut tables, 300, 3, 3, Some(vec![(2, 4, 4)]), Some(vec![]));
    refresh_once(&mut tables, 400, 3, 3, Some(vec![(1, 5, 5)]), Some(vec![]));
    assert_eq!(
        tables.records,
        vec![
            record(256, 100, 1, 1),
            record(256, 200, 2, 2),
            record(512, 100, 0, 0),
            record(512, 200, 3, 3),
            record(512, 300, 4, 4),
            record(256, 300, 0, 0),
            record(256, 400, 5, 5),
        ],
    );
    assert_eq!(tables.last, BTreeMap::from([(256, 400), (512, 300)]));
    assert_eq!(tables.months, BTreeMap::from([(1, 16), (2, 14)]));
}

#[test]
fn records_stay_in_order() {
    let mut tables = Tables::default();
    for (time, uid) in [(10i64, 1u32), (20, 2), (30, 1), (40, 3), (50, 2), (60, 1)] {
        refresh_once(&mut tables, time, 3, 3, Some(vec![(uid, 1, 0)]), Some(vec![(uid, 0, 1)]));
    }
    for tid in tables.last.keys() {
        let times: Vec<i64> =
            tables.records.iter().filter(|r| r.tid == *tid).map(|r| r.time).collect();
        assert!(times.windows(2).all(|pair| pair[0] <= pair[1]));
        assert_eq!(times.last(), tables.last.get(tid));
    }
}

#[test]
fn a_new_month_starts_from_zero() {
    let mut tables = Tables::default();
    refresh_once(&mut tables, 100, 3, 0, Some(vec![(1, 1, 1), (2, 2, 2)]), Some(vec![]));
    refresh_once(&mut tables, 200, 3, 3, Some(vec![(1, 10, 0)]), Some(vec![]));
    assert_eq!(tables.months, BTreeMap::from([(1, 12), (2, 4)]));
    let actions = refresh_once(&mut tables, 300, 4, 3, Some(vec![(1, 7, 0)]), Some(vec![]));
    assert_eq!(actions[0], Action::Execute(Statement::ResetMonths));
    assert_eq!(tables.months, BTreeMap::from([(1, 7), (2, 0)]));
}

#[test]
fn the_last_month_is_told_by_the_zone() {
    // One second before and after the end of 2024-02-29.
    let ctx = context(Some(1_709_251_199), 1_709_251_200, 3);
    let refresh = Refresh::start(ctx, 0, Some(vec![]), Some(vec![]));
    assert_eq!(refresh.action(), Action::Execute(Statement::ResetMonths));
    let refresh = Refresh::start(ctx, 1, Some(vec![]), Some(vec![]));
    assert_eq!(refresh.action(), Action::Execute(Statement::ReplaceMeta { time: 1_709_251_200 }));
    let late = context(Some(253_402_300_800), 253_402_300_801, 3);
    let refresh = Refresh::start(late, 0, Some(vec![]), Some(vec![]));
    assert_eq!(refresh.action(), Action::Panic(Fault::LastTimeOutOfRange));
}

#[test]
fn nothing_is_recorded_without_the_first_source() {
    let mut tables = Tables { meta: Some(50), ..Tables::default() };
    let before = tables.clone();
    let actions = refresh_once(&mut tables, 100, 3, 3, None, Some(vec![(1, 1, 1)]));
    assert_eq!(actions, vec![Action::Finish]);
    assert_eq!(tables, before);
    let actions = refresh_once(&mut tables, 100, 3, 3, None, None);
    assert_eq!(actions, vec![Action::Finish]);
}

#[test]
fn the_time_is_not_noted_without_the_second_source() {
    let mut tables = Tables { meta: Some(50), ..Tables::default() };
    refresh_once(&mut tables, 100, 3, 3, Some(vec![(1, 1, 1)]), None);
    assert_eq!(tables.records, vec![record(256, 50, 0, 0), record(256, 100, 1, 1)]);
    assert_eq!(tables.months, BTreeMap::from([(1, 2)]));
    assert_eq!(tables.meta, Some(50));
}

#[test]
fn idle_users_are_skipped() {
    let ctx = context(Some(50), 100, 3);
    let xray = Some(vec![(1, 0, 0), (2, 0, 9), (3, 0, 0)]);
    let mut refresh = Refresh::new(ctx, Some(3), xray, Some(vec![(3, 4, 0)]));
    let mut tables = Tables { last: BTreeMap::from([(512, 50)]), ..Tables::default() };
    drive(&mut refresh, &mut tables, None);
    assert_eq!(refresh.totals(), Totals { updated: 2, skipped: 2, tx: 4, rx: 9 });
    assert_eq!(
        tables.records,
        vec![record(512, 100, 0, 9), record(769, 50, 0, 0), record(769, 100, 4, 0)],
    );
    // An idle user has a monthly sum all the same.
    assert_eq!(tables.months, BTreeMap::from([(1, 0), (2, 9), (3, 4)]));
}

#[test]
fn a_failure_keeps_whole_rows() {
    let xray = vec![(1u32, 1u64, 1u64), (2, 2, 2)];
    let mut whole = Tables { meta: Some(50), ..Tables::default() };
    let count: usize =
        refresh_once(&mut whole, 100, 4, 3, Some(xray.clone()), Some(vec![])).len() - 1;
    assert_eq!(count, 16);
    for failing in 0..count {
        let mut tables = Tables { meta: Some(50), ..Tables::default() };
        let ctx = context(tables.meta, 100, 4);
        let mut refresh = Refresh::new(ctx, Some(3), Some(xray.clone()), Some(vec![]));
        let actions = drive(&mut refresh, &mut tables, Some(failing));
        assert_eq!(actions.last(), Some(&Action::Fail));
        assert_eq!(tables.meta, Some(50));
        let rows: usize = if failing < 7 { 0 } else if failing < 13 { 1 } else { 2 };
        assert_eq!(tables.last.len(), rows);
        assert_eq!(tables.records, whole.records[..2 * rows].to_vec());
    }
}

#[test]
fn monthly_sums_of_a_refresh_that_is_cut_short() {
    let start = Tables {
        months: BTreeMap::from([(1, 100), (9, 50)]),
        meta: Some(50),
        ..Tables::default()
    };
    let xray = vec![(1u32, 1u64, 1u64), (2, 2, 2)];
    for failing in 0..16 {
        let mut tables = start.clone();
        let ctx = context(tables.meta, 100, 4);
        let mut refresh = Refresh::new(ctx, Some(3), Some(xray.clone()), Some(vec![]));
        drive(&mut refresh, &mut tables, Some(failing));
        let expected: BTreeMap<i32, i64> = match failing {
            0 => start.months.clone(),
            1..=13 => BTreeMap::from([(1, 0), (9, 0)]),
            14 => BTreeMap::from([(1, 2), (9, 0)]),
            _ => BTreeMap::from([(1, 2), (2, 4), (9, 0)]),
        };
        assert_eq!(tables.months, expected, "{}", failing);
    }
}

#[test]
fn monthly_sums_of_a_refresh_that_cannot_go_on() {
    let start = Tables { months: BTreeMap::from([(1, 100)]), meta: Some(50), ..Tables::default() };
    // In the middle of the rows the sums are cleared, not raised.
    let mut tables = start.clone();
    let samples = Some(vec![(1, 1, 1), (2, 9_223_372_036_854_775_808, 0)]);
    let mut refresh = Refresh::new(context(Some(50), 100, 4), Some(3), samples, Some(vec![]));
    let actions = drive(&mut refresh, &mut tables, None);
    assert_eq!(actions.last(), Some(&Action::Panic(Fault::ValueTooLarge)));
    assert_eq!(tables.months, BTreeMap::from([(1, 0)]));
    assert_eq!(tables.records.len(), 2);
    // With only the time left to note, the sums are raised.
    let mut tables = start.clone();
    let idle = Some(vec![(1, 0, 0)]);
    let mut refresh = Refresh::new(context(Some(50), -1, 4), Some(3), idle, Some(vec![]));
    let actions = drive(&mut refresh, &mut tables, None);
    assert_eq!(actions.last(), Some(&Action::Panic(Fault::ValueTooLarge)));
    assert!(actions.contains(&Action::Execute(Statement::AddMonth { uid: 1, sum: 0 })));
    // Before anything is written, the sums are as they were.
    let mut tables = start.clone();
    let mut refresh = Refresh::new(context(Some(50), 100, 4), None, Some(vec![]), Some(vec![]));
    drive(&mut refresh, &mut tables, None);
    assert_eq!(tables, start);
}

#[test]
fn answers_that_do_not_fit_are_failures() {
    let ctx = context(None, 100, 3);
    let mut refresh = Refresh::new(ctx, None, Some(vec![(1, 1, 1)]), None);
    assert_eq!(refresh.action(), Action::Execute(Statement::ResetMonths));
    refresh.step(Event::LastTime(None));
    assert_eq!(refresh.action(), Action::Fail);
    refresh.step(Event::Done);
    assert_eq!(refresh.action(), Action::Fail);

    let ctx = context(Some(50), 100, 3);
    let mut refresh = Refresh::new(ctx, Some(3), Some(vec![(1, 1, 1)]), None);
    refresh.step(Event::Done);
    assert_eq!(refresh.action(), Action::QueryLast { tid: 256 });
    refresh.step(Event::Done);
    assert_eq!(refresh.action(), Action::Fail);
}

#[test]
fn what_a_refresh_cannot_write() {
    let large: u64 = 9_223_372_036_854_775_808;
    let ctx = context(None, 100, 3);
    for sample in [(1u32, large, 0u64), (1, 0, large)] {
        let mut refresh = Refresh::new(ctx, None, Some(vec![sample]), None);
        let mut tables = Tables::default();
        let actions = drive(&mut refresh, &mut tables, None);
        assert_eq!(actions.last(), Some(&Action::Panic(Fault::ValueTooLarge)));
        assert_eq!(tables, Tables::default());
    }
    // A clock before the epoch.
    let ctx = context(Some(10), -1, 12);
    let mut refresh = Refresh::new(ctx, Some(12), Some(vec![]), Some(vec![]));
    assert_eq!(refresh.action(), Action::Panic(Fault::ValueTooLarge));
    refresh = Refresh::new(ctx, Some(12), Some(vec![(1, 1, 1)]), None);
    refresh.step(Event::Done);
    assert_eq!(refresh.action(), Action::Panic(Fault::ValueTooLarge));
    // Without the second source, the time is not written.
    refresh = Refresh::new(ctx, Some(12), Some(vec![]), None);
    assert_eq!(refresh.action(), Action::Finish);
}

#[test]
fn a_negative_last_time() {
    let ctx = context(Some(50), 100, 3);
    let mut refresh = Refresh::new(ctx, Some(3), Some(vec![(1, 1, 1)]), None);
    let start = Tables { last: BTreeMap::from([(256, -1)]), ..Tables::default() };
    let mut tables = start.clone();
    let actions = drive(&mut refresh, &mut tables, None);
    assert_eq!(actions.last(), Some(&Action::Panic(Fault::NegativeLastTime)));
    assert_eq!(tables, start);
}

#[test]
fn a_last_month_out_of_range() {
    let ctx = context(Some(50), 100, 3);
    let refresh = Refresh::new(ctx, None, Some(vec![]), Some(vec![]));
    assert_eq!(refresh.action(), Action::Panic(Fault::LastTimeOutOfRange));
    // It does not matter before the first successful refresh.
    let refresh = Refresh::new(context(None, 100, 3), None, Some(vec![]), Some(vec![]));
    assert_eq!(refresh.action(), Action::Execute(Statement::ResetMonths));
}

#[test]
fn totals_that_do_not_fit() {
    let most: u64 = 9_223_372_036_854_775_807;
    let mut tables = Tables::default();
    let ctx = context(None, 100, 3);
    let samples = Some(vec![(1, most, 0), (2, most, 0), (3, most, 0), (4, 1, 0)]);
    let mut refresh = Refresh::new(ctx, None, samples, Some(vec![]));
    let actions = drive(&mut refresh, &mut tables, None);
    assert_eq!(actions.last(), Some(&Action::Panic(Fault::Overflow)));
    // The row that went beyond was recorded, the sums were not raised.
    assert_eq!(tables.records.len(), 3);
    assert!(tables.months.is_empty());
    assert_eq!(tables.meta, None);
}

#[test]
fn large_numbers_are_read_back() {
    let most: u64 = 9_223_372_036_854_775_807;
    let mut tables = Tables::default();
    let xray = Some(vec![(u32::MAX, most, 1)]);
    let actions = refresh_once(&mut tables, 100, 3, 0, xray, Some(vec![]));
    assert!(actions
        .contains(&Action::Execute(Statement::AddMonth { uid: -1, sum: i64::MIN })));
    let users = vec![User { uid: u32::MAX, name: "x".to_string(), uuid: "y".to_string() }];
    let stats = traffic_stats(&tables.records, &tables.month_rows(), &users);
    assert_eq!(
        stats.rows,
        vec![ReportedRecord { tid: 1_099_511_627_520, time: 100, tx: most, rx: 1 }],
    );
    assert_eq!(stats.users[0].month_sum, 9_223_372_036_854_775_808);
}

#[test]
fn a_record_as_reported() {
    assert_eq!(
        report_record(&record(257, 100, 1, 2)),
        ReportedRecord { tid: 257, time: 100, tx: 1, rx: 2 },
    );
    assert_eq!(
        report_record(&record(-1, -2, i64::MIN, i64::MAX)),
        ReportedRecord {
            tid: u64::MAX,
            time: u64::MAX - 1,
            tx: 9_223_372_036_854_775_808,
            rx: 9_223_372_036_854_775_807,
        },
    );
}

#[test]
fn the_answer_to_a_query() {
    let users = vec![
        User { uid: 2, name: "b".to_string(), uuid: "u".to_string() },
        User { uid: 1, name: "a".to_string(), uuid: "v".to_string() },
        User { uid: 9, name: "c".to_string(), uuid: "w".to_string() },
        User { uid: 2, name: "d".to_string(), uuid: "w".to_string() },
    ];
    let months = vec![
        Month { uid: 1, sum: 10 },
        Month { uid: 2, sum: 20 },
        Month { uid: 4_294_967_297, sum: 30 },
        Month { uid: 5, sum: 40 },
    ];
    let records = vec![record(256, 5, 1, 2), record(256, 4, 3, 4)];
    let stats = traffic_stats(&records, &months, &users);
    let reported: Vec<(u32, &str, u64)> =
        stats.users.iter().map(|u| (u.uid, u.name.as_str(), u.month_sum)).collect();
    assert_eq!(reported, vec![(2, "b", 20), (1, "a", 30), (9, "c", 0), (2, "d", 20)]);
    assert_eq!(stats.rows, vec![report_record(&records[0]), report_record(&records[1])]);
    let empty = traffic_stats(&vec![], &vec![], &[]);
    assert!(empty.rows.is_empty() && empty.users.is_empty());
}

#[test]
fn monthly_sums_agree_with_the_records() {
    let mut tables = Tables::default();
    refresh_once(&mut tables, 100, 3, 0, Some(vec![(1, 1, 2), (2, 3, 4)]), Some(vec![(1, 5, 6)]));
    refresh_once(&mut tables, 200, 3, 3, Some(vec![(2, 7, 8)]), Some(vec![(1, 9, 10)]));
    refresh_once(&mut tables, 300, 3, 3, Some(vec![(1, 11, 12)]), None);
    for (uid, sum) in &tables.months {
        let recorded: i64 = tables
            .records
            .iter()
            .filter(|r| r.tid / 256 == i64::from(*uid))
            .map(|r| r.tx + r.rx)
            .sum();
        assert_eq!(*sum, recorded);
    }
    assert_eq!(tables.months, BTreeMap::from([(1, 56), (2, 22)]));
}

#[test]
fn last_times_that_do_not_matter() {
    // Another identifier, an idle row, and a first refresh.
    let last = BTreeMap::from([(256, -1), (512, -1)]);
    let start = Tables { last: last.clone(), meta: Some(50), ..Tables::default() };
    let mut tables = start.clone();
    let actions =
        refresh_once(&mut tables, 100, 3, 3, Some(vec![(1, 0, 0), (3, 1, 1)]), Some(vec![]));
    assert_eq!(actions.last(), Some(&Action::Finish));
    let mut tables = Tables { last, ..Tables::default() };
    let actions = refresh_once(&mut tables, 100, 3, 0, Some(vec![(1, 1, 1)]), Some(vec![]));
    assert_eq!(actions.last(), Some(&Action::Finish));
    assert_eq!(tables.last, BTreeMap::from([(256, 100), (512, -1)]));
}

#[test]
fn a_time_that_is_never_written() {
    let ctx = context(Some(50), -1, 3);
    let mut tables = Tables { meta: Some(50), ..Tables::default() };
    let mut refresh = Refresh::new(ctx, Some(3), Some(vec![(1, 0, 0)]), None);
    let actions = drive(&mut refresh, &mut tables, None);
    assert_eq!(
        actions,
        vec![Action::Execute(Statement::AddMonth { uid: 1, sum: 0 }), Action::Finish],
    );
}

#[test]
fn sums_agree_with_the_records_when_the_month_is_new() {
    let mut tables = Tables::default();
    refresh_once(&mut tables, 100, 3, 0, Some(vec![(1, 1, 2)]), Some(vec![]));
    let before: i64 = tables.records.iter().map(|r| r.tx + r.rx).sum();
    refresh_once(&mut tables, 200, 4, 3, Some(vec![(1, 10, 20)]), Some(vec![]));
    let after: i64 = tables.records.iter().map(|r| r.tx + r.rx).sum();
    assert_eq!(tables.months[&1], after - before);
    assert_eq!(tables.months[&1], 30);
}

#[test]
fn a_month_that_began_before() {
    let mut tables =
        Tables { months: BTreeMap::from([(1, 1000)]), meta: Some(50), ..Tables::default() };
    let users = vec![User { uid: 1, name: "x".to_string(), uuid: "y".to_string() }];
    refresh_once(&mut tables, 100, 3, 3, Some(vec![(1, 1, 2)]), Some(vec![]));
    let stats = traffic_stats(&vec![], &tables.month_rows(), &users);
    assert_eq!(stats.users[0].month_sum, 1003);
    refresh_once(&mut tables, 200, 4, 3, Some(vec![(1, 4, 0)]), Some(vec![]));
    refresh_once(&mut tables, 300, 4, 4, Some(vec![(1, 5, 0)]), Some(vec![]));
    let stats = traffic_stats(&vec![], &tables.month_rows(), &users);
    assert_eq!(stats.users[0].month_sum, 9);
}

#[test]
fn rows_recorded_in_two_parts() {
    let start = Tables { meta: Some(50), ..Tables::default() };
    let mut whole = start.clone();
    refresh_once(&mut whole, 100, 3, 3, Some(vec![(1, 1, 1), (2, 2, 2), (1, 3, 3)]), None);
    let mut parts = start.clone();
    refresh_once(&mut parts, 100, 3, 3, Some(vec![(1, 1, 1)]), None);
    refresh_once(&mut parts, 100, 3, 3, Some(vec![(2, 2, 2), (1, 3, 3)]), None);
    assert_eq!(whole, parts);
}
