//! What a refresh does to the database.
//!
//! The database is modelled by its four tables. The laws say what the tables hold after a refresh,
//! and after one that was cut short.
use vstd::prelude::*;

use crate::lark::RefreshContext;
use crate::refresh::{Action, Event, Phase, RefreshState, Row, Stage, Statement};
use crate::report::Record;

verus! {

/// The tables.
#[verifier::ext_equal]
pub struct Tables {
    /// `Record`, in the order of insertion.
    pub records: Seq<Record>,
    /// `Last`: when each identifier was last recorded.
    pub last: Map<i64, i64>,
    /// `Month`: the sum of each user.
    pub months: Map<i32, int>,
    /// `Meta`: when the last successful refresh ran.
    pub meta: Option<i64>,
}

/// The database: the tables, and what they held when the open transaction, if any, began.
#[verifier::ext_equal]
pub struct Store {
    pub tables: Tables,
    pub saved: Option<Tables>,
}

impl Tables {
    /// The tables after `statement`.
    pub open spec fn after(self, statement: Statement) -> Tables {
        match statement {
            Statement::Begin | Statement::Commit => self,
            Statement::InsertRecord { tid, time, tx, rx } => Tables {
                records: self.records.push(Record { tid, time, tx, rx }),
                ..self
            },
            Statement::ReplaceLast { tid, time } => Tables {
                last: self.last.insert(tid, time),
                ..self
            },
            Statement::ResetMonths => self.cleared(),
            Statement::AddMonth { uid, sum } => Tables {
                months: self.months.insert(uid, self.month_of(uid) + sum),
                ..self
            },
            Statement::ReplaceMeta { time } => Tables { meta: Some(time), ..self },
        }
    }

    /// The tables with every monthly sum set to zero.
    pub open spec fn cleared(self) -> Tables {
        Tables { months: self.months.map_values(|sum: int| 0int), ..self }
    }

    /// The monthly sum of a user, zero where there is none.
    pub open spec fn month_of(self, uid: i32) -> int {
        if self.months.contains_key(uid) {
            self.months[uid]
        } else {
            0
        }
    }

    /// When an identifier was last recorded, zero where it never was.
    pub open spec fn last_of(self, tid: i64) -> int {
        if self.last.contains_key(tid) {
            self.last[tid] as int
        } else {
            0
        }
    }
}

impl Store {
    /// The database after an action that succeeded.
    pub open spec fn after(self, action: Action) -> Store {
        match action {
            Action::Execute(Statement::Begin) => Store { saved: Some(self.tables), ..self },
            Action::Execute(Statement::Commit) => Store { saved: None, ..self },
            Action::Execute(statement) => Store { tables: self.tables.after(statement), ..self },
            _ => self,
        }
    }

    /// The answer to an action that succeeded.
    pub open spec fn answer(self, action: Action) -> Event {
        match action {
            Action::QueryLast { tid } => Event::LastTime(
                if self.tables.last.contains_key(tid) {
                    Some(self.tables.last[tid])
                } else {
                    None
                },
            ),
            _ => Event::Done,
        }
    }

    /// What the tables hold once the open transaction, if any, is rolled back.
    pub open spec fn kept(self) -> Tables {
        match self.saved {
            Some(tables) => tables,
            None => self.tables,
        }
    }
}

/// A refresh and the database after `n` actions, all of which succeed.
pub open spec fn run(state: RefreshState, store: Store, n: nat) -> (RefreshState, Store)
    decreases n,
{
    if n == 0 {
        (state, store)
    } else {
        let (state, store) = run(state, store, (n - 1) as nat);
        if state.is_over() {
            (state, store)
        } else {
            (state.step(store.answer(state.action())), store.after(state.action()))
        }
    }
}

/// The tables with a row recorded at `time`. A row of an identifier that the refresh at
/// `last_time` did not record is preceded by a zero for that time. Idle rows are not recorded.
pub open spec fn recorded_row(tables: Tables, time: u64, last_time: u64, row: Row) -> Tables {
    let tid = row.tid() as i64;
    let entry = Record { tid, time: time as i64, tx: row.tx as i64, rx: row.rx as i64 };
    let zero = Record { tid, time: last_time as i64, tx: 0, rx: 0 };
    if row.idle() {
        tables
    } else {
        Tables {
            records: if last_time > 0 && tables.last_of(tid) < last_time {
                tables.records.push(zero).push(entry)
            } else {
                tables.records.push(entry)
            },
            last: tables.last.insert(tid, time as i64),
            ..tables
        }
    }
}

/// The tables with the rows recorded at `time`.
pub open spec fn recorded(tables: Tables, time: u64, last_time: u64, rows: Seq<Row>) -> Tables
    decreases rows.len(),
{
    if rows.len() == 0 {
        tables
    } else {
        recorded_row(
            recorded(tables, time, last_time, rows.drop_last()),
            time,
            last_time,
            rows.last(),
        )
    }
}

/// The tables with the monthly sums raised.
pub open spec fn credited(tables: Tables, credits: Seq<(u32, u64)>) -> Tables
    decreases credits.len(),
{
    if credits.len() == 0 {
        tables
    } else {
        let (uid, sum) = credits.last();
        let uid = crate::casts::as_i32(uid) as i32;
        let before = credited(tables, credits.drop_last());
        Tables {
            months: before.months.insert(
                uid,
                before.month_of(uid) + crate::casts::as_i64(sum),
            ),
            ..before
        }
    }
}

/// The tables when the first row is about to be recorded.
pub open spec fn opening(tables: Tables, new_month: bool) -> Tables {
    if new_month {
        tables.cleared()
    } else {
        tables
    }
}

/// The tables after a refresh.
pub open spec fn refreshed(tables: Tables, state: RefreshState, new_month: bool) -> Tables {
    let written = credited(
        recorded(opening(tables, new_month), state.time, state.last_time, state.rows),
        crate::refresh::credits(state.rows),
    );
    if state.complete {
        Tables { meta: Some(state.time as i64), ..written }
    } else {
        written
    }
}

/// The tables with a zero recorded for `last_time`, where `row` needs one.
pub open spec fn flushed(tables: Tables, last_time: u64, row: Row) -> Tables {
    let tid = row.tid() as i64;
    if last_time > 0 && tables.last_of(tid) < last_time {
        tables.after(Statement::InsertRecord { tid, time: last_time as i64, tx: 0, rx: 0 })
    } else {
        tables
    }
}

/// The refresh cannot go on because its time, which is noted last, does not fit.
pub open spec fn is_late(state: RefreshState) -> bool {
    state.phase == Phase::Panicked(crate::refresh::Fault::ValueTooLarge) && state.next
        == state.rows.len()
}

/// What the database holds in each phase of a refresh that found it at `start`.
pub open spec fn on_track(
    start: Tables,
    new_month: bool,
    state: RefreshState,
    store: Store,
) -> bool {
    let opened = opening(start, new_month);
    let done = recorded(opened, state.time, state.last_time, state.rows.take(state.next));
    let credits = crate::refresh::credits(state.rows);
    let row = state.row();
    &&& 0 <= state.next <= state.rows.len()
    &&& state.last_time <= i64::MAX
    &&& match state.phase {
        Phase::Reset => {
            &&& new_month
            &&& state.next == 0
            &&& store == Store { tables: start, saved: None }
        },
        Phase::Row(stage) => {
            &&& state.next < state.rows.len()
            &&& !row.idle()
            &&& if stage is Begin {
                store == Store { tables: done, saved: None }
            } else {
                &&& state.time <= i64::MAX
                &&& row.storable()
                &&& store.saved == Some(done)
                &&& store.tables == match stage {
                    Stage::Begin | Stage::Query | Stage::Flush => done,
                    Stage::Last => flushed(done, state.last_time, row),
                    Stage::Record => flushed(done, state.last_time, row).after(
                        Statement::ReplaceLast { tid: row.tid() as i64, time: state.time as i64 },
                    ),
                    Stage::Commit => recorded_row(done, state.time, state.last_time, row),
                }
                &&& stage is Query ==> state.last_time > 0
                &&& stage is Flush ==> 0 <= done.last_of(row.tid() as i64) < state.last_time
            }
        },
        Phase::Month(j) => {
            &&& state.next == state.rows.len()
            &&& j < credits.len()
            &&& store == Store { tables: credited(done, credits.take(j as int)), saved: None }
        },
        Phase::Meta => {
            &&& state.next == state.rows.len()
            &&& state.complete
            &&& store == Store { tables: credited(done, credits), saved: None }
        },
        Phase::Finished => store == Store {
            tables: refreshed(start, state, new_month),
            saved: None,
        },
        Phase::Failed => false,
        Phase::Panicked(crate::refresh::Fault::LastTimeOutOfRange) => {
            &&& state.next == 0
            &&& store == Store { tables: start, saved: None }
        },
        Phase::Panicked(_) => store.kept() == if is_late(state) {
            credited(done, credits)
        } else {
            done
        },
    }
}

/// Recording rows leaves the monthly sums and the time of the last refresh alone.
pub proof fn lemma_recorded_frame(tables: Tables, time: u64, last_time: u64, rows: Seq<Row>)
    ensures
        recorded(tables, time, last_time, rows).months == tables.months,
        recorded(tables, time, last_time, rows).meta == tables.meta,
    decreases rows.len(),
{
    if rows.len() > 0 {
        lemma_recorded_frame(tables, time, last_time, rows.drop_last());
    }
}

/// Raising monthly sums leaves the other tables alone.
proof fn lemma_credited_frame(tables: Tables, credits: Seq<(u32, u64)>)
    ensures
        credited(tables, credits).records == tables.records,
        credited(tables, credits).last == tables.last,
        credited(tables, credits).meta == tables.meta,
    decreases credits.len(),
{
    if credits.len() > 0 {
        lemma_credited_frame(tables, credits.drop_last());
    }
}

/// One more row.
proof fn lemma_recorded_next(tables: Tables, time: u64, last_time: u64, rows: Seq<Row>, k: int)
    requires
        0 <= k < rows.len(),
    ensures
        recorded(tables, time, last_time, rows.take(k + 1)) == recorded_row(
            recorded(tables, time, last_time, rows.take(k)),
            time,
            last_time,
            rows[k],
        ),
{
    assert(rows.take(k + 1).drop_last() =~= rows.take(k));
}

proof fn lemma_months_from(start: Tables, new_month: bool, state: RefreshState, store: Store, j: u64)
    requires
        state.next == state.rows.len(),
        state.last_time <= i64::MAX,
        j <= crate::refresh::credits(state.rows).len(),
        store == (Store {
            tables: credited(
                recorded(opening(start, new_month), state.time, state.last_time, state.rows),
                crate::refresh::credits(state.rows).take(j as int),
            ),
            saved: None,
        }),
    ensures
        on_track(start, new_month, state.months_from(j), store),
{
    let credits = crate::refresh::credits(state.rows);
    let done = recorded(opening(start, new_month), state.time, state.last_time, state.rows);
    assert(state.rows.take(state.next) =~= state.rows);
    lemma_recorded_frame(opening(start, new_month), state.time, state.last_time, state.rows);
    lemma_credited_frame(done, credits.take(j as int));
    if j == credits.len() {
        assert(credits.take(j as int) =~= credits);
    }
}

proof fn lemma_rows_from(start: Tables, new_month: bool, state: RefreshState, store: Store, k: int)
    requires
        0 <= k <= state.rows.len(),
        state.last_time <= i64::MAX,
        store == (Store {
            tables: recorded(
                opening(start, new_month),
                state.time,
                state.last_time,
                state.rows.take(k),
            ),
            saved: None,
        }),
    ensures
        on_track(start, new_month, state.rows_from(k), store),
    decreases state.rows.len() - k,
{
    let opened = opening(start, new_month);
    let moved = RefreshState { next: k, ..state };
    lemma_recorded_frame(opened, state.time, state.last_time, state.rows.take(k));
    if crate::refresh::fits(state.rows.take(k)) {
        if k >= state.rows.len() {
            let credits = crate::refresh::credits(state.rows);
            assert(state.rows.take(k) =~= state.rows);
            assert(credits.take(0) =~= Seq::<(u32, u64)>::empty());
            assert(credited(store.tables, credits.take(0)) == store.tables);
            lemma_months_from(start, new_month, moved, store, 0);
        } else if state.rows[k].idle() {
            lemma_recorded_next(opened, state.time, state.last_time, state.rows, k);
            lemma_rows_from(start, new_month, state, store, k + 1);
        }
    }
}

/// Every action keeps the database on track.
pub proof fn lemma_step_on_track(
    start: Tables,
    new_month: bool,
    state: RefreshState,
    store: Store,
)
    requires
        on_track(start, new_month, state, store),
        !state.is_over(),
    ensures
        on_track(
            start,
            new_month,
            state.step(store.answer(state.action())),
            store.after(state.action()),
        ),
{
    let opened = opening(start, new_month);
    let done = recorded(opened, state.time, state.last_time, state.rows.take(state.next));
    let credits = crate::refresh::credits(state.rows);
    let row = state.row();
    let next = state.step(store.answer(state.action()));
    let after = store.after(state.action());
    crate::lark::lemma_tid_parts(row.uid, row.kind);
    lemma_recorded_frame(opened, state.time, state.last_time, state.rows.take(state.next));
    match state.phase {
        Phase::Reset => {
            assert(state.rows.take(0) =~= Seq::<Row>::empty());
            lemma_rows_from(start, new_month, state, after, 0);
        },
        Phase::Row(Stage::Record) => {
            assert(after.tables =~= recorded_row(done, state.time, state.last_time, row));
        },
        Phase::Row(Stage::Commit) => {
            lemma_recorded_next(opened, state.time, state.last_time, state.rows, state.next);
            lemma_rows_from(start, new_month, state, after, state.next + 1);
        },
        Phase::Month(j) => {
            assert(state.rows.take(state.next) =~= state.rows);
            crate::listing::lemma_entries_len(crate::refresh::sums(state.rows));
            assert(credits.take(j + 1).drop_last() =~= credits.take(j as int));
            assert(after.tables =~= credited(done, credits.take(j + 1)));
            lemma_months_from(start, new_month, state, after, (j + 1) as u64);
        },
        Phase::Meta => {
            assert(state.rows.take(state.next) =~= state.rows);
        },
        _ => {},
    }
}

/// A bound on the actions that are left.
pub open spec fn actions_left(state: RefreshState) -> nat {
    let credits = crate::refresh::credits(state.rows).len();
    let rows = (state.rows.len() - state.next) as nat;
    match state.phase {
        Phase::Reset => 7 * state.rows.len() + credits + 4,
        Phase::Row(stage) => (7 * rows + credits + 3 - match stage {
            Stage::Begin => 0int,
            Stage::Query => 1,
            Stage::Flush => 2,
            Stage::Last => 3,
            Stage::Record => 4,
            Stage::Commit => 5,
        }) as nat,
        Phase::Month(j) => (credits - j + 2) as nat,
        Phase::Meta => 1,
        _ => 0,
    }
}

proof fn lemma_rows_from_left(state: RefreshState, k: int)
    requires
        0 <= k <= state.rows.len(),
    ensures
        actions_left(state.rows_from(k)) <= 7 * (state.rows.len() - k) + crate::refresh::credits(
            state.rows,
        ).len() + 3,
    decreases state.rows.len() - k,
{
    if crate::refresh::fits(state.rows.take(k)) && k < state.rows.len() && state.rows[k].idle() {
        lemma_rows_from_left(state, k + 1);
    }
}

/// Every action brings a refresh closer to its end.
pub proof fn lemma_step_left(start: Tables, new_month: bool, state: RefreshState, store: Store)
    requires
        on_track(start, new_month, state, store),
        !state.is_over(),
    ensures
        actions_left(state.step(store.answer(state.action()))) < actions_left(state),
{
    match state.phase {
        Phase::Reset => lemma_rows_from_left(state, 0),
        Phase::Row(Stage::Commit) => lemma_rows_from_left(state, state.next + 1),
        Phase::Month(j) => {
            crate::listing::lemma_entries_len(crate::refresh::sums(state.rows));
        },
        _ => {},
    }
}

/// A refresh whose actions succeed keeps the database on track, keeps to its plan and gets closer
/// to its end.
proof fn lemma_run(start: Tables, new_month: bool, state: RefreshState, store: Store, n: nat)
    requires
        on_track(start, new_month, state, store),
    ensures
        ({
            let (state_n, store_n) = run(state, store, n);
            &&& on_track(start, new_month, state_n, store_n)
            &&& same_plan(state_n, state)
            &&& state_n.is_over() || actions_left(state_n) + n <= actions_left(state)
        }),
    decreases n,
{
    if n > 0 {
        lemma_run(start, new_month, state, store, (n - 1) as nat);
        let (before, store_before) = run(state, store, (n - 1) as nat);
        if !before.is_over() {
            lemma_step_on_track(start, new_month, before, store_before);
            lemma_step_left(start, new_month, before, store_before);
            lemma_step_plan(before, store_before.answer(before.action()));
        }
    }
}

/// The two states are of the same refresh.
pub open spec fn same_plan(a: RefreshState, b: RefreshState) -> bool {
    a.time == b.time && a.last_time == b.last_time && a.rows == b.rows && a.complete == b.complete
}

proof fn lemma_rows_from_plan(state: RefreshState, k: int)
    ensures
        same_plan(state.rows_from(k), state),
    decreases state.rows.len() - k,
{
    if crate::refresh::fits(state.rows.take(k)) && k < state.rows.len() && state.rows[k].idle() {
        lemma_rows_from_plan(state, k + 1);
    }
}

/// No answer changes what is to be written.
pub proof fn lemma_step_plan(state: RefreshState, event: Event)
    ensures
        same_plan(state.step(event), state),
{
    lemma_rows_from_plan(state, 0);
    lemma_rows_from_plan(state, state.next + 1);
}

/// The month of the last successful refresh, zero where there was none, is not the month of this
/// one.
pub open spec fn is_new_month(ctx: RefreshContext, last_month: Option<u8>) -> bool {
    (if ctx.last_time > 0 {
        last_month
    } else {
        Some(0u8)
    }) != Some(ctx.month)
}

proof fn lemma_start_on_track(
    tables: Tables,
    ctx: RefreshContext,
    last_month: Option<u8>,
    xray: Option<Seq<(u32, u64, u64)>>,
    hysteria: Option<Seq<(u32, u64, u64)>>,
)
    requires
        ctx.wf(),
    ensures
        on_track(
            tables,
            is_new_month(ctx, last_month),
            RefreshState::start(ctx, last_month, xray, hysteria),
            Store { tables, saved: None },
        ),
{
    if !is_new_month(ctx, last_month) {
        let state = RefreshState::planned(ctx, xray, hysteria);
        assert(state.rows.take(0) =~= Seq::<Row>::empty());
        lemma_rows_from(tables, false, state, Store { tables, saved: None }, 0);
    }
}

/// A refresh comes to an end, and if nothing keeps it from finishing, it leaves the tables as
/// [`refreshed`] says: with the monthly sums cleared if the month is new, every row that is not
/// idle recorded, the monthly sums raised by what was recorded, and, if both sources answered, the
/// time noted.
pub proof fn law_refresh(
    tables: Tables,
    ctx: RefreshContext,
    last_month: Option<u8>,
    xray: Option<Seq<(u32, u64, u64)>>,
    hysteria: Option<Seq<(u32, u64, u64)>>,
)
    requires
        ctx.wf(),
    ensures
        ({
            let first = RefreshState::start(ctx, last_month, xray, hysteria);
            let (last, store) = run(first, Store { tables, saved: None }, actions_left(first));
            &&& last.phase is Finished || last.phase is Panicked
            &&& last.phase is Finished ==> store == Store {
                tables: refreshed(tables, first, is_new_month(ctx, last_month)),
                saved: None,
            }
        }),
{
    let first = RefreshState::start(ctx, last_month, xray, hysteria);
    let new_month = is_new_month(ctx, last_month);
    lemma_start_on_track(tables, ctx, last_month, xray, hysteria);
    lemma_run(tables, new_month, first, Store { tables, saved: None }, actions_left(first));
    let (last, store) = run(first, Store { tables, saved: None }, actions_left(first));
    if !last.is_over() {
        assert(actions_left(last) == 0);
        assert(false);
    }
}

/// Totals that fit do so for the first rows already.
proof fn lemma_fits_take(rows: Seq<Row>, k: int)
    requires
        crate::refresh::fits(rows),
        0 <= k <= rows.len(),
    ensures
        crate::refresh::fits(rows.take(k)),
    decreases rows.len(),
{
    if k == rows.len() {
        assert(rows.take(k) =~= rows);
    } else {
        let rest = rows.drop_last();
        assert forall|uid: u32| #[trigger] crate::refresh::sum_of(rest, uid) <= u64::MAX by {
            assert(crate::refresh::sum_of(rows, uid) <= u64::MAX);
        }
        lemma_fits_take(rest, k);
        assert(rest.take(k) =~= rows.take(k));
    }
}

/// The row can be recorded: it is idle, or the time and its counters fit, and its identifier was
/// not last recorded at a negative time. That is looked up only if there was a successful refresh.
pub open spec fn recordable(tables: Tables, state: RefreshState, row: Row) -> bool {
    row.idle() || {
        &&& state.time <= i64::MAX
        &&& row.storable()
        &&& state.last_time > 0 ==> tables.last_of(row.tid() as i64) >= 0
    }
}

/// Everything that the refresh is to write can be written.
pub open spec fn writable(tables: Tables, state: RefreshState) -> bool {
    &&& crate::refresh::fits(state.rows)
    &&& forall|i: int|
        0 <= i < state.rows.len() ==> recordable(tables, state, #[trigger] state.rows[i])
    &&& state.complete ==> state.time <= i64::MAX
}

/// Recording rows at a time that is not negative makes no last time negative.
proof fn lemma_last_of_stays(tables: Tables, time: u64, last_time: u64, rows: Seq<Row>, tid: i64)
    requires
        tables.last_of(tid) >= 0,
        time <= i64::MAX,
    ensures
        recorded(tables, time, last_time, rows).last_of(tid) >= 0,
    decreases rows.len(),
{
    if rows.len() > 0 {
        lemma_last_of_stays(tables, time, last_time, rows.drop_last(), tid);
    }
}

/// The last time of an identifier that none of the rows records is what it was.
proof fn lemma_last_of_source(tables: Tables, time: u64, last_time: u64, rows: Seq<Row>, tid: i64)
    ensures
        recorded(tables, time, last_time, rows).last_of(tid) == tables.last_of(tid) || exists|i: int|
            0 <= i < rows.len() && !(#[trigger] rows[i]).idle() && rows[i].tid() as i64 == tid,
    decreases rows.len(),
{
    if rows.len() > 0 {
        let rest = rows.drop_last();
        lemma_last_of_source(tables, time, last_time, rest, tid);
        if !rows.last().idle() && rows.last().tid() as i64 == tid {
            assert(rows[rows.len() - 1].tid() as i64 == tid);
        } else if exists|i: int|
            0 <= i < rest.len() && !(#[trigger] rest[i]).idle() && rest[i].tid() as i64 == tid {
            let i = choose|i: int|
                0 <= i < rest.len() && !(#[trigger] rest[i]).idle() && rest[i].tid() as i64 == tid;
            assert(rows[i] == rest[i]);
        }
    }
}

proof fn lemma_rows_from_smooth(start: Tables, state: RefreshState, k: int)
    requires
        writable(start, state),
        0 <= k <= state.rows.len(),
    ensures
        !(state.rows_from(k).phase is Panicked),
    decreases state.rows.len() - k,
{
    lemma_fits_take(state.rows, k);
    if k < state.rows.len() && state.rows[k].idle() {
        lemma_rows_from_smooth(start, state, k + 1);
    }
}

/// Nothing keeps a refresh from finishing that has only to write what can be written.
proof fn lemma_run_smooth(start: Tables, new_month: bool, state: RefreshState, store: Store, n: nat)
    requires
        on_track(start, new_month, state, store),
        writable(start, state),
        !(state.phase is Panicked),
    ensures
        !(run(state, store, n).0.phase is Panicked),
    decreases n,
{
    if n > 0 {
        lemma_run_smooth(start, new_month, state, store, (n - 1) as nat);
        lemma_run(start, new_month, state, store, (n - 1) as nat);
        let (before, store_before) = run(state, store, (n - 1) as nat);
        if !before.is_over() {
            match before.phase {
                Phase::Reset => lemma_rows_from_smooth(start, before, 0),
                Phase::Row(Stage::Commit) => lemma_rows_from_smooth(
                    start,
                    before,
                    before.next + 1,
                ),
                Phase::Row(Stage::Begin) => {
                    assert(recordable(start, state, state.rows[before.next]));
                },
                Phase::Row(Stage::Query) => {
                    assert(recordable(start, state, state.rows[before.next]));
                    lemma_last_of_stays(
                        opening(start, new_month),
                        before.time,
                        before.last_time,
                        before.rows.take(before.next),
                        before.row().tid() as i64,
                    );
                },
                _ => {},
            }
        }
    }
}

/// What is done with could be written.
spec fn passed(start: Tables, state: RefreshState) -> bool {
    state.phase is Panicked || {
        &&& crate::refresh::fits(state.rows.take(state.next))
        &&& forall|i: int|
            0 <= i < state.next ==> recordable(start, state, #[trigger] state.rows[i])
        &&& match state.phase {
            Phase::Reset => true,
            Phase::Row(Stage::Begin) => true,
            Phase::Row(Stage::Query) => true,
            Phase::Row(_) => recordable(start, state, state.row()),
            Phase::Month(_) => state.next == state.rows.len(),
            _ => {
                &&& state.next == state.rows.len()
                &&& state.complete ==> state.time <= i64::MAX
            },
        }
    }
}

proof fn lemma_rows_from_passed(start: Tables, state: RefreshState, k: int)
    requires
        0 <= k <= state.rows.len(),
        forall|i: int| 0 <= i < k ==> recordable(start, state, #[trigger] state.rows[i]),
    ensures
        passed(start, state.rows_from(k)),
    decreases state.rows.len() - k,
{
    if crate::refresh::fits(state.rows.take(k)) && k < state.rows.len() && state.rows[k].idle() {
        lemma_rows_from_passed(start, state, k + 1);
    }
}

/// A refresh that has not panicked has written only what could be written.
proof fn lemma_run_passed(start: Tables, new_month: bool, state: RefreshState, store: Store, n: nat)
    requires
        on_track(start, new_month, state, store),
        passed(start, state),
    ensures
        passed(start, run(state, store, n).0),
    decreases n,
{
    if n > 0 {
        lemma_run_passed(start, new_month, state, store, (n - 1) as nat);
        lemma_run(start, new_month, state, store, (n - 1) as nat);
        let (before, store_before) = run(state, store, (n - 1) as nat);
        let rows = before.rows.take(before.next);
        if !before.is_over() {
            match before.phase {
                Phase::Reset => lemma_rows_from_passed(start, before, 0),
                Phase::Row(Stage::Commit) => {
                    assert(before.row() == before.rows[before.next]);
                    lemma_rows_from_passed(start, before, before.next + 1);
                },
                Phase::Row(Stage::Query) => {
                    let tid = before.row().tid() as i64;
                    lemma_last_of_source(
                        opening(start, new_month),
                        before.time,
                        before.last_time,
                        rows,
                        tid,
                    );
                    if exists|i: int|
                        0 <= i < rows.len() && !(#[trigger] rows[i]).idle() && rows[i].tid() as i64
                            == tid {
                        let i = choose|i: int|
                            0 <= i < rows.len() && !(#[trigger] rows[i]).idle()
                                && rows[i].tid() as i64 == tid;
                        assert(recordable(start, before, before.rows[i]));
                    }
                },
                _ => {},
            }
        }
    }
}

/// A refresh finishes exactly if the calendar reaches the last one and everything that it is to
/// write can be written.
pub proof fn law_refresh_finishes(
    tables: Tables,
    ctx: RefreshContext,
    last_month: Option<u8>,
    xray: Option<Seq<(u32, u64, u64)>>,
    hysteria: Option<Seq<(u32, u64, u64)>>,
)
    requires
        ctx.wf(),
    ensures
        ({
            let first = RefreshState::start(ctx, last_month, xray, hysteria);
            run(first, Store { tables, saved: None }, actions_left(first)).0.phase is Finished <==> {
                &&& ctx.last_time > 0 ==> last_month is Some
                &&& writable(tables, RefreshState::planned(ctx, xray, hysteria))
            }
        }),
{
    let first = RefreshState::start(ctx, last_month, xray, hysteria);
    let new_month = is_new_month(ctx, last_month);
    let state = RefreshState::planned(ctx, xray, hysteria);
    let store = Store { tables, saved: None };
    let (last, _) = run(first, store, actions_left(first));
    lemma_start_on_track(tables, ctx, last_month, xray, hysteria);
    lemma_start_plan(ctx, last_month, xray, hysteria);
    lemma_run(tables, new_month, first, store, actions_left(first));
    law_refresh(tables, ctx, last_month, xray, hysteria);
    if ctx.last_time > 0 && last_month is None {
        lemma_run_over(first, store, actions_left(first));
    } else {
        if new_month {
            assert(state.rows.take(0) =~= Seq::<Row>::empty());
        } else {
            lemma_rows_from_passed(tables, state, 0);
        }
        lemma_run_passed(tables, new_month, first, store, actions_left(first));
        if last.phase is Finished {
            assert(last.rows.take(last.next) =~= state.rows);
            assert forall|i: int| 0 <= i < state.rows.len() implies recordable(
                tables,
                state,
                #[trigger] state.rows[i],
            ) by {
                assert(recordable(tables, last, last.rows[i]));
            }
        }
        if writable(tables, state) {
            assert forall|i: int| 0 <= i < first.rows.len() implies recordable(
                tables,
                first,
                #[trigger] first.rows[i],
            ) by {
                assert(recordable(tables, state, state.rows[i]));
            }
            if !new_month {
                lemma_rows_from_smooth(tables, state, 0);
            }
            lemma_run_smooth(tables, new_month, first, store, actions_left(first));
        }
    }
}

/// A refresh that is over takes no action.
proof fn lemma_run_over(state: RefreshState, store: Store, n: nat)
    requires
        state.is_over(),
    ensures
        run(state, store, n) == (state, store),
    decreases n,
{
    if n > 0 {
        lemma_run_over(state, store, (n - 1) as nat);
    }
}

/// A refresh that is cut short after any number of actions leaves whole rows: once the open
/// transaction is rolled back, `Record` and `Last` hold exactly the rows that were done with. No
/// monthly sum is raised before all rows are recorded; from then on they are raised one by one. The
/// time of the last successful refresh is unchanged until the refresh has finished.
pub proof fn law_refresh_cut_short(
    tables: Tables,
    ctx: RefreshContext,
    last_month: Option<u8>,
    xray: Option<Seq<(u32, u64, u64)>>,
    hysteria: Option<Seq<(u32, u64, u64)>>,
    n: nat,
)
    requires
        ctx.wf(),
    ensures
        ({
            let first = RefreshState::start(ctx, last_month, xray, hysteria);
            let new_month = is_new_month(ctx, last_month);
            let (state, store) = run(first, Store { tables, saved: None }, n);
            let done = recorded(tables, ctx.time, ctx.last_time, first.rows.take(state.next));
            let written = recorded(
                opening(tables, new_month),
                ctx.time,
                ctx.last_time,
                first.rows,
            );
            let credits = crate::refresh::credits(first.rows);
            &&& same_plan(state, first)
            &&& !(state.phase is Finished) ==> {
                &&& store.kept().records == done.records
                &&& store.kept().last == done.last
                &&& store.kept().meta == tables.meta
            }
            &&& match state.phase {
                Phase::Reset | Phase::Panicked(crate::refresh::Fault::LastTimeOutOfRange) =>
                    store.kept() == tables,
                Phase::Row(_) => store.kept().months == opening(tables, new_month).months,
                Phase::Month(j) => store.kept() == credited(written, credits.take(j as int)),
                Phase::Meta => store.kept() == credited(written, credits),
                Phase::Finished => store.kept() == refreshed(tables, first, new_month),
                Phase::Failed => false,
                Phase::Panicked(_) => if is_late(state) {
                    store.kept() == credited(written, credits)
                } else {
                    store.kept().months == opening(tables, new_month).months
                },
            }
        }),
{
    let first = RefreshState::start(ctx, last_month, xray, hysteria);
    let new_month = is_new_month(ctx, last_month);
    lemma_start_on_track(tables, ctx, last_month, xray, hysteria);
    lemma_run(tables, new_month, first, Store { tables, saved: None }, n);
    let (state, store) = run(first, Store { tables, saved: None }, n);
    let opened = opening(tables, new_month);
    let rows = first.rows.take(state.next);
    let credits = crate::refresh::credits(first.rows);
    lemma_start_plan(ctx, last_month, xray, hysteria);
    lemma_recorded_frame(opened, ctx.time, ctx.last_time, rows);
    lemma_recorded_cleared(tables, ctx.time, ctx.last_time, rows);
    let done = recorded(opened, ctx.time, ctx.last_time, rows);
    if state.next == first.rows.len() {
        assert(rows =~= first.rows);
    }
    match state.phase {
        Phase::Month(j) => lemma_credited_frame(done, credits.take(j as int)),
        Phase::Meta => lemma_credited_frame(done, credits),
        Phase::Reset | Phase::Panicked(crate::refresh::Fault::LastTimeOutOfRange) => {
            assert(rows =~= Seq::<Row>::empty());
        },
        Phase::Panicked(_) => lemma_credited_frame(done, credits),
        _ => {},
    }
}

/// A refresh starts with the times of its context.
proof fn lemma_start_plan(
    ctx: RefreshContext,
    last_month: Option<u8>,
    xray: Option<Seq<(u32, u64, u64)>>,
    hysteria: Option<Seq<(u32, u64, u64)>>,
)
    ensures
        ({
            let first = RefreshState::start(ctx, last_month, xray, hysteria);
            &&& first.time == ctx.time
            &&& first.last_time == ctx.last_time
            &&& first.rows == crate::refresh::plan(xray, hysteria)
            &&& first.complete == (xray is Some && hysteria is Some)
        }),
{
    let state = RefreshState::planned(ctx, xray, hysteria);
    lemma_rows_from_plan(state, 0);
}

/// Clearing the monthly sums does not change what is recorded.
proof fn lemma_recorded_cleared(tables: Tables, time: u64, last_time: u64, rows: Seq<Row>)
    ensures
        recorded(tables.cleared(), time, last_time, rows).records == recorded(
            tables,
            time,
            last_time,
            rows,
        ).records,
        recorded(tables.cleared(), time, last_time, rows).last == recorded(
            tables,
            time,
            last_time,
            rows,
        ).last,
    decreases rows.len(),
{
    if rows.len() > 0 {
        lemma_recorded_cleared(tables, time, last_time, rows.drop_last());
    }
}

/// `Record` and `Last` after a refresh hold what recording its rows gives.
pub proof fn lemma_refreshed_records(tables: Tables, state: RefreshState, new_month: bool)
    ensures
        ({
            let after = refreshed(tables, state, new_month);
            let done = recorded(tables, state.time, state.last_time, state.rows);
            after.records == done.records && after.last == done.last
        }),
{
    lemma_recorded_cleared(tables, state.time, state.last_time, state.rows);
    lemma_credited_frame(
        recorded(opening(tables, new_month), state.time, state.last_time, state.rows),
        crate::refresh::credits(state.rows),
    );
}

/// After a refresh of which both sources answered, the time of the last successful refresh is the
/// time of that refresh; otherwise it is what it was.
pub proof fn law_meta(tables: Tables, state: RefreshState, new_month: bool)
    ensures
        refreshed(tables, state, new_month).meta == if state.complete {
            Some(state.time as i64)
        } else {
            tables.meta
        },
{
    let opened = opening(tables, new_month);
    lemma_recorded_frame(opened, state.time, state.last_time, state.rows);
    lemma_credited_frame(
        recorded(opened, state.time, state.last_time, state.rows),
        crate::refresh::credits(state.rows),
    );
}

} // verus!
