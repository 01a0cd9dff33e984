//! Writing a refresh to the database, one statement at a time.
//!
//! A [`Refresh`] says which statement comes next ([`Refresh::action`]) and takes the database's
//! answer ([`Refresh::step`]). Its view, [`RefreshState`], is a plain state machine.
use std::collections::BTreeMap;
use vstd::prelude::*;

use crate::calendar::local_month;
use crate::casts::{u32_as_i32, u64_as_i64};
use crate::lark::{encode_tid, RefreshContext, KIND_HYSTERIA, KIND_XRAY};
use crate::listing::listed;

verus! {

broadcast use {
    vstd::std_specs::btree::group_btree_axioms,
    vstd::laws_cmp::group_laws_cmp,
};

/// What one user sent and received over one source since the last refresh.
#[derive(Clone, Copy, Debug, PartialEq, Eq, Structural)]
pub struct Row {
    pub uid: u32,
    pub kind: u8,
    pub tx: u64,
    pub rx: u64,
}

impl Row {
    pub open spec fn tid(self) -> int {
        crate::lark::tid_of(self.uid, self.kind)
    }

    /// Nothing was sent or received.
    pub open spec fn idle(self) -> bool {
        self.tx == 0 && self.rx == 0
    }

    /// The counters fit the database's integers.
    pub open spec fn storable(self) -> bool {
        self.tx <= i64::MAX && self.rx <= i64::MAX
    }
}

/// A statement that changes the database.
#[derive(Clone, Copy, Debug, PartialEq, Eq, Structural)]
pub enum Statement {
    /// Open a transaction.
    Begin,
    /// Make the transaction's changes permanent.
    Commit,
    /// Add a row to `Record`.
    InsertRecord { tid: i64, time: i64, tx: i64, rx: i64 },
    /// Set the time of `tid` in `Last`.
    ReplaceLast { tid: i64, time: i64 },
    /// Set every sum of `Month` to zero.
    ResetMonths,
    /// Add to the sum of `uid` in `Month`, which is zero where there is none.
    AddMonth { uid: i32, sum: i64 },
    /// Set the time of the last successful refresh in `Meta`.
    ReplaceMeta { time: i64 },
}

/// Why a refresh cannot go on.
#[derive(Clone, Copy, Debug, PartialEq, Eq, Structural)]
pub enum Fault {
    /// The time of the last successful refresh is negative.
    NegativeMetaTime,
    /// The calendar does not reach the present time.
    ClockOutOfRange,
    /// The calendar does not reach the time of the last successful refresh.
    LastTimeOutOfRange,
    /// The time, or a counter, does not fit the database's integers.
    ValueTooLarge,
    /// The time of the last record of an identifier is negative.
    NegativeLastTime,
    /// A total does not fit its type.
    Overflow,
}

/// What to do next.
#[derive(Clone, Copy, Debug, PartialEq, Eq, Structural)]
pub enum Action {
    /// Run the statement.
    Execute(Statement),
    /// Look up the time of `tid` in `Last`.
    QueryLast { tid: i64 },
    /// All is written.
    Finish,
    /// The database failed; the open transaction, if any, is to be rolled back.
    Fail,
    /// The refresh cannot go on; the open transaction, if any, is to be rolled back.
    Panic(Fault),
}

/// What the database answered.
#[derive(Clone, Copy, Debug, PartialEq, Eq, Structural)]
pub enum Event {
    /// The statement was run.
    Done,
    /// The time that `Last` holds, if it has one.
    LastTime(Option<i64>),
    /// The statement failed.
    Failed,
}

/// Where the recording of one row stands.
#[derive(Clone, Copy, Debug, PartialEq, Eq, Structural)]
pub enum Stage {
    Begin,
    Query,
    Flush,
    Last,
    Record,
    Commit,
}

/// Where a refresh stands.
#[derive(Clone, Copy, Debug, PartialEq, Eq, Structural)]
pub enum Phase {
    /// The monthly sums are being set to zero.
    Reset,
    /// The next row is being recorded.
    Row(Stage),
    /// The monthly sum of one user is being raised.
    Month(u64),
    /// The time of the refresh is being noted.
    Meta,
    Finished,
    Failed,
    Panicked(Fault),
}

/// How many of the rows are recorded.
pub open spec fn updated(rows: Seq<Row>) -> nat
    decreases rows.len(),
{
    if rows.len() == 0 {
        0
    } else {
        updated(rows.drop_last()) + if rows.last().idle() { 0nat } else { 1nat }
    }
}

/// How many of the rows are skipped.
pub open spec fn skipped(rows: Seq<Row>) -> nat
    decreases rows.len(),
{
    if rows.len() == 0 {
        0
    } else {
        skipped(rows.drop_last()) + if rows.last().idle() { 1nat } else { 0nat }
    }
}

/// How much was sent in all.
pub open spec fn total_tx(rows: Seq<Row>) -> nat
    decreases rows.len(),
{
    if rows.len() == 0 {
        0
    } else {
        total_tx(rows.drop_last()) + rows.last().tx as nat
    }
}

/// How much was received in all.
pub open spec fn total_rx(rows: Seq<Row>) -> nat
    decreases rows.len(),
{
    if rows.len() == 0 {
        0
    } else {
        total_rx(rows.drop_last()) + rows.last().rx as nat
    }
}

/// How much `uid` sent and received in all.
pub open spec fn sum_of(rows: Seq<Row>, uid: u32) -> nat
    decreases rows.len(),
{
    if rows.len() == 0 {
        0
    } else {
        let row = rows.last();
        sum_of(rows.drop_last(), uid) + if row.uid == uid {
            (row.tx + row.rx) as nat
        } else {
            0
        }
    }
}

/// One of the rows is about `uid`.
pub open spec fn seen(rows: Seq<Row>, uid: u32) -> bool {
    exists|i: int| 0 <= i < rows.len() && (#[trigger] rows[i]).uid == uid
}

/// How much each user that the rows are about sent and received.
pub open spec fn sums(rows: Seq<Row>) -> Map<u32, u64> {
    Map::new(|uid: u32| seen(rows, uid), |uid: u32| sum_of(rows, uid) as u64)
}

/// All totals over the rows fit their types.
pub open spec fn fits(rows: Seq<Row>) -> bool {
    &&& updated(rows) <= u32::MAX
    &&& skipped(rows) <= u32::MAX
    &&& total_tx(rows) <= u64::MAX
    &&& total_rx(rows) <= u64::MAX
    &&& forall|uid: u32| #[trigger] sum_of(rows, uid) <= u64::MAX
}

/// The monthly sums to raise, by ascending user id.
pub open spec fn credits(rows: Seq<Row>) -> Seq<(u32, u64)> {
    crate::listing::entries(sums(rows))
}

/// Samples of one source as rows.
pub open spec fn rows_of(samples: Seq<(u32, u64, u64)>, kind: u8) -> Seq<Row> {
    Seq::new(
        samples.len(),
        |i: int| Row { uid: samples[i].0, kind, tx: samples[i].1, rx: samples[i].2 },
    )
}

/// The rows to record. The xray server's come first; if it did not answer, nothing is recorded.
pub open spec fn plan(
    xray: Option<Seq<(u32, u64, u64)>>,
    hysteria: Option<Seq<(u32, u64, u64)>>,
) -> Seq<Row> {
    match (xray, hysteria) {
        (None, _) => Seq::empty(),
        (Some(x), None) => rows_of(x, KIND_XRAY),
        (Some(x), Some(h)) => rows_of(x, KIND_XRAY) + rows_of(h, KIND_HYSTERIA),
    }
}

/// A refresh as a state machine.
pub struct RefreshState {
    pub time: u64,
    pub last_time: u64,
    /// The rows to record.
    pub rows: Seq<Row>,
    /// Both sources answered.
    pub complete: bool,
    /// How many rows are done with.
    pub next: int,
    pub phase: Phase,
}

impl RefreshState {
    /// The row that is being recorded.
    pub open spec fn row(self) -> Row {
        self.rows[self.next]
    }

    pub open spec fn is_over(self) -> bool {
        self.phase is Finished || self.phase is Failed || self.phase is Panicked
    }

    pub open spec fn in_phase(self, phase: Phase) -> RefreshState {
        RefreshState { phase, ..self }
    }

    /// What to do next.
    pub open spec fn action(self) -> Action {
        let tid = self.row().tid() as i64;
        let time = self.time as i64;
        match self.phase {
            Phase::Reset => Action::Execute(Statement::ResetMonths),
            Phase::Row(Stage::Begin) => Action::Execute(Statement::Begin),
            Phase::Row(Stage::Query) => Action::QueryLast { tid },
            Phase::Row(Stage::Flush) => Action::Execute(
                Statement::InsertRecord { tid, time: self.last_time as i64, tx: 0, rx: 0 },
            ),
            Phase::Row(Stage::Last) => Action::Execute(Statement::ReplaceLast { tid, time }),
            Phase::Row(Stage::Record) => Action::Execute(
                Statement::InsertRecord {
                    tid,
                    time,
                    tx: self.row().tx as i64,
                    rx: self.row().rx as i64,
                },
            ),
            Phase::Row(Stage::Commit) => Action::Execute(Statement::Commit),
            Phase::Month(j) => {
                let credit = credits(self.rows)[j as int];
                Action::Execute(
                    Statement::AddMonth {
                        uid: crate::casts::as_i32(credit.0) as i32,
                        sum: crate::casts::as_i64(credit.1) as i64,
                    },
                )
            },
            Phase::Meta => Action::Execute(Statement::ReplaceMeta { time }),
            Phase::Finished => Action::Finish,
            Phase::Failed => Action::Fail,
            Phase::Panicked(fault) => Action::Panic(fault),
        }
    }

    /// Raise the monthly sums from the `j`-th on; then, if both sources answered, note the time.
    pub open spec fn months_from(self, j: u64) -> RefreshState {
        if j < credits(self.rows).len() {
            self.in_phase(Phase::Month(j))
        } else if !self.complete {
            self.in_phase(Phase::Finished)
        } else if self.time > i64::MAX {
            self.in_phase(Phase::Panicked(Fault::ValueTooLarge))
        } else {
            self.in_phase(Phase::Meta)
        }
    }

    /// With `k` rows done with, go on to the next row that is not idle.
    pub open spec fn rows_from(self, k: int) -> RefreshState
        decreases self.rows.len() - k,
    {
        let state = RefreshState { next: k, ..self };
        if !fits(self.rows.take(k)) {
            state.in_phase(Phase::Panicked(Fault::Overflow))
        } else if k >= self.rows.len() {
            state.months_from(0)
        } else if self.rows[k].idle() {
            self.rows_from(k + 1)
        } else {
            state.in_phase(Phase::Row(Stage::Begin))
        }
    }

    /// The transaction is open.
    pub open spec fn opened(self) -> RefreshState {
        if self.time > i64::MAX || !self.row().storable() {
            self.in_phase(Phase::Panicked(Fault::ValueTooLarge))
        } else if self.last_time > 0 {
            self.in_phase(Phase::Row(Stage::Query))
        } else {
            self.in_phase(Phase::Row(Stage::Last))
        }
    }

    /// The identifier was last recorded at `found`. If that was before the last refresh, a zero
    /// is recorded for that refresh.
    pub open spec fn answered(self, found: Option<i64>) -> RefreshState {
        let last: i64 = match found {
            Some(time) => time,
            None => 0,
        };
        if last < 0 {
            self.in_phase(Phase::Panicked(Fault::NegativeLastTime))
        } else if last < self.last_time {
            self.in_phase(Phase::Row(Stage::Flush))
        } else {
            self.in_phase(Phase::Row(Stage::Last))
        }
    }

    /// Take the answer to the action. An answer that does not fit the action is a failure.
    pub open spec fn step(self, event: Event) -> RefreshState {
        if self.is_over() {
            self
        } else {
            match (self.phase, event) {
                (Phase::Row(Stage::Query), Event::LastTime(found)) => self.answered(found),
                (Phase::Row(Stage::Query), _) => self.in_phase(Phase::Failed),
                (Phase::Reset, Event::Done) => self.rows_from(0),
                (Phase::Row(Stage::Begin), Event::Done) => self.opened(),
                (Phase::Row(Stage::Flush), Event::Done) => self.in_phase(Phase::Row(Stage::Last)),
                (Phase::Row(Stage::Last), Event::Done) => self.in_phase(Phase::Row(Stage::Record)),
                (Phase::Row(Stage::Record), Event::Done) => self.in_phase(
                    Phase::Row(Stage::Commit),
                ),
                (Phase::Row(Stage::Commit), Event::Done) => self.rows_from(self.next + 1),
                (Phase::Month(j), Event::Done) => self.months_from((j + 1) as u64),
                (Phase::Meta, Event::Done) => self.in_phase(Phase::Finished),
                _ => self.in_phase(Phase::Failed),
            }
        }
    }

    /// A refresh of which nothing is written yet.
    pub open spec fn planned(
        ctx: RefreshContext,
        xray: Option<Seq<(u32, u64, u64)>>,
        hysteria: Option<Seq<(u32, u64, u64)>>,
    ) -> RefreshState {
        RefreshState {
            time: ctx.time,
            last_time: ctx.last_time,
            rows: plan(xray, hysteria),
            complete: xray is Some && hysteria is Some,
            next: 0,
            phase: Phase::Reset,
        }
    }

    /// The state a refresh starts in. `last_month` is the month of the last successful refresh,
    /// if the calendar reaches it.
    pub open spec fn start(
        ctx: RefreshContext,
        last_month: Option<u8>,
        xray: Option<Seq<(u32, u64, u64)>>,
        hysteria: Option<Seq<(u32, u64, u64)>>,
    ) -> RefreshState {
        let state = RefreshState::planned(ctx, xray, hysteria);
        let last: Option<u8> = if ctx.last_time > 0 {
            last_month
        } else {
            Some(0)
        };
        match last {
            None => state.in_phase(Phase::Panicked(Fault::LastTimeOutOfRange)),
            Some(month) => if month != ctx.month {
                state
            } else {
                state.rows_from(0)
            },
        }
    }
}

/// Totals over one more row.
proof fn lemma_totals_push(rows: Seq<Row>, row: Row)
    ensures
        updated(rows.push(row)) == updated(rows) + if row.idle() { 0nat } else { 1nat },
        skipped(rows.push(row)) == skipped(rows) + if row.idle() { 1nat } else { 0nat },
        total_tx(rows.push(row)) == total_tx(rows) + row.tx,
        total_rx(rows.push(row)) == total_rx(rows) + row.rx,
        forall|uid: u32| #[trigger]
            sum_of(rows.push(row), uid) == sum_of(rows, uid) + if row.uid == uid {
                row.tx + row.rx
            } else {
                0
            },
        forall|uid: u32| #[trigger]
            seen(rows.push(row), uid) == (seen(rows, uid) || row.uid == uid),
{
    assert(rows.push(row).drop_last() =~= rows);
    assert forall|uid: u32| #[trigger]
        seen(rows.push(row), uid) == (seen(rows, uid) || row.uid == uid) by {
        if seen(rows, uid) {
            let i = choose|i: int| 0 <= i < rows.len() && (#[trigger] rows[i]).uid == uid;
            assert(rows.push(row)[i].uid == uid);
        }
        if row.uid == uid {
            assert(rows.push(row)[rows.len() as int].uid == uid);
        }
        if seen(rows.push(row), uid) && row.uid != uid {
            let i = choose|i: int|
                0 <= i < rows.push(row).len() && (#[trigger] rows.push(row)[i]).uid == uid;
            assert(rows[i].uid == uid);
        }
    }
}

/// A user that no row is about sent and received nothing.
pub proof fn lemma_unseen(rows: Seq<Row>, uid: u32)
    requires
        !seen(rows, uid),
    ensures
        sum_of(rows, uid) == 0,
    decreases rows.len(),
{
    if rows.len() > 0 {
        let rest = rows.drop_last();
        assert(rows[rows.len() - 1].uid != uid);
        assert(!seen(rest, uid)) by {
            if seen(rest, uid) {
                let i = choose|i: int| 0 <= i < rest.len() && (#[trigger] rest[i]).uid == uid;
                assert(rows[i].uid == uid);
            }
        }
        lemma_unseen(rest, uid);
    }
}

/// A statement that fails ends the refresh with a failure, whatever the statement.
pub proof fn law_failure(state: RefreshState)
    requires
        !state.is_over(),
    ensures
        state.step(Event::Failed).action() == Action::Fail,
{
}

/// A refresh that is over stays as it is.
pub proof fn law_over(state: RefreshState, event: Event)
    requires
        state.is_over(),
    ensures
        state.step(event) == state,
{
}

/// Every row is recorded or skipped.
proof fn lemma_all_counted(rows: Seq<Row>)
    ensures
        updated(rows) + skipped(rows) == rows.len(),
    decreases rows.len(),
{
    if rows.len() > 0 {
        lemma_all_counted(rows.drop_last());
    }
}

/// What a refresh has recorded.
#[derive(Clone, Copy, Debug, PartialEq, Eq, Structural)]
pub struct Totals {
    pub updated: u32,
    pub skipped: u32,
    pub tx: u64,
    pub rx: u64,
}

/// The elements of the vector, if there is one.
pub open spec fn seq_of<T>(v: Option<Vec<T>>) -> Option<Seq<T>> {
    match v {
        Some(v) => Some(v@),
        None => None,
    }
}

/// Append the samples of one source.
fn push_rows(rows: &mut Vec<Row>, samples: &Vec<(u32, u64, u64)>, kind: u8)
    ensures
        final(rows)@ == old(rows)@ + rows_of(samples@, kind),
{
    for i in 0..samples.len()
        invariant
            rows@ == old(rows)@ + rows_of(samples@, kind).take(i as int),
    {
        let sample = samples[i];
        rows.push(Row { uid: sample.0, kind, tx: sample.1, rx: sample.2 });
        assert(rows@ =~= old(rows)@ + rows_of(samples@, kind).take(i + 1));
    }
    assert(rows_of(samples@, kind).take(samples@.len() as int) =~= rows_of(samples@, kind));
}

/// Which row comes next depends on the plan alone.
proof fn lemma_rows_from_plan(a: RefreshState, b: RefreshState, k: int)
    requires
        a.time == b.time,
        a.last_time == b.last_time,
        a.rows == b.rows,
        a.complete == b.complete,
    ensures
        a.rows_from(k) == b.rows_from(k),
    decreases a.rows.len() - k,
{
    if fits(a.rows.take(k)) && k < a.rows.len() && a.rows[k].idle() {
        lemma_rows_from_plan(a, b, k + 1);
    }
}

/// A refresh that is being written to the database.
pub struct Refresh {
    ctx: RefreshContext,
    rows: Vec<Row>,
    complete: bool,
    next: usize,
    sums: BTreeMap<u32, u64>,
    credits: Vec<(u32, u64)>,
    phase: Phase,
}

impl View for Refresh {
    type V = RefreshState;

    closed spec fn view(&self) -> RefreshState {
        RefreshState {
            time: self.ctx.time,
            last_time: self.ctx.last_time,
            rows: self.rows@,
            complete: self.complete,
            next: self.next as int,
            phase: self.phase,
        }
    }
}

impl Refresh {
    /// The counters are those of the rows that are done with, and every value that goes into a
    /// statement fits it.
    pub closed spec fn wf(self) -> bool {
        &&& self.ctx.wf()
        &&& self.next <= self.rows@.len()
        &&& !(self.phase is Panicked) ==> self.counted()
        &&& match self.phase {
            Phase::Row(stage) => {
                &&& self.next < self.rows@.len()
                &&& !self.rows@[self.next as int].idle()
                &&& !(stage is Begin) ==> {
                    &&& self.ctx.time <= i64::MAX
                    &&& self.rows@[self.next as int].storable()
                }
            },
            Phase::Month(j) => self.next == self.rows@.len() && self.credits@ == credits(self.rows@)
                && j < self.credits@.len(),
            Phase::Meta => self.next == self.rows@.len() && self.complete && self.ctx.time
                <= i64::MAX,
            Phase::Reset => self.next == 0,
            _ => true,
        }
    }

    /// The totals are those of the rows that are done with.
    spec fn counted(self) -> bool {
        let done = self.rows@.take(self.next as int);
        &&& fits(done)
        &&& self.ctx.stat_updated == updated(done)
        &&& self.ctx.stat_skipped == skipped(done)
        &&& self.ctx.stat_tx == total_tx(done)
        &&& self.ctx.stat_rx == total_rx(done)
        &&& self.sums@ == sums(done)
    }

    /// What is fixed when the refresh starts.
    spec fn same_plan(self, other: Refresh) -> bool {
        &&& self.ctx.time == other.ctx.time
        &&& self.ctx.last_time == other.ctx.last_time
        &&& self.rows == other.rows
        &&& self.complete == other.complete
    }

    /// A refresh that is about to be written. A source that did not answer has no samples.
    pub fn new(
        ctx: RefreshContext,
        last_month: Option<u8>,
        xray: Option<Vec<(u32, u64, u64)>>,
        hysteria: Option<Vec<(u32, u64, u64)>>,
    ) -> (refresh: Refresh)
        requires
            ctx.wf(),
            ctx.is_fresh(),
        ensures
            refresh.wf(),
            refresh@ == RefreshState::start(ctx, last_month, seq_of(xray), seq_of(hysteria)),
    {
        let mut rows: Vec<Row> = Vec::new();
        let mut complete = false;
        if let Some(samples) = &xray {
            push_rows(&mut rows, samples, KIND_XRAY);
            if let Some(samples) = &hysteria {
                push_rows(&mut rows, samples, KIND_HYSTERIA);
                complete = true;
            }
        }
        assert(rows@ =~= plan(seq_of(xray), seq_of(hysteria)));
        let mut refresh = Refresh {
            ctx,
            rows,
            complete,
            next: 0,
            sums: BTreeMap::new(),
            credits: Vec::new(),
            phase: Phase::Reset,
        };
        proof {
            let none = refresh.rows@.take(0);
            assert(none =~= Seq::<Row>::empty());
            assert forall|uid: u32| sum_of(none, uid) == 0 && !seen(none, uid) by {}
            assert(sums(none) =~= Map::<u32, u64>::empty());
        }
        let last: Option<u8> = if ctx.last_time > 0 {
            last_month
        } else {
            Some(0)
        };
        match last {
            None => {
                refresh.phase = Phase::Panicked(Fault::LastTimeOutOfRange);
            },
            Some(month) => {
                if month == ctx.month {
                    refresh.next_row();
                }
            },
        }
        refresh
    }

    /// A refresh that is about to be written, in a time zone `offset` seconds from UTC.
    pub fn start(
        ctx: RefreshContext,
        offset: i32,
        xray: Option<Vec<(u32, u64, u64)>>,
        hysteria: Option<Vec<(u32, u64, u64)>>,
    ) -> (refresh: Refresh)
        requires
            ctx.wf(),
            ctx.is_fresh(),
        ensures
            refresh.wf(),
            refresh@ == RefreshState::start(
                ctx,
                crate::calendar::month_at(ctx.last_time as int, offset as int),
                seq_of(xray),
                seq_of(hysteria),
            ),
    {
        Self::new(ctx, local_month(ctx.last_time as i64, offset), xray, hysteria)
    }

    /// The totals over the rows that are done with.
    pub fn totals(&self) -> (totals: Totals)
        requires
            self.wf(),
            !(self@.phase is Panicked),
        ensures
            totals.updated == updated(self@.rows.take(self@.next)),
            totals.updated + totals.skipped == self@.next,
            totals.skipped == skipped(self@.rows.take(self@.next)),
            totals.tx == total_tx(self@.rows.take(self@.next)),
            totals.rx == total_rx(self@.rows.take(self@.next)),
    {
        proof {
            lemma_all_counted(self@.rows.take(self@.next));
        }
        Totals {
            updated: self.ctx.stat_updated,
            skipped: self.ctx.stat_skipped,
            tx: self.ctx.stat_tx,
            rx: self.ctx.stat_rx,
        }
    }

    /// Count the next row. Whether all totals fit.
    fn count_row(&mut self) -> (ok: bool)
        requires
            old(self).ctx.wf(),
            old(self).next < old(self).rows@.len(),
            old(self).counted(),
            old(self).rows@[old(self).next as int].storable(),
        ensures
            final(self).same_plan(*old(self)),
            final(self).ctx.wf(),
            final(self).phase == old(self).phase,
            final(self).next == old(self).next + 1,
            ok == fits(final(self).rows@.take(final(self).next as int)),
            ok ==> final(self).counted(),
    {
        let row = self.rows[self.next];
        let ghost done = self.rows@.take(self.next as int);
        assert(self.next < self.rows.len());
        proof {
            lemma_totals_push(done, row);
            assert(self.rows@.take(self.next + 1) =~= done.push(row));
            if !seen(done, row.uid) {
                lemma_unseen(done, row.uid);
            }
        }
        self.next = self.next + 1;
        let sum: u64 = match self.sums.get(&row.uid) {
            Some(sum) => *sum,
            None => 0,
        };
        assert(sum == sum_of(done, row.uid));
        if row.tx == 0 && row.rx == 0 {
            match self.ctx.stat_skipped.checked_add(1) {
                Some(count) => self.ctx.stat_skipped = count,
                None => return false,
            }
        } else {
            match self.ctx.stat_updated.checked_add(1) {
                Some(count) => self.ctx.stat_updated = count,
                None => return false,
            }
        }
        match self.ctx.stat_tx.checked_add(row.tx) {
            Some(total) => self.ctx.stat_tx = total,
            None => return false,
        }
        match self.ctx.stat_rx.checked_add(row.rx) {
            Some(total) => self.ctx.stat_rx = total,
            None => return false,
        }
        match sum.checked_add(row.tx + row.rx) {
            Some(total) => {
                self.sums.insert(row.uid, total);
            },
            None => {
                assert(sum_of(done.push(row), row.uid) > u64::MAX);
                return false;
            },
        }
        assert(self.sums@ =~= sums(done.push(row)));
        true
    }

    /// Go on to the next row that is not idle.
    fn next_row(&mut self)
        requires
            old(self).ctx.wf(),
            old(self).next <= old(self).rows@.len(),
            old(self).counted(),
        ensures
            final(self).wf(),
            final(self)@ == old(self)@.rows_from(old(self).next as int),
    {
        loop
            invariant
                self.same_plan(*old(self)),
                self.ctx.wf(),
                self.next <= self.rows@.len(),
                self.counted(),
                self@.rows_from(self.next as int) == old(self)@.rows_from(old(self).next as int),
            decreases self.rows@.len() - self.next,
        {
            if self.next == self.rows.len() {
                self.credits = listed(&self.sums);
                assert(self.rows@.take(self.next as int) =~= self.rows@);
                self.next_month(0);
                return ;
            }
            let row = self.rows[self.next];
            if row.tx != 0 || row.rx != 0 {
                self.phase = Phase::Row(Stage::Begin);
                return ;
            }
            let ghost before = self@;
            let ok = self.count_row();
            proof {
                lemma_rows_from_plan(before, self@, self.next as int);
            }
            if !ok {
                self.phase = Phase::Panicked(Fault::Overflow);
                return ;
            }
        }
    }

    /// Go on to the `j`-th monthly sum.
    fn next_month(&mut self, j: u64)
        requires
            old(self).ctx.wf(),
            old(self).next == old(self).rows@.len(),
            old(self).counted(),
            old(self).credits@ == credits(old(self).rows@),
            j <= old(self).credits@.len(),
        ensures
            final(self).wf(),
            final(self)@ == old(self)@.months_from(j),
    {
        if j < self.credits.len() as u64 {
            self.phase = Phase::Month(j);
        } else if !self.complete {
            self.phase = Phase::Finished;
        } else if self.ctx.time > i64::MAX as u64 {
            self.phase = Phase::Panicked(Fault::ValueTooLarge);
        } else {
            self.phase = Phase::Meta;
        }
    }

    /// What to do next.
    pub fn action(&self) -> (action: Action)
        requires
            self.wf(),
        ensures
            action == self@.action(),
    {
        match self.phase {
            Phase::Reset => Action::Execute(Statement::ResetMonths),
            Phase::Row(stage) => {
                let row = self.rows[self.next];
                let tid: i64 = encode_tid(row.uid, row.kind) as i64;
                match stage {
                    Stage::Begin => Action::Execute(Statement::Begin),
                    Stage::Query => Action::QueryLast { tid },
                    Stage::Flush => Action::Execute(
                        Statement::InsertRecord {
                            tid,
                            time: self.ctx.last_time as i64,
                            tx: 0,
                            rx: 0,
                        },
                    ),
                    Stage::Last => Action::Execute(
                        Statement::ReplaceLast { tid, time: self.ctx.time as i64 },
                    ),
                    Stage::Record => Action::Execute(
                        Statement::InsertRecord {
                            tid,
                            time: self.ctx.time as i64,
                            tx: row.tx as i64,
                            rx: row.rx as i64,
                        },
                    ),
                    Stage::Commit => Action::Execute(Statement::Commit),
                }
            },
            Phase::Month(j) => {
                assert(j < self.credits.len());
                let credit = self.credits[j as usize];
                Action::Execute(
                    Statement::AddMonth { uid: u32_as_i32(credit.0), sum: u64_as_i64(credit.1) },
                )
            },
            Phase::Meta => Action::Execute(Statement::ReplaceMeta { time: self.ctx.time as i64 }),
            Phase::Finished => Action::Finish,
            Phase::Failed => Action::Fail,
            Phase::Panicked(fault) => Action::Panic(fault),
        }
    }

    /// Take the answer to the action.
    pub fn step(&mut self, event: Event)
        requires
            old(self).wf(),
        ensures
            final(self).wf(),
            final(self)@ == old(self)@.step(event),
    {
        match (self.phase, event) {
            (Phase::Finished, _) | (Phase::Failed, _) | (Phase::Panicked(_), _) => {},
            (Phase::Row(Stage::Query), Event::LastTime(found)) => {
                let last: i64 = match found {
                    Some(time) => time,
                    None => 0,
                };
                if last < 0 {
                    self.phase = Phase::Panicked(Fault::NegativeLastTime);
                } else if (last as u64) < self.ctx.last_time {
                    self.phase = Phase::Row(Stage::Flush);
                } else {
                    self.phase = Phase::Row(Stage::Last);
                }
            },
            (Phase::Row(Stage::Query), _) => {
                self.phase = Phase::Failed;
            },
            (Phase::Reset, Event::Done) => {
                self.next_row();
            },
            (Phase::Row(Stage::Begin), Event::Done) => {
                let row = self.rows[self.next];
                let limit: u64 = i64::MAX as u64;
                if self.ctx.time > limit || row.tx > limit || row.rx > limit {
                    self.phase = Phase::Panicked(Fault::ValueTooLarge);
                } else if self.ctx.last_time > 0 {
                    self.phase = Phase::Row(Stage::Query);
                } else {
                    self.phase = Phase::Row(Stage::Last);
                }
            },
            (Phase::Row(Stage::Flush), Event::Done) => {
                self.phase = Phase::Row(Stage::Last);
            },
            (Phase::Row(Stage::Last), Event::Done) => {
                self.phase = Phase::Row(Stage::Record);
            },
            (Phase::Row(Stage::Record), Event::Done) => {
                self.phase = Phase::Row(Stage::Commit);
            },
            (Phase::Row(Stage::Commit), Event::Done) => {
                let ghost before = self@;
                let ok = self.count_row();
                proof {
                    lemma_rows_from_plan(before, self@, self.next as int);
                }
                if ok {
                    self.next_row();
                } else {
                    self.phase = Phase::Panicked(Fault::Overflow);
                }
            },
            (Phase::Month(j), Event::Done) => {
                assert(j < self.credits.len());
                assert(self.rows@.take(self.next as int) =~= self.rows@);
                self.next_month(j + 1);
            },
            (Phase::Meta, Event::Done) => {
                self.phase = Phase::Finished;
            },
            _ => {
                self.phase = Phase::Failed;
            },
        }
    }
}

/// The rows to record are the samples of the first source, one for one and in order, then those of
/// the second, each with its kind. Without the first source there are none.
pub proof fn law_plan(
    xray: Option<Seq<(u32, u64, u64)>>,
    hysteria: Option<Seq<(u32, u64, u64)>>,
)
    ensures
        xray is None ==> plan(xray, hysteria).len() == 0,
        xray matches Some(x) ==> {
            &&& hysteria is None ==> plan(xray, hysteria).len() == x.len()
            &&& hysteria matches Some(h) ==> plan(xray, hysteria).len() == x.len() + h.len()
            &&& forall|i: int|
                #![trigger plan(xray, hysteria)[i]]
                0 <= i < x.len() ==> {
                    &&& plan(xray, hysteria)[i].uid == x[i].0
                    &&& plan(xray, hysteria)[i].kind == 0
                    &&& plan(xray, hysteria)[i].tx == x[i].1
                    &&& plan(xray, hysteria)[i].rx == x[i].2
                }
            &&& hysteria matches Some(h) ==> forall|i: int|
                #![trigger plan(xray, hysteria)[i]]
                x.len() <= i < x.len() + h.len() ==> {
                    &&& plan(xray, hysteria)[i].uid == h[i - x.len()].0
                    &&& plan(xray, hysteria)[i].kind == 1
                    &&& plan(xray, hysteria)[i].tx == h[i - x.len()].1
                    &&& plan(xray, hysteria)[i].rx == h[i - x.len()].2
                }
        },
{
}

proof fn lemma_counts(
    rows: Seq<Row>,
    active: spec_fn(Row) -> bool,
    idle: spec_fn(Row) -> bool,
    tx: spec_fn(int, Row) -> int,
    rx: spec_fn(int, Row) -> int,
)
    requires
        forall|row: Row| #[trigger] active(row) <==> row.tx != 0 || row.rx != 0,
        forall|row: Row| #[trigger] idle(row) <==> row.tx == 0 && row.rx == 0,
        forall|sum: int, row: Row| #[trigger] tx(sum, row) == sum + row.tx,
        forall|sum: int, row: Row| #[trigger] rx(sum, row) == sum + row.rx,
    ensures
        updated(rows) == rows.filter(active).len(),
        skipped(rows) == rows.filter(idle).len(),
        total_tx(rows) == rows.fold_left(0int, tx),
        total_rx(rows) == rows.fold_left(0int, rx),
    decreases rows.len(),
{
    reveal(Seq::filter);
    if rows.len() > 0 {
        let rest = rows.drop_last();
        let last = rows.last();
        lemma_counts(rest, active, idle, tx, rx);
        assert(active(last) <==> last.tx != 0 || last.rx != 0);
        assert(idle(last) <==> last.tx == 0 && last.rx == 0);
        assert(tx(rest.fold_left(0int, tx), last) == total_tx(rest) + last.tx);
        assert(rx(rest.fold_left(0int, rx), last) == total_rx(rest) + last.rx);
    }
}

/// What the totals count: the rows with traffic, those without, and all that was sent and received.
pub proof fn law_counts(rows: Seq<Row>)
    ensures
        updated(rows) == rows.filter(|row: Row| row.tx != 0 || row.rx != 0).len(),
        skipped(rows) == rows.filter(|row: Row| row.tx == 0 && row.rx == 0).len(),
        total_tx(rows) == rows.fold_left(0int, |sum: int, row: Row| sum + row.tx),
        total_rx(rows) == rows.fold_left(0int, |sum: int, row: Row| sum + row.rx),
{
    lemma_counts(
        rows,
        |row: Row| row.tx != 0 || row.rx != 0,
        |row: Row| row.tx == 0 && row.rx == 0,
        |sum: int, row: Row| sum + row.tx,
        |sum: int, row: Row| sum + row.rx,
    );
}

proof fn lemma_sum_of(rows: Seq<Row>, uid: u32, summed: spec_fn(int, Row) -> int)
    requires
        forall|sum: int, row: Row| #[trigger]
            summed(sum, row) == sum + if row.uid == uid {
                row.tx + row.rx
            } else {
                0
            },
    ensures
        sum_of(rows, uid) == rows.fold_left(0int, summed),
    decreases rows.len(),
{
    if rows.len() > 0 {
        lemma_sum_of(rows.drop_last(), uid, summed);
    }
}

/// How much a user sent and received is the sum over the rows that are about the user, whatever
/// their kinds.
pub proof fn law_sum_of(rows: Seq<Row>, uid: u32)
    ensures
        sum_of(rows, uid) == rows.fold_left(
            0int,
            |sum: int, row: Row|
                sum + if row.uid == uid {
                    row.tx + row.rx
                } else {
                    0
                },
        ),
        seen(rows, uid) <==> exists|i: int| 0 <= i < rows.len() && (#[trigger] rows[i]).uid == uid,
{
    lemma_sum_of(
        rows,
        uid,
        |sum: int, row: Row|
            sum + if row.uid == uid {
                row.tx + row.rx
            } else {
                0
            },
    );
}

/// Totals fit exactly if none of them is too large for its type.
pub proof fn law_fits(rows: Seq<Row>)
    ensures
        fits(rows) <==> {
            &&& rows.filter(|row: Row| row.tx != 0 || row.rx != 0).len() <= 0xffff_ffff
            &&& rows.filter(|row: Row| row.tx == 0 && row.rx == 0).len() <= 0xffff_ffff
            &&& rows.fold_left(0int, |sum: int, row: Row| sum + row.tx) <= 0xffff_ffff_ffff_ffff
            &&& rows.fold_left(0int, |sum: int, row: Row| sum + row.rx) <= 0xffff_ffff_ffff_ffff
            &&& forall|uid: u32| #[trigger] sum_of(rows, uid) <= 0xffff_ffff_ffff_ffff
        },
{
    law_counts(rows);
}

/// The monthly sums to raise are those of the users that some row is about, each once and by
/// ascending user id, by what the user sent and received.
pub proof fn law_credits(rows: Seq<Row>, uid: u32)
    requires
        sum_of(rows, uid) <= u64::MAX,
    ensures
        forall|i: int, j: int|
            0 <= i < j < credits(rows).len() ==> (#[trigger] credits(rows)[i]).0 < (
            #[trigger] credits(rows)[j]).0,
        forall|i: int|
            0 <= i < credits(rows).len() && (#[trigger] credits(rows)[i]).0 == uid ==> credits(
                rows,
            )[i].1 == sum_of(rows, uid),
        (exists|i: int| 0 <= i < credits(rows).len() && (#[trigger] credits(rows)[i]).0 == uid)
            <==> exists|i: int| 0 <= i < rows.len() && (#[trigger] rows[i]).uid == uid,
{
    let all = sums(rows);
    crate::listing::lemma_entries_lists(all);
    if seen(rows, uid) {
        assert(all.contains_key(uid));
        let list = crate::listing::entries(all);
        let k = choose|k: int| 0 <= k < list.len() && (#[trigger] list[k]).0 == uid;
        assert(credits(rows)[k].0 == uid);
    }
    assert forall|i: int|
        0 <= i < credits(rows).len() && (#[trigger] credits(rows)[i]).0 == uid implies credits(
        rows,
    )[i].1 == sum_of(rows, uid) && seen(rows, uid) by {
        assert(all.contains_key(credits(rows)[i].0));
    }
}

/// A refresh begins by clearing the monthly sums exactly if its month is not that of the last
/// successful one, or there was none and the month has a number; where the last month cannot be
/// told, it gives up. After that, or at once, it turns to the rows.
pub proof fn law_start(
    ctx: RefreshContext,
    last_month: Option<u8>,
    xray: Option<Seq<(u32, u64, u64)>>,
    hysteria: Option<Seq<(u32, u64, u64)>>,
)
    ensures
        ({
            let first = RefreshState::start(ctx, last_month, xray, hysteria);
            let rows_first = RefreshState::planned(ctx, xray, hysteria).rows_from(0);
            let lost = ctx.last_time > 0 && last_month is None;
            let changed = if ctx.last_time > 0 {
                last_month != Some(ctx.month)
            } else {
                ctx.month != 0
            };
            &&& first.action() == Action::Panic(Fault::LastTimeOutOfRange) <==> lost
            &&& first.action() == Action::Execute(Statement::ResetMonths) <==> !lost && changed
            &&& !lost && changed ==> first.step(Event::Done) == rows_first
            &&& !lost && !changed ==> first == rows_first
            &&& first.rows == plan(xray, hysteria)
            &&& first.time == ctx.time
            &&& first.last_time == ctx.last_time
            &&& first.complete <==> xray is Some && hysteria is Some
        }),
{
    lemma_rows_from_phase(RefreshState::planned(ctx, xray, hysteria), 0);
}

/// Turning to the rows is not clearing the monthly sums, nor giving up for want of the last month.
proof fn lemma_rows_from_phase(state: RefreshState, k: int)
    ensures
        ({
            let next = state.rows_from(k);
            &&& !(next.phase is Reset)
            &&& next.phase != Phase::Panicked(Fault::LastTimeOutOfRange)
            &&& next.rows == state.rows
            &&& next.time == state.time
            &&& next.last_time == state.last_time
            &&& next.complete == state.complete
        }),
    decreases state.rows.len() - k,
{
    if fits(state.rows.take(k)) && k < state.rows.len() && state.rows[k].idle() {
        lemma_rows_from_phase(state, k + 1);
    }
}

/// The monthly sums are cleared whenever the local days of the last successful refresh and of this
/// one lie in months of different numbers, and only then.
pub proof fn law_month_change(
    ctx: RefreshContext,
    offset: int,
    xray: Option<Seq<(u32, u64, u64)>>,
    hysteria: Option<Seq<(u32, u64, u64)>>,
    last_year: int,
    last_month: u8,
    year: int,
)
    requires
        ctx.last_time > 0,
        crate::calendar::month_at(ctx.last_time as int, offset) is Some,
        crate::calendar::in_month((ctx.last_time + offset) / 86_400, last_year, last_month as int),
        crate::calendar::in_month((ctx.time + offset) / 86_400, year, ctx.month as int),
    ensures
        RefreshState::start(
            ctx,
            crate::calendar::month_at(ctx.last_time as int, offset),
            xray,
            hysteria,
        ).action() == Action::Execute(Statement::ResetMonths) <==> last_month != ctx.month,
{
    crate::calendar::law_local_month(ctx.last_time as int, offset);
    let told = crate::calendar::month_at(ctx.last_time as int, offset)->0;
    let day = (ctx.last_time + offset) / 86_400;
    let told_year = choose|y: int| #[trigger] crate::calendar::in_month(day, y, told as int);
    crate::calendar::law_one_month(day, last_year, last_month as int, told_year, told as int);
    law_start(
        ctx,
        crate::calendar::month_at(ctx.last_time as int, offset),
        xray,
        hysteria,
    );
}

/// Rows without traffic are passed over; the next row with traffic is recorded, in a transaction of
/// its own. If there is none, the monthly sums are raised. If a total does not fit, the refresh
/// gives up.
pub proof fn law_next_row(state: RefreshState, k: int, m: int)
    requires
        0 <= k <= m <= state.rows.len(),
        forall|i: int|
            k <= i < m ==> (#[trigger] state.rows[i]).tx == 0 && state.rows[i].rx == 0,
        forall|i: int| k <= i < m ==> fits(#[trigger] state.rows.take(i)),
    ensures
        !fits(state.rows.take(m)) ==> state.rows_from(k).action() == Action::Panic(Fault::Overflow),
        fits(state.rows.take(m)) && m < state.rows.len() && (state.rows[m].tx != 0
            || state.rows[m].rx != 0) ==> state.rows_from(k).action() == Action::Execute(
            Statement::Begin,
        ) && state.rows_from(k) == (RefreshState {
            next: m,
            phase: Phase::Row(Stage::Begin),
            ..state
        }),
        fits(state.rows.take(m)) && m == state.rows.len() ==> state.rows_from(k) == (RefreshState {
            next: m,
            ..state
        }).months_from(0),
    decreases m - k,
{
    if k < m {
        assert(state.rows[k].tx == 0 && state.rows[k].rx == 0);
        assert(fits(state.rows.take(k)));
        law_next_row(state, k + 1, m);
    }
}

/// How a row is recorded: in a transaction, which is opened first and made permanent last, a zero
/// for the last successful refresh if there was one and the identifier was last recorded before it
/// or never; then the time in `Last`, and the row in `Record`. Then the next row's turn comes.
pub proof fn law_row_script(state: RefreshState, found: Option<i64>)
    requires
        state.phase == Phase::Row(Stage::Begin),
        0 <= state.next < state.rows.len(),
        state.last_time <= i64::MAX,
    ensures
        ({
            let row = state.rows[state.next];
            let tid = (row.uid * 256 + row.kind) as i64;
            let time = state.time as i64;
            let opened = state.step(Event::Done);
            let told = opened.step(Event::LastTime(found));
            let late = match found {
                Some(at) => at < state.last_time,
                None => true,
            };
            let ready = if state.last_time == 0 {
                opened
            } else if late {
                told.step(Event::Done)
            } else {
                told
            };
            let noted = ready.step(Event::Done);
            let written = noted.step(Event::Done);
            &&& state.action() == Action::Execute(Statement::Begin)
            &&& state.time > i64::MAX || row.tx > i64::MAX || row.rx > i64::MAX ==> opened.action()
                == Action::Panic(Fault::ValueTooLarge)
            &&& state.time <= i64::MAX && row.tx <= i64::MAX && row.rx <= i64::MAX ==> {
                &&& state.last_time > 0 ==> opened.action() == Action::QueryLast { tid }
                &&& state.last_time > 0 && (found matches Some(at) && at < 0) ==> told.action()
                    == Action::Panic(Fault::NegativeLastTime)
                &&& state.last_time == 0 || (found matches Some(at) ==> at >= 0) ==> {
                    &&& state.last_time > 0 && late ==> told.action() == Action::Execute(
                        Statement::InsertRecord {
                            tid,
                            time: state.last_time as i64,
                            tx: 0,
                            rx: 0,
                        },
                    )
                    &&& ready.action() == Action::Execute(Statement::ReplaceLast { tid, time })
                    &&& noted.action() == Action::Execute(
                        Statement::InsertRecord { tid, time, tx: row.tx as i64, rx: row.rx as i64 },
                    )
                    &&& written.action() == Action::Execute(Statement::Commit)
                    &&& written.step(Event::Done) == state.rows_from(state.next + 1)
                }
            }
        }),
{
    let row = state.rows[state.next];
    crate::lark::lemma_tid_parts(row.uid, row.kind);
    let opened = state.step(Event::Done);
    let told = opened.step(Event::LastTime(found));
    let flushed = told.step(Event::Done);
    let end = state.next + 1;
    lemma_rows_from_plan(state.in_phase(Phase::Row(Stage::Commit)), state, end);
}

pub proof fn lemma_cast(x: u32, y: u64)
    ensures
        crate::casts::as_i32(x) as i32 == x as i32,
        crate::casts::as_i64(y) as i64 == y as i64,
{
    assert(x as i32 == (if x <= i32::MAX as u32 { x as int } else { x - 0x1_0000_0000 }))
        by (bit_vector);
    assert(y as i64 == (if y <= i64::MAX as u64 { y as int } else { y - 0x1_0000_0000_0000_0000 }))
        by (bit_vector);
}

/// How a refresh ends: the monthly sums are raised one by one; then, if both sources answered, the
/// time is noted; then all is written.
pub proof fn law_ending(state: RefreshState, j: u64)
    requires
        j <= credits(state.rows).len(),
    ensures
        ({
            let next = state.months_from(j);
            &&& j < credits(state.rows).len() ==> {
                &&& next.action() == Action::Execute(
                    Statement::AddMonth {
                        uid: credits(state.rows)[j as int].0 as i32,
                        sum: credits(state.rows)[j as int].1 as i64,
                    },
                )
                &&& next.step(Event::Done) == state.months_from((j + 1) as u64)
            }
            &&& j == credits(state.rows).len() && !state.complete ==> next.action()
                == Action::Finish
            &&& j == credits(state.rows).len() && state.complete && state.time > i64::MAX
                ==> next.action() == Action::Panic(Fault::ValueTooLarge)
            &&& j == credits(state.rows).len() && state.complete && state.time <= i64::MAX ==> {
                &&& next.action() == Action::Execute(
                    Statement::ReplaceMeta { time: state.time as i64 },
                )
                &&& next.step(Event::Done).action() == Action::Finish
            }
        }),
{
    if j < credits(state.rows).len() {
        lemma_cast(credits(state.rows)[j as int].0, credits(state.rows)[j as int].1);
        crate::listing::lemma_entries_len(sums(state.rows));
    }
}

/// An answer that does not fit the action is a failure, as is a failure; and once all is written,
/// or nothing more can be, no answer changes anything.
pub proof fn law_answers(state: RefreshState, found: Option<i64>, event: Event)
    ensures
        state.action() is Execute ==> state.step(Event::Failed).action() == Action::Fail,
        state.action() is Execute ==> state.step(Event::LastTime(found)).action() == Action::Fail,
        state.action() is QueryLast ==> state.step(Event::Failed).action() == Action::Fail,
        state.action() is QueryLast ==> state.step(Event::Done).action() == Action::Fail,
        state.action() == Action::Finish || state.action() == Action::Fail || state.action() is Panic
            ==> state.step(event) == state,
{
}

/// A source that answered is represented by all of its samples.
pub proof fn law_samples_view(samples: Option<Vec<(u32, u64, u64)>>)
    ensures
        match samples {
            Some(list) => seq_of(samples) == Some(list@),
            None => seq_of(samples) is None,
        },
{
}

} // verus!
