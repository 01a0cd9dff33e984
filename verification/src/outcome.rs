//! What a refresh leaves in the tables, told sample by sample and record by record.
use vstd::prelude::*;

use crate::lark::RefreshContext;
use crate::refresh::{Action, Event, Phase, RefreshState, Row, Statement};
use crate::report::Record;
use crate::store::{
    actions_left, recorded, recorded_row, refreshed, run, Store, Tables,
};

verus! {

/// What each statement does to the tables, and that it does nothing else.
pub proof fn law_statements(tables: Tables, tid: i64, time: i64, tx: i64, rx: i64, uid: i32, sum: i64)
    ensures
        tables.after(Statement::InsertRecord { tid, time, tx, rx }) == (Tables {
            records: tables.records.push(Record { tid, time, tx, rx }),
            ..tables
        }),
        tables.after(Statement::ReplaceLast { tid, time }) == (Tables {
            last: tables.last.insert(tid, time),
            ..tables
        }),
        tables.after(Statement::ReplaceMeta { time }) == (Tables { meta: Some(time), ..tables }),
        tables.after(Statement::Begin) == tables,
        tables.after(Statement::Commit) == tables,
        ({
            let raised = tables.after(Statement::AddMonth { uid, sum });
            &&& raised.records == tables.records && raised.last == tables.last && raised.meta
                == tables.meta
            &&& tables.months.contains_key(uid) ==> raised.months == tables.months.insert(
                uid,
                tables.months[uid] + sum,
            )
            &&& !tables.months.contains_key(uid) ==> raised.months == tables.months.insert(
                uid,
                sum as int,
            )
        }),
        ({
            let cleared = tables.after(Statement::ResetMonths);
            &&& cleared.records == tables.records && cleared.last == tables.last && cleared.meta
                == tables.meta
            &&& cleared.months.dom() == tables.months.dom()
            &&& forall|key: i32| #[trigger]
                tables.months.contains_key(key) ==> cleared.months[key] == 0
        }),
{
    let cleared = tables.after(Statement::ResetMonths);
    assert(cleared.months.dom() =~= tables.months.dom());
}

/// Statements change the tables; a transaction that is open when the refresh ends leaves them as they
/// were when it was opened. A look-up changes nothing and tells what the table holds.
pub proof fn law_store(store: Store, statement: Statement, tid: i64)
    ensures
        store.after(Action::Execute(Statement::Begin)) == (Store {
            tables: store.tables,
            saved: Some(store.tables),
        }),
        store.after(Action::Execute(Statement::Commit)) == (Store {
            tables: store.tables,
            saved: None,
        }),
        statement != Statement::Begin && statement != Statement::Commit ==> store.after(
            Action::Execute(statement),
        ) == (Store { tables: store.tables.after(statement), saved: store.saved }),
        store.after(Action::QueryLast { tid }) == store,
        store.answer(Action::Execute(statement)) == Event::Done,
        store.tables.last.contains_key(tid) ==> store.answer(Action::QueryLast { tid })
            == Event::LastTime(Some(store.tables.last[tid])),
        !store.tables.last.contains_key(tid) ==> store.answer(Action::QueryLast { tid })
            == Event::LastTime(None),
        store.saved is None ==> store.kept() == store.tables,
        store.saved matches Some(saved) ==> store.kept() == saved,
{
}

/// A refresh goes on action by action until it is over.
pub proof fn law_run(state: RefreshState, store: Store, n: nat)
    ensures
        run(state, store, 0) == (state, store),
        ({
            let (now, then) = run(state, store, n);
            let action = now.action();
            run(state, store, n + 1) == if action is Execute || action is QueryLast {
                (now.step(then.answer(action)), then.after(action))
            } else {
                (now, then)
            }
        }),
{
}

/// What was recorded at `time`.
proof fn lemma_recorded_at(
    tables: Tables,
    time: u64,
    last_time: u64,
    rows: Seq<Row>,
    now: spec_fn(Record) -> bool,
    active: spec_fn(Row) -> bool,
    entry: spec_fn(Row) -> Record,
)
    requires
        last_time < time <= i64::MAX,
        forall|record: Record| #[trigger] now(record) <==> record.time == time,
        forall|row: Row| #[trigger] active(row) <==> row.tx != 0 || row.rx != 0,
        forall|row: Row| #[trigger]
            entry(row) == (Record {
                tid: (row.uid * 256 + row.kind) as i64,
                time: time as i64,
                tx: row.tx as i64,
                rx: row.rx as i64,
            }),
    ensures
        ({
            let after = recorded(tables, time, last_time, rows);
            let count = tables.records.len() as int;
            &&& count <= after.records.len()
            &&& after.records.take(count) == tables.records
            &&& after.records.skip(count).filter(now) == rows.filter(active).map_values(entry)
        }),
    decreases rows.len(),
{
    reveal(Seq::filter);
    let count = tables.records.len() as int;
    if rows.len() == 0 {
        assert(tables.records.take(count) =~= tables.records);
        assert(tables.records.skip(count) =~= Seq::<Record>::empty());
        assert(rows.filter(active).map_values(entry) =~= Seq::<Record>::empty());
        assert(tables.records.skip(count).filter(now) =~= Seq::<Record>::empty());
    } else {
        let rest = rows.drop_last();
        let row = rows.last();
        lemma_recorded_at(tables, time, last_time, rest, now, active, entry);
        let before = recorded(tables, time, last_time, rest);
        let after = recorded(tables, time, last_time, rows);
        assert(active(row) <==> row.tx != 0 || row.rx != 0);
        if active(row) {
            let record = entry(row);
            let added = before.records.skip(count);
            let zero = Record {
                tid: row.tid() as i64,
                time: last_time as i64,
                tx: 0,
                rx: 0,
            };
            assert(now(record));
            assert(!now(zero));
            assert(rest.filter(active).push(row).map_values(entry) =~= rest.filter(
                active,
            ).map_values(entry).push(record));
            assert(added.push(record).drop_last() =~= added);
            assert(added.push(zero).drop_last() =~= added);
            assert(added.push(zero).push(record).drop_last() =~= added.push(zero));
            assert(added.push(zero).filter(now) == added.filter(now));
            assert(added.push(record).filter(now) == added.filter(now).push(record));
            assert(added.push(zero).push(record).filter(now) == added.push(zero).filter(now).push(
                record,
            ));
            if after.records == before.records.push(record) {
                assert(after.records.skip(count) =~= added.push(record));
            } else {
                assert(after.records == before.records.push(zero).push(record));
                assert(after.records.skip(count) =~= added.push(zero).push(record));
            }
            assert(after.records.take(count) =~= before.records.take(count));
        }
    }
}

/// The records are kept, and what is added at the time of the refresh are the rows with traffic, one
/// for one and in order, each under the identifier of its user and kind.
pub proof fn law_recorded(tables: Tables, time: u64, last_time: u64, rows: Seq<Row>)
    requires
        last_time < time <= i64::MAX,
    ensures
        ({
            let after = recorded(tables, time, last_time, rows);
            let count = tables.records.len() as int;
            &&& count <= after.records.len()
            &&& after.records.take(count) == tables.records
            &&& after.records.skip(count).filter(|record: Record| record.time == time)
                == rows.filter(|row: Row| row.tx != 0 || row.rx != 0).map_values(
                |row: Row|
                    Record {
                        tid: (row.uid * 256 + row.kind) as i64,
                        time: time as i64,
                        tx: row.tx as i64,
                        rx: row.rx as i64,
                    },
            )
            &&& after.months == tables.months
            &&& after.meta == tables.meta
        }),
{
    crate::store::lemma_recorded_frame(tables, time, last_time, rows);
    lemma_recorded_at(
        tables,
        time,
        last_time,
        rows,
        |record: Record| record.time == time,
        |row: Row| row.tx != 0 || row.rx != 0,
        |row: Row|
            Record {
                tid: (row.uid * 256 + row.kind) as i64,
                time: time as i64,
                tx: row.tx as i64,
                rx: row.rx as i64,
            },
    );
}

/// The identifier is the row's, and the row has traffic.
spec fn records(row: Row, tid: i64) -> bool {
    (row.tx != 0 || row.rx != 0) && (row.uid * 256 + row.kind) as i64 == tid
}

/// `Last` holds the time of the refresh for each identifier of which there was traffic, and for the
/// others what it held.
pub proof fn law_last(tables: Tables, time: u64, last_time: u64, rows: Seq<Row>, tid: i64)
    ensures
        ({
            let after = recorded(tables, time, last_time, rows);
            let active = exists|i: int|
                0 <= i < rows.len() && ((#[trigger] rows[i]).tx != 0 || rows[i].rx != 0) && (
                rows[i].uid * 256 + rows[i].kind) as i64 == tid;
            &&& active ==> after.last.contains_key(tid) && after.last[tid] == time as i64
            &&& !active ==> after.last.contains_key(tid) == tables.last.contains_key(tid)
            &&& !active && tables.last.contains_key(tid) ==> after.last[tid] == tables.last[tid]
        }),
    decreases rows.len(),
{
    if rows.len() > 0 {
        let rest = rows.drop_last();
        law_last(tables, time, last_time, rest, tid);
        assert(rows[rows.len() - 1] == rows.last());
        assert(forall|i: int| 0 <= i < rest.len() ==> (#[trigger] rest[i]) == rows[i]);
        assert(forall|i: int| 0 <= i < rest.len() ==> (#[trigger] rows[i]) == rest[i]);
        if exists|i: int| 0 <= i < rows.len() && records(#[trigger] rows[i], tid) {
            let i = choose|i: int| 0 <= i < rows.len() && records(#[trigger] rows[i], tid);
            assert(records(rows[i], tid));
            if i < rest.len() {
                assert(records(rest[i], tid));
            }
        }
    }
}

/// The zeros among the records that are added, in the words of [`law_zeros`].
spec fn zeros_hold(tables: Tables, time: u64, last_time: u64, after: Tables) -> bool {
    let count = tables.records.len() as int;
    let all = after.records;
    &&& forall|i: int|
        #![trigger all[i]]
        count <= i < all.len() && all[i].time != time ==> {
            &&& last_time > 0
            &&& all[i].time == last_time && all[i].tx == 0 && all[i].rx == 0
            &&& i + 1 < all.len()
            &&& all[i + 1].tid == all[i].tid && all[i + 1].time == time
            &&& !(tables.last.contains_key(all[i].tid) && tables.last[all[i].tid] >= last_time)
            &&& forall|k: int| count <= k < i ==> (#[trigger] all[k]).tid != all[i].tid
        }
    &&& forall|i: int|
        #![trigger all[i]]
        count <= i < all.len() && all[i].time == time && last_time > 0 && !(
        tables.last.contains_key(all[i].tid) && tables.last[all[i].tid] >= last_time) ==> exists|
            k: int,
        | count <= k < i && (#[trigger] all[k]).tid == all[i].tid && all[k].time == last_time
}

/// The tables agree on an identifier unless it was recorded.
spec fn touched(tables: Tables, time: u64, after: Tables, tid: i64) -> bool {
    let count = tables.records.len() as int;
    if exists|i: int| count <= i < after.records.len() && (#[trigger] after.records[i]).tid == tid {
        after.last.contains_key(tid) && after.last[tid] == time
    } else {
        after.last.contains_key(tid) == tables.last.contains_key(tid) && (
        tables.last.contains_key(tid) ==> after.last[tid] == tables.last[tid])
    }
}

proof fn lemma_zeros(tables: Tables, time: u64, last_time: u64, rows: Seq<Row>)
    requires
        last_time < time <= i64::MAX,
    ensures
        ({
            let after = recorded(tables, time, last_time, rows);
            &&& tables.records.len() <= after.records.len()
            &&& zeros_hold(tables, time, last_time, after)
            &&& forall|tid: i64| #[trigger] touched(tables, time, after, tid)
        }),
    decreases rows.len(),
{
    let after = recorded(tables, time, last_time, rows);
    if rows.len() == 0 {
        assert forall|tid: i64| #[trigger] touched(tables, time, after, tid) by {}
    } else {
        let before = recorded(tables, time, last_time, rows.drop_last());
        lemma_zeros(tables, time, last_time, rows.drop_last());
        lemma_zeros_row(tables, time, last_time, before, rows.last());
    }
}

proof fn lemma_zeros_row(tables: Tables, time: u64, last_time: u64, before: Tables, row: Row)
    requires
        last_time < time <= i64::MAX,
        tables.records.len() <= before.records.len(),
        zeros_hold(tables, time, last_time, before),
        forall|tid: i64| #[trigger] touched(tables, time, before, tid),
    ensures
        ({
            let after = recorded_row(before, time, last_time, row);
            &&& tables.records.len() <= after.records.len()
            &&& zeros_hold(tables, time, last_time, after)
            &&& forall|tid: i64| #[trigger] touched(tables, time, after, tid)
        }),
{
    let after = recorded_row(before, time, last_time, row);
    if !row.idle() {
        let count = tables.records.len() as int;
        let total = before.records.len() as int;
        let end = after.records.len() as int;
        let own = row.tid() as i64;
        let all = after.records;
        assert(touched(tables, time, before, own));
        assert(forall|i: int| 0 <= i < total ==> (#[trigger] all[i]) == before.records[i]);
        assert(all[end - 1].tid == own && all[end - 1].time == time);
        assert forall|tid: i64| #[trigger] touched(tables, time, after, tid) by {
            assert(touched(tables, time, before, tid));
            if tid != own {
                if exists|i: int| count <= i < end && (#[trigger] all[i]).tid == tid {
                    let i = choose|i: int| count <= i < end && (#[trigger] all[i]).tid == tid;
                    assert(before.records[i].tid == tid);
                }
                if exists|i: int| count <= i < total && (#[trigger] before.records[i]).tid == tid {
                    let i = choose|i: int|
                        count <= i < total && (#[trigger] before.records[i]).tid == tid;
                    assert(all[i].tid == tid);
                }
            }
        }
        assert forall|i: int|
            #![trigger all[i]]
            count <= i < end && all[i].time != time implies {
            &&& last_time > 0
            &&& all[i].time == last_time && all[i].tx == 0 && all[i].rx == 0
            &&& i + 1 < end
            &&& all[i + 1].tid == all[i].tid && all[i + 1].time == time
            &&& !(tables.last.contains_key(all[i].tid) && tables.last[all[i].tid] >= last_time)
            &&& forall|k: int| count <= k < i ==> (#[trigger] all[k]).tid != all[i].tid
        } by {
            if i < total {
                assert(before.records[i] == all[i]);
                assert(before.records[i + 1] == all[i + 1]);
                assert forall|k: int| count <= k < i implies (#[trigger] all[k]).tid != all[i].tid by {
                    assert(before.records[k].tid != before.records[i].tid);
                }
            } else {
                assert(i == total && end == total + 2);
                assert(before.last_of(own) < last_time);
                assert forall|k: int| count <= k < i implies (#[trigger] all[k]).tid != own by {
                    assert(before.records[k] == all[k]);
                }
            }
        }
        assert forall|i: int|
            #![trigger all[i]]
            count <= i < end && all[i].time == time && last_time > 0 && !(
            tables.last.contains_key(all[i].tid) && tables.last[all[i].tid]
                >= last_time) implies exists|k: int|
            count <= k < i && (#[trigger] all[k]).tid == all[i].tid && all[k].time == last_time by {
            if i < total {
                assert(before.records[i] == all[i]);
                let k = choose|k: int|
                    count <= k < i && (#[trigger] before.records[k]).tid == before.records[i].tid
                        && before.records[k].time == last_time;
                assert(all[k] == before.records[k]);
            } else {
                assert(all[i].tid == own);
                if end == total + 2 {
                    assert(all[total].tid == own && all[total].time == last_time);
                } else {
                    assert(before.last_of(own) >= last_time);
                    let j = choose|j: int|
                        count <= j < total && (#[trigger] before.records[j]).tid == own;
                    assert(before.records[j].tid == own);
                    if before.records[j].time == time {
                        let k = choose|k: int|
                            count <= k < j && (#[trigger] before.records[k]).tid
                                == before.records[j].tid && before.records[k].time == last_time;
                        assert(all[k] == before.records[k]);
                    } else {
                        assert(all[j] == before.records[j]);
                    }
                }
            }
        }
    }
}

/// Zeros are recorded for the last successful refresh exactly where an identifier with traffic was
/// missing then: each stands right before the first record of its identifier, whose last record was
/// before that refresh or which had none; and no such identifier goes without.
pub proof fn law_zeros(tables: Tables, time: u64, last_time: u64, rows: Seq<Row>)
    requires
        last_time < time <= i64::MAX,
    ensures
        ({
            let all = recorded(tables, time, last_time, rows).records;
            let count = tables.records.len() as int;
            &&& forall|i: int|
                #![trigger all[i]]
                count <= i < all.len() && all[i].time != time ==> {
                    &&& last_time > 0
                    &&& all[i].time == last_time && all[i].tx == 0 && all[i].rx == 0
                    &&& i + 1 < all.len()
                    &&& all[i + 1].tid == all[i].tid && all[i + 1].time == time
                    &&& !(tables.last.contains_key(all[i].tid) && tables.last[all[i].tid]
                        >= last_time)
                    &&& forall|k: int| count <= k < i ==> (#[trigger] all[k]).tid != all[i].tid
                }
            &&& forall|i: int|
                #![trigger all[i]]
                count <= i < all.len() && all[i].time == time && last_time > 0 && !(
                tables.last.contains_key(all[i].tid) && tables.last[all[i].tid] >= last_time)
                    ==> exists|k: int|
                    count <= k < i && (#[trigger] all[k]).tid == all[i].tid && all[k].time
                        == last_time
        }),
{
    lemma_zeros(tables, time, last_time, rows);
}

/// A refresh that has finished has recorded every sample with traffic of either source, at its time
/// and under the identifier of the user and the source. Without the first source it has recorded
/// nothing.
pub proof fn law_every_sample_is_recorded(
    tables: Tables,
    ctx: RefreshContext,
    last_month: Option<u8>,
    xray: Option<Seq<(u32, u64, u64)>>,
    hysteria: Option<Seq<(u32, u64, u64)>>,
    n: nat,
    i: int,
)
    requires
        ctx.wf(),
        run(
            RefreshState::start(ctx, last_month, xray, hysteria),
            Store { tables, saved: None },
            n,
        ).0.action() == Action::Finish,
    ensures
        ({
            let after = run(
                RefreshState::start(ctx, last_month, xray, hysteria),
                Store { tables, saved: None },
                n,
            ).1.kept();
            &&& (xray matches Some(x) && 0 <= i < x.len() && (x[i].1 != 0 || x[i].2 != 0))
                ==> after.records.contains(
                Record {
                    tid: ((xray->0)[i].0 * 256) as i64,
                    time: ctx.time as i64,
                    tx: (xray->0)[i].1 as i64,
                    rx: (xray->0)[i].2 as i64,
                },
            )
            &&& xray is Some && (hysteria matches Some(h) && 0 <= i < h.len() && (h[i].1 != 0
                || h[i].2 != 0)) ==> after.records.contains(
                Record {
                    tid: ((hysteria->0)[i].0 * 256 + 1) as i64,
                    time: ctx.time as i64,
                    tx: (hysteria->0)[i].1 as i64,
                    rx: (hysteria->0)[i].2 as i64,
                },
            )
            &&& xray is None ==> after.records == tables.records && after.last == tables.last
        }),
{
    let first = RefreshState::start(ctx, last_month, xray, hysteria);
    let new_month = crate::store::is_new_month(ctx, last_month);
    let rows = crate::refresh::plan(xray, hysteria);
    crate::store::law_refresh_cut_short(tables, ctx, last_month, xray, hysteria, n);
    crate::refresh::law_start(ctx, last_month, xray, hysteria);
    crate::store::lemma_refreshed_records(tables, first, new_month);
    crate::refresh::law_plan(xray, hysteria);
    let after = refreshed(tables, first, new_month);
    if let Some(x) = xray {
        if 0 <= i < x.len() && (x[i].1 != 0 || x[i].2 != 0) {
            assert(rows[i].uid == x[i].0);
            crate::ledger::law_rows_are_recorded(tables, ctx.time, ctx.last_time, rows, i);
        }
        if let Some(h) = hysteria {
            if 0 <= i < h.len() && (h[i].1 != 0 || h[i].2 != 0) {
                let k = x.len() + i;
                assert(rows[k].uid == h[i].0);
                crate::ledger::law_rows_are_recorded(tables, ctx.time, ctx.last_time, rows, k);
            }
        }
    }
}

/// The sum over samples of one source.
proof fn lemma_sum_of_samples(
    samples: Seq<(u32, u64, u64)>,
    kind: u8,
    uid: u32,
    summed: spec_fn(int, (u32, u64, u64)) -> int,
)
    requires
        forall|sum: int, sample: (u32, u64, u64)| #[trigger]
            summed(sum, sample) == sum + if sample.0 == uid {
                sample.1 + sample.2
            } else {
                0
            },
    ensures
        crate::refresh::sum_of(crate::refresh::rows_of(samples, kind), uid) == samples.fold_left(
            0int,
            summed,
        ),
    decreases samples.len(),
{
    let rows = crate::refresh::rows_of(samples, kind);
    if samples.len() > 0 {
        lemma_sum_of_samples(samples.drop_last(), kind, uid, summed);
        assert(rows.drop_last() =~= crate::refresh::rows_of(samples.drop_last(), kind));
        assert(summed(samples.drop_last().fold_left(0int, summed), samples.last())
            == samples.drop_last().fold_left(0int, summed) + if samples.last().0 == uid {
            samples.last().1 + samples.last().2
        } else {
            0
        });
    }
}

/// Sums over rows that come one after the other.
proof fn lemma_sum_of_parts(rows: Seq<Row>, more: Seq<Row>, uid: u32)
    ensures
        crate::refresh::sum_of(rows + more, uid) == crate::refresh::sum_of(rows, uid)
            + crate::refresh::sum_of(more, uid),
    decreases more.len(),
{
    if more.len() == 0 {
        assert(rows + more =~= rows);
    } else {
        assert((rows + more).drop_last() =~= rows + more.drop_last());
        lemma_sum_of_parts(rows, more.drop_last(), uid);
    }
}

/// A refresh that has finished has raised the monthly sum of each user by all that the samples of
/// either source say that the user sent and received, counted from zero if the month has changed.
/// It has noted its time exactly if both sources answered.
pub proof fn law_every_sample_counts(
    tables: Tables,
    ctx: RefreshContext,
    last_month: Option<u8>,
    x: Seq<(u32, u64, u64)>,
    hysteria: Option<Seq<(u32, u64, u64)>>,
    n: nat,
    uid: u32,
)
    requires
        ctx.wf(),
        run(
            RefreshState::start(ctx, last_month, Some(x), hysteria),
            Store { tables, saved: None },
            n,
        ).0.action() == Action::Finish,
        crate::refresh::sum_of(crate::refresh::plan(Some(x), hysteria), uid) <= i64::MAX,
    ensures
        ({
            let after = run(
                RefreshState::start(ctx, last_month, Some(x), hysteria),
                Store { tables, saved: None },
                n,
            ).1.kept();
            let key = uid as i32;
            let sent = x.fold_left(
                0int,
                |sum: int, sample: (u32, u64, u64)|
                    sum + if sample.0 == uid {
                        sample.1 + sample.2
                    } else {
                        0
                    },
            ) + match hysteria {
                Some(h) => h.fold_left(
                    0int,
                    |sum: int, sample: (u32, u64, u64)|
                        sum + if sample.0 == uid {
                            sample.1 + sample.2
                        } else {
                            0
                        },
                ),
                None => 0int,
            };
            let changed = if ctx.last_time > 0 {
                last_month != Some(ctx.month)
            } else {
                ctx.month != 0
            };
            let before = if !changed && tables.months.contains_key(key) {
                tables.months[key]
            } else {
                0int
            };
            &&& after.months.contains_key(key) ==> after.months[key] == before + sent
            &&& !after.months.contains_key(key) ==> sent == 0 && !tables.months.contains_key(key)
            &&& after.meta == if hysteria is Some {
                Some(ctx.time as i64)
            } else {
                tables.meta
            }
        }),
{
    let first = RefreshState::start(ctx, last_month, Some(x), hysteria);
    let new_month = crate::store::is_new_month(ctx, last_month);
    let summed = |sum: int, sample: (u32, u64, u64)|
        sum + if sample.0 == uid {
            sample.1 + sample.2
        } else {
            0
        };
    crate::store::law_refresh_cut_short(tables, ctx, last_month, Some(x), hysteria, n);
    crate::refresh::law_start(ctx, last_month, Some(x), hysteria);
    crate::ledger::law_month_sums(tables, first, new_month, uid);
    crate::ledger::law_month_keys(tables, first, new_month, uid);
    crate::store::law_meta(tables, first, new_month);
    crate::refresh::lemma_cast(uid, 0);
    lemma_sum_of_samples(x, crate::lark::KIND_XRAY, uid, summed);
    if let Some(h) = hysteria {
        lemma_sum_of_samples(h, crate::lark::KIND_HYSTERIA, uid, summed);
        lemma_sum_of_parts(
            crate::refresh::rows_of(x, crate::lark::KIND_XRAY),
            crate::refresh::rows_of(h, crate::lark::KIND_HYSTERIA),
            uid,
        );
    }
}

/// A refresh whose actions succeed comes to an end. It finishes exactly if the month of the last
/// successful one can be told, the totals fit, and of each row with traffic the counters and the
/// time fit the database's integers and the identifier has no negative last time; the time must also
/// fit if both sources answered.
pub proof fn law_finishing(
    tables: Tables,
    ctx: RefreshContext,
    last_month: Option<u8>,
    xray: Option<Seq<(u32, u64, u64)>>,
    hysteria: Option<Seq<(u32, u64, u64)>>,
)
    requires
        ctx.wf(),
    ensures
        ({
            let first = RefreshState::start(ctx, last_month, xray, hysteria);
            let rows = crate::refresh::plan(xray, hysteria);
            let last = run(first, Store { tables, saved: None }, actions_left(first)).0.action();
            &&& last == Action::Finish || last is Panic
            &&& last == Action::Finish <==> {
                &&& ctx.last_time > 0 ==> last_month is Some
                &&& crate::refresh::fits(rows)
                &&& forall|i: int|
                    #![trigger rows[i]]
                    0 <= i < rows.len() && (rows[i].tx != 0 || rows[i].rx != 0) ==> {
                        let tid = (rows[i].uid * 256 + rows[i].kind) as i64;
                        &&& ctx.time <= i64::MAX
                        &&& rows[i].tx <= i64::MAX && rows[i].rx <= i64::MAX
                        &&& ctx.last_time > 0 && tables.last.contains_key(tid)
                            ==> tables.last[tid] >= 0
                    }
                &&& xray is Some && hysteria is Some ==> ctx.time <= i64::MAX
            }
        }),
{
    let first = RefreshState::start(ctx, last_month, xray, hysteria);
    let planned = RefreshState::planned(ctx, xray, hysteria);
    let rows = crate::refresh::plan(xray, hysteria);
    crate::store::law_refresh(tables, ctx, last_month, xray, hysteria);
    crate::store::law_refresh_finishes(tables, ctx, last_month, xray, hysteria);
    assert forall|i: int| 0 <= i < rows.len() implies (crate::store::recordable(
        tables,
        planned,
        #[trigger] rows[i],
    ) <==> ((rows[i].tx != 0 || rows[i].rx != 0) ==> {
        let tid = (rows[i].uid * 256 + rows[i].kind) as i64;
        &&& ctx.time <= i64::MAX
        &&& rows[i].tx <= i64::MAX && rows[i].rx <= i64::MAX
        &&& ctx.last_time > 0 && tables.last.contains_key(tid) ==> tables.last[tid] >= 0
    })) by {}
}

} // verus!
