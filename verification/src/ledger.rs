//! What the tables are good for: the monthly sums agree with the records, and each identifier's
//! records are in order and without gaps.
use vstd::prelude::*;

use crate::casts::{as_i32, as_i64, as_u64};
use crate::refresh::{RefreshState, Row};
use crate::report::{Month, Record, ReportedRecord};
use crate::store::{credited, opening, recorded, recorded_row, refreshed, Tables};

verus! {

/// How much `credits` raises the sum of `uid`.
pub open spec fn raise_of(credits: Seq<(u32, u64)>, uid: u32) -> int
    decreases credits.len(),
{
    if credits.len() == 0 {
        0
    } else {
        raise_of(credits.drop_last(), uid) + if credits.last().0 == uid {
            as_i64(credits.last().1)
        } else {
            0
        }
    }
}

proof fn lemma_credited(tables: Tables, credits: Seq<(u32, u64)>, uid: u32)
    ensures
        credited(tables, credits).month_of(as_i32(uid) as i32) == tables.month_of(
            as_i32(uid) as i32,
        ) + raise_of(credits, uid),
    decreases credits.len(),
{
    if credits.len() > 0 {
        lemma_credited(tables, credits.drop_last(), uid);
        let other = credits.last().0;
        assert((as_i32(other) as i32 == as_i32(uid) as i32) == (other == uid));
    }
}

proof fn lemma_raise_below(m: Map<u32, u64>, bound: nat, uid: u32)
    requires
        bound <= 0x1_0000_0000,
    ensures
        raise_of(crate::listing::entries_below(m, bound), uid) == if uid < bound && m.contains_key(
            uid,
        ) {
            as_i64(m[uid])
        } else {
            0
        },
    decreases bound,
{
    if bound > 0 {
        let below = (bound - 1) as nat;
        let key = below as u32;
        lemma_raise_below(m, below, uid);
        if m.contains_key(key) {
            let smaller = crate::listing::entries_below(m, below);
            assert(smaller.push((key, m[key])).drop_last() =~= smaller);
        }
    }
}

/// A refresh raises the monthly sum of each user by what the user sent and received, counted from
/// zero if the month is new. What does not fit the database's integers wraps around.
pub proof fn law_month_sums(tables: Tables, state: RefreshState, new_month: bool, uid: u32)
    requires
        crate::refresh::sum_of(state.rows, uid) <= u64::MAX,
    ensures
        ({
            let sum = crate::refresh::sum_of(state.rows, uid);
            let raised = refreshed(tables, state, new_month).month_of(as_i32(uid) as i32) - (
            if new_month {
                0
            } else {
                tables.month_of(as_i32(uid) as i32)
            });
            &&& raised == as_i64(sum as u64)
            &&& sum <= i64::MAX ==> raised == sum
        }),
{
    let opened = opening(tables, new_month);
    let done = recorded(opened, state.time, state.last_time, state.rows);
    let sums = crate::refresh::sums(state.rows);
    crate::store::lemma_recorded_frame(opened, state.time, state.last_time, state.rows);
    lemma_credited(done, crate::refresh::credits(state.rows), uid);
    lemma_raise_below(sums, 0x1_0000_0000, uid);
    if !crate::refresh::seen(state.rows, uid) {
        crate::refresh::lemma_unseen(state.rows, uid);
    }
}

proof fn lemma_credited_keys(tables: Tables, credits: Seq<(u32, u64)>, uid: u32)
    ensures
        credited(tables, credits).months.contains_key(as_i32(uid) as i32) <==> {
            ||| tables.months.contains_key(as_i32(uid) as i32)
            ||| exists|i: int| 0 <= i < credits.len() && (#[trigger] credits[i]).0 == uid
        },
    decreases credits.len(),
{
    if credits.len() > 0 {
        let rest = credits.drop_last();
        let other = credits.last().0;
        lemma_credited_keys(tables, rest, uid);
        assert((as_i32(other) as i32 == as_i32(uid) as i32) == (other == uid));
        assert(credits[credits.len() - 1].0 == other);
        assert(forall|i: int| 0 <= i < rest.len() ==> (#[trigger] credits[i]).0 == rest[i].0);
        assert(forall|i: int| 0 <= i < rest.len() ==> (#[trigger] rest[i]).0 == credits[i].0);
    }
}

/// After a refresh, `Month` has a row for each user that it had one for, and for each that the
/// refresh was about, idle or not.
pub proof fn law_month_keys(tables: Tables, state: RefreshState, new_month: bool, uid: u32)
    ensures
        refreshed(tables, state, new_month).months.contains_key(as_i32(uid) as i32) <==> {
            ||| tables.months.contains_key(as_i32(uid) as i32)
            ||| crate::refresh::seen(state.rows, uid)
        },
{
    let opened = opening(tables, new_month);
    let done = recorded(opened, state.time, state.last_time, state.rows);
    let sums = crate::refresh::sums(state.rows);
    let credits = crate::refresh::credits(state.rows);
    crate::store::lemma_recorded_frame(opened, state.time, state.last_time, state.rows);
    lemma_credited_keys(done, credits, uid);
    crate::listing::lemma_entries_lists(sums);
    if crate::refresh::seen(state.rows, uid) {
        assert(sums.contains_key(uid));
    }
    if exists|i: int| 0 <= i < credits.len() && (#[trigger] credits[i]).0 == uid {
        let i = choose|i: int| 0 <= i < credits.len() && (#[trigger] credits[i]).0 == uid;
        assert(sums.contains_key(credits[i].0));
    }
}

/// Rows that are recorded in two parts are recorded as they would be in one.
pub proof fn law_parts(tables: Tables, time: u64, last_time: u64, rows: Seq<Row>, more: Seq<Row>)
    ensures
        recorded(tables, time, last_time, rows + more) == recorded(
            recorded(tables, time, last_time, rows),
            time,
            last_time,
            more,
        ),
    decreases more.len(),
{
    if more.len() == 0 {
        assert(rows + more =~= rows);
    } else {
        assert((rows + more).drop_last() =~= rows + more.drop_last());
        law_parts(tables, time, last_time, rows, more.drop_last());
    }
}

/// How much the records say that `uid` sent and received.
pub open spec fn entries_sum(records: Seq<Record>, uid: u32) -> int
    decreases records.len(),
{
    if records.len() == 0 {
        0
    } else {
        entries_sum(records.drop_last(), uid) + if records.last().tid / 0x100 == uid {
            records.last().tx + records.last().rx
        } else {
            0
        }
    }
}

proof fn lemma_recorded_row_sum(tables: Tables, time: u64, last_time: u64, row: Row, uid: u32)
    requires
        row.uid == uid ==> row.storable(),
    ensures
        ({
            let after = recorded_row(tables, time, last_time, row);
            &&& entries_sum(after.records, uid) == entries_sum(tables.records, uid) + (
            if row.uid == uid {
                row.tx + row.rx
            } else {
                0
            })
            &&& tables.records.is_prefix_of(after.records)
        }),
{
    let tid = row.tid() as i64;
    let entry = Record { tid, time: time as i64, tx: row.tx as i64, rx: row.rx as i64 };
    let zero = Record { tid, time: last_time as i64, tx: 0, rx: 0 };
    crate::lark::lemma_tid_parts(row.uid, row.kind);
    assert(tables.records.push(entry).drop_last() =~= tables.records);
    assert(tables.records.push(zero).drop_last() =~= tables.records);
    assert(entries_sum(tables.records.push(zero), uid) == entries_sum(tables.records, uid));
    assert(tables.records.push(zero).push(entry).drop_last() =~= tables.records.push(zero));
    let after = recorded_row(tables, time, last_time, row);
    assert(after.records.take(tables.records.len() as int) =~= tables.records);
}

/// The records keep what they held, and grow by what was sent and received: for each user the sum
/// over the records grows by as much as the monthly sum does ([`law_month_sums`]).
pub proof fn law_records(tables: Tables, time: u64, last_time: u64, rows: Seq<Row>, uid: u32)
    requires
        forall|i: int|
            0 <= i < rows.len() && (#[trigger] rows[i]).uid == uid ==> rows[i].storable(),
    ensures
        ({
            let after = recorded(tables, time, last_time, rows);
            &&& entries_sum(after.records, uid) == entries_sum(tables.records, uid)
                + crate::refresh::sum_of(rows, uid)
            &&& tables.records.is_prefix_of(after.records)
        }),
    decreases rows.len(),
{
    if rows.len() > 0 {
        let rest = rows.drop_last();
        law_records(tables, time, last_time, rest, uid);
        assert(rows[rows.len() - 1] == rows.last());
        lemma_recorded_row_sum(
            recorded(tables, time, last_time, rest),
            time,
            last_time,
            rows.last(),
            uid,
        );
    }
}

/// Every row that is not idle is recorded, with its identifier, its counters and the time of the
/// refresh.
pub proof fn law_rows_are_recorded(
    tables: Tables,
    time: u64,
    last_time: u64,
    rows: Seq<Row>,
    i: int,
)
    requires
        0 <= i < rows.len(),
        !rows[i].idle(),
    ensures
        recorded(tables, time, last_time, rows).records.contains(
            Record {
                tid: rows[i].tid() as i64,
                time: time as i64,
                tx: rows[i].tx as i64,
                rx: rows[i].rx as i64,
            },
        ),
    decreases rows.len(),
{
    let record = Record {
        tid: rows[i].tid() as i64,
        time: time as i64,
        tx: rows[i].tx as i64,
        rx: rows[i].rx as i64,
    };
    let before = recorded(tables, time, last_time, rows.drop_last()).records;
    let after = recorded(tables, time, last_time, rows).records;
    if i < rows.len() - 1 {
        law_rows_are_recorded(tables, time, last_time, rows.drop_last(), i);
        let k = choose|k: int| 0 <= k < before.len() && before[k] == record;
        assert(after[k] == record);
    } else {
        assert(after[after.len() - 1] == record);
    }
}

/// Counters whose sum fits the database's integers fit them too.
proof fn lemma_sum_storable(rows: Seq<Row>, uid: u32, i: int)
    requires
        crate::refresh::sum_of(rows, uid) <= i64::MAX,
        0 <= i < rows.len(),
        rows[i].uid == uid,
    ensures
        rows[i].storable(),
    decreases rows.len(),
{
    if i < rows.len() - 1 {
        lemma_sum_storable(rows.drop_last(), uid, i);
    }
}

/// Over a refresh the monthly sum of each user, counted from zero if the month is new, grows by as
/// much as the sum over the user's records.
pub proof fn law_sums_agree(tables: Tables, state: RefreshState, new_month: bool, uid: u32)
    requires
        crate::refresh::sum_of(state.rows, uid) <= i64::MAX,
    ensures
        ({
            let after = refreshed(tables, state, new_month);
            let key = as_i32(uid) as i32;
            after.month_of(key) - (if new_month {
                0
            } else {
                tables.month_of(key)
            }) == entries_sum(after.records, uid) - entries_sum(tables.records, uid)
        }),
{
    law_month_sums(tables, state, new_month, uid);
    assert forall|i: int|
        0 <= i < state.rows.len() && (#[trigger] state.rows[i]).uid
            == uid implies state.rows[i].storable() by {
        lemma_sum_storable(state.rows, uid, i);
    }
    law_records(tables, state.time, state.last_time, state.rows, uid);
    crate::store::lemma_refreshed_records(tables, state, new_month);
}

/// The records of each identifier are in order of time, and `Last` holds the time of the last.
pub open spec fn in_order(tables: Tables) -> bool {
    let records = tables.records;
    &&& forall|i: int, j: int|
        0 <= i < j < records.len() && records[i].tid == records[j].tid ==> records[i].time
            <= records[j].time
    &&& forall|i: int|
        #![trigger records[i]]
        0 <= i < records.len() ==> tables.last.contains_key(records[i].tid) && records[i].time
            <= tables.last[records[i].tid]
    &&& forall|tid: i64| #[trigger]
        tables.last.contains_key(tid) ==> exists|i: int|
            0 <= i < records.len() && (#[trigger] records[i]).tid == tid && records[i].time
                == tables.last[tid]
}

/// Nothing was recorded later than `time`.
pub open spec fn recorded_by(tables: Tables, time: u64) -> bool {
    forall|tid: i64| #[trigger] tables.last.contains_key(tid) ==> tables.last[tid] <= time
}

/// The clock has not gone back behind the last record of the row's identifier.
pub open spec fn follows(tables: Tables, time: u64, row: Row) -> bool {
    row.idle() || tables.last_of(row.tid() as i64) <= time
}

proof fn lemma_in_order_row(tables: Tables, time: u64, last_time: u64, row: Row)
    requires
        in_order(tables),
        follows(tables, time, row),
        last_time < time <= i64::MAX,
    ensures
        in_order(recorded_row(tables, time, last_time, row)),
{
    let after = recorded_row(tables, time, last_time, row);
    if !row.idle() {
        let own = row.tid() as i64;
        let count = tables.records.len();
        let total = after.records.len();
        assert(after.records[total - 1].tid == own && after.records[total - 1].time == time);
        assert forall|tid: i64| #[trigger] after.last.contains_key(tid) implies exists|i: int|
            0 <= i < total && (#[trigger] after.records[i]).tid == tid && after.records[i].time
                == after.last[tid] by {
            if tid != own {
                assert(tables.last.contains_key(tid));
                let i = choose|i: int|
                    0 <= i < count && (#[trigger] tables.records[i]).tid == tid
                        && tables.records[i].time == tables.last[tid];
                assert(after.records[i] == tables.records[i]);
            }
        }
        assert forall|i: int, j: int|
            0 <= i < j < total && after.records[i].tid == after.records[j].tid implies after.records[i].time
            <= after.records[j].time by {
            if i < count {
                assert(after.records[i] == tables.records[i]);
            }
            if j < count {
                assert(after.records[j] == tables.records[j]);
            }
        }
        assert forall|i: int|
            #![trigger after.records[i]]
            0 <= i < total implies after.last.contains_key(after.records[i].tid)
            && after.records[i].time <= after.last[after.records[i].tid] by {
            if i < count {
                assert(after.records[i] == tables.records[i]);
            }
        }
    }
}

/// Where the clock has not gone back behind an identifier's last record, it has not after others
/// were recorded either.
proof fn lemma_still_follows(tables: Tables, time: u64, last_time: u64, rows: Seq<Row>, row: Row)
    requires
        follows(tables, time, row),
        time <= i64::MAX,
    ensures
        follows(recorded(tables, time, last_time, rows), time, row),
    decreases rows.len(),
{
    if rows.len() > 0 {
        lemma_still_follows(tables, time, last_time, rows.drop_last(), row);
    }
}

/// Recording at `time` records nothing later.
proof fn lemma_recorded_by(tables: Tables, time: u64, last_time: u64, rows: Seq<Row>)
    requires
        recorded_by(tables, time),
        time <= i64::MAX,
    ensures
        recorded_by(recorded(tables, time, last_time, rows), time),
    decreases rows.len(),
{
    if rows.len() > 0 {
        lemma_recorded_by(tables, time, last_time, rows.drop_last());
    }
}

/// While the clock does not go back behind the last record of an identifier that is recorded, each
/// identifier's records stay in order of time.
pub proof fn law_in_order(tables: Tables, time: u64, last_time: u64, rows: Seq<Row>)
    requires
        in_order(tables),
        forall|i: int| 0 <= i < rows.len() ==> follows(tables, time, #[trigger] rows[i]),
        last_time < time <= i64::MAX,
    ensures
        in_order(recorded(tables, time, last_time, rows)),
    decreases rows.len(),
{
    if rows.len() > 0 {
        let rest = rows.drop_last();
        assert forall|i: int| 0 <= i < rest.len() implies follows(
            tables,
            time,
            #[trigger] rest[i],
        ) by {
            assert(rest[i] == rows[i]);
        }
        law_in_order(tables, time, last_time, rest);
        assert(follows(tables, time, rows[rows.len() - 1]));
        lemma_still_follows(tables, time, last_time, rest, rows.last());
        lemma_in_order_row(
            recorded(tables, time, last_time, rest),
            time,
            last_time,
            rows.last(),
        );
    }
}

/// Once there was a successful refresh, a new record is preceded by one of the same identifier
/// that is not older than that refresh: traffic is never attributed to more than the time since.
pub proof fn law_no_gap(tables: Tables, time: u64, last_time: u64, row: Row)
    requires
        in_order(tables),
        0 < last_time <= i64::MAX,
        !row.idle(),
    ensures
        ({
            let records = recorded_row(tables, time, last_time, row).records;
            &&& records.last().tid == row.tid()
            &&& exists|i: int|
                0 <= i < records.len() - 1 && (#[trigger] records[i]).tid == row.tid() && last_time
                    <= records[i].time
        }),
{
    crate::lark::lemma_tid_parts(row.uid, row.kind);
    let tid = row.tid() as i64;
    let records = recorded_row(tables, time, last_time, row).records;
    let count = tables.records.len() as int;
    if tables.last_of(tid) < last_time {
        assert(records[count].tid == tid && records[count].time == last_time);
    } else {
        let i = choose|i: int|
            0 <= i < count && (#[trigger] tables.records[i]).tid == tid && tables.records[i].time
                == tables.last[tid];
        assert(records[i] == tables.records[i]);
    }
}

/// `months` are the rows of the table `Month`, in some order.
pub open spec fn are_months(months: Seq<Month>, tables: Tables) -> bool {
    &&& forall|i: int|
        #![trigger months[i]]
        0 <= i < months.len() ==> {
            &&& i32::MIN <= months[i].uid <= i32::MAX
            &&& tables.months.contains_key(months[i].uid as i32)
            &&& tables.months[months[i].uid as i32] == months[i].sum
        }
    &&& forall|uid: i32| #[trigger]
        tables.months.contains_key(uid) ==> exists|i: int|
            0 <= i < months.len() && (#[trigger] months[i]).uid == uid
}

/// The first `n` rows report what the table holds of a user, if the user's row is among them.
proof fn lemma_month_sum(tables: Tables, months: Seq<Month>, n: int, uid: u32)
    requires
        are_months(months, tables),
        0 <= n <= months.len(),
    ensures
        crate::report::month_sum(months.take(n), uid) == if exists|i: int|
            0 <= i < n && (#[trigger] months[i]).uid == as_i32(uid) {
            as_u64(tables.month_of(as_i32(uid) as i32) as i64)
        } else {
            0
        },
    decreases n,
{
    if n > 0 {
        lemma_month_sum(tables, months, n - 1, uid);
        assert(months.take(n).drop_last() =~= months.take(n - 1));
        let last = months[n - 1];
        assert(months.take(n).last() == last);
        if last.uid == as_i32(uid) {
            crate::casts::law_u32_round_trip(uid, last.uid);
        } else {
            assert(crate::casts::as_u32(last.uid) != uid);
        }
    } else {
        assert(months.take(0) =~= Seq::empty());
    }
}

/// What is reported as a user's monthly sum is what the table holds of the user.
proof fn lemma_months_reported(tables: Tables, months: Seq<Month>, uid: u32)
    requires
        are_months(months, tables),
    ensures
        i64::MIN <= tables.month_of(as_i32(uid) as i32) <= i64::MAX,
        crate::report::month_sum(months, uid) == as_u64(
            tables.month_of(as_i32(uid) as i32) as i64,
        ),
{
    let key = as_i32(uid) as i32;
    lemma_month_sum(tables, months, months.len() as int, uid);
    assert(months.take(months.len() as int) =~= months);
    if tables.months.contains_key(key) {
        let i = choose|i: int| 0 <= i < months.len() && (#[trigger] months[i]).uid == key;
        assert(months[i].uid == as_i32(uid));
    }
}

/// What a query reports as a user's monthly sum is what the refreshes of the month have recorded:
/// after a refresh it is what it was before, or nothing if the month is new, and what the user sent
/// and received since.
pub proof fn law_month_read_back(
    tables: Tables,
    state: RefreshState,
    new_month: bool,
    months: Seq<Month>,
    uid: u32,
)
    requires
        crate::refresh::sum_of(state.rows, uid) <= u64::MAX,
        0 <= (if new_month {
            0
        } else {
            tables.month_of(as_i32(uid) as i32)
        }) + crate::refresh::sum_of(state.rows, uid) <= u64::MAX,
        are_months(months, refreshed(tables, state, new_month)),
    ensures
        crate::report::month_sum(months, uid) == (if new_month {
            0
        } else {
            tables.month_of(as_i32(uid) as i32)
        }) + crate::refresh::sum_of(state.rows, uid),
{
    law_month_sums(tables, state, new_month, uid);
    lemma_months_reported(refreshed(tables, state, new_month), months, uid);
}

/// The tables after one refresh after the other. A refresh is given by what it writes, and by
/// whether the month was new.
pub open spec fn after_all(tables: Tables, history: Seq<(RefreshState, bool)>) -> Tables
    decreases history.len(),
{
    if history.len() == 0 {
        tables
    } else {
        refreshed(after_all(tables, history.drop_last()), history.last().0, history.last().1)
    }
}

/// The monthly sum of `uid` that the refreshes lead to from `before`: all that `uid` sent and
/// received since the month was last new, added to `before` if it never was.
pub open spec fn month_total(before: int, history: Seq<(RefreshState, bool)>, uid: u32) -> int
    decreases history.len(),
{
    if history.len() == 0 {
        before
    } else {
        crate::refresh::sum_of(history.last().0.rows, uid) + if history.last().1 {
            0
        } else {
            month_total(before, history.drop_last(), uid)
        }
    }
}

/// In each of the refreshes since the month was last new, what `uid` sent and received fits the
/// database's integers.
pub open spec fn addable(history: Seq<(RefreshState, bool)>, uid: u32) -> bool
    decreases history.len(),
{
    history.len() == 0 || {
        &&& crate::refresh::sum_of(history.last().0.rows, uid) <= i64::MAX
        &&& history.last().1 || addable(history.drop_last(), uid)
    }
}

proof fn lemma_month_total(tables: Tables, history: Seq<(RefreshState, bool)>, uid: u32)
    requires
        addable(history, uid),
    ensures
        after_all(tables, history).month_of(as_i32(uid) as i32) == month_total(
            tables.month_of(as_i32(uid) as i32),
            history,
            uid,
        ),
    decreases history.len(),
{
    if history.len() > 0 {
        let (state, new_month) = history.last();
        if !new_month {
            lemma_month_total(tables, history.drop_last(), uid);
        }
        law_month_sums(after_all(tables, history.drop_last()), state, new_month, uid);
    }
}

/// What a query reports as a user's monthly sum is all that the user sent and received in the
/// refreshes since the month began, in addition to what the tables held where it began before them.
pub proof fn law_month_total(
    tables: Tables,
    history: Seq<(RefreshState, bool)>,
    months: Seq<Month>,
    uid: u32,
)
    requires
        addable(history, uid),
        month_total(tables.month_of(as_i32(uid) as i32), history, uid) >= 0,
        are_months(months, after_all(tables, history)),
    ensures
        crate::report::month_sum(months, uid) == month_total(
            tables.month_of(as_i32(uid) as i32),
            history,
            uid,
        ),
{
    lemma_month_total(tables, history, uid);
    lemma_months_reported(after_all(tables, history), months, uid);
}

/// While the clock does not go back, each identifier's records stay in order of time over any
/// number of refreshes, and nothing is recorded later than the last of them.
pub proof fn law_history_in_order(tables: Tables, history: Seq<(RefreshState, bool)>, time: u64)
    requires
        in_order(tables),
        forall|i: int|
            #![trigger history[i]]
            0 <= i < history.len() ==> {
                &&& history[i].0.last_time < history[i].0.time <= time
                &&& recorded_by(tables, history[i].0.time)
            },
        forall|i: int, j: int|
            #![trigger history[i], history[j]]
            0 <= i < j < history.len() ==> history[i].0.time <= history[j].0.time,
        recorded_by(tables, time),
        time <= i64::MAX,
    ensures
        in_order(after_all(tables, history)),
        recorded_by(after_all(tables, history), time),
    decreases history.len(),
{
    if history.len() > 0 {
        let rest = history.drop_last();
        let (state, new_month) = history[history.len() - 1];
        assert forall|i: int| #![trigger rest[i]] 0 <= i < rest.len() implies {
            &&& rest[i].0.last_time < rest[i].0.time <= state.time
            &&& recorded_by(tables, rest[i].0.time)
        } by {
            assert(rest[i] == history[i]);
        }
        assert forall|i: int, j: int|
            #![trigger rest[i], rest[j]]
            0 <= i < j < rest.len() implies rest[i].0.time <= rest[j].0.time by {
            assert(rest[i] == history[i] && rest[j] == history[j]);
        }
        law_history_in_order(tables, rest, state.time);
        let before = after_all(tables, rest);
        law_in_order(before, state.time, state.last_time, state.rows);
        lemma_recorded_by(before, state.time, state.last_time, state.rows);
        crate::store::lemma_refreshed_records(before, state, new_month);
    }
}

/// A recorded row is reported with the identifier, the time and the counters that it was recorded
/// with.
pub proof fn law_record_read_back(row: Row, time: u64, reported: ReportedRecord)
    requires
        row.storable(),
        time <= i64::MAX,
        crate::report::reports(
            reported,
            Record {
                tid: row.tid() as i64,
                time: time as i64,
                tx: row.tx as i64,
                rx: row.rx as i64,
            },
        ),
    ensures
        reported.tid == row.tid(),
        reported.time == time,
        reported.tx == row.tx,
        reported.rx == row.rx,
{
    crate::lark::lemma_tid_parts(row.uid, row.kind);
}

} // verus!
