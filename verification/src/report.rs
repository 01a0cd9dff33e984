//! The answer to a query: records, and each user's monthly sum.
use std::collections::BTreeMap;
use vstd::prelude::*;

use crate::casts::{i64_as_u32, i64_as_u64};
use crate::users::User;

verus! {

broadcast use {
    vstd::std_specs::btree::group_btree_axioms,
    vstd::laws_cmp::group_laws_cmp,
};

/// A row of the table `Record`.
#[derive(Clone, Copy, Debug, PartialEq, Eq, Structural)]
pub struct Record {
    pub tid: i64,
    pub time: i64,
    pub tx: i64,
    pub rx: i64,
}

/// A row of the table `Month`.
#[derive(Clone, Copy, Debug, PartialEq, Eq, Structural)]
pub struct Month {
    pub uid: i64,
    pub sum: i64,
}

/// A record, as it is reported.
#[derive(Clone, Copy, Debug, PartialEq, Eq, Structural)]
pub struct ReportedRecord {
    pub tid: u64,
    pub time: u64,
    pub tx: u64,
    pub rx: u64,
}

/// A user, as reported.
#[derive(Debug)]
pub struct ReportedUser {
    pub uid: u32,
    pub name: String,
    pub month_sum: u64,
}

/// The answer to a query.
#[derive(Debug)]
pub struct TrafficStats {
    pub rows: Vec<ReportedRecord>,
    pub users: Vec<ReportedUser>,
}

/// `record` is reported as `reported`.
pub open spec fn reports(reported: ReportedRecord, record: Record) -> bool {
    &&& reported.tid == crate::casts::as_u64(record.tid)
    &&& reported.time == crate::casts::as_u64(record.time)
    &&& reported.tx == crate::casts::as_u64(record.tx)
    &&& reported.rx == crate::casts::as_u64(record.rx)
}

/// The monthly sum of a user: that of the last row with the user id, zero where there is none.
pub open spec fn month_sum(months: Seq<Month>, uid: u32) -> int
    decreases months.len(),
{
    if months.len() == 0 {
        0
    } else if crate::casts::as_u32(months.last().uid) == uid {
        crate::casts::as_u64(months.last().sum)
    } else {
        month_sum(months.drop_last(), uid)
    }
}

/// The record, as it is reported.
pub fn report_record(record: &Record) -> (reported: ReportedRecord)
    ensures
        reports(reported, *record),
        reported.tid == record.tid as u64,
        reported.time == record.time as u64,
        reported.tx == record.tx as u64,
        reported.rx == record.rx as u64,
{
    ReportedRecord {
        tid: i64_as_u64(record.tid),
        time: i64_as_u64(record.time),
        tx: i64_as_u64(record.tx),
        rx: i64_as_u64(record.rx),
    }
}

/// `sums` has the monthly sum of every user that the rows name.
spec fn holds_sums(sums: Map<u32, u64>, months: Seq<Month>) -> bool {
    &&& forall|uid: u32| #[trigger] sums.contains_key(uid) ==> sums[uid] == month_sum(months, uid)
    &&& forall|uid: u32| !(#[trigger] sums.contains_key(uid)) ==> month_sum(months, uid) == 0
}

/// The monthly sums by user id.
fn month_sums(months: &Vec<Month>) -> (sums: BTreeMap<u32, u64>)
    ensures
        holds_sums(sums@, months@),
{
    let mut sums: BTreeMap<u32, u64> = BTreeMap::new();
    for i in 0..months.len()
        invariant
            holds_sums(sums@, months@.take(i as int)),
    {
        let ghost before = sums@;
        let month = months[i];
        let uid: u32 = i64_as_u32(month.uid);
        let sum: u64 = i64_as_u64(month.sum);
        sums.insert(uid, sum);
        proof {
            let more = months@.take(i + 1);
            assert(more.drop_last() =~= months@.take(i as int));
            assert forall|other: u32| #[trigger] sums@.contains_key(other) implies sums@[other]
                == month_sum(more, other) by {
                if other != uid {
                    assert(before.contains_key(other));
                }
            }
            assert forall|other: u32| !(#[trigger] sums@.contains_key(other)) implies month_sum(
                more,
                other,
            ) == 0 by {
                assert(!before.contains_key(other));
            }
        }
    }
    assert(months@.take(months@.len() as int) =~= months@);
    sums
}

/// The answer to a query: the records and the users, in order, each user with the monthly sum.
pub fn traffic_stats(records: &Vec<Record>, months: &Vec<Month>, users: &[User]) -> (stats:
    TrafficStats)
    ensures
        stats.rows@.len() == records@.len(),
        forall|i: int|
            0 <= i < records@.len() ==> reports(#[trigger] stats.rows@[i], records@[i]),
        stats.users@.len() == users@.len(),
        forall|i: int|
            #![trigger stats.users@[i]]
            0 <= i < users@.len() ==> {
                &&& stats.users@[i].uid == users@[i].uid
                &&& stats.users@[i].name@ == users@[i].name@
                &&& stats.users@[i].month_sum == month_sum(months@, users@[i].uid)
            },
{
    let mut rows: Vec<ReportedRecord> = Vec::new();
    for i in 0..records.len()
        invariant
            rows@.len() == i,
            forall|j: int| 0 <= j < i ==> reports(#[trigger] rows@[j], records@[j]),
    {
        rows.push(report_record(&records[i]));
    }
    let sums = month_sums(months);
    let mut reported: Vec<ReportedUser> = Vec::new();
    for i in 0..users.len()
        invariant
            holds_sums(sums@, months@),
            reported@.len() == i,
            forall|j: int|
                #![trigger reported@[j]]
                0 <= j < i ==> {
                    &&& reported@[j].uid == users@[j].uid
                    &&& reported@[j].name@ == users@[j].name@
                    &&& reported@[j].month_sum == month_sum(months@, users@[j].uid)
                },
    {
        let user = &users[i];
        let sum: u64 = match sums.get(&user.uid) {
            Some(sum) => *sum,
            None => 0,
        };
        assert(sum == month_sum(months@, user.uid)) by {
            assert(sums@.contains_key(user.uid) || !sums@.contains_key(user.uid));
        }
        reported.push(ReportedUser { uid: user.uid, name: user.name.clone(), month_sum: sum });
    }
    TrafficStats { rows, users: reported }
}

/// A record is reported with the numbers that it holds; what was stored as a negative number is read
/// as the number without a sign that was meant.
pub proof fn law_reports(reported: ReportedRecord, record: Record)
    requires
        reports(reported, record),
    ensures
        reported.tid == record.tid as u64,
        reported.time == record.time as u64,
        reported.tx == record.tx as u64,
        reported.rx == record.rx as u64,
{
    lemma_as_u64(record.tid);
    lemma_as_u64(record.time);
    lemma_as_u64(record.tx);
    lemma_as_u64(record.rx);
}

proof fn lemma_as_u64(x: i64)
    ensures
        crate::casts::as_u64(x) == x as u64,
{
    assert(x as u64 == (if x >= 0 { x as int } else { x + 0x1_0000_0000_0000_0000 }))
        by (bit_vector);
}

/// The monthly sum of a user is that of the last row that names the user.
pub proof fn law_month_sum(months: Seq<Month>, uid: u32, i: int)
    requires
        0 <= i < months.len(),
        months[i].uid as int % 0x1_0000_0000 == uid,
        forall|j: int|
            i < j < months.len() ==> (#[trigger] months[j]).uid as int % 0x1_0000_0000 != uid,
    ensures
        month_sum(months, uid) == months[i].sum as u64,
    decreases months.len(),
{
    lemma_as_u64(months[i].sum);
    if i < months.len() - 1 {
        let rest = months.drop_last();
        assert(months[months.len() - 1].uid as int % 0x1_0000_0000 != uid);
        assert forall|j: int| i < j < rest.len() implies (#[trigger] rest[j]).uid as int
            % 0x1_0000_0000 != uid by {
            assert(months[j].uid as int % 0x1_0000_0000 != uid);
        }
        law_month_sum(rest, uid, i);
    }
}

/// The monthly sum of a user that no row names is zero.
pub proof fn law_no_month_sum(months: Seq<Month>, uid: u32)
    requires
        forall|j: int|
            0 <= j < months.len() ==> (#[trigger] months[j]).uid as int % 0x1_0000_0000 != uid,
    ensures
        month_sum(months, uid) == 0,
    decreases months.len(),
{
    if months.len() > 0 {
        let rest = months.drop_last();
        assert(months[months.len() - 1].uid as int % 0x1_0000_0000 != uid);
        assert forall|j: int| 0 <= j < rest.len() implies (#[trigger] rest[j]).uid as int
            % 0x1_0000_0000 != uid by {
            assert(months[j].uid as int % 0x1_0000_0000 != uid);
        }
        law_no_month_sum(rest, uid);
    }
}

} // verus!
