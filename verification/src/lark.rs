//! Gathering traffic: where from, under which identifiers, and whether a refresh is to run.
use vstd::prelude::*;

use crate::calendar::local_month;
use crate::casts::i64_as_u64;
use crate::refresh::Fault;

verus! {

/// Where the counters are fetched.
#[derive(Debug)]
pub struct Config {
    pub xray: crate::xray::Config,
    pub hysteria: crate::hysteria::Config,
    /// The time zone, in hours, minutes and seconds from UTC; that of the machine if there is
    /// none.
    pub tz: Option<(i8, i8, i8)>,
}

/// The kind of the records that come from the xray server.
pub const KIND_XRAY: u8 = 0;

/// The kind of the records that come from the hysteria server.
pub const KIND_HYSTERIA: u8 = 1;

/// The identifier of a user's traffic of one kind: the user id, with the kind in the low byte.
pub open spec fn tid_of(uid: u32, kind: u8) -> int {
    uid * 0x100 + kind
}

pub fn encode_tid(uid: u32, kind: u8) -> (tid: u64)
    ensures
        tid == tid_of(uid, kind),
        tid / 0x100 == uid,
        tid % 0x100 == kind,
{
    assert(((uid as u64) << 8) | (kind as u64) == uid * 0x100 + kind) by (bit_vector);
    ((uid as u64) << 8) | (kind as u64)
}

/// Different users and different kinds have different identifiers.
pub proof fn law_tid_injective(uid: u32, kind: u8, other_uid: u32, other_kind: u8)
    requires
        tid_of(uid, kind) == tid_of(other_uid, other_kind),
    ensures
        uid == other_uid,
        kind == other_kind,
{
}

/// The user id and the kind can be read off an identifier, which fits the database's integers.
pub proof fn lemma_tid_parts(uid: u32, kind: u8)
    ensures
        0 <= tid_of(uid, kind) <= i64::MAX,
        tid_of(uid, kind) / 0x100 == uid,
        tid_of(uid, kind) % 0x100 == kind,
{
}

/// One refresh: when it runs, when the last successful one ran, and what has been recorded so far.
#[derive(Clone, Copy, Debug, PartialEq, Eq, Structural)]
pub struct RefreshContext {
    /// The time of this refresh, in seconds since the epoch.
    pub time: u64,
    /// The month of that time in the configured time zone, from 1 to 12.
    pub month: u8,
    /// The time of the last successful refresh, or zero.
    pub last_time: u64,
    /// Whether the sources are told to start counting afresh.
    pub reset: bool,
    /// How many samples were recorded.
    pub stat_updated: u32,
    /// How many samples were skipped because nothing was sent or received.
    pub stat_skipped: u32,
    /// How much was sent in all.
    pub stat_tx: u64,
    /// How much was received in all.
    pub stat_rx: u64,
}

impl RefreshContext {
    /// A refresh runs after the last one, whose time was read from the database.
    pub open spec fn wf(self) -> bool {
        self.last_time < self.time && self.last_time <= i64::MAX
    }

    /// Nothing has been recorded yet.
    pub open spec fn is_fresh(self) -> bool {
        self.stat_updated == 0 && self.stat_skipped == 0 && self.stat_tx == 0 && self.stat_rx == 0
    }
}

/// Whether a refresh is to run.
#[derive(Clone, Copy, Debug, PartialEq, Eq, Structural)]
pub enum Start {
    /// The clock has not moved on since the last successful refresh.
    TooSoon,
    /// The refresh is to run.
    Go(RefreshContext),
    /// The refresh cannot run.
    Panic(Fault),
}

/// Whether a refresh is to run at `now`. `meta_time` is the time of the last successful refresh,
/// as the database has it, and `month` the month of `now`, if the calendar reaches it.
pub open spec fn started(
    meta_time: Option<i64>,
    now: i64,
    month: Option<u8>,
    reset: bool,
) -> Start {
    let last: i64 = match meta_time {
        Some(time) => time,
        None => 0,
    };
    let time = crate::casts::as_u64(now) as u64;
    if last < 0 {
        Start::Panic(Fault::NegativeMetaTime)
    } else {
        match month {
            None => Start::Panic(Fault::ClockOutOfRange),
            Some(month) => if time <= last {
                Start::TooSoon
            } else {
                Start::Go(
                    RefreshContext {
                        time,
                        month,
                        last_time: last as u64,
                        reset,
                        stat_updated: 0,
                        stat_skipped: 0,
                        stat_tx: 0,
                        stat_rx: 0,
                    },
                )
            },
        }
    }
}

impl RefreshContext {
    /// Whether a refresh is to run, given the month of `now`.
    pub fn begin(meta_time: Option<i64>, now: i64, month: Option<u8>, reset: bool) -> (start: Start)
        ensures
            start == started(meta_time, now, month, reset),
            month is Some && 0 < now && (meta_time matches Some(time) ==> 0 <= time < now)
                ==> start is Go,
            start matches Start::Go(ctx) ==> {
                &&& ctx.time == now as u64
                &&& Some(ctx.month) == month
                &&& meta_time matches Some(time) ==> ctx.last_time == time
                &&& meta_time is None ==> ctx.last_time == 0
                &&& ctx.reset == reset
            },
            start == Start::TooSoon ==> 0 <= now && (meta_time matches Some(time) ==> now <= time)
                && (meta_time is None ==> now == 0),
            start matches Start::Go(ctx) ==> ctx.wf() && ctx.is_fresh(),
    {
        let last: i64 = match meta_time {
            Some(time) => time,
            None => 0,
        };
        if last < 0 {
            return Start::Panic(Fault::NegativeMetaTime);
        }
        let last_time: u64 = last as u64;
        let time: u64 = i64_as_u64(now);
        match month {
            None => Start::Panic(Fault::ClockOutOfRange),
            Some(month) => if time <= last_time {
                Start::TooSoon
            } else {
                Start::Go(
                    RefreshContext {
                        time,
                        month,
                        last_time,
                        reset,
                        stat_updated: 0,
                        stat_skipped: 0,
                        stat_tx: 0,
                        stat_rx: 0,
                    },
                )
            },
        }
    }

    /// Whether a refresh is to run at `now`, in a time zone `offset` seconds from UTC.
    pub fn start(meta_time: Option<i64>, now: i64, offset: i32, reset: bool) -> (start: Start)
        ensures
            start == started(
                meta_time,
                now,
                crate::calendar::month_at(now as int, offset as int),
                reset,
            ),
            start matches Start::Go(ctx) ==> ctx.wf() && ctx.is_fresh() && 1 <= ctx.month <= 12,
    {
        Self::begin(meta_time, now, local_month(now, offset), reset)
    }
}

/// Until the clock has passed the time of a successful refresh, no other runs.
pub proof fn law_too_soon(time: i64, now: i64, month: u8, reset: bool)
    requires
        0 <= now <= time,
    ensures
        started(Some(time), now, Some(month), reset) == Start::TooSoon,
{
}

/// A refresh that runs is later than the last successful one.
pub proof fn law_time_advances(meta_time: Option<i64>, now: i64, month: Option<u8>, reset: bool)
    ensures
        started(meta_time, now, month, reset) matches Start::Go(ctx) ==> {
            &&& ctx.wf()
            &&& meta_time matches Some(time) ==> time < ctx.time
        },
{
}

/// A refresh runs as soon as the clock is past the time of the last successful one, or past the
/// epoch if there was none. It runs with that time, the present time and month, and the reset flag,
/// and with nothing counted.
pub proof fn law_refresh_runs(meta_time: Option<i64>, now: i64, month: u8, reset: bool)
    requires
        meta_time matches Some(time) ==> 0 <= time < now,
        now > 0,
    ensures
        started(meta_time, now, Some(month), reset) matches Start::Go(ctx) && {
            &&& ctx.time == now
            &&& ctx.month == month
            &&& meta_time matches Some(time) ==> ctx.last_time == time
            &&& meta_time is None ==> ctx.last_time == 0
            &&& ctx.reset == reset
            &&& ctx.stat_updated == 0 && ctx.stat_skipped == 0
            &&& ctx.stat_tx == 0 && ctx.stat_rx == 0
        },
{
}

/// It is too soon for a refresh only if the clock is not past the time of the last successful one,
/// or not past the epoch if there was none. A clock before the epoch counts as far ahead.
pub proof fn law_too_soon_only(meta_time: Option<i64>, now: i64, month: Option<u8>, reset: bool)
    ensures
        started(meta_time, now, month, reset) == Start::TooSoon <==> {
            &&& month is Some
            &&& 0 <= now
            &&& match meta_time {
                Some(time) => now <= time,
                None => now == 0,
            }
        },
        meta_time is None && now < 0 && month is Some ==> (started(
            meta_time,
            now,
            month,
            reset,
        ) matches Start::Go(ctx) && ctx.time == now + 0x1_0000_0000_0000_0000
            && ctx.last_time == 0 && Some(ctx.month) == month && ctx.reset == reset),
        meta_time matches Some(time) && 0 <= time && now < 0 && month is Some ==> (started(
            meta_time,
            now,
            month,
            reset,
        ) matches Start::Go(ctx) && ctx.time == now + 0x1_0000_0000_0000_0000 && ctx.last_time
            == meta_time->0 && Some(ctx.month) == month && ctx.reset == reset),
{
}

/// A refresh cannot run exactly if the last time is negative, or the calendar does not reach the
/// present one.
pub proof fn law_cannot_run(meta_time: Option<i64>, now: i64, month: Option<u8>, reset: bool)
    ensures
        started(meta_time, now, month, reset) == Start::Panic(Fault::NegativeMetaTime) <==> (
        meta_time matches Some(time) && time < 0),
        started(meta_time, now, month, reset) == Start::Panic(Fault::ClockOutOfRange) <==> (
        month is None && (meta_time matches Some(time) ==> time >= 0)),
        started(meta_time, now, month, reset) matches Start::Panic(fault) ==> fault
            == Fault::NegativeMetaTime || fault == Fault::ClockOutOfRange,
{
}

} // verus!
