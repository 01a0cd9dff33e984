//! Traffic by user id, from what the two servers report.
use std::collections::BTreeMap;
use vstd::prelude::*;

use crate::hysteria::Traffic;
use crate::listing::listed;
use crate::users::{UidMap, User};
use crate::xray::{Stat, StatView};

verus! {

broadcast use {
    vstd::std_specs::btree::group_btree_axioms,
    vstd::laws_cmp::group_laws_cmp,
};

/// The user that a reading is about, if the user is known.
pub open spec fn user_of_stat(stat: StatView, names: Map<Seq<char>, u32>) -> Option<u32> {
    let name = crate::text::before(stat.email, '@');
    if names.contains_key(name) {
        Some(names[name])
    } else {
        None
    }
}

/// The reading is about what `uid` sent (`is_tx`) or received.
pub open spec fn is_about(
    stat: StatView,
    names: Map<Seq<char>, u32>,
    uid: u32,
    is_tx: bool,
) -> bool {
    user_of_stat(stat, names) == Some(uid) && stat.is_tx == is_tx
}

/// Two readings are about the same user and direction, and the first of them is not zero.
pub open spec fn clash_at(
    stats: Seq<StatView>,
    names: Map<Seq<char>, u32>,
    i: int,
    j: int,
) -> bool {
    &&& 0 <= i < j < stats.len()
    &&& user_of_stat(stats[i], names) is Some
    &&& is_about(stats[j], names, user_of_stat(stats[i], names)->0, stats[i].is_tx)
    &&& stats[i].value != 0
}

/// Some readings contradict each other.
pub open spec fn clash(stats: Seq<StatView>, names: Map<Seq<char>, u32>) -> bool {
    exists|i: int, j: int| clash_at(stats, names, i, j)
}

/// One of the readings is about `uid`.
pub open spec fn mentioned(
    stats: Seq<StatView>,
    names: Map<Seq<char>, u32>,
    uid: u32,
) -> bool {
    exists|i: int|
        0 <= i < stats.len() && user_of_stat(#[trigger] stats[i], names) == Some(uid)
}

/// What `uid` sent (`is_tx`) or received, over all readings.
pub open spec fn amount(
    stats: Seq<StatView>,
    names: Map<Seq<char>, u32>,
    uid: u32,
    is_tx: bool,
) -> nat
    decreases stats.len(),
{
    if stats.len() == 0 {
        0
    } else {
        amount(stats.drop_last(), names, uid, is_tx) + if is_about(
            stats.last(),
            names,
            uid,
            is_tx,
        ) {
            stats.last().value as nat
        } else {
            0
        }
    }
}

/// What each user that the readings are about sent and received.
pub open spec fn amounts(
    stats: Seq<StatView>,
    names: Map<Seq<char>, u32>,
) -> Map<u32, (u64, u64)> {
    Map::new(
        |uid: u32| mentioned(stats, names, uid),
        |uid: u32|
            (
                amount(stats, names, uid, true) as u64,
                amount(stats, names, uid, false) as u64,
            ),
    )
}

/// The entries as samples.
pub open spec fn samples_of(entries: Seq<(u32, (u64, u64))>) -> Seq<(u32, u64, u64)> {
    Seq::new(entries.len(), |i: int| (entries[i].0, entries[i].1.0, entries[i].1.1))
}

/// Readings contradict each other.
#[derive(Clone, Copy, Debug, PartialEq, Eq, Structural)]
pub struct Clash;

proof fn lemma_amount_push(
    stats: Seq<StatView>,
    stat: StatView,
    names: Map<Seq<char>, u32>,
)
    ensures
        forall|uid: u32, is_tx: bool| #[trigger]
            amount(stats.push(stat), names, uid, is_tx) == amount(stats, names, uid, is_tx) + (
            if is_about(stat, names, uid, is_tx) {
                stat.value as nat
            } else {
                0
            }),
        forall|uid: u32| #[trigger]
            mentioned(stats.push(stat), names, uid) == (mentioned(stats, names, uid)
                || user_of_stat(stat, names) == Some(uid)),
{
    let more = stats.push(stat);
    assert(more.drop_last() =~= stats);
    assert forall|uid: u32| #[trigger] mentioned(more, names, uid) == (mentioned(stats, names, uid)
        || user_of_stat(stat, names) == Some(uid)) by {
        if mentioned(stats, names, uid) {
            let i = choose|i: int|
                0 <= i < stats.len() && user_of_stat(#[trigger] stats[i], names) == Some(uid);
            assert(more[i] == stats[i]);
        }
        if user_of_stat(stat, names) == Some(uid) {
            assert(more[stats.len() as int] == stat);
        }
        if mentioned(more, names, uid) && user_of_stat(stat, names) != Some(uid) {
            let i = choose|i: int|
                0 <= i < more.len() && user_of_stat(#[trigger] more[i], names) == Some(uid);
            assert(more[i] == stats[i]);
        }
    }
}

/// What is not zero was read somewhere.
proof fn lemma_amount_source(
    stats: Seq<StatView>,
    names: Map<Seq<char>, u32>,
    uid: u32,
    is_tx: bool,
) -> (i: int)
    requires
        amount(stats, names, uid, is_tx) != 0,
    ensures
        0 <= i < stats.len(),
        is_about(stats[i], names, uid, is_tx),
        stats[i].value != 0,
    decreases stats.len(),
{
    if is_about(stats.last(), names, uid, is_tx) && stats.last().value != 0 {
        stats.len() - 1
    } else {
        lemma_amount_source(stats.drop_last(), names, uid, is_tx)
    }
}

/// Nothing was read of a user that no reading is about.
proof fn lemma_amount_unmentioned(
    stats: Seq<StatView>,
    names: Map<Seq<char>, u32>,
    uid: u32,
    is_tx: bool,
)
    requires
        !mentioned(stats, names, uid),
    ensures
        amount(stats, names, uid, is_tx) == 0,
{
    if amount(stats, names, uid, is_tx) != 0 {
        let i = lemma_amount_source(stats, names, uid, is_tx);
        assert(user_of_stat(stats[i], names) == Some(uid));
    }
}

/// A clash among the first readings is one among all.
proof fn lemma_clash_push(stats: Seq<StatView>, stat: StatView, names: Map<Seq<char>, u32>)
    ensures
        clash(stats, names) ==> clash(stats.push(stat), names),
        clash(stats.push(stat), names) ==> clash(stats, names) || exists|i: int|
            clash_at(stats.push(stat), names, i, stats.len() as int),
{
    let more = stats.push(stat);
    if clash(stats, names) {
        let (i, j) = choose|i: int, j: int| clash_at(stats, names, i, j);
        assert(more[i] == stats[i] && more[j] == stats[j]);
        assert(clash_at(more, names, i, j));
    }
    if clash(more, names) {
        let (i, j) = choose|i: int, j: int| clash_at(more, names, i, j);
        if j < stats.len() {
            assert(more[i] == stats[i] && more[j] == stats[j]);
            assert(clash_at(stats, names, i, j));
        }
    }
}

/// Readings that clash go on to clash.
proof fn lemma_clash_take(stats: Seq<StatView>, names: Map<Seq<char>, u32>, n: int)
    requires
        0 <= n <= stats.len(),
        clash(stats.take(n), names),
    ensures
        clash(stats, names),
{
    let first = stats.take(n);
    let (i, j) = choose|i: int, j: int| clash_at(first, names, i, j);
    assert(first[i] == stats[i] && first[j] == stats[j]);
    assert(clash_at(stats, names, i, j));
}

/// Without a clash there is at most one reading of a user and direction that is not zero, and no
/// more is read than fits.
proof fn lemma_amount_fits(stats: Seq<StatView>, names: Map<Seq<char>, u32>, uid: u32, is_tx: bool)
    requires
        !clash(stats, names),
    ensures
        amount(stats, names, uid, is_tx) <= u64::MAX,
    decreases stats.len(),
{
    if stats.len() > 0 {
        let rest = stats.drop_last();
        assert(rest.push(stats.last()) =~= stats);
        lemma_clash_push(rest, stats.last(), names);
        lemma_amount_fits(rest, names, uid, is_tx);
        if is_about(stats.last(), names, uid, is_tx) && amount(rest, names, uid, is_tx) != 0 {
            let i = lemma_amount_source(rest, names, uid, is_tx);
            assert(rest[i] == stats[i]);
            assert(clash_at(stats, names, i, stats.len() - 1));
        }
    }
}

/// What each known user sent and received according to the xray server, by ascending user id.
/// Readings of unknown users are left out.
pub fn refresh_xray(stats: &Vec<Stat>, names: &UidMap) -> (samples: Result<
    Vec<(u32, u64, u64)>,
    Clash,
>)
    ensures
        match samples {
            Ok(samples) => {
                let views = crate::xray::stats_view(stats@);
                &&& !clash(views, names@)
                &&& samples@ == samples_of(crate::listing::entries(amounts(views, names@)))
            },
            Err(_) => clash(crate::xray::stats_view(stats@), names@),
        },
{
    let mut map: BTreeMap<u32, (u64, u64)> = BTreeMap::new();
    let ghost views = crate::xray::stats_view(stats@);
    assert(views.take(0) =~= Seq::empty());
    assert(map@ =~= amounts(views.take(0), names@));
    for i in 0..stats.len()
        invariant
            views == crate::xray::stats_view(stats@),
            !clash(views.take(i as int), names@),
            map@ == amounts(views.take(i as int), names@),
    {
        let stat = &stats[i];
        let ghost done = views.take(i as int);
        let ghost view = views[i as int];
        proof {
            assert(views.take(i + 1) =~= done.push(view));
            lemma_amount_push(done, view, names@);
            lemma_clash_push(done, view, names@);
        }
        match names.get(User::name_from_xray_email(stat.email)) {
            Some(uid) => {
                let (tx, rx): (u64, u64) = match map.get(&uid) {
                    Some(found) => *found,
                    None => (0, 0),
                };
                proof {
                    lemma_amount_fits(done, names@, uid, true);
                    lemma_amount_fits(done, names@, uid, false);
                    if !mentioned(done, names@, uid) {
                        lemma_amount_unmentioned(done, names@, uid, true);
                        lemma_amount_unmentioned(done, names@, uid, false);
                    }
                }
                assert(tx == amount(done, names@, uid, true));
                assert(rx == amount(done, names@, uid, false));
                let before: u64 = if stat.is_tx { tx } else { rx };
                if before != 0 {
                    proof {
                        let k = lemma_amount_source(done, names@, uid, view.is_tx);
                        assert(done.push(view)[k] == done[k]);
                        assert(clash_at(done.push(view), names@, k, done.len() as int));
                        lemma_clash_take(views, names@, i + 1);
                    }
                    return Err(Clash);
                }
                if stat.is_tx {
                    map.insert(uid, (stat.value, rx));
                } else {
                    map.insert(uid, (tx, stat.value));
                }
                proof {
                    assert(!clash(done.push(view), names@)) by {
                        if clash(done.push(view), names@) {
                            let k = choose|k: int|
                                clash_at(done.push(view), names@, k, done.len() as int);
                            assert(done.push(view)[k] == done[k]);
                            lemma_amount_some(done, names@, k);
                        }
                    }
                    assert(map@ =~= amounts(done.push(view), names@));
                }
            },
            None => {
                proof {
                    assert(user_of_stat(view, names@) is None);
                    assert(!clash(done.push(view), names@));
                    assert(map@ =~= amounts(done.push(view), names@));
                }
            },
        }
    }
    assert(views.take(stats@.len() as int) =~= views);
    let entries = listed(&map);
    let mut samples: Vec<(u32, u64, u64)> = Vec::new();
    for i in 0..entries.len()
        invariant
            samples@ == samples_of(entries@).take(i as int),
    {
        let entry = entries[i];
        samples.push((entry.0, entry.1.0, entry.1.1));
        assert(samples@ =~= samples_of(entries@).take(i + 1));
    }
    assert(samples_of(entries@).take(entries@.len() as int) =~= samples_of(entries@));
    Ok(samples)
}

/// The readings that are about no known user, in order.
pub open spec fn unknown(stats: Seq<StatView>, names: Map<Seq<char>, u32>) -> Seq<StatView>
    decreases stats.len(),
{
    if stats.len() == 0 {
        Seq::empty()
    } else {
        let before = unknown(stats.drop_last(), names);
        if user_of_stat(stats.last(), names) is None {
            before.push(stats.last())
        } else {
            before
        }
    }
}

/// The readings that [`refresh_xray`] leaves out, in order.
pub fn unknown_stats<'a>(stats: &Vec<Stat<'a>>, names: &UidMap) -> (left_out: Vec<Stat<'a>>)
    ensures
        crate::xray::stats_view(left_out@) == unknown(crate::xray::stats_view(stats@), names@),
{
    let mut left_out: Vec<Stat<'a>> = Vec::new();
    let ghost views = crate::xray::stats_view(stats@);
    assert(views.take(0) =~= Seq::empty());
    assert(crate::xray::stats_view(left_out@) =~= Seq::empty());
    for i in 0..stats.len()
        invariant
            views == crate::xray::stats_view(stats@),
            crate::xray::stats_view(left_out@) == unknown(views.take(i as int), names@),
    {
        let stat = &stats[i];
        assert(views.take(i + 1).drop_last() =~= views.take(i as int));
        if names.get(User::name_from_xray_email(stat.email)).is_none() {
            let copy = Stat { email: stat.email, is_tx: stat.is_tx, value: stat.value };
            assert(crate::xray::stats_view(left_out@.push(copy)) =~= crate::xray::stats_view(
                left_out@,
            ).push(copy@));
            left_out.push(copy);
        }
    }
    assert(views.take(stats@.len() as int) =~= views);
    left_out
}

/// A reading that is not zero counts.
proof fn lemma_amount_some(stats: Seq<StatView>, names: Map<Seq<char>, u32>, i: int)
    requires
        0 <= i < stats.len(),
        user_of_stat(stats[i], names) is Some,
        stats[i].value != 0,
    ensures
        amount(stats, names, user_of_stat(stats[i], names)->0, stats[i].is_tx) != 0,
    decreases stats.len(),
{
    if i < stats.len() - 1 {
        lemma_amount_some(stats.drop_last(), names, i);
    }
}

/// What each known user sent and received, in the order of the report.
pub open spec fn known_traffic(
    report: Seq<(Seq<char>, Traffic)>,
    names: Map<Seq<char>, u32>,
) -> Seq<(u32, u64, u64)>
    decreases report.len(),
{
    if report.len() == 0 {
        Seq::empty()
    } else {
        let (user, traffic) = report.last();
        let before = known_traffic(report.drop_last(), names);
        if names.contains_key(user) {
            before.push((names[user], traffic.tx, traffic.rx))
        } else {
            before
        }
    }
}

/// The report, with the characters of the names.
pub open spec fn report_view(report: Seq<(String, Traffic)>) -> Seq<(Seq<char>, Traffic)> {
    Seq::new(report.len(), |i: int| (report[i].0@, report[i].1))
}

/// What each known user sent and received according to the hysteria server's report, in its
/// order. Unknown users are left out.
pub fn refresh_hysteria(report: &Vec<(String, Traffic)>, names: &UidMap) -> (samples: Vec<
    (u32, u64, u64),
>)
    ensures
        samples@ == known_traffic(report_view(report@), names@),
{
    let mut samples: Vec<(u32, u64, u64)> = Vec::new();
    let ghost views = report_view(report@);
    assert(views.take(0) =~= Seq::empty());
    for i in 0..report.len()
        invariant
            views == report_view(report@),
            samples@ == known_traffic(views.take(i as int), names@),
    {
        assert(views.take(i + 1).drop_last() =~= views.take(i as int));
        let traffic = report[i].1;
        if let Some(uid) = names.get(report[i].0.as_str()) {
            samples.push((uid, traffic.tx, traffic.rx));
        }
    }
    assert(views.take(report@.len() as int) =~= views);
    samples
}

/// The users of a report that are not known, with their traffic, in order.
pub open spec fn unknown_traffic(
    report: Seq<(Seq<char>, Traffic)>,
    names: Map<Seq<char>, u32>,
) -> Seq<(Seq<char>, Traffic)>
    decreases report.len(),
{
    if report.len() == 0 {
        Seq::empty()
    } else {
        let before = unknown_traffic(report.drop_last(), names);
        if names.contains_key(report.last().0) {
            before
        } else {
            before.push(report.last())
        }
    }
}

/// The users that [`refresh_hysteria`] leaves out, with their traffic, in order.
pub fn unknown_users(report: &Vec<(String, Traffic)>, names: &UidMap) -> (left_out: Vec<
    (String, Traffic),
>)
    ensures
        report_view(left_out@) == unknown_traffic(report_view(report@), names@),
{
    let mut left_out: Vec<(String, Traffic)> = Vec::new();
    let ghost views = report_view(report@);
    assert(views.take(0) =~= Seq::empty());
    assert(report_view(left_out@) =~= Seq::empty());
    for i in 0..report.len()
        invariant
            views == report_view(report@),
            report_view(left_out@) == unknown_traffic(views.take(i as int), names@),
    {
        assert(views.take(i + 1).drop_last() =~= views.take(i as int));
        if names.get(report[i].0.as_str()).is_none() {
            let entry = (report[i].0.clone(), report[i].1);
            assert(report_view(left_out@.push(entry)) =~= report_view(left_out@).push(
                (entry.0@, entry.1),
            ));
            left_out.push(entry);
        }
    }
    assert(views.take(report@.len() as int) =~= views);
    left_out
}

/// Every user of a report has a sample or is left out.
pub proof fn law_report_is_covered(
    report: Seq<(Seq<char>, Traffic)>,
    names: Map<Seq<char>, u32>,
)
    ensures
        known_traffic(report, names).len() + unknown_traffic(report, names).len() == report.len(),
    decreases report.len(),
{
    if report.len() > 0 {
        law_report_is_covered(report.drop_last(), names);
    }
}

/// Without a clash a reading that is not zero is all that was read of its user and direction.
proof fn lemma_amount_is(stats: Seq<StatView>, names: Map<Seq<char>, u32>, i: int)
    requires
        !clash(stats, names),
        0 <= i < stats.len(),
        user_of_stat(stats[i], names) is Some,
        stats[i].value != 0,
    ensures
        amount(stats, names, user_of_stat(stats[i], names)->0, stats[i].is_tx) == stats[i].value,
    decreases stats.len(),
{
    let uid = user_of_stat(stats[i], names)->0;
    let is_tx = stats[i].is_tx;
    let rest = stats.drop_last();
    let end = stats.len() - 1;
    assert(rest.push(stats.last()) =~= stats);
    lemma_clash_push(rest, stats.last(), names);
    if i == end {
        if amount(rest, names, uid, is_tx) != 0 {
            let k = lemma_amount_source(rest, names, uid, is_tx);
            assert(rest[k] == stats[k]);
            assert(clash_at(stats, names, k, end));
        }
    } else {
        if is_about(stats.last(), names, uid, is_tx) {
            assert(clash_at(stats, names, i, end));
        }
        assert(rest[i] == stats[i]);
        lemma_amount_is(rest, names, i);
    }
}

/// Every reading of a known user that is not zero shows in the sample of that user, in its
/// direction; and there is one sample for each user that the readings are about, by ascending user
/// id.
pub proof fn law_xray_samples(stats: Seq<StatView>, names: Map<Seq<char>, u32>)
    requires
        !clash(stats, names),
    ensures
        ({
            let samples = samples_of(crate::listing::entries(amounts(stats, names)));
            &&& forall|i: int|
                #![trigger stats[i]]
                0 <= i < stats.len() && user_of_stat(stats[i], names) is Some && stats[i].value != 0
                    ==> exists|k: int|
                    {
                        &&& 0 <= k < samples.len()
                        &&& (#[trigger] samples[k]).0 == user_of_stat(stats[i], names)->0
                        &&& stats[i].value == if stats[i].is_tx {
                            samples[k].1
                        } else {
                            samples[k].2
                        }
                    }
            &&& forall|k: int|
                0 <= k < samples.len() ==> mentioned(stats, names, (#[trigger] samples[k]).0)
            &&& forall|k: int, l: int|
                0 <= k < l < samples.len() ==> (#[trigger] samples[k]).0 < (#[trigger] samples[l]).0
        }),
{
    let map = amounts(stats, names);
    let entries = crate::listing::entries(map);
    let samples = samples_of(entries);
    crate::listing::lemma_entries_lists(map);
    assert forall|i: int|
        #![trigger stats[i]]
        0 <= i < stats.len() && user_of_stat(stats[i], names) is Some && stats[i].value
            != 0 implies exists|k: int|
        {
            &&& 0 <= k < samples.len()
            &&& (#[trigger] samples[k]).0 == user_of_stat(stats[i], names)->0
            &&& stats[i].value == if stats[i].is_tx {
                samples[k].1
            } else {
                samples[k].2
            }
        } by {
        let uid = user_of_stat(stats[i], names)->0;
        lemma_amount_is(stats, names, i);
        assert(map.contains_key(uid));
        let k = choose|k: int| 0 <= k < entries.len() && (#[trigger] entries[k]).0 == uid;
        assert(samples[k].0 == uid);
    }
    assert forall|k: int| 0 <= k < samples.len() implies mentioned(
        stats,
        names,
        (#[trigger] samples[k]).0,
    ) by {
        assert(map.contains_key(entries[k].0));
    }
    assert forall|k: int, l: int| 0 <= k < l < samples.len() implies (#[trigger] samples[k]).0 < (
    #[trigger] samples[l]).0 by {
        assert(entries[k].0 < entries[l].0);
    }
}

/// All readings but one, and that one, make up what was read.
proof fn lemma_amount_remove(
    stats: Seq<StatView>,
    names: Map<Seq<char>, u32>,
    uid: u32,
    is_tx: bool,
    i: int,
)
    requires
        0 <= i < stats.len(),
    ensures
        amount(stats, names, uid, is_tx) == amount(stats.remove(i), names, uid, is_tx) + (
        if is_about(stats[i], names, uid, is_tx) {
            stats[i].value as nat
        } else {
            0
        }),
    decreases stats.len(),
{
    if i < stats.len() - 1 {
        lemma_amount_remove(stats.drop_last(), names, uid, is_tx, i);
        assert(stats.remove(i).drop_last() =~= stats.drop_last().remove(i));
        assert(stats.remove(i).last() == stats.last());
    } else {
        assert(stats.remove(i) =~= stats.drop_last());
    }
}

proof fn lemma_amount_order(
    stats: Seq<StatView>,
    others: Seq<StatView>,
    names: Map<Seq<char>, u32>,
    uid: u32,
    is_tx: bool,
)
    requires
        stats.to_multiset() == others.to_multiset(),
    ensures
        amount(stats, names, uid, is_tx) == amount(others, names, uid, is_tx),
    decreases stats.len(),
{
    broadcast use vstd::seq_lib::group_to_multiset_ensures;

    assert(stats.len() == stats.to_multiset().len());
    assert(others.len() == others.to_multiset().len());
    if stats.len() > 0 {
        let end = stats.len() - 1;
        assert(stats.to_multiset().count(stats[end]) > 0);
        assert(others.contains(stats[end]));
        let i = choose|i: int| 0 <= i < others.len() && others[i] == stats[end];
        lemma_amount_remove(stats, names, uid, is_tx, end);
        lemma_amount_remove(others, names, uid, is_tx, i);
        assert(stats.remove(end).to_multiset() == others.remove(i).to_multiset());
        lemma_amount_order(stats.remove(end), others.remove(i), names, uid, is_tx);
    }
}

/// Two readings that are not zero contradict each other in any order.
proof fn lemma_clash_order(
    stats: Seq<StatView>,
    others: Seq<StatView>,
    names: Map<Seq<char>, u32>,
)
    requires
        stats.to_multiset() == others.to_multiset(),
        forall|i: int| 0 <= i < stats.len() ==> (#[trigger] stats[i]).value != 0,
        clash(stats, names),
    ensures
        clash(others, names),
{
    broadcast use vstd::seq_lib::group_to_multiset_ensures;

    let (i, j) = choose|i: int, j: int| clash_at(stats, names, i, j);
    assert(stats.contains(stats[i]));
    assert(others.to_multiset().count(stats[i]) > 0);
    let k = choose|k: int| 0 <= k < others.len() && others[k] == stats[i];
    let rest = others.remove(k);
    assert(rest.to_multiset() == stats.remove(i).to_multiset());
    assert(stats.remove(i)[j - 1] == stats[j]);
    assert(stats.remove(i).contains(stats[j]));
    assert(rest.to_multiset().count(stats[j]) > 0);
    let l = choose|l: int| 0 <= l < rest.len() && rest[l] == stats[j];
    if l < k {
        assert(others[l] == stats[j]);
        assert(stats[j].value != 0);
        assert(clash_at(others, names, l, k));
    } else {
        assert(others[l + 1] == stats[j]);
        assert(clash_at(others, names, k, l + 1));
    }
}

/// Of readings that are not zero, neither whether they contradict each other nor the samples depend
/// on their order.
pub proof fn law_order_of_readings(
    stats: Seq<StatView>,
    others: Seq<StatView>,
    names: Map<Seq<char>, u32>,
)
    requires
        stats.to_multiset() == others.to_multiset(),
        forall|i: int| 0 <= i < stats.len() ==> (#[trigger] stats[i]).value != 0,
    ensures
        clash(stats, names) == clash(others, names),
        samples_of(crate::listing::entries(amounts(stats, names))) == samples_of(
            crate::listing::entries(amounts(others, names)),
        ),
{
    broadcast use vstd::seq_lib::group_to_multiset_ensures;

    if clash(stats, names) {
        lemma_clash_order(stats, others, names);
    }
    if clash(others, names) {
        assert forall|i: int| 0 <= i < others.len() implies (#[trigger] others[i]).value != 0 by {
            assert(others.contains(others[i]));
            assert(stats.to_multiset().count(others[i]) > 0);
            let k = choose|k: int| 0 <= k < stats.len() && stats[k] == others[i];
            assert(stats[k].value != 0);
        }
        lemma_clash_order(others, stats, names);
    }
    assert forall|uid: u32| mentioned(stats, names, uid) == mentioned(others, names, uid) by {
        if mentioned(stats, names, uid) {
            let i = choose|i: int|
                0 <= i < stats.len() && user_of_stat(#[trigger] stats[i], names) == Some(uid);
            assert(others.to_multiset().count(stats[i]) > 0) by {
                assert(stats.contains(stats[i]));
            }
            let k = choose|k: int| 0 <= k < others.len() && others[k] == stats[i];
            assert(user_of_stat(others[k], names) == Some(uid));
        }
        if mentioned(others, names, uid) {
            let i = choose|i: int|
                0 <= i < others.len() && user_of_stat(#[trigger] others[i], names) == Some(uid);
            assert(stats.to_multiset().count(others[i]) > 0) by {
                assert(others.contains(others[i]));
            }
            let k = choose|k: int| 0 <= k < stats.len() && stats[k] == others[i];
            assert(user_of_stat(stats[k], names) == Some(uid));
        }
    }
    assert forall|uid: u32, is_tx: bool|
        amount(stats, names, uid, is_tx) == amount(others, names, uid, is_tx) by {
        lemma_amount_order(stats, others, names, uid, is_tx);
    }
    assert(amounts(stats, names) =~= amounts(others, names));
}

/// Every known user of a report has a sample with what the report says.
pub proof fn law_hysteria_sample(
    report: Seq<(Seq<char>, Traffic)>,
    names: Map<Seq<char>, u32>,
    i: int,
)
    requires
        0 <= i < report.len(),
        names.contains_key(report[i].0),
    ensures
        known_traffic(report, names).contains(
            (names[report[i].0], report[i].1.tx, report[i].1.rx),
        ),
    decreases report.len(),
{
    let sample = (names[report[i].0], report[i].1.tx, report[i].1.rx);
    let before = known_traffic(report.drop_last(), names);
    let all = known_traffic(report, names);
    if i < report.len() - 1 {
        law_hysteria_sample(report.drop_last(), names, i);
        let k = choose|k: int| 0 <= k < before.len() && before[k] == sample;
        assert(all[k] == sample);
    } else {
        assert(all[before.len() as int] == sample);
    }
}

/// Readings contradict each other exactly if two are about one known user and direction, and the
/// first of them is not zero.
pub proof fn law_clash(stats: Seq<StatView>, names: Map<Seq<char>, u32>)
    ensures
        clash(stats, names) <==> exists|i: int, j: int|
            #![trigger stats[i], stats[j]]
            {
                &&& 0 <= i < j < stats.len()
                &&& names.contains_key(crate::text::before(stats[i].email, '@'))
                &&& names.contains_key(crate::text::before(stats[j].email, '@'))
                &&& names[crate::text::before(stats[i].email, '@')] == names[crate::text::before(
                    stats[j].email,
                    '@',
                )]
                &&& stats[i].is_tx == stats[j].is_tx
                &&& stats[i].value != 0
            },
{
    if clash(stats, names) {
        let (i, j) = choose|i: int, j: int| clash_at(stats, names, i, j);
        assert(stats[i].is_tx == stats[j].is_tx);
    }
    assert forall|i: int, j: int|
        #![trigger stats[i], stats[j]]
        {
            &&& 0 <= i < j < stats.len()
            &&& names.contains_key(crate::text::before(stats[i].email, '@'))
            &&& names.contains_key(crate::text::before(stats[j].email, '@'))
            &&& names[crate::text::before(stats[i].email, '@')] == names[crate::text::before(
                stats[j].email,
                '@',
            )]
            &&& stats[i].is_tx == stats[j].is_tx
            &&& stats[i].value != 0
        } implies clash(stats, names) by {
        assert(clash_at(stats, names, i, j));
    }
}

/// A reading of a known user shows in the sample of that user, in its direction; whom it is about is
/// told by what stands before the first at sign of the email. There is one sample for each user, by
/// ascending user id.
pub proof fn law_reading_is_sampled(stats: Seq<StatView>, names: Map<Seq<char>, u32>, i: int)
    requires
        !clash(stats, names),
        0 <= i < stats.len(),
        names.contains_key(crate::text::before(stats[i].email, '@')),
    ensures
        ({
            let samples = samples_of(crate::listing::entries(amounts(stats, names)));
            let uid = names[crate::text::before(stats[i].email, '@')];
            &&& exists|k: int|
                {
                    &&& 0 <= k < samples.len()
                    &&& (#[trigger] samples[k]).0 == uid
                    &&& stats[i].value != 0 && stats[i].is_tx ==> samples[k].1 == stats[i].value
                    &&& stats[i].value != 0 && !stats[i].is_tx ==> samples[k].2 == stats[i].value
                }
            &&& forall|k: int, l: int|
                0 <= k < l < samples.len() ==> (#[trigger] samples[k]).0 < (#[trigger] samples[l]).0
        }),
{
    let map = amounts(stats, names);
    let entries = crate::listing::entries(map);
    let samples = samples_of(entries);
    let uid = names[crate::text::before(stats[i].email, '@')];
    crate::listing::lemma_entries_lists(map);
    assert(user_of_stat(stats[i], names) == Some(uid));
    assert(map.contains_key(uid));
    let k = choose|k: int| 0 <= k < entries.len() && (#[trigger] entries[k]).0 == uid;
    assert(samples[k].0 == uid);
    if stats[i].value != 0 {
        lemma_amount_is(stats, names, i);
    }
    assert forall|k: int, l: int| 0 <= k < l < samples.len() implies (#[trigger] samples[k]).0 < (
    #[trigger] samples[l]).0 by {
        assert(entries[k].0 < entries[l].0);
    }
}

/// The reading is about the user that the sample is about.
spec fn is_source(
    stat: StatView,
    names: Map<Seq<char>, u32>,
    sample: (u32, u64, u64),
) -> bool {
    names.contains_key(crate::text::before(stat.email, '@')) && names[crate::text::before(
        stat.email,
        '@',
    )] == sample.0
}

/// A sample holds nothing but what was read: some reading is about its user, and what it says that
/// the user sent, or received, was read of that user and direction.
pub proof fn law_sample_was_read(stats: Seq<StatView>, names: Map<Seq<char>, u32>, k: int)
    requires
        !clash(stats, names),
        0 <= k < samples_of(crate::listing::entries(amounts(stats, names))).len(),
    ensures
        ({
            let sample = samples_of(crate::listing::entries(amounts(stats, names)))[k];
            &&& exists|i: int|
                0 <= i < stats.len() && names.contains_key(
                    crate::text::before((#[trigger] stats[i]).email, '@'),
                ) && names[crate::text::before(stats[i].email, '@')] == sample.0
            &&& sample.1 != 0 ==> exists|i: int|
                0 <= i < stats.len() && names.contains_key(
                    crate::text::before((#[trigger] stats[i]).email, '@'),
                ) && names[crate::text::before(stats[i].email, '@')] == sample.0 && stats[i].is_tx
                    && stats[i].value == sample.1
            &&& sample.2 != 0 ==> exists|i: int|
                0 <= i < stats.len() && names.contains_key(
                    crate::text::before((#[trigger] stats[i]).email, '@'),
                ) && names[crate::text::before(stats[i].email, '@')] == sample.0 && !stats[i].is_tx
                    && stats[i].value == sample.2
        }),
{
    let map = amounts(stats, names);
    let entries = crate::listing::entries(map);
    let sample = samples_of(entries)[k];
    crate::listing::lemma_entries_lists(map);
    assert(map.contains_key(entries[k].0));
    lemma_amount_fits(stats, names, sample.0, true);
    lemma_amount_fits(stats, names, sample.0, false);
    let i = choose|i: int|
        0 <= i < stats.len() && user_of_stat(#[trigger] stats[i], names) == Some(sample.0);
    assert(is_source(stats[i], names, sample));
    if sample.1 != 0 {
        let j = lemma_amount_source(stats, names, sample.0, true);
        lemma_amount_is(stats, names, j);
        assert(is_source(stats[j], names, sample));
    }
    if sample.2 != 0 {
        let j = lemma_amount_source(stats, names, sample.0, false);
        lemma_amount_is(stats, names, j);
        assert(is_source(stats[j], names, sample));
    }
}

proof fn lemma_unknown(
    stats: Seq<StatView>,
    names: Map<Seq<char>, u32>,
    strange: spec_fn(StatView) -> bool,
)
    requires
        forall|stat: StatView| #[trigger]
            strange(stat) <==> !names.contains_key(crate::text::before(stat.email, '@')),
    ensures
        unknown(stats, names) == stats.filter(strange),
    decreases stats.len(),
{
    reveal(Seq::filter);
    if stats.len() > 0 {
        lemma_unknown(stats.drop_last(), names, strange);
        assert(strange(stats.last()) <==> !names.contains_key(
            crate::text::before(stats.last().email, '@'),
        ));
    }
}

/// The readings that are left out are those of which no known name stands before the first at sign
/// of the email.
pub proof fn law_unknown(stats: Seq<StatView>, names: Map<Seq<char>, u32>)
    ensures
        unknown(stats, names) == stats.filter(
            |stat: StatView| !names.contains_key(crate::text::before(stat.email, '@')),
        ),
{
    lemma_unknown(
        stats,
        names,
        |stat: StatView| !names.contains_key(crate::text::before(stat.email, '@')),
    );
}

proof fn lemma_known_traffic(
    report: Seq<(Seq<char>, Traffic)>,
    names: Map<Seq<char>, u32>,
    known: spec_fn((Seq<char>, Traffic)) -> bool,
    strange: spec_fn((Seq<char>, Traffic)) -> bool,
    sample: spec_fn((Seq<char>, Traffic)) -> (u32, u64, u64),
)
    requires
        forall|entry: (Seq<char>, Traffic)| #[trigger] known(entry) <==> names.contains_key(entry.0),
        forall|entry: (Seq<char>, Traffic)| #[trigger]
            strange(entry) <==> !names.contains_key(entry.0),
        forall|entry: (Seq<char>, Traffic)| #[trigger]
            sample(entry) == (names[entry.0], entry.1.tx, entry.1.rx),
    ensures
        known_traffic(report, names) == report.filter(known).map_values(sample),
        unknown_traffic(report, names) == report.filter(strange),
    decreases report.len(),
{
    reveal(Seq::filter);
    if report.len() > 0 {
        let rest = report.drop_last();
        let last = report.last();
        lemma_known_traffic(rest, names, known, strange, sample);
        assert(known(last) <==> names.contains_key(last.0));
        assert(strange(last) <==> !names.contains_key(last.0));
        assert(sample(last) == (names[last.0], last.1.tx, last.1.rx));
        assert(rest.filter(known).push(last).map_values(sample) =~= rest.filter(known).map_values(
            sample,
        ).push(sample(last)));
    }
    assert(known_traffic(report, names) =~= report.filter(known).map_values(sample));
}

/// The samples of a report are those of its known users, one for one and in order, each with what
/// the user sent and received; the users that are left out are the others.
pub proof fn law_hysteria_result(
    report: Seq<(Seq<char>, Traffic)>,
    names: Map<Seq<char>, u32>,
)
    ensures
        known_traffic(report, names) == report.filter(
            |entry: (Seq<char>, Traffic)| names.contains_key(entry.0),
        ).map_values(
            |entry: (Seq<char>, Traffic)| (names[entry.0], entry.1.tx, entry.1.rx),
        ),
        unknown_traffic(report, names) == report.filter(
            |entry: (Seq<char>, Traffic)| !names.contains_key(entry.0),
        ),
{
    lemma_known_traffic(
        report,
        names,
        |entry: (Seq<char>, Traffic)| names.contains_key(entry.0),
        |entry: (Seq<char>, Traffic)| !names.contains_key(entry.0),
        |entry: (Seq<char>, Traffic)| (names[entry.0], entry.1.tx, entry.1.rx),
    );
}

/// The view of a report leaves nothing out.
pub proof fn law_report_view(report: Seq<(String, Traffic)>)
    ensures
        report_view(report).len() == report.len(),
        forall|i: int|
            0 <= i < report.len() ==> (#[trigger] report_view(report)[i]) == (
                report[i].0@,
                report[i].1,
            ),
{
}

} // verus!
