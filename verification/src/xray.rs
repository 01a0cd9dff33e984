//! The xray server's traffic counters.
use vstd::prelude::*;

use crate::text::{same, split_str};

verus! {

#[derive(Debug)]
pub struct Config {
    pub server: String,
}

/// The request for counters.
#[derive(Debug)]
pub struct Query {
    /// The counters whose names hold this are asked for.
    pub pattern: String,
    /// Whether the counters start afresh.
    pub reset: bool,
}

/// The request for all counters.
pub fn query(reset: bool) -> (query: Query)
    ensures
        query.pattern@ == Seq::<char>::empty(),
        query.reset == reset,
{
    Query { pattern: String::new(), reset }
}

/// A counter as the server reports it.
#[derive(Debug)]
pub struct RawStat {
    pub name: String,
    pub value: i64,
}

/// What a user sent (`is_tx`) or received.
#[derive(Debug)]
pub struct Stat<'a> {
    pub email: &'a str,
    pub is_tx: bool,
    pub value: u64,
}

/// A reading, with the characters of the email.
pub struct StatView {
    pub email: Seq<char>,
    pub is_tx: bool,
    pub value: u64,
}

impl<'a> View for Stat<'a> {
    type V = StatView;

    open spec fn view(&self) -> StatView {
        StatView { email: self.email@, is_tx: self.is_tx, value: self.value }
    }
}

/// Why a counter cannot be read.
#[derive(Clone, Copy, Debug, PartialEq, Eq, Structural)]
pub enum StatError {
    /// Its name does not begin with `user`.
    NotUser,
    /// Its name ends after `user`.
    NoEmail,
    /// The email is not followed by `traffic`.
    NotTraffic,
    /// Its name ends after `traffic`.
    NoLink,
    /// `traffic` is followed by neither `uplink` nor `downlink`.
    BadLink,
    /// Its name goes on after the link.
    TooLong,
    /// Its value is not above zero.
    NotPositive,
}

/// What a counter says. Its name is `user>>>`, the email, `>>>traffic>>>`, and `uplink` or
/// `downlink`.
pub open spec fn stat_of(name: Seq<char>, value: i64) -> Result<StatView, StatError> {
    let parts = crate::text::split(name, ">>>"@);
    if parts[0] != "user"@ {
        Err(StatError::NotUser)
    } else if parts.len() < 2 {
        Err(StatError::NoEmail)
    } else if parts.len() < 3 || parts[2] != "traffic"@ {
        Err(StatError::NotTraffic)
    } else if parts.len() < 4 {
        Err(StatError::NoLink)
    } else if parts[3] != "uplink"@ && parts[3] != "downlink"@ {
        Err(StatError::BadLink)
    } else if parts.len() > 4 {
        Err(StatError::TooLong)
    } else if value <= 0 {
        Err(StatError::NotPositive)
    } else {
        Ok(StatView { email: parts[1], is_tx: parts[3] == "uplink"@, value: value as u64 })
    }
}

/// What a counter says.
pub fn read_stat(raw: &RawStat) -> (stat: Result<Stat, StatError>)
    ensures
        match stat {
            Ok(stat) => stat_of(raw.name@, raw.value) == Ok::<StatView, StatError>(stat@),
            Err(error) => stat_of(raw.name@, raw.value) == Err::<StatView, StatError>(error),
        },
        stat matches Ok(read) ==> (stat_of(raw.name@, raw.value) matches Ok(view) && read.email@
            == view.email && read.is_tx == view.is_tx && read.value == view.value),
{
    proof {
        reveal_strlit(">>>");
    }
    let parts = split_str(raw.name.as_str(), ">>>");
    let ghost views = crate::text::views(parts@);
    assert(forall|i: int| 0 <= i < parts@.len() ==> (#[trigger] views[i]) == parts@[i]@);
    proof {
        crate::text::lemma_split_len(raw.name@, ">>>"@);
    }
    if !same(parts[0], "user") {
        return Err(StatError::NotUser);
    }
    if parts.len() < 2 {
        return Err(StatError::NoEmail);
    }
    if parts.len() < 3 || !same(parts[2], "traffic") {
        return Err(StatError::NotTraffic);
    }
    if parts.len() < 4 {
        return Err(StatError::NoLink);
    }
    let is_tx = same(parts[3], "uplink");
    if !is_tx && !same(parts[3], "downlink") {
        return Err(StatError::BadLink);
    }
    if parts.len() > 4 {
        return Err(StatError::TooLong);
    }
    if raw.value <= 0 {
        return Err(StatError::NotPositive);
    }
    Ok(Stat { email: parts[1], is_tx, value: raw.value as u64 })
}

/// What the counters that are not zero say, in order; or why the first of them that cannot be read
/// cannot.
pub open spec fn stats_of(raw: Seq<(Seq<char>, i64)>) -> Result<Seq<StatView>, StatError>
    decreases raw.len(),
{
    if raw.len() == 0 {
        Ok(Seq::empty())
    } else {
        let (name, value) = raw.last();
        match stats_of(raw.drop_last()) {
            Err(error) => Err(error),
            Ok(stats) => if value == 0 {
                Ok(stats)
            } else {
                match stat_of(name, value) {
                    Ok(stat) => Ok(stats.push(stat)),
                    Err(error) => Err(error),
                }
            },
        }
    }
}

/// What the readings are.
pub open spec fn stats_view(stats: Seq<Stat>) -> Seq<StatView> {
    Seq::new(stats.len(), |i: int| stats[i]@)
}

/// The counters that the server reports.
#[derive(Debug)]
pub struct Stats {
    raw: Vec<RawStat>,
}

impl View for Stats {
    type V = Seq<(Seq<char>, i64)>;

    closed spec fn view(&self) -> Seq<(Seq<char>, i64)> {
        raw_view(self.raw@)
    }
}

/// The names and the values of the counters.
pub open spec fn raw_view(raw: Seq<RawStat>) -> Seq<(Seq<char>, i64)> {
    Seq::new(raw.len(), |i: int| (raw[i].name@, raw[i].value))
}

/// A first error is the error of all.
proof fn lemma_stats_of_err(raw: Seq<(Seq<char>, i64)>, n: int)
    requires
        0 <= n <= raw.len(),
        stats_of(raw.take(n)) is Err,
    ensures
        stats_of(raw) == stats_of(raw.take(n)),
    decreases raw.len(),
{
    if n < raw.len() {
        assert(raw.drop_last().take(n) =~= raw.take(n));
        lemma_stats_of_err(raw.drop_last(), n);
    } else {
        assert(raw.take(n) =~= raw);
    }
}

impl Stats {
    pub fn new(raw: Vec<RawStat>) -> (stats: Stats)
        ensures
            stats@ == raw_view(raw@),
            stats@.len() == raw@.len(),
            forall|i: int|
                0 <= i < raw@.len() ==> (#[trigger] stats@[i]) == (raw@[i].name@, raw@[i].value),
    {
        Stats { raw }
    }

    /// What the counters that are not zero say, in order.
    pub fn iter(&self) -> (stats: Result<Vec<Stat>, StatError>)
        ensures
            match stats {
                Ok(stats) => stats_of(self@) == Ok::<Seq<StatView>, StatError>(stats_view(stats@)),
                Err(error) => stats_of(self@) == Err::<Seq<StatView>, StatError>(error),
            },
            stats is Ok <==> forall|j: int|
                0 <= j < self@.len() && (#[trigger] self@[j]).1 != 0 ==> stat_of(
                    self@[j].0,
                    self@[j].1,
                ) is Ok,
            stats matches Ok(list) ==> (stats_of(self@) matches Ok(views) && {
                &&& list@.len() == views.len()
                &&& forall|k: int|
                    #![trigger list@[k]]
                    0 <= k < list@.len() ==> list@[k].email@ == views[k].email && list@[k].is_tx
                        == views[k].is_tx && list@[k].value == views[k].value
            }),
    {
        let mut stats: Vec<Stat> = Vec::new();
        let ghost raw = self@;
        assert(raw.take(0) =~= Seq::empty());
        assert(stats_view(stats@) =~= Seq::empty());
        for i in 0..self.raw.len()
            invariant
                raw == raw_view(self.raw@),
                raw == self@,
                stats_of(raw.take(i as int)) == Ok::<Seq<StatView>, StatError>(stats_view(stats@)),
        {
            proof {
                assert(raw.take(i + 1).drop_last() =~= raw.take(i as int));
                assert(raw.take(i + 1).last() == (
                    self.raw@[i as int].name@,
                    self.raw@[i as int].value,
                ));
            }
            if self.raw[i].value != 0 {
                match read_stat(&self.raw[i]) {
                    Ok(stat) => {
                        assert(stats_view(stats@.push(stat)) =~= stats_view(stats@).push(stat@));
                        stats.push(stat);
                    },
                    Err(error) => {
                        proof {
                            lemma_stats_of_err(raw, i + 1);
                            law_readings(raw);
                        }
                        return Err(error);
                    },
                }
            }
        }
        assert(raw.take(self.raw@.len() as int) =~= raw);
        proof {
            law_readings(raw);
            let views = stats_view(stats@);
            assert forall|k: int| #![trigger stats@[k]] 0 <= k < stats@.len() implies stats@[k].email@
                == views[k].email && stats@[k].is_tx == views[k].is_tx && stats@[k].value
                == views[k].value by {
                assert(views[k] == stats@[k]@);
            }
        }
        Ok(stats)
    }
}

/// The name of the counter of what a user sent or received.
pub open spec fn stat_name(email: Seq<char>, is_tx: bool) -> Seq<char> {
    "user"@ + ">>>"@ + (email + ">>>"@ + ("traffic"@ + ">>>"@ + if is_tx {
        "uplink"@
    } else {
        "downlink"@
    }))
}

/// An email can be told from what surrounds it in the name of a counter: it does not hold the
/// separator and does not run into the one that follows.
pub open spec fn is_separable(email: Seq<char>) -> bool {
    &&& forall|j: int| !crate::text::occurs_at(email, ">>>"@, j)
    &&& email.len() > 0 ==> email.last() != '>'
}

proof fn lemma_separable_cut(piece: Seq<char>, rest: Seq<char>)
    requires
        is_separable(piece),
    ensures
        crate::text::split(piece + ">>>"@ + rest, ">>>"@) == seq![piece] + crate::text::split(
            rest,
            ">>>"@,
        ),
{
    reveal_strlit(">>>");
    let sep = ">>>"@;
    let s = piece + sep + rest;
    assert forall|j: int| 0 <= j < piece.len() implies !crate::text::occurs_at(s, sep, j) by {
        if crate::text::occurs_at(s, sep, j) {
            let window = s.subrange(j, j + 3);
            if j + 3 <= piece.len() {
                assert(piece.subrange(j, j + 3) =~= window);
                assert(crate::text::occurs_at(piece, sep, j));
            } else {
                let k = piece.len() - 1;
                assert(window[k - j] == s[k]);
                assert(s[k] == piece[k]);
                assert(sep[k - j] == '>');
            }
        }
    }
    crate::text::lemma_split_cut(piece, sep, rest);
}

/// A word without the separator's character is separable.
proof fn lemma_plain_separable(word: Seq<char>)
    requires
        !word.contains('>'),
    ensures
        is_separable(word),
{
    reveal_strlit(">>>");
    assert forall|j: int| !crate::text::occurs_at(word, ">>>"@, j) by {
        if crate::text::occurs_at(word, ">>>"@, j) {
            assert(word.subrange(j, j + 3)[0] == word[j]);
            assert(word.contains(word[j]));
        }
    }
    if word.len() > 0 {
        assert(word.contains(word[word.len() - 1]));
    }
}

/// The counter of a user's traffic in one direction is read back as that user's traffic in that
/// direction.
pub proof fn law_stat_name(email: Seq<char>, is_tx: bool, value: i64)
    requires
        is_separable(email),
        value > 0,
    ensures
        stat_of(stat_name(email, is_tx), value) == Ok::<StatView, StatError>(
            StatView { email, is_tx, value: value as u64 },
        ),
{
    reveal_strlit(">>>");
    reveal_strlit("user");
    reveal_strlit("traffic");
    reveal_strlit("uplink");
    reveal_strlit("downlink");
    let link = if is_tx {
        "uplink"@
    } else {
        "downlink"@
    };
    let end = "traffic"@ + ">>>"@ + link;
    lemma_plain_separable("user"@);
    lemma_plain_separable("traffic"@);
    lemma_plain_separable(link);
    lemma_separable_cut("user"@, email + ">>>"@ + end);
    lemma_separable_cut(email, end);
    lemma_separable_cut("traffic"@, link);
    crate::text::lemma_split_whole(link, ">>>"@);
    let parts = crate::text::split(stat_name(email, is_tx), ">>>"@);
    assert(parts =~= seq!["user"@, email, "traffic"@, link]);
    assert("uplink"@.len() != "downlink"@.len());
}

/// Only the counter of a user's traffic in one direction is read as that.
pub proof fn law_stat_name_only(name: Seq<char>, value: i64)
    ensures
        stat_of(name, value) matches Ok(stat) ==> name == stat_name(stat.email, stat.is_tx)
            && stat.value == value && value > 0,
{
    if let Ok(stat) = stat_of(name, value) {
        let sep = ">>>"@;
        let parts = crate::text::split(name, sep);
        crate::text::lemma_join_split(name, sep);
        let tail = parts.drop_first();
        let end = tail.drop_first();
        let link = end.drop_first();
        assert(crate::text::join(link, sep) == parts[3]);
        assert(crate::text::join(end, sep) == parts[2] + sep + parts[3]);
        assert(crate::text::join(tail, sep) == parts[1] + sep + (parts[2] + sep + parts[3]));
    }
}

/// The counter of what a user sent, or received, gives a reading of that user, that direction and
/// that value. The email must not hold the separator, nor end with its character.
pub proof fn law_reading(email: Seq<char>, value: i64)
    requires
        forall|j: int|
            0 <= j < email.len() - 2 ==> !((#[trigger] email[j]) == '>' && email[j + 1] == '>'
                && email[j + 2] == '>'),
        email.len() > 0 ==> email.last() != '>',
        value > 0,
    ensures
        stat_of("user>>>"@ + email + ">>>traffic>>>uplink"@, value) matches Ok(stat) && stat.email
            == email && stat.is_tx && stat.value == value,
        stat_of("user>>>"@ + email + ">>>traffic>>>downlink"@, value) matches Ok(stat)
            && stat.email == email && !stat.is_tx && stat.value == value,
{
    reveal_strlit(">>>");
    assert forall|j: int| !crate::text::occurs_at(email, ">>>"@, j) by {
        if crate::text::occurs_at(email, ">>>"@, j) {
            let window = email.subrange(j, j + 3);
            assert(window[0] == email[j] && window[1] == email[j + 1] && window[2] == email[j + 2]);
        }
    }
    law_stat_name(email, true, value);
    law_stat_name(email, false, value);
    lemma_whole_name(email);
}

/// The name of a counter in one piece.
proof fn lemma_whole_name(email: Seq<char>)
    ensures
        stat_name(email, true) == "user>>>"@ + email + ">>>traffic>>>uplink"@,
        stat_name(email, false) == "user>>>"@ + email + ">>>traffic>>>downlink"@,
{
    reveal_strlit(">>>");
    reveal_strlit("user");
    reveal_strlit("traffic");
    reveal_strlit("uplink");
    reveal_strlit("downlink");
    reveal_strlit("user>>>");
    reveal_strlit(">>>traffic>>>uplink");
    reveal_strlit(">>>traffic>>>downlink");
    assert(stat_name(email, true) =~= "user>>>"@ + email + ">>>traffic>>>uplink"@);
    assert(stat_name(email, false) =~= "user>>>"@ + email + ">>>traffic>>>downlink"@);
}

/// A counter that gives a reading is called after the user and the direction of the reading, and
/// has its value, which is above zero.
pub proof fn law_reading_only(name: Seq<char>, value: i64)
    ensures
        stat_of(name, value) matches Ok(stat) ==> {
            &&& stat.value == value
            &&& value > 0
            &&& stat.is_tx ==> name == "user>>>"@ + stat.email + ">>>traffic>>>uplink"@
            &&& !stat.is_tx ==> name == "user>>>"@ + stat.email + ">>>traffic>>>downlink"@
        },
{
    law_stat_name_only(name, value);
    if let Ok(stat) = stat_of(name, value) {
        lemma_whole_name(stat.email);
    }
}

/// What is wrong with a counter that gives no reading: the first of its pieces that is missing or
/// not as it should be, then a piece too many, then the value.
pub proof fn law_no_reading(name: Seq<char>, value: i64)
    ensures
        ({
            let parts = crate::text::split(name, ">>>"@);
            let stat = stat_of(name, value);
            let link = parts[3] == "uplink"@ || parts[3] == "downlink"@;
            let user = parts[0] == "user"@;
            let traffic = parts.len() >= 3 && parts[2] == "traffic"@;
            &&& stat == Err::<StatView, StatError>(StatError::NotUser) <==> !user
            &&& stat == Err::<StatView, StatError>(StatError::NoEmail) <==> user && parts.len() == 1
            &&& stat == Err::<StatView, StatError>(StatError::NotTraffic) <==> user && parts.len()
                >= 2 && !traffic
            &&& stat == Err::<StatView, StatError>(StatError::NoLink) <==> user && traffic
                && parts.len() == 3
            &&& stat == Err::<StatView, StatError>(StatError::BadLink) <==> user && traffic
                && parts.len() >= 4 && !link
            &&& stat == Err::<StatView, StatError>(StatError::TooLong) <==> user && traffic && link
                && parts.len() >= 5
            &&& stat == Err::<StatView, StatError>(StatError::NotPositive) <==> user && traffic
                && link && parts.len() == 4 && value <= 0
            &&& stat is Ok <==> user && traffic && link && parts.len() == 4 && value > 0
        }),
{
    crate::text::lemma_split_len(name, ">>>"@);
}

proof fn lemma_readings(raw: Seq<(Seq<char>, i64)>, active: spec_fn((Seq<char>, i64)) -> bool)
    requires
        forall|counter: (Seq<char>, i64)| #[trigger] active(counter) <==> counter.1 != 0,
    ensures
        match stats_of(raw) {
            Ok(stats) => {
                &&& stats.len() == raw.filter(active).len()
                &&& forall|k: int|
                    #![trigger stats[k]]
                    0 <= k < stats.len() ==> stat_of(raw.filter(active)[k].0, raw.filter(active)[k].1)
                        == Ok::<StatView, StatError>(stats[k])
            },
            Err(error) => exists|i: int|
                {
                    &&& 0 <= i < raw.len()
                    &&& (#[trigger] raw[i]).1 != 0
                    &&& stat_of(raw[i].0, raw[i].1) == Err::<StatView, StatError>(error)
                    &&& forall|j: int|
                        0 <= j < i && (#[trigger] raw[j]).1 != 0 ==> stat_of(raw[j].0, raw[j].1) is Ok
                },
        },
        stats_of(raw) is Ok ==> forall|j: int|
            0 <= j < raw.len() && (#[trigger] raw[j]).1 != 0 ==> stat_of(raw[j].0, raw[j].1) is Ok,
    decreases raw.len(),
{
    reveal(Seq::filter);
    if raw.len() > 0 {
        let rest = raw.drop_last();
        lemma_readings(rest, active);
        let last = raw.last();
        assert(active(last) <==> last.1 != 0);
        assert(raw[raw.len() - 1] == last);
        assert(forall|j: int| 0 <= j < rest.len() ==> (#[trigger] rest[j]) == raw[j]);
        assert(forall|j: int| 0 <= j < rest.len() ==> (#[trigger] raw[j]) == rest[j]);
        if let Err(error) = stats_of(rest) {
            let i = choose|i: int|
                {
                    &&& 0 <= i < rest.len()
                    &&& (#[trigger] rest[i]).1 != 0
                    &&& stat_of(rest[i].0, rest[i].1) == Err::<StatView, StatError>(error)
                    &&& forall|j: int|
                        0 <= j < i && (#[trigger] rest[j]).1 != 0 ==> stat_of(
                            rest[j].0,
                            rest[j].1,
                        ) is Ok
                };
            assert(raw[i].1 != 0);
        }
    }
}

/// The readings are those of the counters that are not zero, one for one and in order. There are
/// readings exactly if each of those counters can be read; otherwise the first that cannot is at
/// fault.
pub proof fn law_readings(raw: Seq<(Seq<char>, i64)>)
    ensures
        ({
            let active = raw.filter(|counter: (Seq<char>, i64)| counter.1 != 0);
            match stats_of(raw) {
                Ok(stats) => {
                    &&& stats.len() == active.len()
                    &&& forall|k: int|
                        #![trigger stats[k]]
                        0 <= k < stats.len() ==> stat_of(active[k].0, active[k].1) == Ok::<
                            StatView,
                            StatError,
                        >(stats[k])
                },
                Err(error) => exists|i: int|
                    {
                        &&& 0 <= i < raw.len()
                        &&& (#[trigger] raw[i]).1 != 0
                        &&& stat_of(raw[i].0, raw[i].1) == Err::<StatView, StatError>(error)
                        &&& forall|j: int|
                            0 <= j < i && (#[trigger] raw[j]).1 != 0 ==> stat_of(
                                raw[j].0,
                                raw[j].1,
                            ) is Ok
                    },
            }
        }),
        stats_of(raw) is Ok <==> forall|j: int|
            0 <= j < raw.len() && (#[trigger] raw[j]).1 != 0 ==> stat_of(raw[j].0, raw[j].1) is Ok,
{
    lemma_readings(raw, |counter: (Seq<char>, i64)| counter.1 != 0);
}

/// The views of counters and readings leave nothing out.
pub proof fn law_views(raw: Seq<RawStat>, stats: Seq<Stat>)
    ensures
        raw_view(raw).len() == raw.len(),
        forall|i: int|
            0 <= i < raw.len() ==> (#[trigger] raw_view(raw)[i]) == (raw[i].name@, raw[i].value),
        stats_view(stats).len() == stats.len(),
        forall|i: int|
            #![trigger stats_view(stats)[i]]
            0 <= i < stats.len() ==> stats_view(stats)[i].email == stats[i].email@ && stats_view(
                stats,
            )[i].is_tx == stats[i].is_tx && stats_view(stats)[i].value == stats[i].value,
{
}

} // verus!
