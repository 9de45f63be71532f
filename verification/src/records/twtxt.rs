//! Statuses in twtxt: one line each, a time in RFC 3339, a tab and the text.

use crate::text::{first_index_of, lines, prefix_within, split_at_ascii, split_line, truncated};
use crate::utf8::lemma_char_eq;
use crate::timeago::{elapsed, time_ago_at, time_ago_text, unix_time};
use chrono::DateTime;
use vstd::multiset::Multiset;
use vstd::prelude::*;
use vstd::string::*;

verus! {

/// The most bytes of a status's text that are kept.
pub const MAX_TEXT: usize = 280;

/// A point in time: seconds since 1970 in UTC, and the nanoseconds beyond.
#[derive(Clone, Copy, PartialEq, Eq, Structural, Debug)]
pub struct StatusTime {
    pub seconds: i64,
    pub nanos: u32,
}

/// A status of a person.
pub struct TwtxtStatus {
    /// When it was written.
    pub date: StatusTime,
    /// How long ago that was when the status was read.
    pub time_ago: String,
    pub username: String,
    pub text: String,
}

/// A status, as texts.
pub struct TwtxtStatusView {
    pub date: StatusTime,
    pub time_ago: Seq<char>,
    pub username: Seq<char>,
    pub text: Seq<char>,
}

impl View for TwtxtStatus {
    type V = TwtxtStatusView;

    open spec fn view(&self) -> TwtxtStatusView {
        TwtxtStatusView {
            date: self.date,
            time_ago: self.time_ago@,
            username: self.username@,
            text: self.text@,
        }
    }
}

/// What `chrono::DateTime::parse_from_rfc3339` makes of a text: the point in
/// time that it names, or `None` where it names none.
pub uninterp spec fn rfc3339_time(s: Seq<char>) -> Option<StatusTime>;

/// Parses `s` with `chrono::DateTime::parse_from_rfc3339` and copies out of
/// the result what `timestamp()` and `timestamp_subsec_nanos()` return; any
/// error gives `None`. The contract claims only that the result is a function
/// of `s`.
#[verifier::external_body]
pub(crate) fn parse_rfc3339(s: &str) -> (r: Option<StatusTime>)
    ensures
        r == rfc3339_time(s@),
{
    match DateTime::parse_from_rfc3339(s) {
        Ok(t) => Some(StatusTime { seconds: t.timestamp(), nanos: t.timestamp_subsec_nanos() }),
        Err(_) => None,
    }
}

/// Whether `a` is a later point in time than `b`.
pub open spec fn is_later(a: StatusTime, b: StatusTime) -> bool {
    a.seconds > b.seconds || (a.seconds == b.seconds && a.nanos > b.nanos)
}

/// Tests whether `a` is a later point in time than `b`.
pub fn later(a: &StatusTime, b: &StatusTime) -> (r: bool)
    ensures
        r == is_later(*a, *b),
{
    a.seconds > b.seconds || (a.seconds == b.seconds && a.nanos > b.nanos)
}

/// The status of `username` with the text `text`, written at `date` and read
/// at `now`: no more of the text is kept than `MAX_TEXT` bytes hold.
pub open spec fn status_with(
    username: Seq<char>,
    text: Seq<char>,
    date: StatusTime,
    now: u64,
) -> TwtxtStatusView {
    TwtxtStatusView {
        date,
        time_ago: time_ago_text(elapsed(now, (date.seconds as i32) as int)),
        username,
        text: prefix_within(text, MAX_TEXT as nat),
    }
}

/// Index of the first tab of `line`, or its length where it has none.
pub open spec fn tab_index(line: Seq<char>) -> int {
    first_index_of(line, '\t')
}

/// The status that the line `line` of `username` holds, read at `now`, where
/// `time` is the point in time that what stands before its first tab names:
/// `None` where the line has no tab or names no time.
pub open spec fn status_given(
    username: Seq<char>,
    line: Seq<char>,
    time: Option<StatusTime>,
    now: u64,
) -> Option<TwtxtStatusView> {
    if tab_index(line) == line.len() {
        None
    } else {
        match time {
            Some(date) => Some(status_with(username, line.skip(tab_index(line) + 1), date, now)),
            None => None,
        }
    }
}

/// The status that a line of `username` holds, read at `now`.
pub open spec fn status_at(username: Seq<char>, line: Seq<char>, now: u64) -> Option<
    TwtxtStatusView,
> {
    status_given(username, line, rfc3339_time(line.take(tab_index(line))), now)
}

impl TwtxtStatus {
    /// The status of `username` with the text `text`, written at `date` and
    /// read at `now`.
    pub fn with_time(username: String, text: &str, date: StatusTime, now: u64) -> (r: Self)
        ensures
            r@ == status_with(username@, text@, date, now),
    {
        let kept = truncated(text, MAX_TEXT);
        let written = #[verifier::truncate]
        (date.seconds as i32);
        TwtxtStatus {
            date,
            time_ago: time_ago_at(now, written),
            username,
            text: String::from_str(kept),
        }
    }

    /// The status that the line `status_text` of `username` holds, read at
    /// `now`; `None` where the line has no tab or names no time before it.
    pub fn new_at(username: String, status_text: &str, now: u64) -> (r: Option<Self>)
        ensures
            match r {
                Some(status) => status_at(username@, status_text@, now) == Some(status@),
                None => status_at(username@, status_text@, now) is None,
            },
    {
        match split_at_ascii(status_text, 0x09) {
            None => {
                proof {
                    lemma_char_eq(0x09u8 as char, '\t');
                }
                None
            },
            Some((time, text)) => {
                proof {
                    lemma_char_eq(0x09u8 as char, '\t');
                }
                match parse_rfc3339(time) {
                    Some(date) => Some(Self::with_time(username, text, date, now)),
                    None => None,
                }
            },
        }
    }

    /// The status that the line `status_text` of `username` holds, read by
    /// the system's clock.
    pub fn new(username: String, status_text: String) -> (r: Option<Self>)
        ensures
            exists|now: u64|
                match r {
                    Some(status) => status_at(username@, status_text@, now) == Some(status@),
                    None => #[trigger] status_at(username@, status_text@, now) is None,
                },
    {
        let now = unix_time();
        let r = Self::new_at(username, status_text.as_str(), now);
        proof {
            assert(match r {
                Some(status) => status_at(username@, status_text@, now) == Some(status@),
                None => status_at(username@, status_text@, now) is None,
            });
        }
        r
    }
}

/// The views of statuses.
pub open spec fn views(statuses: Seq<TwtxtStatus>) -> Seq<TwtxtStatusView> {
    statuses.map_values(|s: TwtxtStatus| s@)
}

/// The statuses that lines of `username` hold, read at `now`, in the order
/// of the lines; a line that holds none is passed over.
pub open spec fn statuses_in(username: Seq<char>, ls: Seq<Seq<char>>, now: u64) -> Seq<
    TwtxtStatusView,
>
    decreases ls.len(),
{
    if ls.len() == 0 {
        Seq::<TwtxtStatusView>::empty()
    } else {
        match status_at(username, ls[0], now) {
            Some(status) => seq![status] + statuses_in(username, ls.drop_first(), now),
            None => statuses_in(username, ls.drop_first(), now),
        }
    }
}

/// Appends to `statuses` those that the lines of the file `file_text` of
/// `username` hold, read at `now`.
pub fn read_statuses(statuses: &mut Vec<TwtxtStatus>, username: &str, file_text: &str, now: u64)
    ensures
        views(final(statuses)@) == views(old(statuses)@) + statuses_in(
            username@,
            lines(file_text@),
            now,
        ),
{
    let mut rest = file_text;
    proof {
        assert(views(statuses@) + statuses_in(username@, lines(rest@), now) =~= views(
            old(statuses)@,
        ) + statuses_in(username@, lines(file_text@), now));
    }
    while !rest.is_empty()
        invariant
            views(statuses@) + statuses_in(username@, lines(rest@), now) == views(old(statuses)@)
                + statuses_in(username@, lines(file_text@), now),
        decreases rest@.len(),
    {
        let (line, next) = split_line(rest);
        let ghost before = statuses@;
        proof {
            let ls = lines(rest@);
            assert(ls[0] == line@);
            assert(ls.drop_first() =~= lines(next@));
        }
        match TwtxtStatus::new_at(String::from_str(username), line, now) {
            Some(status) => {
                statuses.push(status);
                proof {
                    assert(views(statuses@) =~= views(before) + seq![status@]);
                    assert(views(statuses@) + statuses_in(username@, lines(next@), now) =~= views(
                        before,
                    ) + statuses_in(username@, lines(rest@), now));
                }
            },
            None => {},
        }
        rest = next;
    }
    proof {
        assert(lines(rest@).len() == 0);
        assert(views(statuses@) + Seq::<TwtxtStatusView>::empty() =~= views(statuses@));
    }
}

/// Whether no status stands before one that is later: the latest come first.
pub open spec fn is_newest_first(statuses: Seq<TwtxtStatus>) -> bool {
    forall|i: int, j: int|
        0 <= i < j < statuses.len() ==> !is_later(
            (#[trigger] statuses[j]).date,
            (#[trigger] statuses[i]).date,
        )
}

/// Putting one element into a sequence adds it to what the sequence holds.
proof fn lemma_insert_to_multiset(s: Seq<TwtxtStatus>, i: int, x: TwtxtStatus)
    requires
        0 <= i <= s.len(),
    ensures
        s.insert(i, x).to_multiset() == s.to_multiset().insert(x),
{
    let t = s.insert(i, x);
    assert(t.remove(i) =~= s);
    assert(t[i] == x);
    vstd::seq_lib::to_multiset_remove(t, i);
    t.to_multiset_ensures();
    assert(t.to_multiset().count(x) > 0) by {
        assert(t.contains(x));
    }
    assert(t.to_multiset() =~= t.to_multiset().remove(x).insert(x));
}

/// The statuses with the latest first.
pub fn newest_first(statuses: Vec<TwtxtStatus>) -> (sorted: Vec<TwtxtStatus>)
    ensures
        is_newest_first(sorted@),
        sorted@.to_multiset() == statuses@.to_multiset(),
{
    let mut pending = statuses;
    let mut sorted: Vec<TwtxtStatus> = Vec::new();
    proof {
        assert(sorted@.to_multiset().add(pending@.to_multiset()) =~= statuses@.to_multiset()) by {
            sorted@.to_multiset_ensures();
            assert(sorted@.to_multiset().len() == 0);
        }
    }
    while pending.len() > 0
        invariant
            is_newest_first(sorted@),
            sorted@.to_multiset().add(pending@.to_multiset()) == statuses@.to_multiset(),
        decreases pending@.len(),
    {
        let ghost pending_before = pending@;
        let ghost sorted_before = sorted@;
        let status = pending.pop().unwrap();
        proof {
            assert(pending@ =~= pending_before.remove(pending_before.len() - 1));
            vstd::seq_lib::to_multiset_remove(pending_before, pending_before.len() - 1);
            pending_before.to_multiset_ensures();
            assert(pending_before.to_multiset().count(status) > 0) by {
                assert(pending_before[pending_before.len() - 1] == status);
                assert(pending_before.contains(status));
            }
        }
        let mut at: usize = 0;
        while at < sorted.len() && !later(&status.date, &sorted[at].date)
            invariant
                at <= sorted@.len(),
                sorted@ == sorted_before,
                forall|i: int| 0 <= i < at ==> !is_later(status.date, (#[trigger] sorted@[i]).date),
            decreases sorted@.len() - at,
        {
            at = at + 1;
        }
        sorted.insert(at, status);
        proof {
            lemma_insert_to_multiset(sorted_before, at as int, status);
            assert(sorted@.to_multiset().add(pending@.to_multiset()) =~= statuses@.to_multiset());
            assert forall|i: int, j: int| 0 <= i < j < sorted@.len() implies !is_later(
                (#[trigger] sorted@[j]).date,
                (#[trigger] sorted@[i]).date,
            ) by {
                let a = if i < at {
                    sorted_before[i]
                } else if i == at {
                    status
                } else {
                    sorted_before[i - 1]
                };
                let b = if j < at {
                    sorted_before[j]
                } else if j == at {
                    status
                } else {
                    sorted_before[j - 1]
                };
                assert(sorted@[i] == a);
                assert(sorted@[j] == b);
                if at < sorted_before.len() {
                    assert(is_later(status.date, sorted_before[at as int].date));
                }
            }
        }
    }
    proof {
        assert(pending@.to_multiset() =~= Multiset::<TwtxtStatus>::empty()) by {
            pending@.to_multiset_ensures();
            assert(pending@.to_multiset().len() == 0);
        }
        let none = Multiset::<TwtxtStatus>::empty();
        assert(sorted@.to_multiset().add(none) =~= sorted@.to_multiset());
    }
    sorted
}

} // verus!
