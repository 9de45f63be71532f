//! How long ago a time was, in words.

use crate::utf8::lemma_char_eq;
use std::time::SystemTime;
use vstd::prelude::*;
use vstd::string::*;

verus! {

/// The decimal digit of a value below 10.
pub open spec fn digit_char(d: nat) -> char {
    ('0' as nat + d) as char
}

/// The decimal numeral of `n`.
pub open spec fn decimal(n: nat) -> Seq<char>
    decreases n,
{
    if n < 10 {
        seq![digit_char(n)]
    } else {
        decimal(n / 10).push(digit_char(n % 10))
    }
}

/// The decimal digit of `d`, as a string.
fn digit_str(d: u64) -> (r: &'static str)
    requires
        d < 10,
    ensures
        r@ == seq![digit_char(d as nat)],
{
    proof {
        reveal_strlit("0");
        reveal_strlit("1");
        reveal_strlit("2");
        reveal_strlit("3");
        reveal_strlit("4");
        reveal_strlit("5");
        reveal_strlit("6");
        reveal_strlit("7");
        reveal_strlit("8");
        reveal_strlit("9");
    }
    let r = match d {
        0 => "0",
        1 => "1",
        2 => "2",
        3 => "3",
        4 => "4",
        5 => "5",
        6 => "6",
        7 => "7",
        8 => "8",
        _ => "9",
    };
    proof {
        lemma_char_eq(r@[0], digit_char(d as nat));
        assert(r@ =~= seq![digit_char(d as nat)]);
    }
    r
}

/// Appends the decimal numeral of `n`.
pub fn push_decimal(out: &mut String, n: u64)
    ensures
        final(out)@ == old(out)@ + decimal(n as nat),
    decreases n,
{
    if n >= 10 {
        push_decimal(out, n / 10);
    }
    out.append(digit_str(n % 10));
    proof {
        assert(out@ =~= old(out)@ + decimal(n as nat));
    }
}

/// The seconds from the time `epoch_time` to the time `now`, both in seconds
/// since 1970; 0 where `epoch_time` has not come yet, and no more than a
/// `u64` holds.
pub open spec fn elapsed(now: u64, epoch_time: int) -> nat {
    if now - epoch_time < 0 {
        0
    } else if now - epoch_time > u64::MAX {
        u64::MAX as nat
    } else {
        (now - epoch_time) as nat
    }
}

/// How long ago a time was that lies `ago` seconds back: in seconds below a
/// minute, in minutes below an hour, in hours below a day, else in days, each
/// rounded down.
pub open spec fn time_ago_text(ago: nat) -> Seq<char> {
    if ago < 60 {
        decimal(ago) + " seconds ago"@
    } else if ago < 3600 {
        decimal(ago / 60) + " minutes ago"@
    } else if ago < 3600 * 24 {
        decimal(ago / 3600) + " hours ago"@
    } else {
        decimal(ago / (3600 * 24)) + " days ago"@
    }
}

/// How long ago a time was that lies `ago` seconds back.
pub fn time_ago(ago: u64) -> (r: String)
    ensures
        r@ == time_ago_text(ago as nat),
{
    let mut out = String::new();
    if ago < 60 {
        push_decimal(&mut out, ago);
        out.append(" seconds ago");
    } else if ago < 3600 {
        push_decimal(&mut out, ago / 60);
        out.append(" minutes ago");
    } else if ago < 3600 * 24 {
        push_decimal(&mut out, ago / 3600);
        out.append(" hours ago");
    } else {
        push_decimal(&mut out, ago / (3600 * 24));
        out.append(" days ago");
    }
    proof {
        assert(out@ =~= time_ago_text(ago as nat));
    }
    out
}

/// The seconds from the time `epoch_time` to the time `now`.
pub fn seconds_since(now: u64, epoch_time: i32) -> (ago: u64)
    ensures
        ago == elapsed(now, epoch_time as int),
{
    if epoch_time >= 0 {
        let then = epoch_time as u64;
        if now >= then {
            now - then
        } else {
            0
        }
    } else {
        let back: u64 = (-(epoch_time as i64)) as u64;
        if now <= u64::MAX - back {
            now + back
        } else {
            u64::MAX
        }
    }
}

/// How long ago the time `epoch_time` was at the time `now`.
pub fn time_ago_at(now: u64, epoch_time: i32) -> (r: String)
    ensures
        r@ == time_ago_text(elapsed(now, epoch_time as int)),
{
    time_ago(seconds_since(now, epoch_time))
}

/// The time by the system's clock, in seconds since 1970, from
/// `SystemTime::now` of the standard library; 0 where the clock stands before
/// 1970. Nothing is claimed of the result.
#[verifier::external_body]
pub(crate) fn unix_time() -> u64 {
    match SystemTime::now().duration_since(SystemTime::UNIX_EPOCH) {
        Ok(d) => d.as_secs(),
        Err(_) => 0,
    }
}

/// How long ago a time was that lies `ago` seconds back, as
/// `time_ago_text` has it, but with `1 second ago`, `1 minute ago` and
/// `1 hour ago` for a single one.
pub open spec fn time_ago_phrase(ago: nat) -> Seq<char> {
    if ago == 1 {
        "1 second ago"@
    } else if 60 <= ago < 120 {
        "1 minute ago"@
    } else if 3600 <= ago < 7200 {
        "1 hour ago"@
    } else {
        time_ago_text(ago)
    }
}

/// How long ago a time was that lies `ago` seconds back, a single second,
/// minute or hour in the singular.
pub fn time_ago_in_words(ago: u64) -> (r: String)
    ensures
        r@ == time_ago_phrase(ago as nat),
{
    if ago == 1 {
        String::from_str("1 second ago")
    } else if 60 <= ago && ago < 120 {
        String::from_str("1 minute ago")
    } else if 3600 <= ago && ago < 7200 {
        String::from_str("1 hour ago")
    } else {
        time_ago(ago)
    }
}

/// How long ago the time `epoch_time` was at the time `now`, a single
/// second, minute or hour in the singular.
pub fn time_ago_in_words_at(now: u64, epoch_time: u32) -> (r: String)
    ensures
        r@ == time_ago_phrase(elapsed(now, epoch_time as int)),
{
    let then = epoch_time as u64;
    let ago = if now >= then {
        now - then
    } else {
        0
    };
    time_ago_in_words(ago)
}

/// How long ago the time `epoch_time` was, by the system's clock, a single
/// second, minute or hour in the singular.
pub fn rendered_time_ago(epoch_time: u32) -> (r: String)
    ensures
        exists|now: u64| r@ == time_ago_phrase(elapsed(now, epoch_time as int)),
{
    let now = unix_time();
    time_ago_in_words_at(now, epoch_time)
}

} // verus!
