//! The event log as the front end shows it: newest first, each line with a
//! compact timestamp.

use vstd::prelude::*;
use vstd::string::*;
use std::time::Duration;
use crate::game::{EventKind, Game};
use crate::game::clock::{duration_secs, whole_secs};

verus! {

/// The decimal digit `d` as a character.
pub open spec fn digit(d: int) -> char {
    if d == 0 {
        '0'
    } else if d == 1 {
        '1'
    } else if d == 2 {
        '2'
    } else if d == 3 {
        '3'
    } else if d == 4 {
        '4'
    } else if d == 5 {
        '5'
    } else if d == 6 {
        '6'
    } else if d == 7 {
        '7'
    } else if d == 8 {
        '8'
    } else {
        '9'
    }
}

/// `n` in decimal, without leading zeros.
pub open spec fn decimal(n: nat) -> Seq<char>
    decreases n,
{
    if n < 10 {
        seq![digit(n as int)]
    } else {
        decimal(n / 10).push(digit((n % 10) as int))
    }
}

/// `n` (below a hundred) as exactly two digits.
pub open spec fn two_digits(n: nat) -> Seq<char> {
    seq![digit((n / 10) as int), digit((n % 10) as int)]
}

/// A session time of `total` seconds as `"mm:ss"`, or `"h:mm:ss"` from an
/// hour on.
pub open spec fn compact_text(total: nat) -> Seq<char> {
    let h = total / 3600;
    let m = total % 3600 / 60;
    let s = total % 60;
    if h > 0 {
        decimal(h) + seq![':'] + two_digits(m) + seq![':'] + two_digits(s)
    } else {
        two_digits(m) + seq![':'] + two_digits(s)
    }
}

fn digit_str(d: u64) -> (r: &'static str)
    requires
        d < 10,
    ensures
        r@ == seq![digit(d as int)],
{
    proof {
        reveal_strlit("0");
        reveal_strlit("1");
        reveal_strlit("2");
        reveal_strlit("3");
        reveal_strlit("4");
        reveal_strlit("5");
        reveal_strlit("6");
        reveal_strlit("7");
        reveal_strlit("8");
        reveal_strlit("9");
    }
    if d == 0 {
        "0"
    } else if d == 1 {
        "1"
    } else if d == 2 {
        "2"
    } else if d == 3 {
        "3"
    } else if d == 4 {
        "4"
    } else if d == 5 {
        "5"
    } else if d == 6 {
        "6"
    } else if d == 7 {
        "7"
    } else if d == 8 {
        "8"
    } else {
        "9"
    }
}

pub(crate) fn push_decimal(s: &mut String, n: u64)
    ensures
        final(s)@ == old(s)@ + decimal(n as nat),
    decreases n,
{
    if n >= 10 {
        push_decimal(s, n / 10);
    }
    s.append(digit_str(n % 10));
    assert(s@ =~= old(s)@ + decimal(n as nat));
}

fn push_two(s: &mut String, n: u64)
    requires
        n < 100,
    ensures
        final(s)@ == old(s)@ + two_digits(n as nat),
{
    s.append(digit_str(n / 10));
    s.append(digit_str(n % 10));
    assert(s@ =~= old(s)@ + two_digits(n as nat));
}

fn push_colon(s: &mut String)
    ensures
        final(s)@ == old(s)@ + seq![':'],
{
    proof {
        reveal_strlit(":");
    }
    s.append(":");
}

/// A session time of `total` seconds as `"mm:ss"`, or `"h:mm:ss"` from an
/// hour on.
pub fn compact_secs(total: u64) -> (r: String)
    ensures
        r@ == compact_text(total as nat),
{
    let hours = total / 3600;
    let minutes = total % 3600 / 60;
    let seconds = total % 60;
    proof {
        reveal_strlit("");
    }
    let mut s = String::from_str("");
    if hours > 0 {
        push_decimal(&mut s, hours);
        push_colon(&mut s);
    }
    push_two(&mut s, minutes);
    push_colon(&mut s);
    push_two(&mut s, seconds);
    assert(s@ =~= compact_text(total as nat));
    s
}

/// A session time as `"mm:ss"`, or `"h:mm:ss"` from an hour on, counting
/// whole seconds (read with `Duration::as_secs`).
pub fn compact(elapsed: Duration) -> (r: String)
    ensures
        r@ == compact_text(whole_secs(elapsed) as nat),
{
    let secs = duration_secs(&elapsed);
    compact_secs(secs)
}

/// One line of the recent-events list.
pub struct RecentEvent<'a> {
    pub timestamp: String,
    pub kind: &'a EventKind,
}

/// The last `count` events, newest first, each with its compact timestamp.
pub fn recent(game: &Game, count: usize) -> (r: Vec<RecentEvent<'_>>)
    ensures
        r@.len() == if count < game.spec_log().len() { count as int } else { game.spec_log().len() as int },
        forall|i: int| 0 <= i < r@.len() ==> {
            let e = game.spec_log()[game.spec_log().len() - 1 - i];
            &&& *(#[trigger] r@[i]).kind == e.kind
            &&& r@[i].timestamp@ == compact_text((e.elapsed_ms / 1000) as nat)
        },
{
    let events = game.events();
    let n = events.len();
    let take = if count < n { count } else { n };
    let mut r: Vec<RecentEvent<'_>> = Vec::new();
    let mut i: usize = 0;
    while i < take
        invariant
            take <= n,
            n == events@.len(),
            events@ == game.spec_log(),
            i <= take,
            r@.len() == i,
            forall|j: int| 0 <= j < i ==> {
                let e = game.spec_log()[n - 1 - j];
                &&& *(#[trigger] r@[j]).kind == e.kind
                &&& r@[j].timestamp@ == compact_text((e.elapsed_ms / 1000) as nat)
            },
        decreases take - i,
    {
        let event = &events[n - 1 - i];
        r.push(RecentEvent { timestamp: compact_secs(event.elapsed_millis() / 1000), kind: event.kind() });
        i = i + 1;
    }
    r
}

} // verus!
