//! Durations as people write them: `30s`, `5m`, `2h`, `1d`.

use vstd::prelude::*;

use crate::text::chars::{
    is_ascii_letter, lemma_trim_ends, lemma_trim_fixed, lower_string, lower_text, owned, same, trim,
    trim_str,
};
use crate::text::number::{
    decimal, is_digit, lemma_decimal_digits, lemma_number_round_trip, lemma_parse_refuses, parse_u64,
    u64_of,
};
use crate::text::quote::{quoted, quoted_text};
use crate::text::search::{find_where, lemma_find_where_is, skip_str, take_str};

verus! {

/// Why a text is no duration. Each holds the text in lower case; an unknown unit is held too.
#[derive(Debug)]
pub enum DurationError {
    Empty,
    Invalid(String),
    InvalidNumber(String),
    UnknownUnit { unit: String, text: String },
}

/// Why a text is no duration.
pub enum DurationErrorView {
    Empty,
    Invalid(Seq<char>),
    InvalidNumber(Seq<char>),
    UnknownUnit { unit: Seq<char>, text: Seq<char> },
}

impl View for DurationError {
    type V = DurationErrorView;

    open spec fn view(&self) -> DurationErrorView {
        match self {
            DurationError::Empty => DurationErrorView::Empty,
            DurationError::Invalid(s) => DurationErrorView::Invalid(s@),
            DurationError::InvalidNumber(s) => DurationErrorView::InvalidNumber(s@),
            DurationError::UnknownUnit { unit, text } => DurationErrorView::UnknownUnit {
                unit: unit@,
                text: text@,
            },
        }
    }
}

/// How an error reads.
pub open spec fn duration_error_text(e: DurationErrorView) -> Seq<char> {
    match e {
        DurationErrorView::Empty => "empty duration"@,
        DurationErrorView::Invalid(s) => "invalid duration "@ + quoted_text(s),
        DurationErrorView::InvalidNumber(s) => "invalid duration number in "@ + quoted_text(s),
        DurationErrorView::UnknownUnit { unit, text } => "unknown duration unit "@ + quoted_text(
            unit,
        ) + " in "@ + quoted_text(text),
    }
}

impl DurationError {
    /// How this error reads.
    pub fn message(&self) -> (r: String)
        ensures
            r@ == duration_error_text(self@),
    {
        match self {
            DurationError::Empty => owned("empty duration"),
            DurationError::Invalid(s) => {
                let mut out: String = owned("invalid duration ");
                out.append(&quoted(s));
                out
            },
            DurationError::InvalidNumber(s) => {
                let mut out: String = owned("invalid duration number in ");
                out.append(&quoted(s));
                out
            },
            DurationError::UnknownUnit { unit, text } => {
                let mut out: String = owned("unknown duration unit ");
                out.append(&quoted(unit));
                out.append(" in ");
                out.append(&quoted(text));
                out
            },
        }
    }
}

/// How many seconds a unit has.
pub open spec fn unit_secs(u: Seq<char>) -> Option<nat> {
    if u == "s"@ || u == "sec"@ || u == "secs"@ || u == "second"@ || u == "seconds"@ {
        Some(1)
    } else if u == "m"@ || u == "min"@ || u == "mins"@ || u == "minute"@ || u == "minutes"@ {
        Some(60)
    } else if u == "h"@ || u == "hr"@ || u == "hrs"@ || u == "hour"@ || u == "hours"@ {
        Some(3600)
    } else if u == "d"@ || u == "day"@ || u == "days"@ {
        Some(86400)
    } else {
        None
    }
}

/// Being an ASCII letter.
pub open spec fn is_letter() -> spec_fn(char) -> bool {
    |c: char| is_ascii_letter(c)
}

/// The largest number of seconds, where `n` is larger.
pub open spec fn capped(n: nat) -> u64 {
    if n <= u64::MAX {
        n as u64
    } else {
        u64::MAX
    }
}

/// The seconds that a text stands for: a number, or a number and a unit.
pub open spec fn duration(s: Seq<char>) -> Result<u64, DurationErrorView> {
    let t = trim(s);
    if t.len() == 0 {
        Err(DurationErrorView::Empty)
    } else if parse_u64(t) is Some {
        Ok(parse_u64(t)->0)
    } else {
        let l = lower_text(t);
        match find_where(l, is_letter()) {
            None => Err(DurationErrorView::Invalid(l)),
            Some(k) => {
                let unit = l.skip(k as int);
                match parse_u64(l.take(k as int)) {
                    None => Err(DurationErrorView::InvalidNumber(l)),
                    Some(n) => match unit_secs(unit) {
                        None => Err(DurationErrorView::UnknownUnit { unit, text: l }),
                        Some(f) => Ok(capped(n as nat * f)),
                    },
                }
            },
        }
    }
}

/// How many seconds a unit has.
fn unit_of(u: &str) -> (r: Option<u64>)
    ensures
        match r {
            Some(f) => unit_secs(u@) == Some(f as nat),
            None => unit_secs(u@) is None,
        },
{
    if same(u, "s") || same(u, "sec") || same(u, "secs") || same(u, "second") || same(
        u,
        "seconds",
    ) {
        Some(1)
    } else if same(u, "m") || same(u, "min") || same(u, "mins") || same(u, "minute") || same(
        u,
        "minutes",
    ) {
        Some(60)
    } else if same(u, "h") || same(u, "hr") || same(u, "hrs") || same(u, "hour") || same(
        u,
        "hours",
    ) {
        Some(3600)
    } else if same(u, "d") || same(u, "day") || same(u, "days") {
        Some(86400)
    } else {
        None
    }
}

/// The first letter of `s`.
fn first_letter(s: &str) -> (r: Option<usize>)
    ensures
        match r {
            Some(k) => find_where(s@, is_letter()) == Some(k as nat) && k < s@.len(),
            None => find_where(s@, is_letter()) is None,
        },
{
    let n: usize = s.unicode_len();
    let mut i: usize = 0;
    while i < n
        invariant
            i <= n,
            n == s@.len(),
            forall|j: int| 0 <= j < i ==> !is_letter()(#[trigger] s@[j]),
        decreases n - i,
    {
        let c: char = s.get_char(i);
        if ('A' <= c && c <= 'Z') || ('a' <= c && c <= 'z') {
            proof {
                lemma_find_where_is(s@, is_letter(), i as int);
            }
            return Some(i);
        }
        i = i + 1;
    }
    proof {
        lemma_find_where_is(s@, is_letter(), i as int);
    }
    None
}

/// Reads a duration as a number of seconds.
pub fn parse_duration_secs(s: &str) -> (r: Result<u64, DurationError>)
    ensures
        match r {
            Ok(n) => duration(s@) == Ok::<u64, DurationErrorView>(n),
            Err(e) => duration(s@) == Err::<u64, DurationErrorView>(e@),
        },
{
    let t: &str = trim_str(s);
    if t.unicode_len() == 0 {
        return Err(DurationError::Empty);
    }
    if let Some(n) = u64_of(t) {
        return Ok(n);
    }
    let l: String = lower_string(t);
    match first_letter(&l) {
        None => Err(DurationError::Invalid(l)),
        Some(k) => {
            let unit: &str = skip_str(&l, k);
            match u64_of(take_str(&l, k)) {
                None => Err(DurationError::InvalidNumber(owned(&l))),
                Some(n) => match unit_of(unit) {
                    None => Err(DurationError::UnknownUnit { unit: owned(unit), text: owned(&l) }),
                    Some(f) => match n.checked_mul(f) {
                        Some(secs) => Ok(secs),
                        None => Ok(u64::MAX),
                    },
                },
            }
        },
    }
}

proof fn lemma_unit_letters(u: Seq<char>)
    requires
        unit_secs(u) is Some,
    ensures
        u.len() > 0,
        forall|i: int| 0 <= i < u.len() ==> 'a' <= #[trigger] u[i] <= 'z',
{
    reveal_strlit("s");
    reveal_strlit("sec");
    reveal_strlit("secs");
    reveal_strlit("second");
    reveal_strlit("seconds");
    reveal_strlit("m");
    reveal_strlit("min");
    reveal_strlit("mins");
    reveal_strlit("minute");
    reveal_strlit("minutes");
    reveal_strlit("h");
    reveal_strlit("hr");
    reveal_strlit("hrs");
    reveal_strlit("hour");
    reveal_strlit("hours");
    reveal_strlit("d");
    reveal_strlit("day");
    reveal_strlit("days");
}

/// A number behind which a unit stands is that many units, in seconds.
pub proof fn lemma_number_and_unit(n: u64, u: Seq<char>)
    requires
        unit_secs(u) is Some,
    ensures
        duration(decimal(n as nat) + u) == Ok::<u64, DurationErrorView>(
            capped(n as nat * unit_secs(u)->0),
        ),
{
    lemma_unit_letters(u);
    lemma_decimal_digits(n as nat);
    lemma_number_round_trip(n);
    let d = decimal(n as nat);
    let t = d + u;
    lemma_trim_fixed(t);
    assert(t[d.len() as int] == u[0]);
    assert(parse_u64(t) is None);
    let l = lower_text(t);
    assert(l =~= t);
    lemma_find_where_is(l, is_letter(), d.len() as int);
    assert(l.take(d.len() as int) =~= d);
    assert(l.skip(d.len() as int) =~= u);
}

/// The units, and how many seconds each has.
pub proof fn lemma_units(u: Seq<char>)
    ensures
        unit_secs(u) == Some(1nat) <==> u == "s"@ || u == "sec"@ || u == "secs"@ || u == "second"@
            || u == "seconds"@,
        unit_secs(u) == Some(60nat) <==> u == "m"@ || u == "min"@ || u == "mins"@ || u == "minute"@
            || u == "minutes"@,
        unit_secs(u) == Some(3600nat) <==> u == "h"@ || u == "hr"@ || u == "hrs"@ || u == "hour"@ || u
            == "hours"@,
        unit_secs(u) == Some(86400nat) <==> u == "d"@ || u == "day"@ || u == "days"@,
        unit_secs(u) is Some ==> unit_secs(u)->0 == 1 || unit_secs(u)->0 == 60 || unit_secs(u)->0
            == 3600 || unit_secs(u)->0 == 86400,
{
    reveal_strlit("s");
    reveal_strlit("sec");
    reveal_strlit("secs");
    reveal_strlit("second");
    reveal_strlit("seconds");
    reveal_strlit("m");
    reveal_strlit("min");
    reveal_strlit("mins");
    reveal_strlit("minute");
    reveal_strlit("minutes");
    reveal_strlit("h");
    reveal_strlit("hr");
    reveal_strlit("hrs");
    reveal_strlit("hour");
    reveal_strlit("hours");
    reveal_strlit("d");
    reveal_strlit("day");
    reveal_strlit("days");
    if u == "s"@ || u == "sec"@ || u == "secs"@ || u == "second"@ || u == "seconds"@ {
        assert(u[0] == 's');
    }
    if u == "m"@ || u == "min"@ || u == "mins"@ || u == "minute"@ || u == "minutes"@ {
        assert(u[0] == 'm');
    }
    if u == "h"@ || u == "hr"@ || u == "hrs"@ || u == "hour"@ || u == "hours"@ {
        assert(u[0] == 'h');
    }
    if u == "d"@ || u == "day"@ || u == "days"@ {
        assert(u[0] == 'd');
    }
}

/// A number alone is that many seconds; white space around a duration does not count; more seconds
/// than there can be are as many as there can be; and nothing is no duration.
pub proof fn lemma_durations(n: u64, s: Seq<char>, many: nat)
    ensures
        duration(decimal(n as nat)) == Ok::<u64, DurationErrorView>(n),
        duration(s) == duration(trim(s)),
        trim(s).len() == 0 ==> duration(s) == Err::<u64, DurationErrorView>(DurationErrorView::Empty),
        many <= u64::MAX ==> capped(many) == many,
        many > u64::MAX ==> capped(many) == u64::MAX,
{
    lemma_number_round_trip(n);
    lemma_decimal_digits(n as nat);
    let d = decimal(n as nat);
    assert(is_digit(d[0]));
    assert(is_digit(d[d.len() - 1]));
    lemma_trim_fixed(d);
    lemma_trim_ends(s);
}

/// A number and what is no unit are no duration, and neither is what has a letter behind no number.
pub proof fn lemma_no_duration(n: u64, u: Seq<char>)
    requires
        u.len() > 0,
        forall|i: int| 0 <= i < u.len() ==> 'a' <= #[trigger] u[i] <= 'z',
    ensures
        unit_secs(u) is None ==> duration(decimal(n as nat) + u) == Err::<u64, DurationErrorView>(
            DurationErrorView::UnknownUnit { unit: u, text: decimal(n as nat) + u },
        ),
        duration(u) == Err::<u64, DurationErrorView>(DurationErrorView::InvalidNumber(u)),
{
    lemma_number_round_trip(n);
    lemma_decimal_digits(n as nat);
    let d = decimal(n as nat);
    let s = d + u;
    assert(s[0] == d[0]);
    assert(is_digit(s[0]));
    assert(s.last() == u.last());
    assert('a' <= u[u.len() - 1] <= 'z');
    lemma_trim_fixed(s);
    lemma_trim_fixed(u);
    assert(u[0] == u[0]);
    assert(lower_text(s) =~= s) by {
        assert forall|i: int| 0 <= i < s.len() implies lower_text(s)[i] == #[trigger] s[i] by {
            if i < d.len() {
                assert(s[i] == d[i]);
                assert(is_digit(d[i]));
            } else {
                assert(s[i] == u[i - d.len()]);
            }
        }
    }
    assert(lower_text(u) =~= u);
    let k = d.len() as int;
    assert forall|j: int| 0 <= j < k implies !is_letter()(#[trigger] s[j]) by {
        assert(s[j] == d[j]);
        assert(is_digit(d[j]));
    }
    assert(s[k] == u[0]);
    assert(is_letter()(s[k]));
    lemma_find_where_is(s, is_letter(), k);
    assert(s.skip(k) =~= u);
    assert(s.take(k) =~= d);
    lemma_parse_refuses(s, k);
    assert(is_letter()(u[0]));
    lemma_find_where_is(u, is_letter(), 0);
    lemma_parse_refuses(u, 0);
    assert(u.take(0) =~= Seq::<char>::empty());
    assert(u.skip(0) =~= u);
}

/// How the errors read.
pub proof fn lemma_duration_errors(unit: Seq<char>, text: Seq<char>)
    ensures
        duration_error_text(DurationErrorView::Empty) == "empty duration"@,
        duration_error_text(DurationErrorView::Invalid(text)) == "invalid duration "@ + quoted_text(
            text,
        ),
        duration_error_text(DurationErrorView::InvalidNumber(text)) == "invalid duration number in "@
            + quoted_text(text),
        duration_error_text(DurationErrorView::UnknownUnit { unit, text })
            == "unknown duration unit "@ + quoted_text(unit) + " in "@ + quoted_text(text),
{
}

} // verus!
