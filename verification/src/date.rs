//! Calendar dates, as chrono's `NaiveDate` holds them.
use chrono::{Datelike, NaiveDate};
use vstd::prelude::*;

use crate::text::{digits, is_digit, is_white_space, lemma_digits, lemma_trim_no_ws_ends, trim, zero_pad};

verus! {

pub open spec fn is_leap_year(y: int) -> bool {
    (y % 4 == 0 && y % 100 != 0) || y % 400 == 0
}

pub open spec fn days_in_month(y: int, m: int) -> int {
    if m == 2 {
        if is_leap_year(y) {
            29
        } else {
            28
        }
    } else if m == 4 || m == 6 || m == 9 || m == 11 {
        30
    } else {
        31
    }
}

/// The proleptic Gregorian dates that `NaiveDate` can represent.
pub open spec fn valid_ymd(y: int, m: int, d: int) -> bool {
    &&& -262143 <= y <= 262142
    &&& 1 <= m <= 12
    &&& 1 <= d <= days_in_month(y, m)
}

/// chrono's `%Y`: the year zero-padded to 4 digits, with a sign before
/// years outside 0..=9999.
pub open spec fn year_text(y: int) -> Seq<char> {
    if 0 <= y <= 9999 {
        zero_pad(y as nat, 4)
    } else if y < 0 {
        seq!['-'] + zero_pad((-y) as nat, 4)
    } else {
        seq!['+'] + zero_pad(y as nat, 4)
    }
}

/// A date written as chrono writes it with `%Y-%m-%d`.
pub open spec fn ymd_text(y: int, m: int, d: int) -> Seq<char> {
    year_text(y) + seq!['-'] + zero_pad(m as nat, 2) + seq!['-'] + zero_pad(d as nat, 2)
}

proof fn lemma_zero_pad(n: nat, w: nat)
    ensures
        zero_pad(n, w).len() > 0,
        forall|i: int| 0 <= i < zero_pad(n, w).len() ==> is_digit(#[trigger] zero_pad(n, w)[i]),
{
    lemma_digits(n);
    let d = digits(n);
    if d.len() < w {
        let z = Seq::new((w - d.len()) as nat, |i: int| '0');
        let t = z + d;
        assert forall|i: int| 0 <= i < t.len() implies is_digit(#[trigger] t[i]) by {
            if i < z.len() {
                assert(t[i] == '0');
            } else {
                assert(t[i] == d[i - z.len()]);
            }
        }
    }
}

/// A date's text is one line without white space at either end.
pub proof fn lemma_ymd_text_plain(y: int, m: int, d: int)
    ensures
        !ymd_text(y, m, d).contains('\n'),
        trim(ymd_text(y, m, d)) == ymd_text(y, m, d),
{
    let yt = year_text(y);
    let mt = zero_pad(m as nat, 2);
    let dt = zero_pad(d as nat, 2);
    lemma_zero_pad(m as nat, 2);
    lemma_zero_pad(d as nat, 2);
    let yp = if y < 0 { (-y) as nat } else { y as nat };
    lemma_zero_pad(yp, 4);
    let zy = zero_pad(yp, 4);
    assert(yt.len() > 0);
    assert forall|i: int| 0 <= i < yt.len() implies (is_digit(#[trigger] yt[i]) || yt[i] == '-' || yt[i] == '+') by {
        if 0 <= y <= 9999 {
        } else if i > 0 {
            assert(yt[i] == zy[i - 1]);
        }
    }
    let t = ymd_text(y, m, d);
    assert(t == yt + seq!['-'] + mt + seq!['-'] + dt);
    assert forall|i: int| 0 <= i < t.len() implies (is_digit(#[trigger] t[i]) || t[i] == '-' || t[i] == '+') by {
        let a = yt.len() as int;
        let b = a + 1 + mt.len();
        if i < a {
            assert(t[i] == yt[i]);
        } else if i == a {
        } else if i < b {
            assert(t[i] == mt[i - a - 1]);
        } else if i == b {
        } else {
            assert(t[i] == dt[i - b - 1]);
        }
    }
    if t.contains('\n') {
        let i = choose|i: int| 0 <= i < t.len() && t[i] == '\n';
        assert(is_digit(t[i]) || t[i] == '-' || t[i] == '+');
    }
    assert(t[0] == yt[0]);
    assert(t.last() == dt.last());
    assert(is_digit(t[0]) || t[0] == '-' || t[0] == '+');
    assert(is_digit(t[t.len() - 1]) || t[t.len() - 1] == '-' || t[t.len() - 1] == '+');
    lemma_trim_no_ws_ends(t);
}

/// A date's text has at least ten chars.
pub proof fn lemma_ymd_text_len(y: int, m: int, d: int)
    ensures
        ymd_text(y, m, d).len() >= 10,
{
    lemma_digits(m as nat);
    lemma_digits(d as nat);
    let yp = if y < 0 { (-y) as nat } else { y as nat };
    lemma_digits(yp);
}

/// What chrono's `NaiveDate::parse_from_str(text, "%Y-%m-%d")` gives.
pub uninterp spec fn chrono_parse_ymd(text: Seq<char>) -> Option<Date>;

/// What chrono's `NaiveDate::from_str(text)` gives.
pub uninterp spec fn chrono_parse_date(text: Seq<char>) -> Option<Date>;

/// chrono's `NaiveDate::parse_from_str` with the format `%Y-%m-%d`, the
/// date taken apart into year, month and day. The contract names the result:
/// chrono's parser (sign, padding and space rules) is not restated here.
#[verifier::external_body]
pub(crate) fn parse_ymd(text: &str) -> (r: Option<Date>)
    ensures
        r == chrono_parse_ymd(text@),
{
    match NaiveDate::parse_from_str(text, "%Y-%m-%d") {
        Ok(d) => Some(Date { year: d.year(), month: d.month(), day: d.day() }),
        Err(_) => None,
    }
}

/// chrono's `NaiveDate::from_str` (what `str::parse::<NaiveDate>` calls),
/// the date taken apart into year, month and day. The contract names the
/// result.
#[verifier::external_body]
pub(crate) fn parse_date(text: &str) -> (r: Option<Date>)
    ensures
        r == chrono_parse_date(text@),
{
    match text.parse::<NaiveDate>() {
        Ok(d) => Some(Date { year: d.year(), month: d.month(), day: d.day() }),
        Err(_) => None,
    }
}

/// chrono's `NaiveDate::from_ymd_opt` and `format("%Y-%m-%d")`: claims
/// that the text is the one chrono's documentation gives for `%Y`, `%m` and
/// `%d` (year padded to 4 digits with a sign outside 0..=9999, month and
/// day padded to 2 digits), and that chrono's two date parsers
/// (`parse_from_str` with the same format, and `from_str`, which reads the
/// same items) read that text back as the same date.
#[verifier::external_body]
fn format_ymd(year: i32, month: u32, day: u32) -> (s: String)
    requires
        valid_ymd(year as int, month as int, day as int),
    ensures
        s@ == ymd_text(year as int, month as int, day as int),
        chrono_parse_ymd(s@) == Some(Date { year, month, day }),
        chrono_parse_date(s@) == Some(Date { year, month, day }),
{
    NaiveDate::from_ymd_opt(year, month, day).unwrap().format("%Y-%m-%d").to_string()
}

/// A calendar date. Every value is a valid date.
#[derive(Debug, Clone, Copy, PartialEq, Eq, Structural)]
pub struct Date {
    year: i32,
    month: u32,
    day: u32,
}

impl Date {
    #[verifier::type_invariant]
    spec fn wf(self) -> bool {
        valid_ymd(self.year as int, self.month as int, self.day as int)
    }

    pub closed spec fn y(self) -> int {
        self.year as int
    }

    pub closed spec fn m(self) -> int {
        self.month as int
    }

    pub closed spec fn d(self) -> int {
        self.day as int
    }

    pub open spec fn text(self) -> Seq<char> {
        ymd_text(self.y(), self.m(), self.d())
    }

    /// The date with this year, month and day, if there is one.
    pub fn from_ymd(year: i32, month: u32, day: u32) -> (r: Option<Date>)
        ensures
            r is Some <==> valid_ymd(year as int, month as int, day as int),
            r matches Some(d) ==> d.y() == year && d.m() == month && d.d() == day,
    {
        if year < -262143 || year > 262142 || month < 1 || month > 12 || day < 1 {
            return None;
        }
        let y = (year as i64 + 400000) as u64;
        assert(is_leap_year(year as int) == is_leap_year(y as int)) by (nonlinear_arith)
            requires
                y == year + 400000,
        {}
        let leap = (y % 4 == 0 && y % 100 != 0) || y % 400 == 0;
        let dim: u32 = if month == 2 {
            if leap {
                29
            } else {
                28
            }
        } else if month == 4 || month == 6 || month == 9 || month == 11 {
            30
        } else {
            31
        };
        if day > dim {
            None
        } else {
            Some(Date { year, month, day })
        }
    }

    /// The date as `%Y-%m-%d` text, which chrono reads back as the same
    /// date.
    pub fn to_ymd_string(&self) -> (s: String)
        ensures
            s@ == self.text(),
            chrono_parse_ymd(s@) == Some(*self),
            chrono_parse_date(s@) == Some(*self),
    {
        proof {
            use_type_invariant(self);
        }
        format_ymd(self.year, self.month, self.day)
    }

    pub fn year(&self) -> (r: i32)
        ensures
            r == self.y(),
    {
        self.year
    }

    pub fn month(&self) -> (r: u32)
        ensures
            r == self.m(),
    {
        self.month
    }

    pub fn day(&self) -> (r: u32)
        ensures
            r == self.d(),
    {
        self.day
    }
}

} // verus!
