//! Calendar dates and date-range resolution.
//!
//! The pipeline fetches one statistics document per calendar day. A day is
//! a proleptic Gregorian date with a four-digit year, written `YYYY-MM-DD`.
//! Ranges are resolved either from explicit inclusive bounds or as the
//! `days` dates that end the day before today.

use vstd::prelude::*;

verus! {

/// A calendar date. Well-formed values (see [`Date::wf`]) have a
/// four-digit year and a day that exists in the given month.
#[derive(Clone, Copy, Debug, PartialEq, Eq, Structural)]
pub struct Date {
    pub year: u32,
    pub month: u32,
    pub day: u32,
}

/// Gregorian leap-year rule.
pub open spec fn is_leap_year(y: int) -> bool {
    y % 4 == 0 && (y % 100 != 0 || y % 400 == 0)
}

/// Number of days in month `m` of year `y`, for `1 <= m <= 12`.
pub open spec fn days_in_month(y: int, m: int) -> int {
    if m == 2 {
        if is_leap_year(y) {
            29
        } else {
            28
        }
    } else if m == 4 || m == 6 || m == 9 || m == 11 {
        30
    } else {
        31
    }
}

impl Date {
    /// A valid date of the supported calendar span.
    pub open spec fn wf(self) -> bool {
        &&& 1 <= self.year <= 9999
        &&& 1 <= self.month <= 12
        &&& 1 <= self.day <= days_in_month(self.year as int, self.month as int)
    }

    /// The first supported date, 0001-01-01.
    pub open spec fn is_first(self) -> bool {
        self.year == 1 && self.month == 1 && self.day == 1
    }

    /// The last supported date, 9999-12-31.
    pub open spec fn is_last(self) -> bool {
        self.year == 9999 && self.month == 12 && self.day == 31
    }
}

/// Strict chronological order, as lexicographic order on (year, month, day).
pub open spec fn date_lt(a: Date, b: Date) -> bool {
    ||| a.year < b.year
    ||| (a.year == b.year && a.month < b.month)
    ||| (a.year == b.year && a.month == b.month && a.day < b.day)
}

/// Non-strict chronological order.
pub open spec fn date_le(a: Date, b: Date) -> bool {
    date_lt(a, b) || a == b
}

/// The day after `d` in the calendar.
pub open spec fn next_date(d: Date) -> Date {
    if d.day < days_in_month(d.year as int, d.month as int) {
        Date { year: d.year, month: d.month, day: (d.day + 1) as u32 }
    } else if d.month < 12 {
        Date { year: d.year, month: (d.month + 1) as u32, day: 1 }
    } else {
        Date { year: (d.year + 1) as u32, month: 1, day: 1 }
    }
}

/// The day before `d` in the calendar.
pub open spec fn prev_date(d: Date) -> Date {
    if d.day > 1 {
        Date { year: d.year, month: d.month, day: (d.day - 1) as u32 }
    } else if d.month > 1 {
        Date {
            year: d.year,
            month: (d.month - 1) as u32,
            day: days_in_month(d.year as int, d.month - 1) as u32,
        }
    } else {
        Date { year: (d.year - 1) as u32, month: 12, day: 31 }
    }
}

/// Days of year `y` that fall before month `m`.
pub open spec fn days_before_month(y: int, m: int) -> int
    decreases m,
{
    if m <= 1 {
        0
    } else {
        days_before_month(y, m - 1) + days_in_month(y, m - 1)
    }
}

/// Number of days in year `y`.
pub open spec fn days_in_year(y: int) -> int {
    days_before_month(y, 13)
}

/// Days that fall in years strictly before year `y`, counted from year 1.
pub open spec fn days_before_year(y: int) -> int
    decreases y,
{
    if y <= 1 {
        0
    } else {
        days_before_year(y - 1) + days_in_year(y - 1)
    }
}

/// Rank of a date: the number of supported dates strictly before it.
/// 0001-01-01 has rank 0.
pub open spec fn day_index(d: Date) -> int {
    days_before_year(d.year as int) + days_before_month(d.year as int, d.month as int) + d.day - 1
}

/// Months contribute nonnegatively: `days_before_month` grows with `m`.
proof fn lemma_dbm_mono(y: int, m1: int, m2: int)
    requires
        m1 <= m2,
    ensures
        days_before_month(y, m1) <= days_before_month(y, m2),
    decreases m2 - m1,
{
    if m1 < m2 {
        lemma_dbm_mono(y, m1, m2 - 1);
        assert(days_in_month(y, m2 - 1) >= 28);
    }
}

/// Every year has a positive number of days.
proof fn lemma_days_in_year_pos(y: int)
    ensures
        days_in_year(y) >= 31,
{
    lemma_dbm_mono(y, 2, 13);
    assert(days_before_month(y, 1) == 0);
    assert(days_before_month(y, 2) == days_in_month(y, 1));
}

/// `days_before_year` grows strictly with the year.
proof fn lemma_dby_mono(y1: int, y2: int)
    requires
        1 <= y1 <= y2,
    ensures
        days_before_year(y1) <= days_before_year(y2),
        y1 < y2 ==> days_before_year(y1) < days_before_year(y2),
    decreases y2 - y1,
{
    if y1 < y2 {
        lemma_dby_mono(y1, y2 - 1);
        lemma_days_in_year_pos(y2 - 1);
        assert(days_before_year(y2) == days_before_year(y2 - 1) + days_in_year(y2 - 1));
    }
}

/// A well-formed date has a nonnegative rank, zero only for 0001-01-01.
pub proof fn lemma_day_index_zero(d: Date)
    requires
        d.wf(),
    ensures
        day_index(d) >= 0,
        day_index(d) == 0 <==> d.is_first(),
{
    lemma_dby_mono(1, d.year as int);
    lemma_dbm_mono(d.year as int, 1, d.month as int);
    if d.year > 1 {
        lemma_dby_mono(1, d.year as int);
    }
    if d.month > 1 {
        lemma_dbm_mono(d.year as int, 2, d.month as int);
        assert(days_before_month(d.year as int, 1) == 0);
        assert(days_before_month(d.year as int, 2) == days_in_month(d.year as int, 1));
    }
}

/// Moving to the next day raises the rank by exactly one and stays
/// well-formed.
pub proof fn lemma_day_index_next(d: Date)
    requires
        d.wf(),
        !d.is_last(),
    ensures
        next_date(d).wf(),
        date_lt(d, next_date(d)),
        day_index(next_date(d)) == day_index(d) + 1,
{
    let y = d.year as int;
    let m = d.month as int;
    if d.day < days_in_month(y, m) {
    } else if d.month < 12 {
        assert(days_before_month(y, m + 1) == days_before_month(y, m) + days_in_month(y, m));
    } else {
        assert(days_before_month(y, 13) == days_before_month(y, 12) + days_in_month(y, 12));
        assert(days_before_year(y + 1) == days_before_year(y) + days_in_year(y));
        assert(days_before_month(y + 1, 1) == 0);
    }
}

/// Moving to the previous day lowers the rank by exactly one; the step is
/// the inverse of `next_date`.
pub proof fn lemma_day_index_prev(d: Date)
    requires
        d.wf(),
        !d.is_first(),
    ensures
        prev_date(d).wf(),
        !prev_date(d).is_last(),
        next_date(prev_date(d)) == d,
        day_index(prev_date(d)) == day_index(d) - 1,
{
    let p = prev_date(d);
    if d.day > 1 {
    } else if d.month > 1 {
        assert(days_in_month(d.year as int, d.month - 1) >= 28);
    } else {
        assert(days_in_month(d.year as int - 1, 12) == 31);
    }
    lemma_day_index_next(p);
}

/// Chronological order agrees with the rank.
pub proof fn lemma_day_index_lt(a: Date, b: Date)
    requires
        a.wf(),
        b.wf(),
        date_lt(a, b),
    ensures
        day_index(a) < day_index(b),
{
    let ya = a.year as int;
    let yb = b.year as int;
    if ya < yb {
        lemma_dbm_mono(ya, a.month as int + 1, 13);
        assert(days_before_month(ya, a.month as int + 1) == days_before_month(ya, a.month as int)
            + days_in_month(ya, a.month as int));
        lemma_dby_mono(ya + 1, yb);
        lemma_dbm_mono(yb, 1, b.month as int);
    } else if a.month < b.month {
        lemma_dbm_mono(ya, a.month as int + 1, b.month as int);
        assert(days_before_month(ya, a.month as int + 1) == days_before_month(ya, a.month as int)
            + days_in_month(ya, a.month as int));
    }
}

/// The rank orders dates: equal ranks mean equal dates.
pub proof fn lemma_day_index_inj(a: Date, b: Date)
    requires
        a.wf(),
        b.wf(),
        day_index(a) == day_index(b),
    ensures
        a == b,
{
    if date_lt(a, b) {
        lemma_day_index_lt(a, b);
    } else if date_lt(b, a) {
        lemma_day_index_lt(b, a);
    }
}

/// The ascending run of `n` consecutive dates that starts at `d`.
pub open spec fn date_seq(d: Date, n: nat) -> Seq<Date>
    decreases n,
{
    if n == 0 {
        Seq::empty()
    } else {
        seq![d] + date_seq(next_date(d), (n - 1) as nat)
    }
}

/// The date `n` days after `d`.
pub open spec fn nth_next(d: Date, n: nat) -> Date
    decreases n,
{
    if n == 0 {
        d
    } else {
        nth_next(next_date(d), (n - 1) as nat)
    }
}

/// The date `n` days before `d`.
pub open spec fn nth_prev(d: Date, n: nat) -> Date
    decreases n,
{
    if n == 0 {
        d
    } else {
        prev_date(nth_prev(d, (n - 1) as nat))
    }
}

/// Stepping once more from the end of an iterated walk.
pub proof fn lemma_nth_next_snoc(d: Date, n: nat)
    ensures
        nth_next(d, n + 1) == next_date(nth_next(d, n)),
    decreases n,
{
    assert(nth_next(d, n + 1) == nth_next(next_date(d), n));
    if n > 0 {
        lemma_nth_next_snoc(next_date(d), (n - 1) as nat);
        assert(nth_next(d, n) == nth_next(next_date(d), (n - 1) as nat));
    }
}

/// Extending a run by one appends the next date after it.
pub proof fn lemma_date_seq_snoc(d: Date, n: nat)
    ensures
        date_seq(d, n + 1) =~= date_seq(d, n).push(nth_next(d, n)),
    decreases n,
{
    if n == 0 {
        assert(date_seq(d, 1) =~= seq![d] + date_seq(next_date(d), 0));
    } else {
        lemma_date_seq_snoc(next_date(d), (n - 1) as nat);
        assert(date_seq(d, n + 1) == seq![d] + date_seq(next_date(d), n));
        assert(date_seq(d, n) == seq![d] + date_seq(next_date(d), (n - 1) as nat));
        assert(nth_next(d, n) == nth_next(next_date(d), (n - 1) as nat));
    }
}

/// Shape of a run of consecutive dates: its length, first element, and
/// the step between neighbours.
pub proof fn lemma_date_seq_chain(d: Date, n: nat)
    ensures
        date_seq(d, n).len() == n,
        forall|i: int| 0 <= i < n ==> date_seq(d, n)[i] == nth_next(d, i as nat),
        forall|i: int|
            0 <= i < n - 1 ==> date_seq(d, n)[i + 1] == next_date(date_seq(d, n)[i]),
    decreases n,
{
    if n > 0 {
        lemma_date_seq_chain(next_date(d), (n - 1) as nat);
        assert forall|i: int| 0 <= i < n implies date_seq(d, n)[i] == nth_next(d, i as nat) by {
            if i > 0 {
                assert(date_seq(d, n)[i] == date_seq(next_date(d), (n - 1) as nat)[i - 1]);
            }
        }
        assert forall|i: int| 0 <= i < n - 1 implies date_seq(d, n)[i + 1] == next_date(
            date_seq(d, n)[i],
        ) by {
            assert(nth_next(d, (i + 1) as nat) == nth_next(next_date(d), i as nat));
            if i > 0 {
                assert(nth_next(d, i as nat) == nth_next(next_date(d), (i - 1) as nat));
            }
        }
    }
}

/// Each date of a run that stays within the supported span is well-formed,
/// and ranks advance one per step.
pub proof fn lemma_nth_next_wf(d: Date, n: nat, limit: Date)
    requires
        d.wf(),
        limit.wf(),
        day_index(d) + n <= day_index(limit),
    ensures
        nth_next(d, n).wf(),
        day_index(nth_next(d, n)) == day_index(d) + n,
    decreases n,
{
    if n > 0 {
        if d.is_last() {
            assert(date_le(limit, d));
            lemma_day_index_lt_le(limit, d);
            assert(false);
        }
        lemma_day_index_next(d);
        lemma_nth_next_wf(next_date(d), (n - 1) as nat, limit);
    }
}

/// `date_le` agrees with the rank.
pub proof fn lemma_day_index_lt_le(a: Date, b: Date)
    requires
        a.wf(),
        b.wf(),
        date_le(a, b),
    ensures
        day_index(a) <= day_index(b),
{
    if a != b {
        lemma_day_index_lt(a, b);
    }
}

/// Number of days in month `m` of year `y`.
pub fn days_in_month_of(y: u32, m: u32) -> (r: u32)
    requires
        1 <= m <= 12,
    ensures
        r as int == days_in_month(y as int, m as int),
{
    if m == 2 {
        if y % 4 == 0 && (y % 100 != 0 || y % 400 == 0) {
            29
        } else {
            28
        }
    } else if m == 4 || m == 6 || m == 9 || m == 11 {
        30
    } else {
        31
    }
}

impl Date {
    /// Whether the fields form a well-formed date.
    pub fn valid(&self) -> (r: bool)
        ensures
            r == self.wf(),
    {
        1 <= self.year && self.year <= 9999 && 1 <= self.month && self.month <= 12 && 1 <= self.day
            && self.day <= days_in_month_of(self.year, self.month)
    }

    /// Strict chronological comparison.
    pub fn lt(&self, other: &Date) -> (r: bool)
        ensures
            r == date_lt(*self, *other),
    {
        self.year < other.year || (self.year == other.year && self.month < other.month) || (
        self.year == other.year && self.month == other.month && self.day < other.day)
    }

    /// The next calendar day.
    pub fn succ(&self) -> (r: Date)
        requires
            self.wf(),
            !self.is_last(),
        ensures
            r == next_date(*self),
            r.wf(),
            day_index(r) == day_index(*self) + 1,
    {
        proof {
            lemma_day_index_next(*self);
        }
        if self.day < days_in_month_of(self.year, self.month) {
            Date { year: self.year, month: self.month, day: self.day + 1 }
        } else if self.month < 12 {
            Date { year: self.year, month: self.month + 1, day: 1 }
        } else {
            Date { year: self.year + 1, month: 1, day: 1 }
        }
    }

    /// The previous calendar day.
    pub fn pred(&self) -> (r: Date)
        requires
            self.wf(),
            !self.is_first(),
        ensures
            r == prev_date(*self),
            r.wf(),
            day_index(r) == day_index(*self) - 1,
    {
        proof {
            lemma_day_index_prev(*self);
        }
        if self.day > 1 {
            Date { year: self.year, month: self.month, day: self.day - 1 }
        } else if self.month > 1 {
            Date { year: self.year, month: self.month - 1, day: days_in_month_of(
                self.year,
                self.month - 1,
            ) }
        } else {
            Date { year: self.year - 1, month: 12, day: 31 }
        }
    }
}

/// Walking back stays well-formed while the rank allows it, and lowers
/// the rank one per step.
pub proof fn lemma_nth_prev_wf(d: Date, n: nat)
    requires
        d.wf(),
        n <= day_index(d),
    ensures
        nth_prev(d, n).wf(),
        day_index(nth_prev(d, n)) == day_index(d) - n,
    decreases n,
{
    if n > 0 {
        lemma_nth_prev_wf(d, (n - 1) as nat);
        let q = nth_prev(d, (n - 1) as nat);
        lemma_day_index_zero(q);
        lemma_day_index_prev(q);
    }
}

/// Walking `n` days back and then `n` days forward returns to the start.
pub proof fn lemma_nth_prev_next_cancel(d: Date, n: nat)
    requires
        d.wf(),
        n <= day_index(d),
    ensures
        nth_next(nth_prev(d, n), n) == d,
    decreases n,
{
    if n > 0 {
        lemma_nth_prev_next_cancel(d, (n - 1) as nat);
        let q = nth_prev(d, (n - 1) as nat);
        lemma_nth_prev_wf(d, (n - 1) as nat);
        lemma_day_index_zero(q);
        lemma_day_index_prev(q);
        assert(nth_prev(d, n) == prev_date(q));
        assert(nth_next(prev_date(q), n) == nth_next(next_date(prev_date(q)), (n - 1) as nat));
        assert(nth_next(prev_date(q), n) == nth_next(q, (n - 1) as nat));
    }
}

/// How many dates the default resolution yields: `days`, unless the
/// calendar runs out before that.
pub open spec fn default_count(today: Date, days: int) -> int {
    if days <= 0 {
        0
    } else if days <= day_index(today) {
        days
    } else {
        day_index(today)
    }
}

/// The dates the default resolution yields: the `default_count` dates
/// that end the day before `today`, ascending.
pub open spec fn default_range_spec(today: Date, days: int) -> Seq<Date> {
    date_seq(nth_prev(today, default_count(today, days) as nat), default_count(today, days) as nat)
}

impl Date {
    /// Whether this is the first supported date.
    pub fn first(&self) -> (r: bool)
        ensures
            r == self.is_first(),
    {
        self.year == 1 && self.month == 1 && self.day == 1
    }
}

/// The `days` consecutive dates ending the day before `today`, ascending;
/// fewer if the calendar runs out, none if `days` is not positive.
pub fn trailing_dates(today: Date, days: i64) -> (r: Vec<Date>)
    requires
        today.wf(),
    ensures
        r@ == default_range_spec(today, days as int),
{
    if days <= 0 {
        let r: Vec<Date> = Vec::new();
        proof {
            assert(default_range_spec(today, days as int) =~= Seq::<Date>::empty());
        }
        return r;
    }
    let mut k: i64 = 0;
    let mut current = today;
    proof {
        lemma_day_index_zero(today);
    }
    while k < days && !current.first()
        invariant
            today.wf(),
            current.wf(),
            0 <= k <= days,
            k <= day_index(today),
            current == nth_prev(today, k as nat),
            day_index(current) == day_index(today) - k,
        decreases days - k,
    {
        proof {
            lemma_day_index_zero(current);
        }
        current = current.pred();
        k = k + 1;
    }
    proof {
        lemma_day_index_zero(current);
        assert(k == default_count(today, days as int));
    }
    if k == 0 {
        let r: Vec<Date> = Vec::new();
        proof {
            assert(default_range_spec(today, days as int) =~= Seq::<Date>::empty());
        }
        return r;
    }
    proof {
        lemma_day_index_zero(today);
    }
    let yesterday = today.pred();
    proof {
        if !date_le(current, yesterday) {
            lemma_day_index_lt(yesterday, current);
        }
    }
    let r = dates_between(current, yesterday);
    proof {
        assert(day_index(yesterday) - day_index(current) + 1 == k);
    }
    r
}

/// All dates from `start` through `end`, ascending, one day apart.
pub fn dates_between(start: Date, end: Date) -> (r: Vec<Date>)
    requires
        start.wf(),
        end.wf(),
        date_le(start, end),
    ensures
        r@ == date_seq(start, (day_index(end) - day_index(start) + 1) as nat),
        r@.len() == day_index(end) - day_index(start) + 1,
        r@[0] == start,
        r@[r@.len() - 1] == end,
{
    proof {
        lemma_day_index_lt_le(start, end);
    }
    let mut r: Vec<Date> = Vec::new();
    let mut current = start;
    while current.lt(&end)
        invariant
            start.wf(),
            end.wf(),
            current.wf(),
            date_le(current, end),
            day_index(current) == day_index(start) + r@.len(),
            current == nth_next(start, r@.len() as nat),
            r@ == date_seq(start, r@.len() as nat),
        decreases day_index(end) - day_index(current),
    {
        proof {
            lemma_date_seq_snoc(start, r@.len() as nat);
            lemma_nth_next_snoc(start, r@.len() as nat);
            if current.is_last() {
                assert(!date_lt(current, end));
            }
            lemma_day_index_lt(current, end);
        }
        r.push(current);
        current = current.succ();
        proof {
            if !date_le(current, end) {
                lemma_day_index_lt(end, current);
            }
        }
    }
    proof {
        assert(current == end);
        lemma_date_seq_snoc(start, r@.len() as nat);
    }
    r.push(current);
    r
}

} // verus!

use chrono::Datelike;
use vstd::string::StrSliceExecFns;

verus! {

/// Whether `c` is a decimal digit.
pub open spec fn is_digit_char(c: char) -> bool {
    48 <= c as u32 <= 57
}

/// Numeric value of a decimal digit character.
pub open spec fn digit_val(c: char) -> int {
    c as u32 - 48
}

/// Whether `s` has the shape `YYYY-MM-DD`: ten characters, dashes at
/// positions four and seven, digits everywhere else.
pub open spec fn date_str_shaped(s: Seq<char>) -> bool {
    &&& s.len() == 10
    &&& s[4] == '-'
    &&& s[7] == '-'
    &&& is_digit_char(s[0])
    &&& is_digit_char(s[1])
    &&& is_digit_char(s[2])
    &&& is_digit_char(s[3])
    &&& is_digit_char(s[5])
    &&& is_digit_char(s[6])
    &&& is_digit_char(s[8])
    &&& is_digit_char(s[9])
}

/// The date the digits of a `YYYY-MM-DD` string denote.
pub open spec fn date_of_str(s: Seq<char>) -> Date {
    Date {
        year: (digit_val(s[0]) * 1000 + digit_val(s[1]) * 100 + digit_val(s[2]) * 10 + digit_val(
            s[3],
        )) as u32,
        month: (digit_val(s[5]) * 10 + digit_val(s[6])) as u32,
        day: (digit_val(s[8]) * 10 + digit_val(s[9])) as u32,
    }
}

/// The date a string names, if it is a well-shaped `YYYY-MM-DD` naming a
/// valid calendar date.
pub open spec fn parse_date_spec(s: Seq<char>) -> Option<Date> {
    if date_str_shaped(s) && date_of_str(s).wf() {
        Some(date_of_str(s))
    } else {
        None
    }
}

/// Reads a `YYYY-MM-DD` string as a date; `None` when the shape is wrong
/// or the date does not exist in the calendar.
pub fn parse_date(s: &str) -> (r: Option<Date>)
    ensures
        r == parse_date_spec(s@),
{
    if s.unicode_len() != 10 {
        return None;
    }
    let c4 = s.get_char(4);
    let c7 = s.get_char(7);
    if c4 != '-' || c7 != '-' {
        return None;
    }
    let v0 = match digit_at(s, 0) {
        Some(v) => v,
        None => { return None },
    };
    let v1 = match digit_at(s, 1) {
        Some(v) => v,
        None => { return None },
    };
    let v2 = match digit_at(s, 2) {
        Some(v) => v,
        None => { return None },
    };
    let v3 = match digit_at(s, 3) {
        Some(v) => v,
        None => { return None },
    };
    let v5 = match digit_at(s, 5) {
        Some(v) => v,
        None => { return None },
    };
    let v6 = match digit_at(s, 6) {
        Some(v) => v,
        None => { return None },
    };
    let v8 = match digit_at(s, 8) {
        Some(v) => v,
        None => { return None },
    };
    let v9 = match digit_at(s, 9) {
        Some(v) => v,
        None => { return None },
    };
    let d = Date {
        year: v0 * 1000 + v1 * 100 + v2 * 10 + v3,
        month: v5 * 10 + v6,
        day: v8 * 10 + v9,
    };
    if d.valid() {
        Some(d)
    } else {
        None
    }
}

/// The value of the digit at position `i`, if one stands there.
fn digit_at(s: &str, i: usize) -> (r: Option<u32>)
    requires
        i < s@.len(),
    ensures
        (r is Some) == is_digit_char(s@[i as int]),
        r matches Some(v) ==> v == digit_val(s@[i as int]),
{
    let c = s.get_char(i);
    let v = c as u32;
    if 48 <= v && v <= 57 {
        Some(v - 48)
    } else {
        None
    }
}

/// The decimal digit character for `v` in `0..=9`.
pub open spec fn digit_char(v: int) -> char {
    if v == 0 {
        '0'
    } else if v == 1 {
        '1'
    } else if v == 2 {
        '2'
    } else if v == 3 {
        '3'
    } else if v == 4 {
        '4'
    } else if v == 5 {
        '5'
    } else if v == 6 {
        '6'
    } else if v == 7 {
        '7'
    } else if v == 8 {
        '8'
    } else {
        '9'
    }
}

/// The `YYYY-MM-DD` rendering of a well-formed date.
pub open spec fn date_str_of(d: Date) -> Seq<char> {
    seq![
        digit_char(d.year as int / 1000),
        digit_char((d.year as int / 100) % 10),
        digit_char((d.year as int / 10) % 10),
        digit_char(d.year as int % 10),
        '-',
        digit_char(d.month as int / 10),
        digit_char(d.month as int % 10),
        '-',
        digit_char(d.day as int / 10),
        digit_char(d.day as int % 10),
    ]
}

/// Appends the digit character for `v`.
pub(crate) fn push_digit(s: &mut String, v: u32)
    requires
        v <= 9,
    ensures
        final(s)@ == old(s)@.push(digit_char(v as int)),
{
    let c = match v {
        0 => '0',
        1 => '1',
        2 => '2',
        3 => '3',
        4 => '4',
        5 => '5',
        6 => '6',
        7 => '7',
        8 => '8',
        _ => '9',
    };
    crate::text::string_push(s, c);
}

/// Renders a date as `YYYY-MM-DD`.
pub fn format_date(d: &Date) -> (r: String)
    requires
        d.wf(),
    ensures
        r@ == date_str_of(*d),
{
    let mut r = String::new();
    push_digit(&mut r, d.year / 1000);
    push_digit(&mut r, (d.year / 100) % 10);
    push_digit(&mut r, (d.year / 10) % 10);
    push_digit(&mut r, d.year % 10);
    crate::text::string_push(&mut r, '-');
    push_digit(&mut r, d.month / 10);
    push_digit(&mut r, d.month % 10);
    crate::text::string_push(&mut r, '-');
    push_digit(&mut r, d.day / 10);
    push_digit(&mut r, d.day % 10);
    proof {
        assert(r@ =~= date_str_of(*d));
    }
    r
}

/// What resolving an explicit pair of bounds yields: the ascending run
/// between the two parsed dates, tolerating reversed bounds; an error
/// when either bound fails to parse.
pub open spec fn explicit_range_spec(sv: Seq<char>, ev: Seq<char>) -> Result<
    Seq<Date>,
    crate::StatsError,
> {
    match (parse_date_spec(sv), parse_date_spec(ev)) {
        (Some(a), Some(b)) => {
            let lo = if date_le(a, b) {
                a
            } else {
                b
            };
            let hi = if date_le(a, b) {
                b
            } else {
                a
            };
            Ok(date_seq(lo, (day_index(hi) - day_index(lo) + 1) as nat))
        },
        _ => Err(crate::StatsError::InvalidDateFormat),
    }
}

/// Resolves the date range to fetch, given the current date. With both
/// bounds present the bounds alone decide; otherwise the result is the
/// `days` dates ending the day before `today`.
pub fn resolve_date_range(start: Option<&str>, end: Option<&str>, days: i64, today: Date) -> (r:
    Result<Vec<Date>, crate::StatsError>)
    requires
        today.wf(),
    ensures
        match (start, end) {
            (Some(ss), Some(es)) => match explicit_range_spec(ss@, es@) {
                Ok(sq) => r matches Ok(v) && v@ == sq,
                Err(e) => r matches Err(e2) && e2 == e,
            },
            _ => r matches Ok(v) && v@ == default_range_spec(today, days as int),
        },
{
    match (start, end) {
        (Some(ss), Some(es)) => {
            let pa = parse_date(ss);
            let pb = parse_date(es);
            match (pa, pb) {
                (Some(a), Some(b)) => {
                    let (lo, hi) = if a.lt(&b) {
                        (a, b)
                    } else {
                        (b, a)
                    };
                    proof {
                        if !date_le(lo, hi) {
                            lemma_day_index_lt(hi, lo);
                        }
                    }
                    Ok(dates_between(lo, hi))
                },
                _ => Err(crate::StatsError::InvalidDateFormat),
            }
        },
        _ => Ok(trailing_dates(today, days)),
    }
}

/// Relies on chrono's `Local::now`, `date_naive` and `Datelike`: the
/// current local date as (year, month, day), with month in 1..=12 and
/// the day valid for that month, as chrono documents for `NaiveDate`.
#[verifier::external_body]
fn today_ymd() -> (r: (i32, u32, u32))
    ensures
        1 <= r.1 <= 12,
        1 <= r.2 && r.2 as int <= days_in_month(r.0 as int, r.1 as int),
{
    let now = chrono::Local::now().date_naive();
    (now.year(), now.month(), now.day())
}

/// Renders each date of a run.
fn format_dates(v: &Vec<Date>) -> (r: Vec<String>)
    requires
        forall|i: int| 0 <= i < v@.len() ==> v@[i].wf(),
    ensures
        r@.len() == v@.len(),
        forall|i: int| 0 <= i < v@.len() ==> r@[i]@ == date_str_of(v@[i]),
{
    let mut r: Vec<String> = Vec::new();
    let mut i: usize = 0;
    while i < v.len()
        invariant
            forall|k: int| 0 <= k < v@.len() ==> v@[k].wf(),
            0 <= i <= v@.len(),
            r@.len() == i,
            forall|k: int| 0 <= k < i ==> r@[k]@ == date_str_of(v@[k]),
        decreases v@.len() - i,
    {
        r.push(format_date(&v[i]));
        i = i + 1;
    }
    r
}

/// Resolves the dates to fetch, as `YYYY-MM-DD` strings. With explicit
/// bounds the clock plays no part; without them the range ends the day
/// before the current local date. A current date outside years 1 through
/// 9999 cannot be rendered and is reported as `InvalidDateFormat`.
pub fn get_date_range(start: Option<&str>, end: Option<&str>, days: i64) -> (r: Result<
    Vec<String>,
    crate::StatsError,
>)
    ensures
        match (start, end) {
            (Some(ss), Some(es)) => match explicit_range_spec(ss@, es@) {
                Ok(sq) => r matches Ok(v) && v@.len() == sq.len() && (forall|i: int|
                    0 <= i < sq.len() ==> #[trigger] v@[i]@ == date_str_of(sq[i])),
                Err(e) => r matches Err(e2) && e2 == e,
            },
            _ => match r {
                Ok(v) => exists|t: Date|
                    {
                        let sq = default_range_spec(t, days as int);
                        #[trigger] t.wf() && v@.len() == sq.len() && (forall|i: int|
                            0 <= i < sq.len() ==> #[trigger] v@[i]@ == date_str_of(sq[i]))
                    },
                Err(e) => e == crate::StatsError::InvalidDateFormat,
            },
        },
{
    let both = start.is_some() && end.is_some();
    let today = if both {
        Date { year: 1, month: 1, day: 1 }
    } else {
        let (y, m, d) = today_ymd();
        if y < 1 || y > 9999 {
            return Err(crate::StatsError::InvalidDateFormat);
        }
        Date { year: y as u32, month: m, day: d }
    };
    let ghost today_g = today;
    match resolve_date_range(start, end, days, today) {
        Ok(ds) => {
            proof {
                lemma_date_run_wf(ds@, today_g, start, end, days as int);
            }
            let out = format_dates(&ds);
            proof {
                if !both {
                    let sq = default_range_spec(today_g, days as int);
                    assert(today_g.wf() && out@.len() == sq.len() && (forall|i: int|
                        0 <= i < sq.len() ==> #[trigger] out@[i]@ == date_str_of(sq[i])));
                }
            }
            Ok(out)
        },
        Err(e) => Err(e),
    }
}

/// Every date of a resolved run is well-formed.
proof fn lemma_date_run_wf(
    sq: Seq<Date>,
    today: Date,
    start: Option<&str>,
    end: Option<&str>,
    days: int,
)
    requires
        today.wf(),
        match (start, end) {
            (Some(ss), Some(es)) => explicit_range_spec(ss@, es@) == Ok::<_, crate::StatsError>(
                sq,
            ),
            _ => sq == default_range_spec(today, days),
        },
    ensures
        forall|i: int| 0 <= i < sq.len() ==> (#[trigger] sq[i]).wf(),
{
    match (start, end) {
        (Some(ss), Some(es)) => {
            let a = parse_date_spec(ss@).unwrap();
            let b = parse_date_spec(es@).unwrap();
            let lo = if date_le(a, b) {
                a
            } else {
                b
            };
            let hi = if date_le(a, b) {
                b
            } else {
                a
            };
            lemma_day_index_lt_le(lo, hi);
            let n = (day_index(hi) - day_index(lo) + 1) as nat;
            lemma_date_seq_chain(lo, n);
            assert forall|i: int| 0 <= i < sq.len() implies (#[trigger] sq[i]).wf() by {
                lemma_nth_next_wf(lo, i as nat, hi);
            }
        },
        _ => {
            let n = default_count(today, days) as nat;
            lemma_day_index_zero(today);
            lemma_nth_prev_wf(today, n);
            let base = nth_prev(today, n);
            lemma_date_seq_chain(base, n);
            assert forall|i: int| 0 <= i < sq.len() implies (#[trigger] sq[i]).wf() by {
                lemma_nth_next_wf(base, i as nat, today);
            }
        },
    }
}

} // verus!

verus! {

/// For explicit bounds, reversed or not, the resolved range is the
/// contiguous ascending daily sequence whose first element is the earlier
/// and whose last element is the later of the two parsed dates.
pub proof fn lemma_explicit_range_shape(sv: Seq<char>, ev: Seq<char>, a: Date, b: Date)
    requires
        parse_date_spec(sv) == Some(a),
        parse_date_spec(ev) == Some(b),
    ensures
        explicit_range_spec(sv, ev) matches Ok(sq) && {
            let lo = if date_le(a, b) { a } else { b };
            let hi = if date_le(a, b) { b } else { a };
            &&& sq.len() == day_index(hi) - day_index(lo) + 1
            &&& sq[0] == lo
            &&& sq[sq.len() - 1] == hi
            &&& forall|i: int| 0 <= i < sq.len() - 1 ==> #[trigger] sq[i + 1] == next_date(sq[i])
            &&& forall|i: int| 0 <= i < sq.len() - 1 ==> date_lt(#[trigger] sq[i], sq[i + 1])
        },
{
    let lo = if date_le(a, b) { a } else { b };
    let hi = if date_le(a, b) { b } else { a };
    if !date_le(lo, hi) {
        lemma_day_index_lt(hi, lo);
    }
    lemma_day_index_lt_le(lo, hi);
    let n = (day_index(hi) - day_index(lo) + 1) as nat;
    let sq = date_seq(lo, n);
    lemma_date_seq_chain(lo, n);
    assert forall|i: int| 0 <= i < sq.len() - 1 implies date_lt(#[trigger] sq[i], sq[i + 1]) by {
        lemma_nth_next_wf(lo, i as nat, hi);
        if nth_next(lo, i as nat).is_last() {
            assert(date_le(hi, nth_next(lo, i as nat)));
            lemma_day_index_lt_le(hi, nth_next(lo, i as nat));
        }
        lemma_day_index_next(nth_next(lo, i as nat));
    }
    lemma_nth_next_wf(lo, (n - 1) as nat, hi);
    lemma_day_index_inj(nth_next(lo, (n - 1) as nat), hi);
}

/// With no explicit bounds and a positive `days` within the calendar's
/// reach, the resolved sequence has exactly `days` elements, ascending one
/// day apart, and ends the day before `today`.
pub proof fn lemma_default_range_shape(today: Date, days: int)
    requires
        today.wf(),
        1 <= days <= day_index(today),
    ensures
        ({
            let sq = default_range_spec(today, days);
            &&& sq.len() == days
            &&& forall|i: int| 0 <= i < sq.len() - 1 ==> #[trigger] sq[i + 1] == next_date(sq[i])
            &&& forall|i: int| 0 <= i < sq.len() - 1 ==> date_lt(#[trigger] sq[i], sq[i + 1])
            &&& sq[sq.len() - 1] == prev_date(today)
            &&& next_date(sq[sq.len() - 1]) == today
        }),
{
    let n = default_count(today, days) as nat;
    assert(n == days);
    let base = nth_prev(today, n);
    lemma_nth_prev_wf(today, n);
    lemma_nth_prev_next_cancel(today, n);
    let sq = default_range_spec(today, days);
    lemma_date_seq_chain(base, n);
    assert forall|i: int| 0 <= i < sq.len() - 1 implies date_lt(#[trigger] sq[i], sq[i + 1]) by {
        lemma_nth_next_wf(base, i as nat, today);
        if nth_next(base, i as nat).is_last() {
            assert(date_le(today, nth_next(base, i as nat)));
            lemma_day_index_lt_le(today, nth_next(base, i as nat));
        }
        lemma_day_index_next(nth_next(base, i as nat));
    }
    // the last element is one step short of today
    lemma_nth_next_snoc(base, (n - 1) as nat);
    assert(nth_next(base, n) == next_date(nth_next(base, (n - 1) as nat)));
    lemma_nth_next_wf(base, (n - 1) as nat, today);
    lemma_day_index_zero(today);
    lemma_day_index_prev(today);
    lemma_day_index_inj(nth_next(base, (n - 1) as nat), prev_date(today));
}

} // verus!

verus! {

/// Rendering a well-formed date as `YYYY-MM-DD` and parsing the string
/// back yields the same date.
pub proof fn lemma_date_round_trip(d: Date)
    requires
        d.wf(),
    ensures
        parse_date_spec(date_str_of(d)) == Some(d),
{
    let s = date_str_of(d);
    let y = d.year as int;
    let m = d.month as int;
    let dd = d.day as int;
    lemma_digit_ok(y / 1000);
    lemma_digit_ok((y / 100) % 10);
    lemma_digit_ok((y / 10) % 10);
    lemma_digit_ok(y % 10);
    lemma_digit_ok(m / 10);
    lemma_digit_ok(m % 10);
    lemma_digit_ok(dd / 10);
    lemma_digit_ok(dd % 10);
    assert(date_str_shaped(s));
    assert((y / 1000) * 1000 + ((y / 100) % 10) * 100 + ((y / 10) % 10) * 10 + y % 10 == y) by {
        assert(y / 100 == (y / 1000) * 10 + (y / 100) % 10) by (nonlinear_arith)
            requires 0 <= y;
        assert(y / 10 == (y / 100) * 10 + (y / 10) % 10) by (nonlinear_arith)
            requires 0 <= y;
        assert(y == (y / 10) * 10 + y % 10) by (nonlinear_arith)
            requires 0 <= y;
    }
    assert((m / 10) * 10 + m % 10 == m) by (nonlinear_arith)
        requires 0 <= m;
    assert((dd / 10) * 10 + dd % 10 == dd) by (nonlinear_arith)
        requires 0 <= dd;
    assert(date_of_str(s) == d);
}

/// A digit value in range denotes a digit character carrying it.
proof fn lemma_digit_ok(v: int)
    requires
        0 <= v <= 9,
    ensures
        is_digit_char(digit_char(v)),
        digit_val(digit_char(v)) == v,
{
}

} // verus!
