//! The name of a report that was given none: the local time, to the second.

use vstd::prelude::*;
use vstd::string::StringExecFns;
use crate::text::{decimal_text, digit_char, law_number_is_read_back, repeat_char, written};

verus! {

/// A local date and time, in the calendar of today.
#[derive(Clone, Copy, Debug)]
pub struct Moment {
    pub year: i32,
    pub month: u32,
    pub day: u32,
    pub hour: u32,
    pub minute: u32,
    pub second: u32,
    /// Nanoseconds since the second. A leap second is the second 59 with a billion or more.
    pub nanosecond: u32,
}

/// How a moment is written: the date, and the time without colons.
pub const PATTERN: &'static str = "%Y-%m-%d-%H%M%S";

/// The year has a 29th of February.
pub open spec fn leap_year(year: int) -> bool {
    year % 4 == 0 && (year % 100 != 0 || year % 400 == 0)
}

/// The number of days in a month.
pub open spec fn days_in(year: int, month: int) -> int {
    if month == 2 {
        if leap_year(year) {
            29
        } else {
            28
        }
    } else if month == 4 || month == 6 || month == 9 || month == 11 {
        30
    } else {
        31
    }
}

impl Moment {
    /// There is such a moment, in the range of years that the calendar covers.
    pub open spec fn is_real(self) -> bool {
        &&& -262_143 <= self.year <= 262_142
        &&& 1 <= self.month <= 12
        &&& 1 <= self.day <= days_in(self.year as int, self.month as int)
        &&& self.hour < 24
        &&& self.minute < 60
        &&& self.second < 60
        &&& self.nanosecond < 2_000_000_000
        &&& self.nanosecond >= 1_000_000_000 ==> self.second == 59
    }

    /// The second as a clock shows it: a leap second is the second 60.
    pub open spec fn shown_second(self) -> nat {
        (self.second + self.nanosecond / 1_000_000_000) as nat
    }
}

/// A number with zeros before it, so that it has at least `width` digits.
pub open spec fn zero_padded(n: nat, width: int) -> Seq<char> {
    repeat_char('0', width - decimal_text(n).len()) + decimal_text(n)
}

/// A year with at least four digits, and a sign if four do not do.
pub open spec fn year_text(year: int) -> Seq<char> {
    if 0 <= year <= 9999 {
        zero_padded(year as nat, 4)
    } else if year < 0 {
        seq!['-'] + zero_padded((-year) as nat, 4)
    } else {
        seq!['+'] + zero_padded(year as nat, 4)
    }
}

/// A moment as the pattern has it.
pub open spec fn stamp(m: Moment) -> Seq<char> {
    year_text(m.year as int) + seq!['-'] + zero_padded(m.month as nat, 2) + seq!['-']
        + zero_padded(m.day as nat, 2) + seq!['-'] + zero_padded(m.hour as nat, 2) + zero_padded(
        m.minute as nat,
        2,
    ) + zero_padded(m.shown_second(), 2)
}

/// A moment as text, if there is such a moment.
///
/// Calls `chrono::NaiveDateTime::format` with the pattern, on the moment that
/// `chrono::NaiveDate::from_ymd_opt` and `and_hms_nano_opt` make of the fields. These two give
/// nothing if there is no such date or time, and a date only for the years from -262143 up to
/// 262142. The year has at least four digits, with a sign outside of 0 to 9999; everything else
/// has two digits, and a leap second is the second 60.
#[verifier::external_body]
fn format_moment(m: &Moment, pattern: &str) -> (r: Option<String>)
    requires
        pattern@ == PATTERN@,
    ensures
        r is Some <==> m.is_real(),
        r matches Some(text) ==> text@ == stamp(*m),
{
    let date = chrono::NaiveDate::from_ymd_opt(m.year, m.month, m.day)?;
    let moment = date.and_hms_nano_opt(m.hour, m.minute, m.second, m.nanosecond)?;
    Some(moment.format(pattern).to_string())
}

/// The name of a report that is written at a moment.
pub open spec fn csv_name(m: Moment) -> Seq<char> {
    "panfind-"@ + stamp(m) + ".csv"@
}

/// The name of a report that is written at a moment. There is none if there is no such moment.
pub fn default_csv_path(now: &Moment) -> (r: Option<String>)
    ensures
        r is Some <==> now.is_real(),
        r matches Some(name) ==> name@ == csv_name(*now),
{
    match format_moment(now, PATTERN) {
        Some(stamp) => {
            let mut name: String = "panfind-".to_owned();
            name.append(stamp.as_str());
            name.append(".csv");
            Some(name)
        },
        None => None,
    }
}

proof fn lemma_two_digits(n: nat)
    requires
        n < 100,
    ensures
        zero_padded(n, 2) == seq![digit_char(n / 10), digit_char(n % 10)],
{
    reveal_with_fuel(decimal_text, 3);
    assert(zero_padded(n, 2) =~= seq![digit_char(n / 10), digit_char(n % 10)]);
}

proof fn lemma_four_digits(n: nat)
    requires
        n < 10000,
    ensures
        zero_padded(n, 4) == seq![
            digit_char(n / 1000),
            digit_char(n / 100 % 10),
            digit_char(n / 10 % 10),
            digit_char(n % 10),
        ],
{
    reveal_with_fuel(decimal_text, 5);
    assert(n / 10 / 10 == n / 100 && n / 10 / 10 / 10 == n / 1000);
    assert(zero_padded(n, 4) =~= seq![
        digit_char(n / 1000),
        digit_char(n / 100 % 10),
        digit_char(n / 10 % 10),
        digit_char(n % 10),
    ]);
}

proof fn lemma_same_digit(x: nat, y: nat)
    requires
        x < 10,
        y < 10,
        digit_char(x) == digit_char(y),
    ensures
        x == y,
{
}

/// Two numbers of two digits stand at the same place in two texts.
proof fn lemma_same_two(a: Seq<char>, b: Seq<char>, at: int, x: nat, y: nat)
    requires
        a == b,
        0 <= at <= a.len() - 2,
        x < 100,
        y < 100,
        a.subrange(at, at + 2) == zero_padded(x, 2),
        b.subrange(at, at + 2) == zero_padded(y, 2),
    ensures
        x == y,
{
    lemma_two_digits(x);
    lemma_two_digits(y);
    assert(zero_padded(x, 2)[0] == zero_padded(y, 2)[0]);
    assert(zero_padded(x, 2)[1] == zero_padded(y, 2)[1]);
    assert(x == x / 10 * 10 + x % 10 && y == y / 10 * 10 + y % 10);
}

proof fn lemma_same_four(a: Seq<char>, b: Seq<char>, x: nat, y: nat)
    requires
        a == b,
        a.len() >= 4,
        x < 10000,
        y < 10000,
        a.subrange(0, 4) == zero_padded(x, 4),
        b.subrange(0, 4) == zero_padded(y, 4),
    ensures
        x == y,
{
    lemma_four_digits(x);
    lemma_four_digits(y);
    assert(zero_padded(x, 4)[0] == zero_padded(y, 4)[0]);
    assert(zero_padded(x, 4)[1] == zero_padded(y, 4)[1]);
    assert(zero_padded(x, 4)[2] == zero_padded(y, 4)[2]);
    assert(zero_padded(x, 4)[3] == zero_padded(y, 4)[3]);
    lemma_same_digit(x / 1000, y / 1000);
    lemma_same_digit(x / 100 % 10, y / 100 % 10);
    lemma_same_digit(x / 10 % 10, y / 10 % 10);
    lemma_same_digit(x % 10, y % 10);
    assert(x / 100 == x / 1000 * 10 + x / 100 % 10);
    assert(y / 100 == y / 1000 * 10 + y / 100 % 10);
    assert(x / 10 == x / 100 * 10 + x / 10 % 10);
    assert(y / 10 == y / 100 * 10 + y / 10 % 10);
}

/// Where the numbers stand in the stamp of a moment in the years 0 to 9999.
proof fn lemma_stamp_parts(m: Moment)
    requires
        m.is_real(),
        0 <= m.year <= 9999,
    ensures
        stamp(m).len() == 17,
        stamp(m).subrange(0, 4) == zero_padded(m.year as nat, 4),
        stamp(m).subrange(5, 7) == zero_padded(m.month as nat, 2),
        stamp(m).subrange(8, 10) == zero_padded(m.day as nat, 2),
        stamp(m).subrange(11, 13) == zero_padded(m.hour as nat, 2),
        stamp(m).subrange(13, 15) == zero_padded(m.minute as nat, 2),
        stamp(m).subrange(15, 17) == zero_padded(m.shown_second(), 2),
{
    let year = zero_padded(m.year as nat, 4);
    let month = zero_padded(m.month as nat, 2);
    let day = zero_padded(m.day as nat, 2);
    let hour = zero_padded(m.hour as nat, 2);
    let minute = zero_padded(m.minute as nat, 2);
    let second = zero_padded(m.shown_second(), 2);
    assert(year.len() == 4) by {
        lemma_four_digits(m.year as nat);
    }
    assert(month.len() == 2 && day.len() == 2 && hour.len() == 2 && minute.len() == 2
        && second.len() == 2) by {
        lemma_two_digits(m.month as nat);
        lemma_two_digits(m.day as nat);
        lemma_two_digits(m.hour as nat);
        lemma_two_digits(m.minute as nat);
        lemma_two_digits(m.shown_second());
    }
    assert(stamp(m).subrange(0, 4) =~= year);
    assert(stamp(m).subrange(5, 7) =~= month);
    assert(stamp(m).subrange(8, 10) =~= day);
    assert(stamp(m).subrange(11, 13) =~= hour);
    assert(stamp(m).subrange(13, 15) =~= minute);
    assert(stamp(m).subrange(15, 17) =~= second);
}

/// The name of a report written in the years 0 to 9999 gives its second back: two names are the
/// same only if everything down to the second is.
pub proof fn law_name_gives_second_back(a: Moment, b: Moment)
    requires
        a.is_real(),
        b.is_real(),
        0 <= a.year <= 9999,
        0 <= b.year <= 9999,
        csv_name(a) == csv_name(b),
    ensures
        a.year == b.year,
        a.month == b.month,
        a.day == b.day,
        a.hour == b.hour,
        a.minute == b.minute,
        a.shown_second() == b.shown_second(),
{
    let x = stamp(a);
    let y = stamp(b);
    lemma_stamp_parts(a);
    lemma_stamp_parts(b);
    let head = "panfind-"@.len() as int;
    assert(x =~= csv_name(a).subrange(head, head + 17));
    assert(y =~= csv_name(b).subrange(head, head + 17));
    lemma_same_four(x, y, a.year as nat, b.year as nat);
    lemma_same_two(x, y, 5, a.month as nat, b.month as nat);
    lemma_same_two(x, y, 8, a.day as nat, b.day as nat);
    lemma_same_two(x, y, 11, a.hour as nat, b.hour as nat);
    lemma_same_two(x, y, 13, a.minute as nat, b.minute as nat);
    lemma_same_two(x, y, 15, a.shown_second(), b.shown_second());
}

/// Zeros before a number do not change it.
proof fn lemma_zeros_write_nothing(k: int, text: Seq<char>)
    ensures
        written(repeat_char('0', k) + text) == written(text),
    decreases text.len(),
{
    let zeros = repeat_char('0', k);
    if text.len() > 0 {
        assert((zeros + text).drop_last() =~= zeros + text.drop_last());
        lemma_zeros_write_nothing(k, text.drop_last());
    } else {
        assert(zeros + text =~= zeros);
        lemma_zeros_write_zero(k);
    }
}

proof fn lemma_zeros_write_zero(k: int)
    ensures
        written(repeat_char('0', k)) == 0,
    decreases k,
{
    if k > 0 {
        lemma_zeros_write_zero(k - 1);
        assert(repeat_char('0', k).drop_last() =~= repeat_char('0', k - 1));
    }
}

proof fn lemma_padded_number_is_read_back(n: nat, width: int)
    ensures
        written(zero_padded(n, width)) == n,
{
    lemma_zeros_write_nothing(width - decimal_text(n).len(), decimal_text(n));
    law_number_is_read_back(n);
}

/// The name of a report of the years 0 to 9999 spells the moment: the year with four digits, and
/// the month, the day, the hour, the minute and the second with two each, in this order.
pub proof fn law_name_spells_the_moment(m: Moment)
    requires
        m.is_real(),
        0 <= m.year <= 9999,
    ensures
        csv_name(m) == "panfind-"@ + stamp(m) + ".csv"@,
        stamp(m).len() == 17,
        written(stamp(m).subrange(0, 4)) == m.year,
        stamp(m)[4] == '-',
        written(stamp(m).subrange(5, 7)) == m.month,
        stamp(m)[7] == '-',
        written(stamp(m).subrange(8, 10)) == m.day,
        stamp(m)[10] == '-',
        written(stamp(m).subrange(11, 13)) == m.hour,
        written(stamp(m).subrange(13, 15)) == m.minute,
        m.nanosecond < 1_000_000_000 ==> written(stamp(m).subrange(15, 17)) == m.second,
        m.nanosecond >= 1_000_000_000 ==> written(stamp(m).subrange(15, 17)) == 60,
{
    lemma_stamp_parts(m);
    lemma_padded_number_is_read_back(m.year as nat, 4);
    lemma_padded_number_is_read_back(m.month as nat, 2);
    lemma_padded_number_is_read_back(m.day as nat, 2);
    lemma_padded_number_is_read_back(m.hour as nat, 2);
    lemma_padded_number_is_read_back(m.minute as nat, 2);
    lemma_padded_number_is_read_back(m.shown_second(), 2);
    assert(zero_padded(m.year as nat, 4).len() == 4) by {
        lemma_four_digits(m.year as nat);
    }
    assert(zero_padded(m.month as nat, 2).len() == 2) by {
        lemma_two_digits(m.month as nat);
    }
    assert(zero_padded(m.day as nat, 2).len() == 2) by {
        lemma_two_digits(m.day as nat);
    }
}

/// A year has 365 days, and a leap year one more; leap years are every fourth, but of the full
/// hundreds only every fourth is one.
pub proof fn law_days_of_a_year(year: int)
    ensures
        days_in(year, 1) + days_in(year, 2) + days_in(year, 3) + days_in(year, 4) + days_in(year, 5)
            + days_in(year, 6) + days_in(year, 7) + days_in(year, 8) + days_in(year, 9) + days_in(
            year,
            10,
        ) + days_in(year, 11) + days_in(year, 12) == if leap_year(year) {
            366int
        } else {
            365int
        },
        year % 100 != 0 ==> (leap_year(year) <==> year % 4 == 0),
        leap_year(100 * year) <==> year % 4 == 0,
{
    assert((100 * year) % 400 == 0 <==> year % 4 == 0);
}

} // verus!
