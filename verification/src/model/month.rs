//! Months as dense ordinals, `year * 12 + month0`, with saturating arithmetic.

use chrono::{DateTime, Datelike, Utc};
use vstd::prelude::*;

verus! {

/// The last year that a [`Month`] can name.
pub const MAX_YEAR: u16 = 3000;

/// The ordinal of December of [`MAX_YEAR`].
pub const MAX_MONTH: u16 = 36011;

/// A calendar month, counted from January of year 0.
#[derive(Debug, Copy, Clone, PartialEq, Eq, Structural, PartialOrd, Ord, Hash)]
pub struct Month(u16);

/// The error of every conversion into a [`Month`] that does not name one.
#[derive(Debug, Copy, Clone, PartialEq, Eq, Structural)]
pub struct InvalidMonth;

impl View for Month {
    type V = int;

    /// The ordinal `year * 12 + month0`.
    closed spec fn view(&self) -> int {
        self.0 as int
    }
}

/// Whether `c` is an ASCII decimal digit.
pub open spec fn is_digit(c: char) -> bool {
    48 <= c as u32 <= 57
}

/// The number that the decimal digits `s` write, most significant first.
pub open spec fn decimal_value(s: Seq<char>) -> int
    decreases s.len(),
{
    if s.len() == 0 {
        0
    } else {
        decimal_value(s.drop_last()) * 10 + (s.last() as u32 - 48)
    }
}

/// Whether `s` consists of decimal digits only.
pub open spec fn all_digits(s: Seq<char>) -> bool {
    forall|i: int| 0 <= i < s.len() ==> is_digit(#[trigger] s[i])
}

/// What parsing `s` as a `u16` gives: an optional `+`, then at least one
/// digit and nothing else, the number written being at most `u16::MAX`.
pub open spec fn spec_parse_u16(s: Seq<char>) -> Option<u16> {
    let digits = if s.len() > 0 && s[0] == '+' {
        s.subrange(1, s.len() as int)
    } else {
        s
    };
    if digits.len() > 0 && all_digits(digits) && decimal_value(digits) <= u16::MAX {
        Some(decimal_value(digits) as u16)
    } else {
        None
    }
}

/// The position of the first `/` in `s`, or the length of `s` if there is none.
pub open spec fn first_slash(s: Seq<char>) -> int
    decreases s.len(),
{
    if s.len() == 0 || s[0] == '/' {
        0
    } else {
        1 + first_slash(s.subrange(1, s.len() as int))
    }
}

/// The month that the year `year` and the one-based month `month_plus_one` name.
pub open spec fn spec_from_year_month(year: u16, month_plus_one: u16) -> Result<int, InvalidMonth> {
    if year <= MAX_YEAR && 1 <= month_plus_one <= 12 {
        Ok(year * 12 + month_plus_one - 1)
    } else {
        Err(InvalidMonth)
    }
}

/// What `s` parses to: `year` or `year/month`, both parsed as `u16`, a
/// missing month standing for January. The ordinal is given, not the month.
pub open spec fn spec_parse_month(s: Seq<char>) -> Result<int, InvalidMonth> {
    let cut = first_slash(s);
    match spec_parse_u16(s.subrange(0, cut)) {
        None => Err(InvalidMonth),
        Some(year) => if cut == s.len() {
            spec_from_year_month(year, 1)
        } else {
            match spec_parse_u16(s.subrange(cut + 1, s.len() as int)) {
                None => Err(InvalidMonth),
                Some(month_plus_one) => spec_from_year_month(year, month_plus_one),
            }
        },
    }
}

/// The character that writes the digit `d`.
pub open spec fn spec_digit_char(d: int) -> char {
    (48 + d) as u8 as char
}

/// A month written as four digits of the year, `/`, and two digits of the
/// one-based month.
pub open spec fn spec_format_month(ordinal: int) -> Seq<char> {
    let year = ordinal / 12;
    let month = ordinal % 12 + 1;
    seq![
        spec_digit_char(year / 1000),
        spec_digit_char(year / 100 % 10),
        spec_digit_char(year / 10 % 10),
        spec_digit_char(year % 10),
        '/',
        spec_digit_char(month / 10),
        spec_digit_char(month % 10),
    ]
}

/// The ordinal for a date that chrono gives as `year_ce` and `month0`: years
/// before the common era count as year 0, years after [`MAX_YEAR`] as
/// [`MAX_YEAR`].
pub open spec fn spec_from_year_ce(is_ce: bool, year: u32, month0: u32) -> int {
    let clamped = if !is_ce {
        0
    } else if year > MAX_YEAR {
        MAX_YEAR as int
    } else {
        year as int
    };
    clamped * 12 + month0
}

/// The era flag and absolute year of the UTC date that lies `millis`
/// milliseconds after the Unix epoch; `None` where chrono cannot represent
/// that date.
pub uninterp spec fn utc_year_ce(millis: i64) -> Option<(bool, u32)>;

/// The zero-based month of the UTC date that lies `millis` milliseconds after
/// the Unix epoch; `None` where chrono cannot represent that date.
pub uninterp spec fn utc_month0(millis: i64) -> Option<u32>;

/// The ordinal of the month of the UTC date that lies `millis` milliseconds
/// after the Unix epoch, years saturating at 0 and at [`MAX_YEAR`]; `None`
/// where chrono cannot represent that date.
pub open spec fn spec_month_at(millis: i64) -> Option<int> {
    match (utc_year_ce(millis), utc_month0(millis)) {
        (Some(era_year), Some(month0)) => Some(spec_from_year_ce(era_year.0, era_year.1, month0)),
        _ => None,
    }
}

/// `Datelike::year_ce` of chrono, on the `DateTime<Utc>` that
/// `DateTime::from_timestamp_millis` makes of `millis`. Trusted: the result is
/// a function of `millis` alone, and is `None` exactly when the month is.
#[verifier::external_body]
fn year_ce_at(millis: i64) -> (r: Option<(bool, u32)>)
    ensures
        r == utc_year_ce(millis),
        r is Some <==> utc_month0(millis) is Some,
{
    match DateTime::<Utc>::from_timestamp_millis(millis) {
        Some(time) => Some(time.year_ce()),
        None => None,
    }
}

/// `Datelike::month0` of chrono, on the `DateTime<Utc>` that
/// `DateTime::from_timestamp_millis` makes of `millis`. Trusted: the result is
/// a function of `millis` alone and, as chrono documents, ranges from 0 to 11.
#[verifier::external_body]
fn month0_at(millis: i64) -> (r: Option<u32>)
    ensures
        r == utc_month0(millis),
        r matches Some(month0) ==> month0 < 12,
{
    match DateTime::<Utc>::from_timestamp_millis(millis) {
        Some(time) => Some(time.month0()),
        None => None,
    }
}

/// `String::push` of std. Trusted: it appends `c` and changes nothing else.
#[verifier::external_body]
pub(crate) fn push_char(s: &mut String, c: char)
    ensures
        final(s)@ == old(s)@.push(c),
{
    s.push(c)
}

fn digit_char(d: u16) -> (c: char)
    requires
        d < 10,
    ensures
        c == spec_digit_char(d as int),
{
    let b: u8 = 48u8 + d as u8;
    b as char
}

/// Parses the characters `from..to` of `s` as std parses a `u16`.
fn parse_u16(s: &str, from: usize, to: usize) -> (r: Option<u16>)
    requires
        from <= to <= s@.len(),
    ensures
        r == spec_parse_u16(s@.subrange(from as int, to as int)),
{
    let ghost part = s@.subrange(from as int, to as int);
    let mut i: usize = from;
    if i < to && s.get_char(i) == '+' {
        i = i + 1;
    }
    let start: usize = i;
    let ghost digits = s@.subrange(start as int, to as int);
    assert(digits == if part.len() > 0 && part[0] == '+' {
        part.subrange(1, part.len() as int)
    } else {
        part
    });
    if start == to {
        return None;
    }
    let ghost expected = spec_parse_u16(part);
    assert(expected == if all_digits(digits) && decimal_value(digits) <= u16::MAX {
        Some(decimal_value(digits) as u16)
    } else {
        None
    });
    let mut acc: u32 = 0;
    let mut too_large: bool = false;
    while i < to
        invariant
            start <= i <= to <= s@.len(),
            digits == s@.subrange(start as int, to as int),
            expected == spec_parse_u16(s@.subrange(from as int, to as int)),
            expected == if all_digits(digits) && decimal_value(digits) <= u16::MAX {
                Some(decimal_value(digits) as u16)
            } else {
                None::<u16>
            },
            all_digits(s@.subrange(start as int, i as int)),
            !too_large ==> acc == decimal_value(s@.subrange(start as int, i as int)),
            too_large ==> decimal_value(s@.subrange(start as int, i as int)) > u16::MAX,
            acc <= u16::MAX,
        decreases to - i,
    {
        let c: char = s.get_char(i);
        let v: u32 = c as u32;
        if v < 48 || v > 57 {
            assert(!is_digit(digits[i - start]));
            return None;
        }
        proof {
            let next = s@.subrange(start as int, i + 1);
            assert(next.drop_last() == s@.subrange(start as int, i as int));
            assert(next.last() == c);
            assert forall|k: int| 0 <= k < next.len() implies is_digit(#[trigger] next[k]) by {
                if k < i - start {
                    assert(next[k] == s@.subrange(start as int, i as int)[k]);
                }
            }
        }
        if !too_large {
            acc = acc * 10 + (v - 48);
            if acc > 65535 {
                too_large = true;
                acc = 0;
            }
        }
        i = i + 1;
    }
    assert(s@.subrange(start as int, i as int) == digits);
    if too_large {
        None
    } else {
        Some(acc as u16)
    }
}

/// Finds the first `/` of `s`.
fn find_slash(s: &str) -> (cut: usize)
    ensures
        cut == first_slash(s@),
        cut <= s@.len(),
{
    let n: usize = s.unicode_len();
    let mut i: usize = 0;
    assert(s@.subrange(0, n as int) == s@);
    while i < n
        invariant
            i <= n == s@.len(),
            first_slash(s@) == i + first_slash(s@.subrange(i as int, n as int)),
        decreases n - i,
    {
        let ghost rest = s@.subrange(i as int, n as int);
        if s.get_char(i) == '/' {
            assert(rest[0] == '/');
            return i;
        }
        assert(rest.subrange(1, rest.len() as int) == s@.subrange(i + 1, n as int));
        i = i + 1;
    }
    assert(s@.subrange(n as int, n as int).len() == 0);
    i
}

impl Month {
    /// Whether this is a month from January of year 0 to December of
    /// [`MAX_YEAR`]. Every month that this library hands out is.
    pub open spec fn wf(self) -> bool {
        0 <= self@ <= MAX_MONTH
    }

    /// The month with the ordinal `ordinal`.
    pub closed spec fn spec_from_ordinal(ordinal: u16) -> Month {
        Month(ordinal)
    }

    /// [`Month::spec_from_ordinal`] gives the month that has the ordinal.
    pub proof fn lemma_from_ordinal(ordinal: u16)
        ensures
            Month::spec_from_ordinal(ordinal)@ == ordinal,
    {
    }

    /// The last month.
    pub fn max_value() -> (m: Month)
        ensures
            m@ == MAX_MONTH,
            m.wf(),
    {
        Month(MAX_YEAR * 12 + 11)
    }

    /// The month of a date that chrono gives as `year_ce` and `month0`.
    pub fn from_year_ce(is_ce: bool, year: u32, month0: u32) -> (m: Month)
        requires
            month0 < 12,
        ensures
            m@ == spec_from_year_ce(is_ce, year, month0),
            m.wf(),
    {
        let clamped: u16 = if !is_ce {
            0
        } else if year > 3000 {
            MAX_YEAR
        } else {
            year as u16
        };
        Month(clamped * 12 + month0 as u16)
    }

    /// The month of the UTC date that lies `millis` milliseconds after the
    /// Unix epoch, years saturating at 0 and at [`MAX_YEAR`]. `None` exactly
    /// when chrono cannot represent that date.
    pub fn from_time_saturating(millis: i64) -> (r: Option<Month>)
        ensures
            match spec_month_at(millis) {
                Some(ordinal) => (r matches Some(m) && m@ == ordinal),
                None => r is None,
            },
            r matches Some(m) ==> m.wf() && m@ <= MAX_MONTH,
    {
        match (year_ce_at(millis), month0_at(millis)) {
            (Some(era_year), Some(month0)) => Some(
                Month::from_year_ce(era_year.0, era_year.1, month0),
            ),
            _ => None,
        }
    }

    /// This month moved `months` later, stopping at the last month.
    pub fn add_months_saturating(self, months: u16) -> (m: Month)
        ensures
            m@ == if self@ + months <= MAX_MONTH {
                self@ + months
            } else {
                MAX_MONTH as int
            },
            m.wf(),
    {
        let sum: u16 = self.0.saturating_add(months);
        if sum <= 36011 {
            Month(sum)
        } else {
            Month::max_value()
        }
    }

    /// The month with the ordinal `month`, if there is one.
    pub fn try_from_u16(month: u16) -> (r: Result<Month, InvalidMonth>)
        ensures
            month <= MAX_MONTH ==> (r matches Ok(m) && m@ == month && m.wf()),
            month > MAX_MONTH ==> r == Err::<Month, InvalidMonth>(InvalidMonth),
    {
        if month <= 36011 {
            Ok(Month(month))
        } else {
            Err(InvalidMonth)
        }
    }

    /// The ordinal of this month.
    pub fn to_u16(self) -> (ordinal: u16)
        ensures
            ordinal == self@,
    {
        self.0
    }

    /// Parses `year` or `year/month`, as [`spec_parse_month`] says.
    pub fn from_str(s: &str) -> (r: Result<Month, InvalidMonth>)
        ensures
            match spec_parse_month(s@) {
                Ok(ordinal) => (r matches Ok(m) && m@ == ordinal && m.wf()),
                Err(e) => r == Err::<Month, InvalidMonth>(e),
            },
    {
        let n: usize = s.unicode_len();
        let cut: usize = find_slash(s);
        let year: u16 = match parse_u16(s, 0, cut) {
            Some(year) => year,
            None => { return Err(InvalidMonth); },
        };
        let month_plus_one: u16 = if cut == n {
            1
        } else {
            match parse_u16(s, cut + 1, n) {
                Some(month_plus_one) => month_plus_one,
                None => { return Err(InvalidMonth); },
            }
        };
        if year <= MAX_YEAR && 1 <= month_plus_one && month_plus_one <= 12 {
            Ok(Month(year * 12 + month_plus_one - 1))
        } else {
            Err(InvalidMonth)
        }
    }

    /// This month as `YYYY/MM`.
    pub fn to_string(&self) -> (s: String)
        ensures
            s@ == spec_format_month(self@),
    {
        let year: u16 = self.0 / 12;
        let month: u16 = self.0 % 12 + 1;
        let mut s = String::new();
        push_char(&mut s, digit_char(year / 1000));
        push_char(&mut s, digit_char(year / 100 % 10));
        push_char(&mut s, digit_char(year / 10 % 10));
        push_char(&mut s, digit_char(year % 10));
        push_char(&mut s, '/');
        push_char(&mut s, digit_char(month / 10));
        push_char(&mut s, digit_char(month % 10));
        assert(s@ =~= spec_format_month(self@));
        s
    }

    /// Two months with the same ordinal are the same month.
    pub proof fn lemma_view_injective(a: Month, b: Month)
        requires
            a@ == b@,
        ensures
            a == b,
    {
    }
}

/// The digits `a b` write the number `a * 10 + b`.
proof fn lemma_two_digits(a: int, b: int)
    requires
        0 <= a < 10,
        0 <= b < 10,
    ensures
        spec_parse_u16(seq![spec_digit_char(a), spec_digit_char(b)]) == Some((a * 10 + b) as u16),
{
    let s = seq![spec_digit_char(a), spec_digit_char(b)];
    let s1 = seq![spec_digit_char(a)];
    assert(s.drop_last() == s1);
    assert(s1.drop_last() == Seq::<char>::empty());
    reveal_with_fuel(decimal_value, 3);
    assert(decimal_value(s) == a * 10 + b);
}

/// The digits `a b c d` write the number `a * 1000 + b * 100 + c * 10 + d`.
proof fn lemma_four_digits(a: int, b: int, c: int, d: int)
    requires
        0 <= a < 10,
        0 <= b < 10,
        0 <= c < 10,
        0 <= d < 10,
    ensures
        spec_parse_u16(
            seq![spec_digit_char(a), spec_digit_char(b), spec_digit_char(c), spec_digit_char(d)],
        ) == Some((a * 1000 + b * 100 + c * 10 + d) as u16),
{
    let s = seq![spec_digit_char(a), spec_digit_char(b), spec_digit_char(c), spec_digit_char(d)];
    let s3 = seq![spec_digit_char(a), spec_digit_char(b), spec_digit_char(c)];
    let s2 = seq![spec_digit_char(a), spec_digit_char(b)];
    let s1 = seq![spec_digit_char(a)];
    assert(s.drop_last() == s3);
    assert(s3.drop_last() == s2);
    assert(s2.drop_last() == s1);
    assert(s1.drop_last() == Seq::<char>::empty());
    reveal_with_fuel(decimal_value, 5);
    assert(decimal_value(s) == a * 1000 + b * 100 + c * 10 + d);
}

/// A month that is written with [`Month::to_string`] and parsed with
/// [`Month::from_str`] is the same month again.
pub proof fn lemma_month_round_trip(m: Month)
    requires
        m.wf(),
    ensures
        spec_parse_month(spec_format_month(m@)) == Ok::<int, InvalidMonth>(m@),
{
    let year = m@ / 12;
    let month = m@ % 12 + 1;
    let s = spec_format_month(m@);
    let (a, b, c, d) = (year / 1000, year / 100 % 10, year / 10 % 10, year % 10);
    let (e, f) = (month / 10, month % 10);
    let t1 = s.subrange(1, 7);
    let t2 = t1.subrange(1, 6);
    let t3 = t2.subrange(1, 5);
    let t4 = t3.subrange(1, 4);
    assert(t4[0] == '/');
    reveal_with_fuel(first_slash, 6);
    assert(first_slash(s) == 4);
    assert(s.subrange(0, 4) == seq![
        spec_digit_char(a),
        spec_digit_char(b),
        spec_digit_char(c),
        spec_digit_char(d),
    ]);
    assert(s.subrange(5, 7) == seq![spec_digit_char(e), spec_digit_char(f)]);
    lemma_four_digits(a, b, c, d);
    lemma_two_digits(e, f);
}

impl From<Month> for u16 {
    fn from(month: Month) -> (ordinal: u16) {
        month.0
    }
}

impl vstd::std_specs::convert::FromSpecImpl<Month> for u16 {
    open spec fn obeys_from_spec() -> bool {
        true
    }

    open spec fn from_spec(month: Month) -> u16 {
        month@ as u16
    }
}

impl vstd::std_specs::convert::TryFromSpecImpl<u16> for Month {
    open spec fn obeys_try_from_spec() -> bool {
        true
    }

    open spec fn try_from_spec(month: u16) -> Result<Month, InvalidMonth> {
        if month <= MAX_MONTH {
            Ok(Month::spec_from_ordinal(month))
        } else {
            Err(InvalidMonth)
        }
    }
}

impl TryFrom<u16> for Month {
    type Error = InvalidMonth;

    fn try_from(month: u16) -> (r: Result<Month, InvalidMonth>)
        ensures
            month <= MAX_MONTH ==> (r matches Ok(m) && m@ == month && m.wf()),
            month > MAX_MONTH ==> r == Err::<Month, InvalidMonth>(InvalidMonth),
    {
        Month::try_from_u16(month)
    }
}

impl std::str::FromStr for Month {
    type Err = InvalidMonth;

    /// Parses `year` or `year/month`, as [`Month::from_str`] does.
    fn from_str(s: &str) -> (r: Result<Month, InvalidMonth>)
        ensures
            match spec_parse_month(s@) {
                Ok(ordinal) => (r matches Ok(m) && m@ == ordinal && m.wf()),
                Err(e) => r == Err::<Month, InvalidMonth>(e),
            },
    {
        Month::from_str(s)
    }
}

impl Default for Month {
    /// January of year 0.
    fn default() -> (m: Month)
        ensures
            m@ == 0,
            m.wf(),
    {
        Month(0)
    }
}

impl InvalidMonth {
    /// What to tell a person about this error.
    pub fn to_string(&self) -> (s: String)
        ensures
            s@ == "invalid month"@,
    {
        "invalid month".to_owned()
    }
}

} // verus!
