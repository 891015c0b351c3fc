//! A naive date-time held as plain calendar fields: the compact input form
//! `YYYYMMDDHHMMSS` is parsed and validated here, and the canonical output
//! form `YYYY-MM-DD HH:MM:SS` is rendered here.

use vstd::prelude::*;

use crate::digits::all_digits;
use crate::digits::digit_char;
use crate::digits::digit_str;
use crate::digits::digit_val;
use crate::digits::is_digit;
use crate::digits::lemma_digit_val_char;
use crate::digits::lemma_uint_value_bound;
use crate::digits::lemma_uint_value_nonneg;
use crate::digits::pow10;
use crate::digits::uint_value;

verus! {

/// A naive (timezone-free) date and time of day.
#[derive(Clone, Copy, PartialEq, Eq, Structural, Debug)]
pub struct DateTime {
    pub year: u16,
    pub month: u8,
    pub day: u8,
    pub hour: u8,
    pub minute: u8,
    pub second: u8,
}

/// Gregorian leap year.
pub open spec fn is_leap_year(y: int) -> bool {
    y % 4 == 0 && (y % 100 != 0 || y % 400 == 0)
}

/// Days in a month of the proleptic Gregorian calendar.
pub open spec fn days_in_month(y: int, m: int) -> int {
    if m == 2 {
        if is_leap_year(y) {
            29
        } else {
            28
        }
    } else if m == 4 || m == 6 || m == 9 || m == 11 {
        30
    } else {
        31
    }
}

impl DateTime {
    /// A well-formed calendar date with a valid time of day; four-digit years
    /// only, as the compact input form carries exactly four year digits.
    pub open spec fn wf(self) -> bool {
        &&& self.year <= 9999
        &&& 1 <= self.month <= 12
        &&& 1 <= self.day <= days_in_month(self.year as int, self.month as int)
        &&& self.hour <= 23
        &&& self.minute <= 59
        &&& self.second <= 59
    }

    /// A mixed-radix encoding of the fields that orders date-times
    /// chronologically.
    pub open spec fn stamp(self) -> int {
        ((((self.year as int * 100 + self.month as int) * 100 + self.day as int) * 100
            + self.hour as int) * 100 + self.minute as int) * 100 + self.second as int
    }
}

/// The component digit fields of a compact `YYYYMMDDHHMMSS` text.
pub open spec fn ts_year(s: Seq<char>) -> int {
    uint_value(s.subrange(0, 4))
}

pub open spec fn ts_month(s: Seq<char>) -> int {
    uint_value(s.subrange(4, 6))
}

pub open spec fn ts_day(s: Seq<char>) -> int {
    uint_value(s.subrange(6, 8))
}

pub open spec fn ts_hour(s: Seq<char>) -> int {
    uint_value(s.subrange(8, 10))
}

pub open spec fn ts_minute(s: Seq<char>) -> int {
    uint_value(s.subrange(10, 12))
}

pub open spec fn ts_second(s: Seq<char>) -> int {
    uint_value(s.subrange(12, 14))
}

/// Whether `s` is a valid compact timestamp: exactly fourteen digits whose
/// fields form a real calendar date and time of day.
pub open spec fn valid_ts(s: Seq<char>) -> bool {
    &&& s.len() == 14
    &&& all_digits(s)
    &&& 1 <= ts_month(s) <= 12
    &&& 1 <= ts_day(s) <= days_in_month(ts_year(s), ts_month(s))
    &&& ts_hour(s) <= 23
    &&& ts_minute(s) <= 59
    &&& ts_second(s) <= 59
}

/// The date-time a valid compact timestamp denotes.
pub open spec fn dt_of(s: Seq<char>) -> DateTime {
    DateTime {
        year: ts_year(s) as u16,
        month: ts_month(s) as u8,
        day: ts_day(s) as u8,
        hour: ts_hour(s) as u8,
        minute: ts_minute(s) as u8,
        second: ts_second(s) as u8,
    }
}

/// A two-digit string worth between 0 and 99.
pub proof fn lemma_uint_value2(s: Seq<char>)
    requires
        s.len() == 2,
        all_digits(s),
    ensures
        uint_value(s) == digit_val(s[0]) * 10 + digit_val(s[1]),
        0 <= uint_value(s) <= 99,
{
    let s1 = s.drop_last();
    assert(uint_value(s) == uint_value(s1) * 10 + digit_val(s.last()));
    assert(uint_value(s1) == uint_value(s1.drop_last()) * 10 + digit_val(s1.last()));
    assert(s1.drop_last() =~= Seq::<char>::empty());
    assert(uint_value(Seq::<char>::empty()) == 0);
    assert(is_digit(s[0]) && is_digit(s[1]));
}

/// A four-digit string worth between 0 and 9999.
pub proof fn lemma_uint_value4(s: Seq<char>)
    requires
        s.len() == 4,
        all_digits(s),
    ensures
        uint_value(s) == ((digit_val(s[0]) * 10 + digit_val(s[1])) * 10 + digit_val(s[2])) * 10
            + digit_val(s[3]),
        0 <= uint_value(s) <= 9999,
{
    let s3 = s.drop_last();
    let s2 = s3.drop_last();
    let s1 = s2.drop_last();
    assert(uint_value(s) == uint_value(s3) * 10 + digit_val(s.last()));
    assert(uint_value(s3) == uint_value(s2) * 10 + digit_val(s3.last()));
    assert(uint_value(s2) == uint_value(s1) * 10 + digit_val(s2.last()));
    assert(uint_value(s1) == uint_value(s1.drop_last()) * 10 + digit_val(s1.last()));
    assert(s1.drop_last() =~= Seq::<char>::empty());
    assert(uint_value(Seq::<char>::empty()) == 0);
    assert(is_digit(s[0]) && is_digit(s[1]) && is_digit(s[2]) && is_digit(s[3]));
}

/// A valid compact timestamp denotes a well-formed date-time.
pub proof fn lemma_dt_of_wf(s: Seq<char>)
    requires
        valid_ts(s),
    ensures
        dt_of(s).wf(),
{
    assert(all_digits(s.subrange(0, 4)));
    lemma_uint_value4(s.subrange(0, 4));
    assert(all_digits(s.subrange(4, 6)));
    lemma_uint_value2(s.subrange(4, 6));
    assert(all_digits(s.subrange(6, 8)));
    lemma_uint_value2(s.subrange(6, 8));
    assert(all_digits(s.subrange(8, 10)));
    lemma_uint_value2(s.subrange(8, 10));
    assert(all_digits(s.subrange(10, 12)));
    lemma_uint_value2(s.subrange(10, 12));
    assert(all_digits(s.subrange(12, 14)));
    lemma_uint_value2(s.subrange(12, 14));
}

/// The value of up to four digit characters of `s`, read left to right.
fn digits_value(s: &str, from: usize, to: usize) -> (v: usize)
    requires
        from <= to <= s@.len(),
        to - from <= 4,
        all_digits(s@.subrange(from as int, to as int)),
    ensures
        v == uint_value(s@.subrange(from as int, to as int)),
        v <= 9999,
{
    let ghost whole = s@.subrange(from as int, to as int);
    let mut v: usize = 0;
    let mut i: usize = from;
    proof {
        assert(s@.subrange(from as int, from as int) =~= Seq::<char>::empty());
        lemma_uint_value_nonneg(whole);
    }
    while i < to
        invariant
            from <= i <= to <= s@.len(),
            to - from <= 4,
            whole == s@.subrange(from as int, to as int),
            all_digits(whole),
            v == uint_value(s@.subrange(from as int, i as int)),
            v < 10000,
        decreases to - i,
    {
        let c = s.get_char(i);
        proof {
            assert(whole[i - from] == c);
            assert(is_digit(c));
        }
        let d: usize = (c as u32 as usize) - 48;
        let ghost pre = s@.subrange(from as int, i as int);
        let ghost pre1 = s@.subrange(from as int, i + 1);
        proof {
            assert(pre1.drop_last() =~= pre);
            assert(pre1.last() == c);
            assert(all_digits(pre)) by {
                assert(forall|k: int|
                    0 <= k < pre.len() ==> pre[k] == whole[k] && is_digit(#[trigger] whole[k]));
            }
            lemma_uint_value_nonneg(pre);
            lemma_uint_value_bound(pre);
            assert(pow10(0) == 1);
            assert(pow10(1) == 10);
            assert(pow10(2) == 100);
            assert(pow10(3) == 1000);
            assert(v < 1000);
        }
        v = v * 10 + d;
        i = i + 1;
    }
    v
}

/// Parse a compact `YYYYMMDDHHMMSS` timestamp; `Some` exactly on valid ones.
pub fn parse_timestamp(s: &str) -> (r: Option<DateTime>)
    ensures
        r is Some <==> valid_ts(s@),
        r is Some ==> r->0 == dt_of(s@) && dt_of(s@).wf(),
{
    let n: usize = s.unicode_len();
    if n != 14 {
        return None;
    }
    let mut i: usize = 0;
    while i < 14
        invariant
            i <= 14,
            s@.len() == 14,
            forall|k: int| 0 <= k < i ==> is_digit(#[trigger] s@[k]),
        decreases 14 - i,
    {
        let c = s.get_char(i);
        if c < '0' || c > '9' {
            return None;
        }
        i = i + 1;
    }
    proof {
        assert(all_digits(s@));
        assert(all_digits(s@.subrange(0, 4)));
        assert(all_digits(s@.subrange(4, 6)));
        assert(all_digits(s@.subrange(6, 8)));
        assert(all_digits(s@.subrange(8, 10)));
        assert(all_digits(s@.subrange(10, 12)));
        assert(all_digits(s@.subrange(12, 14)));
    }
    let year = digits_value(s, 0, 4);
    let month = digits_value(s, 4, 6);
    let day = digits_value(s, 6, 8);
    let hour = digits_value(s, 8, 10);
    let minute = digits_value(s, 10, 12);
    let second = digits_value(s, 12, 14);
    if month < 1 || month > 12 {
        return None;
    }
    let dim = days_in_month_of(year, month);
    if day < 1 || day > dim as usize {
        return None;
    }
    if hour > 23 || minute > 59 || second > 59 {
        return None;
    }
    proof {
        lemma_uint_value4(s@.subrange(0, 4));
        lemma_uint_value2(s@.subrange(4, 6));
        lemma_uint_value2(s@.subrange(6, 8));
        lemma_uint_value2(s@.subrange(8, 10));
        lemma_uint_value2(s@.subrange(10, 12));
        lemma_uint_value2(s@.subrange(12, 14));
        assert(valid_ts(s@));
        lemma_dt_of_wf(s@);
    }
    Some(
        DateTime {
            year: year as u16,
            month: month as u8,
            day: day as u8,
            hour: hour as u8,
            minute: minute as u8,
            second: second as u8,
        },
    )
}

/// Days in the given month.
fn days_in_month_of(year: usize, month: usize) -> (d: u8)
    ensures
        d as int == days_in_month(year as int, month as int),
{
    if month == 2 {
        if year % 4 == 0 && (year % 100 != 0 || year % 400 == 0) {
            29
        } else {
            28
        }
    } else if month == 4 || month == 6 || month == 9 || month == 11 {
        30
    } else {
        31
    }
}

/// Two digit characters, zero padded.
pub open spec fn pad2(n: int) -> Seq<char> {
    seq![digit_char(n / 10), digit_char(n % 10)]
}

/// Four digit characters, zero padded.
pub open spec fn pad4(n: int) -> Seq<char> {
    seq![digit_char(n / 1000), digit_char(n / 100 % 10), digit_char(n / 10 % 10), digit_char(
        n % 10,
    )]
}

/// The canonical rendering `YYYY-MM-DD HH:MM:SS` of a date-time.
pub open spec fn fmt_dt(d: DateTime) -> Seq<char> {
    pad4(d.year as int) + seq!['-'] + pad2(d.month as int) + seq!['-'] + pad2(d.day as int)
        + seq![' '] + pad2(d.hour as int) + seq![':'] + pad2(d.minute as int) + seq![':'] + pad2(
        d.second as int,
    )
}

/// Append the two-digit zero-padded rendering of `n`.
fn push_pad2(out: &mut String, n: usize)
    requires
        n <= 99,
    ensures
        final(out)@ == old(out)@ + pad2(n as int),
{
    let ghost start = out@;
    out.append(digit_str(n / 10));
    out.append(digit_str(n % 10));
    proof {
        assert(out@ =~= start + pad2(n as int));
    }
}

/// Render a well-formed date-time canonically as `YYYY-MM-DD HH:MM:SS`.
pub fn fmt_datetime(d: &DateTime) -> (r: String)
    requires
        d.wf(),
    ensures
        r@ == fmt_dt(*d),
{
    proof {
        reveal_strlit("-");
        reveal_strlit(" ");
        reveal_strlit(":");
    }
    let mut out = String::new();
    let y = d.year as usize;
    out.append(digit_str(y / 1000));
    out.append(digit_str(y / 100 % 10));
    out.append(digit_str(y / 10 % 10));
    out.append(digit_str(y % 10));
    out.append("-");
    push_pad2(&mut out, d.month as usize);
    out.append("-");
    push_pad2(&mut out, d.day as usize);
    out.append(" ");
    push_pad2(&mut out, d.hour as usize);
    out.append(":");
    push_pad2(&mut out, d.minute as usize);
    out.append(":");
    push_pad2(&mut out, d.second as usize);
    proof {
        assert(out@ =~= fmt_dt(*d));
    }
    out
}

/// The canonical rendering of the date-time a compact timestamp denotes,
/// written directly over the timestamp's own digits.
pub open spec fn canonical_ts(s: Seq<char>) -> Seq<char> {
    s.subrange(0, 4) + seq!['-'] + s.subrange(4, 6) + seq!['-'] + s.subrange(6, 8) + seq![' ']
        + s.subrange(8, 10) + seq![':'] + s.subrange(10, 12) + seq![':'] + s.subrange(12, 14)
}

/// Two digits and their value round-trip: padding the value of a two-digit
/// string gives the string back.
pub proof fn lemma_pad2_roundtrip(s: Seq<char>)
    requires
        s.len() == 2,
        all_digits(s),
    ensures
        pad2(uint_value(s)) =~= s,
{
    lemma_uint_value2(s);
    let d0 = digit_val(s[0]);
    let d1 = digit_val(s[1]);
    let v = uint_value(s);
    assert(v / 10 == d0 && v % 10 == d1) by (nonlinear_arith)
        requires
            v == d0 * 10 + d1,
            0 <= d0 <= 9,
            0 <= d1 <= 9,
    ;
    lemma_digit_val_char(s[0]);
    lemma_digit_val_char(s[1]);
}

/// Four digits and their value round-trip likewise.
pub proof fn lemma_pad4_roundtrip(s: Seq<char>)
    requires
        s.len() == 4,
        all_digits(s),
    ensures
        pad4(uint_value(s)) =~= s,
{
    lemma_uint_value4(s);
    let d0 = digit_val(s[0]);
    let d1 = digit_val(s[1]);
    let d2 = digit_val(s[2]);
    let d3 = digit_val(s[3]);
    let v = uint_value(s);
    assert(v / 1000 == d0 && v / 100 % 10 == d1 && v / 10 % 10 == d2 && v % 10 == d3)
        by (nonlinear_arith)
        requires
            v == ((d0 * 10 + d1) * 10 + d2) * 10 + d3,
            0 <= d0 <= 9,
            0 <= d1 <= 9,
            0 <= d2 <= 9,
            0 <= d3 <= 9,
    ;
    lemma_digit_val_char(s[0]);
    lemma_digit_val_char(s[1]);
    lemma_digit_val_char(s[2]);
    lemma_digit_val_char(s[3]);
}

/// Round trip: parsing a valid compact timestamp and rendering the result
/// reproduces the timestamp's digits in canonical form.
pub proof fn lemma_ts_roundtrip(s: Seq<char>)
    requires
        valid_ts(s),
    ensures
        fmt_dt(dt_of(s)) =~= canonical_ts(s),
{
    lemma_dt_of_wf(s);
    lemma_uint_value4(s.subrange(0, 4));
    lemma_uint_value2(s.subrange(4, 6));
    lemma_uint_value2(s.subrange(6, 8));
    lemma_uint_value2(s.subrange(8, 10));
    lemma_uint_value2(s.subrange(10, 12));
    lemma_uint_value2(s.subrange(12, 14));
    lemma_pad4_roundtrip(s.subrange(0, 4));
    lemma_pad2_roundtrip(s.subrange(4, 6));
    lemma_pad2_roundtrip(s.subrange(6, 8));
    lemma_pad2_roundtrip(s.subrange(8, 10));
    lemma_pad2_roundtrip(s.subrange(10, 12));
    lemma_pad2_roundtrip(s.subrange(12, 14));
}

} // verus!
