//! Discord timestamps: `YYYY-MM-DDTHH:MM:SS` read into seconds since the
//! epoch with integer arithmetic only, and the local-time display form.
use vstd::prelude::*;
use vstd::string::StringSliceAdditionalSpecFns;

use crate::text::opt_view;

verus! {

/// Days from 1970-01-01 to a civil date (Howard Hinnant's algorithm).
pub open spec fn days_from_civil_spec(y: int, m: int, d: int) -> int {
    let y1 = if m <= 2 {
        y - 1
    } else {
        y
    };
    let era = y1 / 400;
    let yoe = y1 - era * 400;
    let mp = if m > 2 {
        m - 3
    } else {
        m + 9
    };
    let doy = (153 * mp + 2) / 5 + d - 1;
    let doe = yoe * 365 + yoe / 4 - yoe / 100 + doy;
    era * 146097 + doe - 719468
}

/// Whether `y` is a leap year of the Gregorian calendar.
pub open spec fn is_leap_year(y: int) -> bool {
    y % 4 == 0 && (y % 100 != 0 || y % 400 == 0)
}

/// The number of days of month `m` (1 to 12) of year `y`.
pub open spec fn days_in_month(y: int, m: int) -> int {
    if m == 2 {
        if is_leap_year(y) {
            29
        } else {
            28
        }
    } else if m == 4 || m == 6 || m == 9 || m == 11 {
        30
    } else {
        31
    }
}

/// The calendar day after `(y, m, d)`.
pub open spec fn next_day(y: int, m: int, d: int) -> (int, int, int) {
    if d < days_in_month(y, m) {
        (y, m, d + 1)
    } else if m < 12 {
        (y, m + 1, 1)
    } else {
        (y + 1, 1, 1)
    }
}

/// Days from 0000-03-01 to the first of March of year `y + 1`, counted
/// year by year with the Gregorian leap years.
spec fn days_before_march(y: int) -> int {
    365 * y + y / 4 - y / 100 + y / 400
}

/// The 400-year eras of `days_from_civil_spec` add up to the leap-year count.
proof fn lemma_era_days(y1: int)
    ensures
        ({
            let era = y1 / 400;
            let yoe = y1 - era * 400;
            era * 146097 + yoe * 365 + yoe / 4 - yoe / 100
        }) == days_before_march(y1),
{
    let era = y1 / 400;
    let yoe = y1 - era * 400;
    assert(0 <= yoe < 400);
    assert(y1 / 4 == 100 * era + yoe / 4);
    assert(y1 / 100 == 4 * era + yoe / 100);
}

/// One more year adds 365 days, and one more when the year it ends in
/// February of is a leap year.
proof fn lemma_year_step(y: int)
    ensures
        days_before_march(y + 1) == days_before_march(y) + 365 + if is_leap_year(y + 1) {
            1int
        } else {
            0int
        },
{
    let a = y + 1;
    assert(a / 4 - y / 4 == if a % 4 == 0 {
        1int
    } else {
        0int
    });
    assert(a / 100 - y / 100 == if a % 100 == 0 {
        1int
    } else {
        0int
    });
    assert(a / 400 - y / 400 == if a % 400 == 0 {
        1int
    } else {
        0int
    });
    assert(a % 400 == 0 ==> a % 100 == 0 && a % 4 == 0);
    assert(a % 100 == 0 ==> a % 4 == 0);
}

/// The day count of a date: 1970-01-01 is day 0, and the calendar day after
/// any valid date is exactly one day later, across the ends of months, of
/// February in leap and common years, and of years.
pub proof fn law_days_from_civil_counts_days(y: int, m: int, d: int)
    requires
        1 <= m <= 12,
        1 <= d <= days_in_month(y, m),
    ensures
        days_from_civil_spec(1970, 1, 1) == 0,
        ({
            let (y2, m2, d2) = next_day(y, m, d);
            days_from_civil_spec(y2, m2, d2) == days_from_civil_spec(y, m, d) + 1
        }),
{
    let (y2, m2, d2) = next_day(y, m, d);
    let y1 = if m <= 2 {
        y - 1
    } else {
        y
    };
    let y1b = if m2 <= 2 {
        y2 - 1
    } else {
        y2
    };
    lemma_era_days(y1);
    lemma_era_days(y1b);
    lemma_era_days(1969);
    if m == 2 && d == days_in_month(y, m) {
        lemma_year_step(y - 1);
    }
}

/// Converts a civil date (UTC) into days since 1970-01-01.
fn days_from_civil(y: i64, m: i64, d: i64) -> (r: i64)
    requires
        -1_000_000 <= y <= 1_000_000,
        -9 <= m <= 99,
        -99 <= d <= 99,
    ensures
        r == days_from_civil_spec(y as int, m as int, d as int),
{
    let y = if m <= 2 {
        y - 1
    } else {
        y
    };
    let era = if y >= 0 {
        y / 400
    } else {
        let q = (399 - y) / 400;
        assert(q == (399 - y) as int / 400);
        assert(-q == y as int / 400) by {
            assert(y < 0);
        }
        -q
    };
    assert(era == y as int / 400);
    let yoe = y - era * 400;
    assert(0 <= yoe < 400);
    let mp = m + if m > 2 {
        -3
    } else {
        9
    };
    assert(mp >= 0);
    let doy = (153 * mp + 2) / 5 + d - 1;
    let doe = yoe * 365 + yoe / 4 - yoe / 100 + doy;
    era * 146097 + doe - 719468
}

/// Whether a byte is an ASCII decimal digit.
pub open spec fn is_digit_byte(b: u8) -> bool {
    48 <= b <= 57
}

/// The value of a string of decimal digit bytes.
pub open spec fn bytes_value(s: Seq<u8>) -> nat
    decreases s.len(),
{
    if s.len() == 0 {
        0
    } else {
        bytes_value(s.drop_last()) * 10 + (s.last() - 48) as nat
    }
}

/// What `s.parse::<i64>()` gives: an optional sign, then at least one digit
/// and nothing else, of a value that fits in 64 bits.
pub open spec fn parse_i64_spec(s: Seq<u8>) -> Option<i64> {
    let neg = s.len() > 0 && s[0] == 45;
    let d = signed_digits(s);
    if d.len() == 0 || !(forall|i: int| 0 <= i < d.len() ==> #[trigger] is_digit_byte(d[i])) {
        None
    } else if neg && bytes_value(d) <= 0x8000_0000_0000_0000 {
        Some((-(bytes_value(d) as int)) as i64)
    } else if !neg && bytes_value(d) <= i64::MAX {
        Some(bytes_value(d) as i64)
    } else {
        None
    }
}

/// Ten to the power `n`.
pub open spec fn pow10(n: nat) -> nat
    decreases n,
{
    if n == 0 {
        1
    } else {
        10 * pow10((n - 1) as nat)
    }
}

/// `n` digits are worth less than ten to the power `n`.
pub proof fn lemma_bytes_value_bound(s: Seq<u8>)
    requires
        forall|i: int| 0 <= i < s.len() ==> #[trigger] is_digit_byte(s[i]),
    ensures
        bytes_value(s) < pow10(s.len()),
    decreases s.len(),
{
    if s.len() > 0 {
        assert forall|i: int| 0 <= i < s.drop_last().len() implies #[trigger] is_digit_byte(
            s.drop_last()[i],
        ) by {
            assert(s.drop_last()[i] == s[i]);
        }
        lemma_bytes_value_bound(s.drop_last());
        assert(is_digit_byte(s[s.len() - 1]));
        let a = bytes_value(s.drop_last());
        let p = pow10((s.len() - 1) as nat);
        let dg = (s.last() - 48) as nat;
        assert(a * 10 + dg < 10 * p) by (nonlinear_arith)
            requires
                a < p,
                dg <= 9,
        ;
    }
}

/// The digits that a signed field holds after its optional sign.
pub open spec fn signed_digits(s: Seq<u8>) -> Seq<u8> {
    if s.len() > 0 && (s[0] == 43 || s[0] == 45) {
        s.skip(1)
    } else {
        s
    }
}

/// Reads the signed decimal field `b[a..z]`, at most four bytes long.
fn parse_field(b: &[u8], a: usize, z: usize) -> (r: Option<i64>)
    requires
        a <= z <= b@.len(),
        z - a <= 4,
    ensures
        r == parse_i64_spec(b@.subrange(a as int, z as int)),
        r matches Some(v) ==> -9999 <= v <= 9999,
{
    let ghost s = b@.subrange(a as int, z as int);
    let mut i = a;
    let mut neg = false;
    if i < z && (b[i] == 43 || b[i] == 45) {
        neg = b[i] == 45;
        i = i + 1;
    }
    let start = i;
    let ghost d = s.skip(start - a);
    assert(d == signed_digits(s));
    if start == z {
        return None;
    }
    let mut value: i64 = 0;
    proof {
        assert(pow10(0) == 1);
        assert(pow10(1) == 10);
        assert(pow10(2) == 100);
        assert(pow10(3) == 1000);
        assert(pow10(4) == 10000);
    }
    while i < z
        invariant
            a <= start <= i <= z <= b@.len(),
            z - a <= 4,
            s == b@.subrange(a as int, z as int),
            d == s.skip(start - a),
            d == signed_digits(s),
            neg == (s.len() > 0 && s[0] == 45),
            forall|k: int| 0 <= k < i - start ==> #[trigger] is_digit_byte(d[k]),
            0 <= value,
            value as int == bytes_value(d.take(i - start)),
            pow10(4) == 10000,
            pow10(3) == 1000,
            pow10(2) == 100,
            pow10(1) == 10,
            pow10(0) == 1,
        decreases z - i,
    {
        let c = b[i];
        assert(d[i - start] == c);
        if !(48 <= c && c <= 57) {
            assert(!is_digit_byte(d[i - start]));
            return None;
        }
        let ghost k = i - start;
        assert(d.take(k + 1).drop_last() == d.take(k));
        assert(forall|j: int| 0 <= j < k ==> #[trigger] is_digit_byte(d.take(k)[j]) == is_digit_byte(d[j]));
        proof {
            lemma_bytes_value_bound(d.take(k));
        }
        assert(bytes_value(d.take(k)) < 1000);
        value = value * 10 + (c - 48) as i64;
        i = i + 1;
    }
    assert(d.take(d.len() as int) == d);
    proof {
        lemma_bytes_value_bound(d);
    }
    assert(bytes_value(d) < 10000);
    if neg {
        Some(-value)
    } else {
        Some(value)
    }
}

/// The fields of `YYYY-MM-DDTHH:MM:SS` at the start of `b`; the fraction
/// and the time zone after them are ignored.
pub open spec fn parts_spec(b: Seq<u8>) -> Option<(i64, i64, i64, i64, i64, i64)> {
    if b.len() < 19 || b[4] != 45 || b[7] != 45 || b[10] != 84 || b[13] != 58 || b[16] != 58 {
        None
    } else {
        match (
            parse_i64_spec(b.subrange(0, 4)),
            parse_i64_spec(b.subrange(5, 7)),
            parse_i64_spec(b.subrange(8, 10)),
            parse_i64_spec(b.subrange(11, 13)),
            parse_i64_spec(b.subrange(14, 16)),
            parse_i64_spec(b.subrange(17, 19)),
        ) {
            (Some(y), Some(mo), Some(d), Some(h), Some(mi), Some(s)) => Some((y, mo, d, h, mi, s)),
            _ => None,
        }
    }
}

/// Reads the date and time fields at the start of an ISO 8601 timestamp.
fn parts(iso: &str) -> (r: Option<(i64, i64, i64, i64, i64, i64)>)
    ensures
        r == parts_spec(iso.spec_bytes()),
        r matches Some((y, mo, d, h, mi, s)) ==> -9999 <= y <= 9999 && -9 <= mo <= 99 && -9 <= d
            <= 99 && -9 <= h <= 99 && -9 <= mi <= 99 && -9 <= s <= 99,
{
    let b = iso.as_bytes();
    if b.len() < 19 || b[4] != 45 || b[7] != 45 || b[10] != 84 || b[13] != 58 || b[16] != 58 {
        return None;
    }
    let y = parse_field(b, 0, 4);
    let mo = parse_field(b, 5, 7);
    let d = parse_field(b, 8, 10);
    let h = parse_field(b, 11, 13);
    let mi = parse_field(b, 14, 16);
    let s = parse_field(b, 17, 19);
    match (y, mo, d, h, mi, s) {
        (Some(y), Some(mo), Some(d), Some(h), Some(mi), Some(s)) => {
            proof {
                lemma_two_byte_field(b@.subrange(5, 7));
                lemma_two_byte_field(b@.subrange(8, 10));
                lemma_two_byte_field(b@.subrange(11, 13));
                lemma_two_byte_field(b@.subrange(14, 16));
                lemma_two_byte_field(b@.subrange(17, 19));
            }
            Some((y, mo, d, h, mi, s))
        },
        _ => None,
    }
}

/// A two-byte field reads as a value between -9 and 99.
proof fn lemma_two_byte_field(s: Seq<u8>)
    requires
        s.len() == 2,
    ensures
        parse_i64_spec(s) matches Some(v) ==> -9 <= v <= 99,
{
    let d = signed_digits(s);
    if d.len() > 0 && (forall|i: int| 0 <= i < d.len() ==> #[trigger] is_digit_byte(d[i])) {
        lemma_bytes_value_bound(d);
        assert(pow10(0) == 1);
        assert(pow10(1) == 10);
        assert(pow10(2) == 100);
    }
}

/// Seconds since the epoch of a timestamp whose fields read.
pub open spec fn parse_epoch_spec(b: Seq<u8>) -> Option<i64> {
    match parts_spec(b) {
        Some((y, mo, d, h, mi, s)) => Some(
            (days_from_civil_spec(y as int, mo as int, d as int) * 86400 + h * 3600 + mi * 60
                + s) as i64,
        ),
        None => None,
    }
}

/// Seconds since 1970-01-01T00:00:00 of the `YYYY-MM-DDTHH:MM:SS` at the
/// start of `iso`, read as UTC.
pub fn parse_epoch(iso: &str) -> (r: Option<i64>)
    ensures
        r == parse_epoch_spec(iso.spec_bytes()),
        r matches Some(v) ==> -1_000_000_000_000 <= v <= 1_000_000_000_000,
{
    match parts(iso) {
        Some((y, mo, d, h, mi, s)) => {
            let days = days_from_civil(y, mo, d);
            assert(-10_000_000 <= days <= 10_000_000);
            Some(days * 86400 + h * 3600 + mi * 60 + s)
        },
        None => None,
    }
}

/// Only the first nineteen bytes of a timestamp count: the fraction of a
/// second and the time zone after `YYYY-MM-DDTHH:MM:SS` change nothing.
pub proof fn law_parse_epoch_prefix(b: Seq<u8>)
    requires
        b.len() >= 19,
    ensures
        parse_epoch_spec(b) == parse_epoch_spec(b.take(19)),
{
    let t = b.take(19);
    assert(t.subrange(0, 4) == b.subrange(0, 4));
    assert(t.subrange(5, 7) == b.subrange(5, 7));
    assert(t.subrange(8, 10) == b.subrange(8, 10));
    assert(t.subrange(11, 13) == b.subrange(11, 13));
    assert(t.subrange(14, 16) == b.subrange(14, 16));
    assert(t.subrange(17, 19) == b.subrange(17, 19));
    assert(t[4] == b[4] && t[7] == b[7] && t[10] == b[10] && t[13] == b[13] && t[16] == b[16]);
}

/// The text chrono writes, following the `strftime` pattern `pattern`, for
/// an RFC 3339 timestamp shown at a fixed offset of `offset_secs` seconds east
/// of UTC; nothing when `iso` is not an RFC 3339 timestamp or chrono rejects
/// the pattern.
pub uninterp spec fn local_text_at(iso: Seq<char>, offset_secs: i32, pattern: Seq<char>) -> Option<
    Seq<char>,
>;

/// Reads `iso` with chrono's `DateTime::parse_from_rfc3339`, moves it to
/// `FixedOffset::east_opt(offset_secs)` with `with_timezone` and writes it
/// with `format(pattern).write_to`. The contract says that the result is the
/// text named `local_text_at` for these arguments, `None` when the parse or
/// the writing fails; what that text holds is not stated. `east_opt` gives an
/// offset only strictly within a day, hence the `requires`.
#[verifier::external_body]
fn format_rfc3339_at(iso: &str, offset_secs: i32, pattern: &str) -> (r: Option<String>)
    requires
        -86_400 < offset_secs < 86_400,
    ensures
        opt_view(r) == local_text_at(iso@, offset_secs, pattern@),
{
    let dt = match chrono::DateTime::parse_from_rfc3339(iso) {
        Ok(dt) => dt,
        Err(_) => return None,
    };
    let offset = chrono::FixedOffset::east_opt(offset_secs).unwrap();
    let mut text = String::new();
    match dt.with_timezone(&offset).format(pattern).write_to(&mut text) {
        Ok(()) => Some(text),
        Err(_) => None,
    }
}

/// How a message's time is shown: `DD/MM/YYYY à HH:MM`.
pub const DISPLAY_PATTERN: &'static str = "%d/%m/%Y à %H:%M";

/// The display form `DD/MM/YYYY à HH:MM` of an RFC 3339 timestamp at a
/// fixed offset of `offset_secs` seconds east of UTC (the caller picks the
/// local one); the empty text when `iso` does not read.
pub fn format_timestamp_at(iso: &str, offset_secs: i32) -> (r: String)
    requires
        -86_400 < offset_secs < 86_400,
    ensures
        r@ == match local_text_at(iso@, offset_secs, DISPLAY_PATTERN@) {
            Some(t) => t,
            None => Seq::empty(),
        },
{
    match format_rfc3339_at(iso, offset_secs, DISPLAY_PATTERN) {
        Some(t) => t,
        None => String::new(),
    }
}

} // verus!
