//! Civil dates, wall-clock times and time-zone resolution. Dates are in the
//! proleptic Gregorian calendar; local and universal instants are counted in
//! seconds from 1970-01-01T00:00:00 (local wall time or UTC respectively).
use vstd::prelude::*;
use crate::error::ErrorCode;
use crate::text::{chars_of, digit_char, str_eq, string_from_chars};
use crate::tasks::decimal::{char_of_digit, render_nat, render_nat_exec};

verus! {

/// A calendar date as year, month (1 to 12) and day of month.
#[derive(Clone, Copy, Debug, PartialEq, Eq, Structural)]
pub struct CivilDate {
    pub year: i32,
    pub month: u32,
    pub day: u32,
}

/// The smallest and largest years chrono represents.
pub const MIN_YEAR: i32 = -262143;
pub const MAX_YEAR: i32 = 262142;
/// Day numbers of -262143-01-01 and 262142-12-31.
pub const MIN_DAY: i64 = -96465292;
pub const MAX_DAY: i64 = 95026236;
/// Local and universal instants whose dates lie in chrono's range.
pub const MIN_SECOND: i64 = -96465292 * 86400;
pub const MAX_SECOND: i64 = 95026236 * 86400 + 86399;

pub open spec fn is_leap(y: int) -> bool {
    (y % 4 == 0 && y % 100 != 0) || y % 400 == 0
}

pub open spec fn days_in_month(y: int, m: int) -> int {
    if m == 2 {
        if is_leap(y) {
            29
        } else {
            28
        }
    } else if m == 4 || m == 6 || m == 9 || m == 11 {
        30
    } else {
        31
    }
}

/// A real date within chrono's range of years.
pub open spec fn valid_date(d: CivilDate) -> bool {
    &&& MIN_YEAR <= d.year <= MAX_YEAR
    &&& 1 <= d.month <= 12
    &&& 1 <= d.day <= days_in_month(d.year as int, d.month as int)
}

/// Days from 1970-01-01 to `d` (negative before it).
pub open spec fn day_number(d: CivilDate) -> int {
    let y = if d.month <= 2 {
        d.year - 1
    } else {
        d.year as int
    };
    let era = (y + 400000) / 400 - 1000;
    let yoe = y - era * 400;
    let mp = if d.month > 2 {
        d.month - 3
    } else {
        d.month + 9
    };
    let doy = (153 * mp + 2) / 5 + d.day - 1;
    let doe = yoe * 365 + yoe / 4 - yoe / 100 + doy;
    era * 146097 + doe - 719468
}

/// Day of the week, counted from Monday as 0.
pub open spec fn weekday(d: CivilDate) -> int {
    (day_number(d) + 3) % 7
}

/// Days in `d`'s month.
pub open spec fn month_length(d: CivilDate) -> int {
    days_in_month(d.year as int, d.month as int)
}

/// Two zero-padded digits.
pub open spec fn two_digits(n: int) -> Seq<char> {
    seq![digit_char(n / 10), digit_char(n % 10)]
}

/// Four zero-padded digits.
pub open spec fn four_digits(n: int) -> Seq<char> {
    seq![digit_char(n / 1000), digit_char((n / 100) % 10), digit_char((n / 10) % 10), digit_char(n % 10)]
}

/// `s` left-padded with zeros to at least four characters.
pub open spec fn pad4(s: Seq<char>) -> Seq<char> {
    if s.len() >= 4 {
        s
    } else {
        Seq::new((4 - s.len()) as nat, |i: int| '0') + s
    }
}

/// chrono's `%Y`: four digits for years 0 to 9999, otherwise a sign and at
/// least four digits.
pub open spec fn year_text(y: int) -> Seq<char> {
    if 0 <= y <= 9999 {
        four_digits(y)
    } else if y > 9999 {
        seq!['+'] + render_nat(y as nat)
    } else {
        seq!['-'] + pad4(render_nat((-y) as nat))
    }
}

/// `YYYY-MM-DD`, the text chrono gives a date.
pub open spec fn iso_date(d: CivilDate) -> Seq<char> {
    year_text(d.year as int) + seq!['-'] + two_digits(d.month as int) + seq!['-'] + two_digits(
        d.day as int,
    )
}

/// `HH:MM:SS` for a second of the day.
pub open spec fn iso_clock(second_of_day: int) -> Seq<char> {
    two_digits(second_of_day / 3600) + seq![':'] + two_digits((second_of_day / 60) % 60) + seq![':']
        + two_digits(second_of_day % 60)
}

/// A date the domain accepts: a real date written `YYYY-MM-DD` with a year
/// from 1900 to 9999.
pub open spec fn accepted_date(text: Seq<char>, d: CivilDate) -> bool {
    valid_date(d) && 1900 <= d.year <= 9999 && text == iso_date(d)
}

/// A wall-clock time the domain accepts, written `HH:MM:SS`.
pub open spec fn accepted_clock(text: Seq<char>, second_of_day: int) -> bool {
    0 <= second_of_day < 86400 && text == iso_clock(second_of_day)
}

/// The local instant of a date at a second of the day.
pub open spec fn local_seconds(d: CivilDate, second_of_day: int) -> int {
    day_number(d) * 86400 + second_of_day
}

/// Whether `name` is an IANA zone chrono-tz knows (an exact, case-sensitive
/// name from its table).
pub uninterp spec fn tz_known(name: Seq<char>) -> bool;

/// The earliest universal instant whose wall time in `zone` is `local`, or
/// `None` when that wall time is skipped by a transition.
pub uninterp spec fn tz_earliest_instant(zone: Seq<char>, local: int) -> Option<int>;

/// The wall time in `zone` at universal instant `instant`.
pub uninterp spec fn tz_wall_time(zone: Seq<char>, instant: int) -> int;

/// The day number of the local date of an instant in a zone.
pub open spec fn local_day(zone: Seq<char>, instant: int) -> int {
    tz_wall_time(zone, instant) / 86400
}

/// The name of a known zone (`Tz`'s `Display`, its `name()`). chrono-tz's
/// table maps each name to a zone whose name is that same text.
#[verifier::external_body]
pub(crate) fn zone_name(zone: &str) -> (r: String)
    requires
        tz_known(zone@),
    ensures
        r@ == zone@,
{
    zone.parse::<chrono_tz::Tz>().unwrap().to_string()
}

/// Whether chrono-tz knows the zone `name` (`Tz::from_str`). Its table keys
/// are its zone names, at most 32 characters long.
#[verifier::external_body]
pub(crate) fn zone_known(name: &str) -> (r: bool)
    ensures
        r == tz_known(name@),
        r ==> name@.len() <= 32,
{
    name.parse::<chrono_tz::Tz>().is_ok()
}

/// `TimeZone::from_local_datetime(..).earliest()` for a known zone: the first
/// instant of an ambiguous wall time, `None` for a skipped one and for a
/// wall time outside chrono's range (which `DateTime::from_timestamp`
/// refuses). Results are chrono date-times, so they lie in its range.
#[verifier::external_body]
pub(crate) fn zone_earliest_instant(zone: &str, local: i64) -> (r: Option<i64>)
    requires
        tz_known(zone@),
    ensures
        r is Some <==> tz_earliest_instant(zone@, local as int) is Some,
        r matches Some(t) ==> tz_earliest_instant(zone@, local as int) == Some(t as int),
        r matches Some(t) ==> MIN_SECOND <= t <= MAX_SECOND,
        !(MIN_SECOND <= local <= MAX_SECOND) ==> r is None,
{
    let tz: chrono_tz::Tz = zone.parse().unwrap();
    chrono::DateTime::from_timestamp(local, 0)
        .and_then(|w| chrono::TimeZone::from_local_datetime(&tz, &w.naive_utc()).earliest())
        .map(|t| t.timestamp())
}

/// Whether chrono can give the wall time in a zone at an instant: the
/// instant and its wall time both lie in chrono's range of date-times.
pub open spec fn wall_in_range(zone: Seq<char>, instant: int) -> bool {
    &&& MIN_SECOND <= instant <= MAX_SECOND
    &&& MIN_SECOND <= tz_wall_time(zone, instant) <= MAX_SECOND
}

/// The wall time in a known zone at a universal instant
/// (`DateTime::from_timestamp`, the zone's `offset_from_utc_datetime`, then
/// `NaiveDateTime::checked_add_offset`): `None` when `from_timestamp`
/// refuses an instant outside chrono's range, or when the wall time falls
/// outside it.
#[verifier::external_body]
pub(crate) fn zone_wall_time(zone: &str, instant: i64) -> (r: Option<i64>)
    requires
        tz_known(zone@),
    ensures
        r matches Some(w) ==> w == tz_wall_time(zone@, instant as int),
        r is Some <==> wall_in_range(zone@, instant as int),
{
    let tz: chrono_tz::Tz = zone.parse().unwrap();
    chrono::DateTime::from_timestamp(instant, 0).and_then(|t| {
        let utc = t.naive_utc();
        let offset = chrono::TimeZone::offset_from_utc_datetime(&tz, &utc);
        utc.checked_add_offset(chrono::Offset::fix(&offset))
    }).map(|w| w.and_utc().timestamp())
}

/// The date with a given day number (`NaiveDate::from_epoch_days`): `None`
/// outside chrono's range.
#[verifier::external_body]
pub(crate) fn date_from_day_number(n: i64) -> (r: Option<CivilDate>)
    ensures
        r matches Some(d) ==> valid_date(d) && day_number(d) == n,
        MIN_DAY <= n <= MAX_DAY ==> r is Some,
{
    i32::try_from(n).ok().and_then(chrono::NaiveDate::from_epoch_days).map(|d| CivilDate {
        year: chrono::Datelike::year(&d),
        month: chrono::Datelike::month(&d),
        day: chrono::Datelike::day(&d),
    })
}

/// What `NaiveDate::parse_from_str(text, "%Y-%m-%d")` yields.
pub uninterp spec fn chrono_ymd(text: Seq<char>) -> Option<CivilDate>;

/// What `NaiveTime::parse_from_str(text, "%H:%M:%S")` yields, as (second of
/// the day, nanosecond).
pub uninterp spec fn chrono_hms(text: Seq<char>) -> Option<(u32, u32)>;

/// `NaiveDate::parse_from_str(text, "%Y-%m-%d")`: the date named
/// `chrono_ymd`. Every result is a real date, and a date's own four-digit
/// `YYYY-MM-DD` text parses back to it. Which other spellings chrono
/// accepts is left unsaid.
#[verifier::external_body]
pub(crate) fn parse_ymd(text: &str) -> (r: Option<CivilDate>)
    ensures
        r == chrono_ymd(text@),
        r matches Some(d) ==> valid_date(d),
        forall|d: CivilDate|
            valid_date(d) && 0 <= d.year <= 9999 && text@ == #[trigger] iso_date(d) ==> r == Some(d),
{
    chrono::NaiveDate::parse_from_str(text, "%Y-%m-%d").ok().map(|d| CivilDate {
        year: chrono::Datelike::year(&d),
        month: chrono::Datelike::month(&d),
        day: chrono::Datelike::day(&d),
    })
}

/// `NaiveTime::parse_from_str(text, "%H:%M:%S")` as (second of the day,
/// nanosecond): the pair named `chrono_hms`. The nanosecond exceeds zero
/// only for a leap second; a time's own `HH:MM:SS` text parses back to it.
#[verifier::external_body]
pub(crate) fn parse_hms(text: &str) -> (r: Option<(u32, u32)>)
    ensures
        r == chrono_hms(text@),
        r matches Some((s, n)) ==> s < 86400 && n < 2_000_000_000,
        forall|s: int| 0 <= s < 86400 && text@ == #[trigger] iso_clock(s) ==> r == Some((s as u32, 0u32)),
{
    chrono::NaiveTime::parse_from_str(text, "%H:%M:%S").ok().map(|t| {
        (chrono::Timelike::num_seconds_from_midnight(&t), chrono::Timelike::nanosecond(&t))
    })
}

/// Day number of a date in chrono's range.
pub fn day_number_exec(d: CivilDate) -> (n: i64)
    requires
        valid_date(d),
    ensures
        n == day_number(d),
{
    let y: i64 = if d.month <= 2 { d.year as i64 - 1 } else { d.year as i64 };
    let era: i64 = (y + 400000) / 400 - 1000;
    let yoe: i64 = y - era * 400;
    let mp: i64 = if d.month > 2 { d.month as i64 - 3 } else { d.month as i64 + 9 };
    let doy: i64 = (153 * mp + 2) / 5 + d.day as i64 - 1;
    assert(0 <= yoe < 400) by (nonlinear_arith)
        requires y + 400000 >= 0, era == (y + 400000) / 400 - 1000, yoe == y - era * 400;
    let doe: i64 = yoe * 365 + yoe / 4 - yoe / 100 + doy;
    assert(-1000 <= era <= 1000) by (nonlinear_arith)
        requires -262144 <= y <= 262142, era == (y + 400000) / 400 - 1000;
    era * 146097 + doe - 719468
}

/// Day of the week, Monday being 0.
pub fn weekday_exec(d: CivilDate) -> (w: u32)
    requires
        valid_date(d),
    ensures
        w == weekday(d),
{
    let n = day_number_exec(d);
    assert(n + 3 + 700_000_000 >= 0);
    let w = ((n + 3 + 700_000_000) % 7) as u32;
    assert(w == (day_number(d) + 3) % 7) by (nonlinear_arith)
        requires w == (n + 3 + 700_000_000) % 7, n == day_number(d), n + 3 + 700_000_000 >= 0;
    w
}

/// Days in a month.
#[verifier::spinoff_prover]
pub fn days_in_month_exec(year: i32, month: u32) -> (n: u32)
    requires
        1 <= month <= 12,
    ensures
        n == days_in_month(year as int, month as int),
{
    if month == 2 {
        if (year % 4 == 0 && year % 100 != 0) || year % 400 == 0 {
            29
        } else {
            28
        }
    } else if month == 4 || month == 6 || month == 9 || month == 11 {
        30
    } else {
        31
    }
}

/// `NaiveDate::from_ymd_opt`: the date, when it is real and in range.
pub fn date_from_ymd(year: i32, month: u32, day: u32) -> (r: Option<CivilDate>)
    ensures
        r is Some <==> valid_date((CivilDate { year, month, day })),
        r matches Some(d) ==> d == (CivilDate { year, month, day }),
{
    if year < MIN_YEAR || year > MAX_YEAR || month < 1 || month > 12 || day < 1 {
        return None;
    }
    if day > days_in_month_exec(year, month) {
        return None;
    }
    Some(CivilDate { year, month, day })
}

fn push_two(out: &mut Vec<char>, n: u32)
    requires
        n < 100,
    ensures
        final(out)@ == old(out)@ + two_digits(n as int),
{
    out.push(char_of_digit(n / 10));
    out.push(char_of_digit(n % 10));
}

/// The `YYYY-MM-DD` text chrono gives a date.
pub fn iso_date_exec(d: CivilDate) -> (s: String)
    requires
        MIN_YEAR <= d.year <= MAX_YEAR,
        1 <= d.month <= 12,
        1 <= d.day <= 31,
    ensures
        s@ == iso_date(d),
{
    let mut out: Vec<char> = Vec::new();
    if 0 <= d.year && d.year <= 9999 {
        let y = d.year as u32;
        out.push(char_of_digit(y / 1000));
        out.push(char_of_digit((y / 100) % 10));
        out.push(char_of_digit((y / 10) % 10));
        out.push(char_of_digit(y % 10));
    } else if d.year > 9999 {
        out.push('+');
        let digits = render_nat_exec(d.year as u64);
        let mut i: usize = 0;
        while i < digits.len()
            invariant
                i <= digits@.len(),
                out@ == seq!['+'] + digits@.take(i as int),
            decreases digits.len() - i,
        {
            out.push(digits[i]);
            i = i + 1;
            assert(out@ =~= seq!['+'] + digits@.take(i as int));
        }
        assert(digits@.take(digits@.len() as int) =~= digits@);
    } else {
        out.push('-');
        let digits = render_nat_exec((-(d.year as i64)) as u64);
        let mut pad: usize = 0;
        let missing: usize = if digits.len() >= 4 { 0 } else { 4 - digits.len() };
        while pad < missing
            invariant
                pad <= missing,
                out@ == seq!['-'] + Seq::new(pad as nat, |i: int| '0'),
            decreases missing - pad,
        {
            out.push('0');
            pad = pad + 1;
            assert(out@ =~= seq!['-'] + Seq::new(pad as nat, |i: int| '0'));
        }
        let ghost base = out@;
        let mut i: usize = 0;
        while i < digits.len()
            invariant
                i <= digits@.len(),
                out@ == base + digits@.take(i as int),
            decreases digits.len() - i,
        {
            out.push(digits[i]);
            i = i + 1;
            assert(out@ =~= base + digits@.take(i as int));
        }
        assert(digits@.take(digits@.len() as int) =~= digits@);
        assert(out@ =~= seq!['-'] + pad4(digits@));
    }
    let ghost year_part = out@;
    assert(year_part == year_text(d.year as int));
    out.push('-');
    push_two(&mut out, d.month);
    out.push('-');
    push_two(&mut out, d.day);
    assert(out@ =~= iso_date(d));
    string_from_chars(out.as_slice())
}

/// The `HH:MM:SS` text of a second of the day.
pub fn iso_clock_exec(second_of_day: u32) -> (s: String)
    requires
        second_of_day < 86400,
    ensures
        s@ == iso_clock(second_of_day as int),
{
    let mut out: Vec<char> = Vec::new();
    push_two(&mut out, second_of_day / 3600);
    out.push(':');
    push_two(&mut out, (second_of_day / 60) % 60);
    out.push(':');
    push_two(&mut out, second_of_day % 60);
    assert(out@ =~= iso_clock(second_of_day as int));
    string_from_chars(out.as_slice())
}

/// The date a text denotes, when it is an accepted date.
pub open spec fn date_of_text(text: Seq<char>) -> Option<CivilDate> {
    if exists|d: CivilDate| accepted_date(text, d) {
        Some(choose|d: CivilDate| accepted_date(text, d))
    } else {
        None
    }
}

/// The second of the day a text denotes, when it is an accepted time.
pub open spec fn clock_of_text(text: Seq<char>) -> Option<int> {
    if exists|s: int| accepted_clock(text, s) {
        Some(choose|s: int| accepted_clock(text, s))
    } else {
        None
    }
}

/// Equal digit characters are equal digits.
pub proof fn lemma_digit_char_injective(x: int, y: int)
    requires
        0 <= x < 10,
        0 <= y < 10,
        digit_char(x) == digit_char(y),
    ensures
        x == y,
{
    crate::tasks::decimal::lemma_digit_char(x);
    crate::tasks::decimal::lemma_digit_char(y);
}

/// Distinct dates have distinct texts.
pub proof fn lemma_iso_date_injective(a: CivilDate, b: CivilDate)
    requires
        0 <= a.year <= 9999,
        0 <= b.year <= 9999,
        1 <= a.month <= 12,
        1 <= b.month <= 12,
        1 <= a.day <= 31,
        1 <= b.day <= 31,
        iso_date(a) == iso_date(b),
    ensures
        a == b,
{
    let s = iso_date(a);
    let t = iso_date(b);
    let ya = a.year as int;
    let yb = b.year as int;
    let (ma, mb, da, db) = (a.month as int, b.month as int, a.day as int, b.day as int);
    assert(s =~= seq![digit_char(ya / 1000), digit_char((ya / 100) % 10), digit_char((ya / 10) % 10), digit_char(ya % 10), '-', digit_char(ma / 10), digit_char(ma % 10), '-', digit_char(da / 10), digit_char(da % 10)]);
    assert(t =~= seq![digit_char(yb / 1000), digit_char((yb / 100) % 10), digit_char((yb / 10) % 10), digit_char(yb % 10), '-', digit_char(mb / 10), digit_char(mb % 10), '-', digit_char(db / 10), digit_char(db % 10)]);
    assert(s[0] == t[0] && s[1] == t[1] && s[2] == t[2] && s[3] == t[3]);
    assert(s[5] == t[5] && s[6] == t[6] && s[8] == t[8] && s[9] == t[9]);
    lemma_digit_char_injective(ya / 1000, yb / 1000);
    lemma_digit_char_injective((ya / 100) % 10, (yb / 100) % 10);
    lemma_digit_char_injective((ya / 10) % 10, (yb / 10) % 10);
    lemma_digit_char_injective(ya % 10, yb % 10);
    lemma_digit_char_injective(ma / 10, mb / 10);
    lemma_digit_char_injective(ma % 10, mb % 10);
    lemma_digit_char_injective(da / 10, db / 10);
    lemma_digit_char_injective(da % 10, db % 10);
    assert(ya == (ya / 1000) * 1000 + ((ya / 100) % 10) * 100 + ((ya / 10) % 10) * 10 + ya % 10)
        by (nonlinear_arith)
        requires 0 <= ya <= 9999;
    assert(yb == (yb / 1000) * 1000 + ((yb / 100) % 10) * 100 + ((yb / 10) % 10) * 10 + yb % 10)
        by (nonlinear_arith)
        requires 0 <= yb <= 9999;
}

/// Distinct seconds of the day have distinct texts.
pub proof fn lemma_iso_clock_injective(a: int, b: int)
    requires
        0 <= a < 86400,
        0 <= b < 86400,
        iso_clock(a) == iso_clock(b),
    ensures
        a == b,
{
    let s = iso_clock(a);
    let t = iso_clock(b);
    let (h1, m1, c1) = (a / 3600, (a / 60) % 60, a % 60);
    let (h2, m2, c2) = (b / 3600, (b / 60) % 60, b % 60);
    assert(s =~= seq![digit_char(h1 / 10), digit_char(h1 % 10), ':', digit_char(m1 / 10), digit_char(m1 % 10), ':', digit_char(c1 / 10), digit_char(c1 % 10)]);
    assert(t =~= seq![digit_char(h2 / 10), digit_char(h2 % 10), ':', digit_char(m2 / 10), digit_char(m2 % 10), ':', digit_char(c2 / 10), digit_char(c2 % 10)]);
    assert(s[0] == t[0] && s[1] == t[1] && s[3] == t[3] && s[4] == t[4] && s[6] == t[6] && s[7] == t[7]);
    lemma_digit_char_injective((a / 3600) / 10, (b / 3600) / 10);
    lemma_digit_char_injective((a / 3600) % 10, (b / 3600) % 10);
    lemma_digit_char_injective(((a / 60) % 60) / 10, ((b / 60) % 60) / 10);
    lemma_digit_char_injective(((a / 60) % 60) % 10, ((b / 60) % 60) % 10);
    lemma_digit_char_injective((a % 60) / 10, (b % 60) / 10);
    lemma_digit_char_injective((a % 60) % 10, (b % 60) % 10);
    assert(a == (a / 3600) * 3600 + ((a / 60) % 60) * 60 + a % 60) by (nonlinear_arith)
        requires 0 <= a < 86400;
    assert(b == (b / 3600) * 3600 + ((b / 60) % 60) * 60 + b % 60) by (nonlinear_arith)
        requires 0 <= b < 86400;
}

/// Reads a date written `YYYY-MM-DD` with a year from 1900 to 9999.
pub fn parse_date(value: &str) -> (r: Result<CivilDate, ErrorCode>)
    ensures
        r matches Ok(d) ==> accepted_date(value@, d) && date_of_text(value@) == Some(d),
        r is Err ==> date_of_text(value@) is None,
        r matches Err(e) ==> e == ErrorCode::InvalidValue,
{
    let r = parse_date_inner(value);
    proof {
        if let Ok(d) = r {
            let c = choose|c: CivilDate| accepted_date(value@, c);
            lemma_iso_date_injective(c, d);
        }
    }
    r
}

fn parse_date_inner(value: &str) -> (r: Result<CivilDate, ErrorCode>)
    ensures
        r matches Ok(d) ==> accepted_date(value@, d),
        r is Err ==> forall|d: CivilDate| !accepted_date(value@, d),
        r matches Err(e) ==> e == ErrorCode::InvalidValue,
{
    match parse_ymd(value) {
        Some(d) => {
            if d.year < 1900 || d.year > 9999 {
                proof {
                    assert forall|e: CivilDate| !accepted_date(value@, e) by {
                        if accepted_date(value@, e) {
                            assert(value@ == iso_date(e));
                        }
                    }
                }
                return Err(ErrorCode::InvalidValue);
            }
            let text = iso_date_exec(d);
            if str_eq(text.as_str(), value) {
                Ok(d)
            } else {
                proof {
                    assert forall|e: CivilDate| !accepted_date(value@, e) by {
                        if accepted_date(value@, e) {
                            assert(value@ == iso_date(e));
                        }
                    }
                }
                Err(ErrorCode::InvalidValue)
            }
        },
        None => {
            proof {
                assert forall|e: CivilDate| !accepted_date(value@, e) by {
                    if accepted_date(value@, e) {
                        assert(value@ == iso_date(e));
                    }
                }
            }
            Err(ErrorCode::InvalidValue)
        },
    }
}

/// Reads a wall-clock time written `HH:MM:SS`, as a second of the day.
pub fn parse_clock(value: &str) -> (r: Result<u32, ErrorCode>)
    ensures
        r matches Ok(s) ==> accepted_clock(value@, s as int) && clock_of_text(value@) == Some(s as int),
        r is Err ==> clock_of_text(value@) is None,
        r matches Err(e) ==> e == ErrorCode::InvalidValue,
{
    let r = parse_clock_inner(value);
    proof {
        if let Ok(s) = r {
            let c = choose|c: int| accepted_clock(value@, c);
            lemma_iso_clock_injective(c, s as int);
        }
    }
    r
}

fn parse_clock_inner(value: &str) -> (r: Result<u32, ErrorCode>)
    ensures
        r matches Ok(s) ==> accepted_clock(value@, s as int),
        r is Err ==> forall|s: int| !accepted_clock(value@, s),
        r matches Err(e) ==> e == ErrorCode::InvalidValue,
{
    match parse_hms(value) {
        Some((s, n)) => {
            let text = iso_clock_exec(s);
            if n == 0 && str_eq(text.as_str(), value) {
                Ok(s)
            } else {
                proof {
                    assert forall|t: int| !accepted_clock(value@, t) by {
                        if accepted_clock(value@, t) {
                            assert(value@ == iso_clock(t));
                        }
                    }
                }
                Err(ErrorCode::InvalidValue)
            }
        },
        None => {
            proof {
                assert forall|t: int| !accepted_clock(value@, t) by {
                    if accepted_clock(value@, t) {
                        assert(value@ == iso_clock(t));
                    }
                }
            }
            Err(ErrorCode::InvalidValue)
        },
    }
}

/// Resolution of a skipped wall time: search outwards minute by minute (up
/// to two days) for the nearest valid wall times on both sides, and shift the
/// wall time by the change of offset between them.
pub open spec fn gap_resolution(zone: Seq<char>, wall: int, minute: int) -> Option<int>
    decreases 2881 - minute,
{
    if minute < 1 || minute > 2880 {
        None
    } else {
        let before = wall - 60 * minute;
        let after = wall + 60 * minute;
        if before < MIN_SECOND || after > MAX_SECOND {
            None
        } else {
            match (tz_earliest_instant(zone, before), tz_earliest_instant(zone, after)) {
                (Some(a), Some(b)) => {
                    let shifted = wall + ((after - b) - (before - a));
                    if shifted < MIN_SECOND || shifted > MAX_SECOND {
                        None
                    } else {
                        tz_earliest_instant(zone, shifted)
                    }
                },
                _ => gap_resolution(zone, wall, minute + 1),
            }
        }
    }
}

/// The universal instant Atlas gives a wall time: the first occurrence of a
/// repeated wall time; for a skipped one, the position within the gap is
/// preserved.
pub open spec fn resolve_wall(zone: Seq<char>, wall: int) -> Option<int> {
    match tz_earliest_instant(zone, wall) {
        Some(t) => Some(t),
        None => gap_resolution(zone, wall, 1),
    }
}

/// Resolves a wall time in a zone to a universal instant (see
/// `resolve_wall`); `InvalidValue` when no instant can be found.
pub fn resolve(zone: &str, wall: i64) -> (r: Result<i64, ErrorCode>)
    requires
        tz_known(zone@),
    ensures
        match (resolve_wall(zone@, wall as int), r) {
            (Some(t), Ok(x)) => x == t,
            (None, Err(e)) => e == ErrorCode::InvalidValue,
            _ => false,
        },
{
    if let Some(t) = zone_earliest_instant(zone, wall) {
        return Ok(t);
    }
    if wall < MIN_SECOND || wall > MAX_SECOND {
        return Err(ErrorCode::InvalidValue);
    }
    let mut minute: i64 = 1;
    while minute <= 2880
        invariant
            tz_known(zone@),
            MIN_SECOND <= wall <= MAX_SECOND,
            1 <= minute <= 2881,
            tz_earliest_instant(zone@, wall as int) is None,
            gap_resolution(zone@, wall as int, 1) == gap_resolution(zone@, wall as int, minute as int),
        decreases 2881 - minute,
    {
        let before = wall - 60 * minute;
        let after = wall + 60 * minute;
        if before < MIN_SECOND || after > MAX_SECOND {
            return Err(ErrorCode::InvalidValue);
        }
        match (zone_earliest_instant(zone, before), zone_earliest_instant(zone, after)) {
            (Some(a), Some(b)) => {
                let shifted = wall + ((after - b) - (before - a));
                if shifted < MIN_SECOND || shifted > MAX_SECOND {
                    return Err(ErrorCode::InvalidValue);
                }
                return match zone_earliest_instant(zone, shifted) {
                    Some(t) => Ok(t),
                    None => Err(ErrorCode::InvalidValue),
                };
            },
            _ => {},
        }
        minute = minute + 1;
    }
    Err(ErrorCode::InvalidValue)
}

/// Day numbers of valid dates stay well inside 64-bit arithmetic.
pub proof fn lemma_day_number_bounds(d: CivilDate)
    requires
        valid_date(d),
    ensures
        -250_000_000 <= day_number(d) <= 250_000_000,
{
    let y: int = if d.month <= 2 { d.year - 1 } else { d.year as int };
    let era = (y + 400000) / 400 - 1000;
    let yoe = y - era * 400;
    let mp: int = if d.month > 2 { d.month - 3 } else { d.month + 9 };
    let doy = (153 * mp + 2) / 5 + d.day - 1;
    assert(0 <= yoe < 400 && -1700 <= era <= 1700) by (nonlinear_arith)
        requires -262144 <= y <= 262142, era == (y + 400000) / 400 - 1000, yoe == y - era * 400;
    assert(0 <= doy <= 400) by (nonlinear_arith)
        requires 0 <= mp <= 11, 1 <= d.day <= 31, doy == (153 * mp + 2) / 5 + d.day - 1;
    let doe = yoe * 365 + yoe / 4 - yoe / 100 + doy;
    assert(0 <= doe <= 150_000) by (nonlinear_arith)
        requires 0 <= yoe < 400, 0 <= doy <= 400, doe == yoe * 365 + yoe / 4 - yoe / 100 + doy;
    assert(-250_000_000 <= era * 146097 + doe - 719468 <= 250_000_000) by (nonlinear_arith)
        requires -1700 <= era <= 1700, 0 <= doe <= 150_000;
}

/// The day number of the first day of month `m` of year `y`.
pub open spec fn month_start(y: int, m: int) -> int {
    let yy = if m <= 2 {
        y - 1
    } else {
        y
    };
    let era = (yy + 400000) / 400 - 1000;
    let yoe = yy - era * 400;
    let mp = if m > 2 {
        m - 3
    } else {
        m + 9
    };
    let doy = (153 * mp + 2) / 5;
    era * 146097 + yoe * 365 + yoe / 4 - yoe / 100 + doy - 719468
}

/// A date's day number counts on from the start of its month.
pub proof fn lemma_day_number_in_month(d: CivilDate)
    requires
        valid_date(d),
    ensures
        day_number(d) == month_start(d.year as int, d.month as int) + d.day - 1,
{
}

/// The days of the March-based year `yy` start here.
pub open spec fn march_year_start(yy: int) -> int {
    let era = (yy + 400000) / 400 - 1000;
    let yoe = yy - era * 400;
    era * 146097 + yoe * 365 + yoe / 4 - yoe / 100 - 719468
}

/// A March-based year lasts 365 days, or 366 when the February that ends it
/// has a leap day.
proof fn lemma_march_year_length(yy: int)
    requires
        -262145 <= yy <= 262143,
    ensures
        march_year_start(yy + 1) == march_year_start(yy) + 365 + if is_leap(yy + 1) {
            1int
        } else {
            0
        },
{
    let era = (yy + 400000) / 400 - 1000;
    let yoe = yy - era * 400;
    let era1 = (yy + 1 + 400000) / 400 - 1000;
    let yoe1 = yy + 1 - era1 * 400;
    assert(0 <= yoe < 400 && yy + 400000 == (era + 1000) * 400 + yoe) by (nonlinear_arith)
        requires era == (yy + 400000) / 400 - 1000, yoe == yy - era * 400, yy + 400000 >= 0;
    if yoe < 399 {
        assert(era1 == era) by (nonlinear_arith)
            requires yy + 400000 == (era + 1000) * 400 + yoe, 0 <= yoe < 399, era1 == (yy + 1 + 400000) / 400 - 1000;
        assert(yoe1 == yoe + 1);
        let y1 = yy + 1;
        assert(y1 % 4 == yoe1 % 4 && y1 % 100 == yoe1 % 100 && y1 % 400 == yoe1) by (nonlinear_arith)
            requires y1 + 400000 == (era + 1000) * 400 + yoe1, 0 < yoe1 < 400;
        assert((yoe1 / 4 - yoe / 4 == 1) == (yoe1 % 4 == 0)) by (nonlinear_arith)
            requires yoe1 == yoe + 1, 0 <= yoe;
        assert((yoe1 / 100 - yoe / 100 == 1) == (yoe1 % 100 == 0)) by (nonlinear_arith)
            requires yoe1 == yoe + 1, 0 <= yoe;
        assert(0 <= yoe1 / 4 - yoe / 4 <= 1) by (nonlinear_arith)
            requires yoe1 == yoe + 1, 0 <= yoe;
        assert(0 <= yoe1 / 100 - yoe / 100 <= 1) by (nonlinear_arith)
            requires yoe1 == yoe + 1, 0 <= yoe;
        assert(yoe1 % 100 == 0 ==> yoe1 % 4 == 0) by (nonlinear_arith)
            requires 0 < yoe1;
    } else {
        assert(era1 == era + 1) by (nonlinear_arith)
            requires yy + 400000 == (era + 1000) * 400 + yoe, yoe == 399, era1 == (yy + 1 + 400000) / 400 - 1000;
        assert(yoe1 == 0);
        let y1 = yy + 1;
        assert(y1 % 400 == 0) by (nonlinear_arith)
            requires y1 + 400000 == (era + 1001) * 400;
    }
}

/// The first day of the next month follows the last day of this one.
pub proof fn lemma_month_step(y: int, m: int)
    requires
        1 <= m <= 12,
        -262144 <= y <= 262143,
    ensures
        m < 12 ==> month_start(y, m + 1) == month_start(y, m) + days_in_month(y, m),
        m == 12 ==> month_start(y + 1, 1) == month_start(y, m) + 31,
{
    if m == 2 {
        lemma_march_year_length(y - 1);
        assert(month_start(y, 2) == march_year_start(y - 1) + 337);
        assert(month_start(y, 3) == march_year_start(y));
    } else if m == 1 {
        assert(month_start(y, 1) == march_year_start(y - 1) + 306);
        assert(month_start(y, 2) == march_year_start(y - 1) + 337);
    } else if m == 12 {
        assert(month_start(y, 12) == march_year_start(y) + 275);
        assert(month_start(y + 1, 1) == march_year_start(y) + 306);
    } else {
        assert(month_start(y, m) == march_year_start(y) + (153 * (m - 3) + 2) / 5);
        assert(month_start(y, m + 1) == march_year_start(y) + (153 * (m - 2) + 2) / 5);
    }
}

/// Months in order start on increasing days: a month ends before any later
/// month starts.
pub proof fn lemma_month_order(y1: int, m1: int, y2: int, m2: int)
    requires
        1 <= m1 <= 12,
        1 <= m2 <= 12,
        -262144 <= y1 <= 262143,
        -262144 <= y2 <= 262143,
        y1 * 12 + m1 < y2 * 12 + m2,
    ensures
        month_start(y1, m1) + days_in_month(y1, m1) <= month_start(y2, m2),
    decreases y2 * 12 + m2 - (y1 * 12 + m1),
{
    lemma_month_step(y1, m1);
    let (ny, nm) = if m1 == 12 {
        (y1 + 1, 1int)
    } else {
        (y1, m1 + 1)
    };
    if ny * 12 + nm < y2 * 12 + m2 {
        lemma_month_order(ny, nm, y2, m2);
        assert(days_in_month(ny, nm) >= 28);
    } else {
        assert(ny == y2 && nm == m2);
    }
}

/// Later dates have larger day numbers.
pub proof fn lemma_day_number_monotone(a: CivilDate, b: CivilDate)
    requires
        valid_date(a),
        valid_date(b),
        a.year < b.year || (a.year == b.year && a.month < b.month) || (a.year == b.year && a.month
            == b.month && a.day < b.day),
    ensures
        day_number(a) < day_number(b),
{
    lemma_day_number_in_month(a);
    lemma_day_number_in_month(b);
    if a.year != b.year || a.month != b.month {
        lemma_month_order(a.year as int, a.month as int, b.year as int, b.month as int);
    }
}

/// A smaller day number means an earlier (or the same) month.
pub proof fn lemma_day_number_order(a: CivilDate, b: CivilDate)
    requires
        valid_date(a),
        valid_date(b),
        day_number(a) <= day_number(b),
    ensures
        a.year * 12 + a.month <= b.year * 12 + b.month,
        a.year <= b.year,
{
    if b.year < a.year || (b.year == a.year && b.month < a.month) || (b.year == a.year && b.month
        == a.month && b.day < a.day) {
        lemma_day_number_monotone(b, a);
    }
}

/// Valid dates have day numbers in chrono's range of days.
pub proof fn lemma_day_number_range(d: CivilDate)
    requires
        valid_date(d),
    ensures
        MIN_DAY <= day_number(d) <= MAX_DAY,
{
    let lo = CivilDate { year: MIN_YEAR, month: 1, day: 1 };
    let hi = CivilDate { year: MAX_YEAR, month: 12, day: 31 };
    assert(day_number(lo) == MIN_DAY);
    assert(day_number(hi) == MAX_DAY);
    if d != lo {
        lemma_day_number_monotone(lo, d);
    }
    if d != hi {
        lemma_day_number_monotone(d, hi);
    }
}

/// A day number names one date.
pub proof fn lemma_day_number_injective(a: CivilDate, b: CivilDate)
    requires
        valid_date(a),
        valid_date(b),
        day_number(a) == day_number(b),
    ensures
        a == b,
{
    if a.year < b.year || (a.year == b.year && a.month < b.month) || (a.year == b.year && a.month
        == b.month && a.day < b.day) {
        lemma_day_number_monotone(a, b);
    } else if b.year < a.year || (b.year == a.year && b.month < a.month) || (b.year == a.year
        && b.month == a.month && b.day < a.day) {
        lemma_day_number_monotone(b, a);
    }
}

} // verus!
