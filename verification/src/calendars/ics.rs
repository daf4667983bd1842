//! Bounded iCalendar ingestion. Unsupported semantics fail the whole import.
use vstd::prelude::*;
use crate::error::ErrorCode;
use ical::property::Property;
use ical::IcalParser;
use crate::calendars::{first_index, lemma_first_index_at, lemma_no_index};
use crate::calendars::keyed::{lemma_entry_map_at, lemma_entry_map_len, 
    Key, entry_map, find, has_key, insert, key_lt, key_view, keys_of, lemma_sets_entry_map, sets_entry, sorted, values,
};
use crate::text::{Parsed, all_ascii, byte_len, chars_of, int_text, parse_int, pieces, split_on, str_eq, string_from_chars};
use crate::time::{
    CivilDate, MAX_DAY, MAX_SECOND, MAX_YEAR, MIN_DAY, MIN_SECOND, date_from_day_number, day_number, days_in_month,
    days_in_month_exec, weekday, weekday_exec, day_number_exec, iso_clock, iso_clock_exec, iso_date,
    iso_date_exec, resolve, resolve_wall, tz_earliest_instant, tz_known, tz_wall_time, valid_date, year_text,
    two_digits, zone_earliest_instant, zone_known, zone_name,
};

verus! {

/// When an imported event happens.
pub struct EventTime {
    pub date: String,
    pub time: Option<String>,
    pub timezone: String,
    pub instant: Option<i64>,
}

/// Whether an imported event still stands.
#[derive(Clone, Copy, Debug, PartialEq, Eq, Structural)]
pub enum EventStatus {
    Present,
    Cancelled,
    Missing,
}

/// One imported event instance.
pub struct Event {
    pub uid: String,
    pub original: String,
    pub title: String,
    pub start: EventTime,
    pub end: Option<EventTime>,
    pub status: EventStatus,
    pub sequence: i64,
}

/// An imported calendar window: its events in order of (uid, instance key),
/// the cancelled series and instances with their sequence numbers, and
/// whether the feed only cancels.
pub struct Feed {
    pub events: Vec<Event>,
    pub cancelled_series: Vec<(String, i64)>,
    pub cancelled_instances: Vec<((String, String), i64)>,
    pub cancellations_only: bool,
    pub from: String,
    pub through: String,
}

/// The character an escape sequence `\c` stands for.
pub open spec fn escaped(c: char) -> Option<char> {
    if c == 'n' || c == 'N' {
        Some('\n')
    } else if c == '\\' || c == ',' || c == ';' {
        Some(c)
    } else {
        None
    }
}

/// An iCalendar text value with its escapes (`\n`, `\N`, `\\`, `\,`, `\;`)
/// resolved; `None` for any other or an unfinished escape.
pub open spec fn unescaped(s: Seq<char>) -> Option<Seq<char>>
    decreases s.len(),
{
    if s.len() == 0 {
        Some(Seq::<char>::empty())
    } else if s[0] == '\\' {
        if s.len() < 2 || escaped(s[1]) is None {
            None
        } else {
            match unescaped(s.skip(2)) {
                Some(t) => Some(seq![escaped(s[1])->Some_0] + t),
                None => None,
            }
        }
    } else {
        match unescaped(s.skip(1)) {
            Some(t) => Some(seq![s[0]] + t),
            None => None,
        }
    }
}

fn escaped_exec(c: char) -> (r: Option<char>)
    ensures
        r == escaped(c),
{
    if c == 'n' || c == 'N' {
        Some('\n')
    } else if c == '\\' || c == ',' || c == ';' {
        Some(c)
    } else {
        None
    }
}

/// Resolves the escapes of an iCalendar text value (see `unescaped`).
pub fn unescape(s: &str) -> (r: Result<String, ErrorCode>)
    ensures
        match (unescaped(s@), r) {
            (Some(t), Ok(x)) => x@ == t,
            (None, Err(e)) => e == ErrorCode::InvalidIcs,
            _ => false,
        },
{
    let chars = chars_of(s);
    let mut out: Vec<char> = Vec::new();
    let mut i: usize = 0;
    proof {
        assert(s@.skip(0) =~= s@);
        if let Some(t) = unescaped(s@) {
            assert(Seq::<char>::empty() + t =~= t);
        }
    }
    while i < chars.len()
        invariant
            chars@ == s@,
            i <= chars@.len(),
            unescaped(s@) == match unescaped(s@.skip(i as int)) {
                Some(t) => Some(out@ + t),
                None => None::<Seq<char>>,
            },
        decreases chars.len() - i,
    {
        let c = chars[i];
        let ghost rest = s@.skip(i as int);
        if c == '\\' {
            if i + 1 >= chars.len() {
                return Err(ErrorCode::InvalidIcs);
            }
            match escaped_exec(chars[i + 1]) {
                Some(e) => {
                    proof {
                        assert(rest.skip(2) =~= s@.skip(i as int + 2));
                        assert(out@.push(e) + s@.skip(i as int + 2) =~= out@ + (seq![e] + s@.skip(i as int + 2)));
                        if let Some(t) = unescaped(s@.skip(i as int + 2)) {
                            assert(out@.push(e) + t =~= out@ + (seq![e] + t));
                        }
                    }
                    out.push(e);
                    i = i + 2;
                },
                None => {
                    return Err(ErrorCode::InvalidIcs);
                },
            }
        } else {
            proof {
                assert(rest.skip(1) =~= s@.skip(i as int + 1));
                if let Some(t) = unescaped(s@.skip(i as int + 1)) {
                    assert(out@.push(c) + t =~= out@ + (seq![c] + t));
                }
            }
            out.push(c);
            i = i + 1;
        }
    }
    assert(s@.skip(i as int) =~= Seq::<char>::empty());
    assert(out@ + Seq::<char>::empty() =~= out@);
    Ok(string_from_chars(out.as_slice()))
}

/// One content line of an iCalendar component: its name, parameters and
/// value.
pub struct IcsProperty {
    pub name: String,
    pub params: Option<Vec<(String, Vec<String>)>>,
    pub value: Option<String>,
}

/// An event, or a time zone transition: its properties.
pub struct IcsEvent {
    pub properties: Vec<IcsProperty>,
}

/// A time zone definition: its own properties and its transitions.
pub struct IcsZone {
    pub header: IcsEvent,
    pub transitions: Vec<IcsEvent>,
}

/// A calendar: its own properties, its events and its time zone definitions.
pub struct IcsCalendar {
    pub header: IcsEvent,
    pub events: Vec<IcsEvent>,
    pub timezones: Vec<IcsZone>,
}

/// How many properties have a name.
pub open spec fn named_count(ps: Seq<IcsProperty>, name: Seq<char>) -> nat
    decreases ps.len(),
{
    if ps.len() == 0 {
        0
    } else {
        named_count(ps.drop_last(), name) + if ps.last().name@ == name {
            1nat
        } else {
            0nat
        }
    }
}

/// The position of the last property with a name.
pub open spec fn last_named(ps: Seq<IcsProperty>, name: Seq<char>) -> Option<int>
    decreases ps.len(),
{
    if ps.len() == 0 {
        None
    } else if ps.last().name@ == name {
        Some(ps.len() - 1)
    } else {
        last_named(ps.drop_last(), name)
    }
}

/// The one property with a name, if any; a repeated property is invalid.
pub open spec fn property_of(ps: Seq<IcsProperty>, name: Seq<char>) -> Result<Option<int>, ErrorCode> {
    if named_count(ps, name) > 1 {
        Err(ErrorCode::InvalidIcs)
    } else {
        Ok(last_named(ps, name))
    }
}

/// The position of a property by name (see `property_of`).
pub fn property(ps: &[IcsProperty], name: &str) -> (r: Result<Option<usize>, ErrorCode>)
    ensures
        match (property_of(ps@, name@), r) {
            (Ok(Some(a)), Ok(Some(b))) => a == b,
            (Ok(None), Ok(None)) => true,
            (Err(a), Err(b)) => a == b,
            _ => false,
        },
        r matches Ok(Some(i)) ==> i < ps@.len() && ps@[i as int].name@ == name@,
{
    let mut count: usize = 0;
    let mut found: Option<usize> = None;
    let mut i: usize = 0;
    while i < ps.len()
        invariant
            i <= ps@.len(),
            count == named_count(ps@.take(i as int), name@),
            count <= i,
            match (last_named(ps@.take(i as int), name@), found) {
                (Some(a), Some(b)) => a == b && b < i,
                (None, None) => true,
                _ => false,
            },
        decreases ps.len() - i,
    {
        proof {
            assert(ps@.take(i as int + 1).drop_last() =~= ps@.take(i as int));
        }
        if str_eq(ps[i].name.as_str(), name) {
            count = count + 1;
            found = Some(i);
        }
        i = i + 1;
    }
    assert(ps@.take(ps@.len() as int) =~= ps@);
    if count > 1 {
        return Err(ErrorCode::InvalidIcs);
    }
    proof {
        if let Some(k) = found {
            lemma_last_named(ps@, name@);
        }
    }
    Ok(found)
}

proof fn lemma_last_named(ps: Seq<IcsProperty>, name: Seq<char>)
    ensures
        last_named(ps, name) matches Some(k) ==> 0 <= k < ps.len() && ps[k].name@ == name,
    decreases ps.len(),
{
    if ps.len() > 0 {
        lemma_last_named(ps.drop_last(), name);
    }
}

/// The value of the one property with a name (see `property_of`).
pub open spec fn value_of(ps: Seq<IcsProperty>, name: Seq<char>) -> Result<Option<Seq<char>>, ErrorCode> {
    match property_of(ps, name) {
        Err(e) => Err(e),
        Ok(None) => Ok(None),
        Ok(Some(i)) => match ps[i].value {
            Some(v) => Ok(Some(v@)),
            None => Ok(None),
        },
    }
}

/// The value of a property by name (see `value_of`).
pub fn value<'a>(ps: &'a [IcsProperty], name: &str) -> (r: Result<Option<&'a str>, ErrorCode>)
    ensures
        match (value_of(ps@, name@), r) {
            (Ok(Some(a)), Ok(Some(b))) => a == b@,
            (Ok(None), Ok(None)) => true,
            (Err(a), Err(b)) => a == b,
            _ => false,
        },
{
    match property(ps, name) {
        Err(e) => Err(e),
        Ok(None) => Ok(None),
        Ok(Some(i)) => match &ps[i].value {
            Some(v) => Ok(Some(v.as_str())),
            None => Ok(None),
        },
    }
}

/// The parameters with a name.
pub open spec fn param_count(ps: Seq<(String, Vec<String>)>, name: Seq<char>) -> nat
    decreases ps.len(),
{
    if ps.len() == 0 {
        0
    } else {
        param_count(ps.drop_last(), name) + if ps.last().0@ == name {
            1nat
        } else {
            0nat
        }
    }
}

/// The position of the last parameter with a name.
pub open spec fn last_param(ps: Seq<(String, Vec<String>)>, name: Seq<char>) -> Option<int>
    decreases ps.len(),
{
    if ps.len() == 0 {
        None
    } else if ps.last().0@ == name {
        Some(ps.len() - 1)
    } else {
        last_param(ps.drop_last(), name)
    }
}

/// The single value of the one parameter with a name, if any; a repeated
/// parameter, or one with other than one value, is invalid.
pub open spec fn parameter_of(p: IcsProperty, name: Seq<char>) -> Result<Option<Seq<char>>, ErrorCode> {
    let ps = if p.params is Some {
        p.params->Some_0@
    } else {
        Seq::empty()
    };
    if param_count(ps, name) > 1 {
        Err(ErrorCode::InvalidIcs)
    } else {
        match last_param(ps, name) {
            None => Ok(None),
            Some(i) => if ps[i].1@.len() != 1 {
                Err(ErrorCode::InvalidIcs)
            } else {
                Ok(Some(ps[i].1@[0]@))
            },
        }
    }
}

proof fn lemma_last_param(ps: Seq<(String, Vec<String>)>, name: Seq<char>)
    ensures
        last_param(ps, name) matches Some(k) ==> 0 <= k < ps.len(),
    decreases ps.len(),
{
    if ps.len() > 0 {
        lemma_last_param(ps.drop_last(), name);
    }
}

/// A parameter's value (see `parameter_of`).
pub fn parameter<'a>(p: &'a IcsProperty, name: &str) -> (r: Result<Option<&'a str>, ErrorCode>)
    ensures
        match (parameter_of(*p, name@), r) {
            (Ok(Some(a)), Ok(Some(b))) => a == b@,
            (Ok(None), Ok(None)) => true,
            (Err(a), Err(b)) => a == b,
            _ => false,
        },
{
    let ps: &[(String, Vec<String>)] = match &p.params {
        Some(v) => v.as_slice(),
        None => {
            assert(param_count(Seq::<(String, Vec<String>)>::empty(), name@) == 0);
            return Ok(None);
        },
    };
    let mut count: usize = 0;
    let mut found: Option<usize> = None;
    let mut i: usize = 0;
    while i < ps.len()
        invariant
            i <= ps@.len(),
            count == param_count(ps@.take(i as int), name@),
            count <= i,
            match (last_param(ps@.take(i as int), name@), found) {
                (Some(a), Some(b)) => a == b && b < i,
                (None, None) => true,
                _ => false,
            },
        decreases ps.len() - i,
    {
        proof {
            assert(ps@.take(i as int + 1).drop_last() =~= ps@.take(i as int));
        }
        if str_eq(ps[i].0.as_str(), name) {
            count = count + 1;
            found = Some(i);
        }
        i = i + 1;
    }
    assert(ps@.take(ps@.len() as int) =~= ps@);
    if count > 1 {
        return Err(ErrorCode::InvalidIcs);
    }
    match found {
        None => Ok(None),
        Some(k) => {
            if ps[k].1.len() != 1 {
                return Err(ErrorCode::InvalidIcs);
            }
            Ok(Some(ps[k].1[0].as_str()))
        },
    }
}

/// What `NaiveDate::parse_from_str(text, "%Y%m%d")` yields.
pub uninterp spec fn chrono_compact_date(text: Seq<char>) -> Option<CivilDate>;

/// What `NaiveDateTime::parse_from_str(text, "%Y%m%dT%H%M%S")` yields, as
/// (date, second of the day, nanosecond).
pub uninterp spec fn chrono_compact_datetime(text: Seq<char>) -> Option<(CivilDate, u32, u32)>;

/// `NaiveDate::parse_from_str(text, "%Y%m%d")`: the date named
/// `chrono_compact_date`, a real date.
#[verifier::external_body]
fn parse_compact_date(text: &str) -> (r: Option<CivilDate>)
    ensures
        r == chrono_compact_date(text@),
        r matches Some(d) ==> valid_date(d),
{
    chrono::NaiveDate::parse_from_str(text, "%Y%m%d").ok().map(|d| CivilDate {
        year: chrono::Datelike::year(&d),
        month: chrono::Datelike::month(&d),
        day: chrono::Datelike::day(&d),
    })
}

/// `NaiveDateTime::parse_from_str(text, "%Y%m%dT%H%M%S")` as (date, second
/// of the day, nanosecond): the triple named `chrono_compact_datetime`, a
/// real date and a second of the day.
#[verifier::external_body]
fn parse_compact_datetime(text: &str) -> (r: Option<(CivilDate, u32, u32)>)
    ensures
        r == chrono_compact_datetime(text@),
        r matches Some((d, s, n)) ==> valid_date(d) && s < 86400,
{
    chrono::NaiveDateTime::parse_from_str(text, "%Y%m%dT%H%M%S").ok().map(|t| {
        (
            CivilDate {
                year: chrono::Datelike::year(&t),
                month: chrono::Datelike::month(&t),
                day: chrono::Datelike::day(&t),
            },
            chrono::Timelike::num_seconds_from_midnight(&t),
            chrono::Timelike::nanosecond(&t),
        )
    })
}

/// The name of chrono-tz's `UTC` zone, which its table knows.
#[verifier::external_body]
fn utc_zone() -> (r: String)
    ensures
        r@ == "UTC"@,
        tz_known(r@),
{
    chrono_tz::UTC.to_string()
}

/// A wall time in a zone, or a whole day: the date, the second of the day,
/// the zone's name, and whether only the date is meant.
pub struct Stamp {
    pub date: CivilDate,
    pub second: u32,
    pub zone: String,
    pub date_only: bool,
}

/// A stamp of a real date and second in a known zone; whole days start at
/// midnight.
pub open spec fn stamp_ok(s: Stamp) -> bool {
    &&& valid_date(s.date)
    &&& s.second < 86400
    &&& tz_known(s.zone@)
    &&& (s.date_only ==> s.second == 0)
}

/// A stamp as plain values.
pub open spec fn stamp_view(s: Stamp) -> (CivilDate, int, Seq<char>, bool) {
    (s.date, s.second as int, s.zone@, s.date_only)
}

/// The wall time of a stamp, in seconds from 1970-01-01T00:00.
pub open spec fn stamp_local(s: (CivilDate, int, Seq<char>, bool)) -> int {
    day_number(s.0) * 86400 + s.1
}

/// The text a date-time property carries: the given piece, else its value.
pub open spec fn stamp_text(p: IcsProperty, raw: Option<Seq<char>>) -> Option<Seq<char>> {
    if raw is Some {
        raw
    } else if p.value is Some {
        Some(p.value->Some_0@)
    } else {
        None
    }
}

/// The stamp a date-time property denotes: a `VALUE=DATE` `YYYYMMDD` day,
/// or a `YYYYMMDDTHHMMSS` time, in UTC when it ends in `Z`, else in its
/// `TZID` zone, else in the default zone; years from 1900 to 9999.
pub open spec fn stamp_of(p: IcsProperty, default: Seq<char>, raw: Option<Seq<char>>) -> Result<
    (CivilDate, int, Seq<char>, bool),
    ErrorCode,
> {
    stamp_core(stamp_text(p, raw), parameter_of(p, "VALUE"@), parameter_of(p, "TZID"@), default)
}

/// A stamp from its text and its `VALUE` and `TZID` parameters (see
/// `stamp_of`).
pub open spec fn stamp_core(
    text: Option<Seq<char>>,
    vp: Result<Option<Seq<char>>, ErrorCode>,
    tp: Result<Option<Seq<char>>, ErrorCode>,
    default: Seq<char>,
) -> Result<(CivilDate, int, Seq<char>, bool), ErrorCode> {
    if text is None {
        Err(ErrorCode::InvalidIcs)
    } else if vp is Err {
        Err(vp->Err_0)
    } else {
        let text = text->Some_0;
        let date_only = vp == Ok::<Option<Seq<char>>, ErrorCode>(Some("DATE"@));
        let zulu = text.len() > 0 && text.last() == 'Z';
        if vp->Ok_0 is Some && vp->Ok_0->Some_0 != "DATE"@ && vp->Ok_0->Some_0 != "DATE-TIME"@ {
            Err(ErrorCode::UnsupportedCalendarRule)
        } else if !(crate::text::all_ascii(text) && if date_only {
            text.len() == 8
        } else {
            text.len() == 15 || (text.len() == 16 && zulu)
        }) {
            Err(ErrorCode::InvalidIcs)
        } else {
            let parsed: Option<(CivilDate, u32, u32)> = if date_only {
                match chrono_compact_date(text) {
                    Some(d) => Some((d, 0u32, 0u32)),
                    None => None,
                }
            } else {
                chrono_compact_datetime(if zulu { text.drop_last() } else { text })
            };
            if parsed is None {
                Err(ErrorCode::InvalidIcs)
            } else {
                let (d, sec, nano) = parsed->Some_0;
                if !(1900 <= d.year <= 9999 && nano == 0) {
                    Err(ErrorCode::InvalidIcs)
                } else if tp is Err {
                    Err(tp->Err_0)
                } else if tp->Ok_0 is Some && (zulu || date_only) {
                    Err(ErrorCode::InvalidIcs)
                } else if zulu {
                    Ok((d, sec as int, "UTC"@, date_only))
                } else if tp->Ok_0 is Some {
                    if tz_known(tp->Ok_0->Some_0) {
                        Ok((d, sec as int, tp->Ok_0->Some_0, date_only))
                    } else {
                        Err(ErrorCode::UnsupportedCalendarTimezone)
                    }
                } else {
                    Ok((d, sec as int, default, date_only))
                }
            }
        }
    }
}

/// Whether every character is ASCII.
fn ascii_exec(s: &[char]) -> (b: bool)
    ensures
        b == crate::text::all_ascii(s@),
{
    let mut i: usize = 0;
    while i < s.len()
        invariant
            i <= s@.len(),
            forall|k: int| 0 <= k < i ==> (#[trigger] s@[k] as u32) < 128,
        decreases s.len() - i,
    {
        if s[i] as u32 >= 128 {
            return false;
        }
        i = i + 1;
    }
    true
}

/// The stamp of a date-time property (see `stamp_of`).
pub fn stamp(p: &IcsProperty, default: &str, raw: Option<&str>) -> (r: Result<Stamp, ErrorCode>)
    requires
        tz_known(default@),
    ensures
        match (stamp_of(*p, default@, if raw is Some { Some(raw->Some_0@) } else { None }), r) {
            (Ok(v), Ok(s)) => stamp_view(s) == v && stamp_ok(s),
            (Err(a), Err(b)) => a == b,
            _ => false,
        },
{
    let text: Option<&str> = match raw {
        Some(t) => Some(t),
        None => match &p.value {
            Some(v) => Some(v.as_str()),
            None => None,
        },
    };
    let vp = parameter(p, "VALUE");
    let tp = parameter(p, "TZID");
    stamp_parts(text, vp, tp, default)
}

/// A stamp from its text and parameters (see `stamp_core`).
fn stamp_parts(
    text: Option<&str>,
    vp: Result<Option<&str>, ErrorCode>,
    tp: Result<Option<&str>, ErrorCode>,
    default: &str,
) -> (r: Result<Stamp, ErrorCode>)
    requires
        tz_known(default@),
    ensures
        match (
            stamp_core(
                if text is Some { Some(text->Some_0@) } else { None },
                match vp {
                    Ok(Some(v)) => Ok(Some(v@)),
                    Ok(None) => Ok(None),
                    Err(e) => Err(e),
                },
                match tp {
                    Ok(Some(v)) => Ok(Some(v@)),
                    Ok(None) => Ok(None),
                    Err(e) => Err(e),
                },
                default@,
            ),
            r,
        ) {
            (Ok(v), Ok(s)) => stamp_view(s) == v && stamp_ok(s),
            (Err(a), Err(b)) => a == b,
            _ => false,
        },
{
    proof {
        reveal_strlit("DATE");
        reveal_strlit("DATE-TIME");
        reveal_strlit("UTC");
    }
    let text: &str = match text {
        Some(t) => t,
        None => return Err(ErrorCode::InvalidIcs),
    };
    let vp = match vp {
        Ok(v) => v,
        Err(e) => return Err(e),
    };
    let date_only = match vp {
        Some(v) => str_eq(v, "DATE"),
        None => false,
    };
    if let Some(v) = vp {
        if !str_eq(v, "DATE") && !str_eq(v, "DATE-TIME") {
            return Err(ErrorCode::UnsupportedCalendarRule);
        }
    }
    let chars = chars_of(text);
    let n = chars.len();
    let zulu = n > 0 && chars[n - 1] == 'Z';
    let shape = ascii_exec(chars.as_slice()) && if date_only {
        n == 8
    } else {
        n == 15 || (n == 16 && zulu)
    };
    if !shape {
        return Err(ErrorCode::InvalidIcs);
    }
    let parsed: Option<(CivilDate, u32, u32)> = if date_only {
        match parse_compact_date(text) {
            Some(d) => Some((d, 0u32, 0u32)),
            None => None,
        }
    } else if zulu {
        let mut head: Vec<char> = Vec::new();
        let mut i: usize = 0;
        while i < n - 1
            invariant
                n == chars@.len(),
                n >= 1,
                i <= n - 1,
                head@ == chars@.take(i as int),
            decreases n - 1 - i,
        {
            head.push(chars[i]);
            i = i + 1;
            assert(head@ =~= chars@.take(i as int));
        }
        assert(head@ =~= text@.drop_last());
        let h = string_from_chars(head.as_slice());
        parse_compact_datetime(h.as_str())
    } else {
        parse_compact_datetime(text)
    };
    let (d, sec, nano) = match parsed {
        Some(x) => x,
        None => return Err(ErrorCode::InvalidIcs),
    };
    if d.year < 1900 || d.year > 9999 || nano != 0 {
        return Err(ErrorCode::InvalidIcs);
    }
    let tp = match tp {
        Ok(v) => v,
        Err(e) => return Err(e),
    };
    if tp.is_some() && (zulu || date_only) {
        return Err(ErrorCode::InvalidIcs);
    }
    let zone: String = if zulu {
        utc_zone()
    } else {
        match tp {
            Some(tz) => {
                if !zone_known(tz) {
                    return Err(ErrorCode::UnsupportedCalendarTimezone);
                }
                tz.to_owned()
            },
            None => default.to_owned(),
        }
    };
    Ok(Stamp { date: d, second: sec, zone, date_only })
}

/// The identity of an instance: `YYYYMMDD` for a whole day, else
/// `YYYYMMDDTHHMMSS`.
pub open spec fn key_text(s: (CivilDate, int, Seq<char>, bool)) -> Seq<char> {
    let day = year_text(s.0.year as int) + two_digits(s.0.month as int) + two_digits(s.0.day as int);
    if s.3 {
        day
    } else {
        day + seq!['T'] + two_digits(s.1 / 3600) + two_digits((s.1 / 60) % 60) + two_digits(s.1 % 60)
    }
}

fn push_two_digits(out: &mut Vec<char>, n: u32)
    requires
        n < 100,
    ensures
        final(out)@ == old(out)@ + two_digits(n as int),
{
    out.push(crate::tasks::decimal::char_of_digit(n / 10));
    out.push(crate::tasks::decimal::char_of_digit(n % 10));
}

impl Stamp {
    /// The identity of this instance (see `key_text`).
    pub fn key(&self) -> (k: String)
        requires
            stamp_ok(*self),
        ensures
            k@ == key_text(stamp_view(*self)),
    {
        let iso = crate::text::chars_of(iso_date_exec(self.date).as_str());
        // The year is everything before the third hyphen from the end.
        let year_len = iso.len() - 6;
        let mut out: Vec<char> = Vec::new();
        let mut i: usize = 0;
        while i < year_len
            invariant
                iso@ == iso_date(self.date),
                year_len == iso@.len() - 6,
                i <= year_len,
                out@ == iso@.take(i as int),
            decreases year_len - i,
        {
            out.push(iso[i]);
            i = i + 1;
            assert(out@ =~= iso@.take(i as int));
        }
        assert(out@ =~= year_text(self.date.year as int));
        push_two_digits(&mut out, self.date.month);
        push_two_digits(&mut out, self.date.day);
        if !self.date_only {
            out.push('T');
            push_two_digits(&mut out, self.second / 3600);
            push_two_digits(&mut out, (self.second / 60) % 60);
            push_two_digits(&mut out, self.second % 60);
        }
        assert(out@ =~= key_text(stamp_view(*self)));
        string_from_chars(out.as_slice())
    }
}

/// When a stamp happens, as an event time: its date, its time unless it is a
/// whole day, its zone, and for a timed stamp its instant. A generated time
/// that a transition skips has no event time.
pub open spec fn projection(s: (CivilDate, int, Seq<char>, bool), generated: bool) -> Result<
    Option<(Seq<char>, Option<Seq<char>>, Seq<char>, Option<int>)>,
    ErrorCode,
> {
    if s.3 {
        Ok(Some((iso_date(s.0), None, s.2, None)))
    } else if generated && tz_earliest_instant(s.2, stamp_local(s)) is None {
        Ok(None)
    } else {
        match resolve_wall(s.2, stamp_local(s)) {
            Some(t) => Ok(Some((iso_date(s.0), Some(iso_clock(s.1)), s.2, Some(t)))),
            None => Err(ErrorCode::InvalidValue),
        }
    }
}

/// An event time as plain values.
pub open spec fn event_time_view(t: EventTime) -> (Seq<char>, Option<Seq<char>>, Seq<char>, Option<int>) {
    (
        t.date@,
        if t.time is Some {
            Some(t.time->Some_0@)
        } else {
            None
        },
        t.timezone@,
        if t.instant is Some {
            Some(t.instant->Some_0 as int)
        } else {
            None
        },
    )
}

impl Stamp {
    /// The event time of this stamp (see `projection`).
    pub fn project(&self, generated: bool) -> (r: Result<Option<EventTime>, ErrorCode>)
        requires
            stamp_ok(*self),
        ensures
            match (projection(stamp_view(*self), generated), r) {
                (Ok(Some(v)), Ok(Some(t))) => event_time_view(t) == v,
                (Ok(None), Ok(None)) => true,
                (Err(a), Err(b)) => a == b,
                _ => false,
            },
    {
        let zone = self.zone.as_str();
        let instant: Option<i64> = if self.date_only {
            None
        } else {
            proof {
                crate::time::lemma_day_number_bounds(self.date);
            }
            let local = day_number_exec(self.date) * 86400 + self.second as i64;
            if generated && zone_earliest_instant(zone, local).is_none() {
                return Ok(None);
            }
            match resolve(zone, local) {
                Ok(t) => Some(t),
                Err(e) => return Err(e),
            }
        };
        let time: Option<String> = if self.date_only {
            None
        } else {
            Some(iso_clock_exec(self.second))
        };
        Ok(Some(EventTime { date: iso_date_exec(self.date), time, timezone: zone_name(zone), instant }))
    }
}

/// The position of an RRULE part's name among FREQ, INTERVAL, COUNT, UNTIL,
/// BYDAY, BYMONTH, BYMONTHDAY and WKST; -1 for any other name.
pub open spec fn rule_key(k: Seq<char>) -> int {
    if k == "FREQ"@ {
        0
    } else if k == "INTERVAL"@ {
        1
    } else if k == "COUNT"@ {
        2
    } else if k == "UNTIL"@ {
        3
    } else if k == "BYDAY"@ {
        4
    } else if k == "BYMONTH"@ {
        5
    } else if k == "BYMONTHDAY"@ {
        6
    } else if k == "WKST"@ {
        7
    } else {
        -1
    }
}

/// The values of an RRULE's `NAME=value` parts, by `rule_key`. A part
/// without `=` is invalid; an unknown or repeated name is unsupported.
pub open spec fn rule_fields(ps: Seq<Seq<char>>) -> Result<Seq<Option<Seq<char>>>, ErrorCode>
    decreases ps.len(),
{
    if ps.len() == 0 {
        Ok(Seq::new(8, |i: int| None::<Seq<char>>))
    } else {
        match rule_fields(ps.drop_last()) {
            Err(e) => Err(e),
            Ok(fields) => {
                let p = ps.last();
                match first_index(p, '=') {
                    None => Err(ErrorCode::InvalidIcs),
                    Some(eq) => {
                        let k = rule_key(p.take(eq));
                        if k < 0 || fields[k] is Some {
                            Err(ErrorCode::UnsupportedCalendarRule)
                        } else {
                            Ok(fields.update(k, Some(p.skip(eq + 1))))
                        }
                    },
                }
            },
        }
    }
}

/// The weekday a two-letter code names, Monday being 0; -1 for other text.
pub open spec fn day_code(d: Seq<char>) -> int {
    if d == "MO"@ {
        0
    } else if d == "TU"@ {
        1
    } else if d == "WE"@ {
        2
    } else if d == "TH"@ {
        3
    } else if d == "FR"@ {
        4
    } else if d == "SA"@ {
        5
    } else if d == "SU"@ {
        6
    } else {
        -1
    }
}

/// One BYDAY entry as (weekday, ordinal): an optional ordinal from -5 to 5
/// (only for monthly and yearly rules) before a weekday code.
pub open spec fn byday_entry(w: Seq<char>, monthly_or_yearly: bool) -> Result<(int, int), ErrorCode> {
    if !(w.len() >= 2 && all_ascii(w)) {
        Err(ErrorCode::UnsupportedCalendarRule)
    } else {
        let number = w.take(w.len() - 2);
        let ordinal: Option<int> = if number.len() == 0 {
            Some(0)
        } else {
            match int_text(number, true) {
                Some(v) => if i32::MIN <= v <= i32::MAX {
                    Some(v)
                } else {
                    None
                },
                None => None,
            }
        };
        if ordinal is None || !(-5 <= ordinal->Some_0 <= 5 && (ordinal->Some_0 == 0
            || monthly_or_yearly)) {
            Err(ErrorCode::UnsupportedCalendarRule)
        } else if day_code(w.skip(w.len() - 2)) < 0 {
            Err(ErrorCode::InvalidIcs)
        } else {
            Ok((day_code(w.skip(w.len() - 2)), ordinal->Some_0))
        }
    }
}

/// The BYDAY entries, the first bad one deciding the error.
pub open spec fn byday_of(ws: Seq<Seq<char>>, monthly_or_yearly: bool) -> Result<Seq<(int, int)>, ErrorCode>
    decreases ws.len(),
{
    if ws.len() == 0 {
        Ok(Seq::empty())
    } else {
        match byday_of(ws.drop_last(), monthly_or_yearly) {
            Err(e) => Err(e),
            Ok(v) => match byday_entry(ws.last(), monthly_or_yearly) {
                Err(e) => Err(e),
                Ok(x) => Ok(v.push(x)),
            },
        }
    }
}

/// A list of non-zero numbers from `min` to `max`.
pub open spec fn numbers_of(ws: Seq<Seq<char>>, min: int, max: int) -> Result<Seq<int>, ErrorCode>
    decreases ws.len(),
{
    if ws.len() == 0 {
        Ok(Seq::empty())
    } else {
        match numbers_of(ws.drop_last(), min, max) {
            Err(e) => Err(e),
            Ok(v) => match int_text(ws.last(), true) {
                Some(n) => if i32::MIN <= n <= i32::MAX && n != 0 && min <= n <= max {
                    Ok(v.push(n))
                } else {
                    Err(ErrorCode::InvalidIcs)
                },
                None => Err(ErrorCode::InvalidIcs),
            },
        }
    }
}

/// A parsed recurrence rule: its frequency (daily, weekly, monthly or
/// yearly as 0 to 3), interval, count, end, BYDAY, BYMONTH and BYMONTHDAY
/// filters, and week start.
pub struct RuleSpec {
    pub freq: int,
    pub interval: int,
    pub count: Option<int>,
    pub until: Option<(CivilDate, int, Seq<char>, bool)>,
    pub byday: Option<Seq<(int, int)>>,
    pub months: Option<Seq<int>>,
    pub monthdays: Option<Seq<int>>,
    pub wkst: int,
}

/// The frequency a FREQ value names (daily, weekly, monthly, yearly as 0
/// to 3); -1 for any other value.
pub open spec fn freq_code(v: Seq<char>) -> int {
    if v == "DAILY"@ {
        0
    } else if v == "WEEKLY"@ {
        1
    } else if v == "MONTHLY"@ {
        2
    } else if v == "YEARLY"@ {
        3
    } else {
        -1
    }
}

/// A rule's frequency, interval and count: FREQ is required and must be
/// daily, weekly, monthly or yearly; INTERVAL (default 1) from 1 to 366;
/// COUNT from 1 to 100 000 and never with UNTIL.
pub open spec fn rule_head(f: Seq<Option<Seq<char>>>) -> Result<(int, int, Option<int>), ErrorCode> {
    let freq = if f[0] is Some {
        freq_code(f[0]->Some_0)
    } else {
        -1
    };
    let iv = int_text(if f[1] is Some { f[1]->Some_0 } else { "1"@ }, true);
    let count: Option<int> = if f[2] is Some {
        int_text(f[2]->Some_0, false)
    } else {
        None
    };
    if f[0] is None {
        Err(ErrorCode::InvalidIcs)
    } else if freq < 0 {
        Err(ErrorCode::UnsupportedCalendarRule)
    } else if iv is None || !(i64::MIN <= iv->Some_0 <= i64::MAX) {
        Err(ErrorCode::InvalidIcs)
    } else if !(1 <= iv->Some_0 <= 366) {
        Err(ErrorCode::CalendarLimit)
    } else if f[2] is Some && (count is None || count->Some_0 > usize::MAX) {
        Err(ErrorCode::InvalidIcs)
    } else if (count is Some && !(1 <= count->Some_0 <= 100000)) || (count is Some && f[3] is Some) {
        Err(ErrorCode::CalendarLimit)
    } else {
        Ok((freq, iv->Some_0, count))
    }
}

/// Some BYDAY entry has an ordinal.
pub open spec fn has_ordinal(v: Seq<(int, int)>) -> bool {
    exists|i: int| 0 <= i < v.len() && (#[trigger] v[i]).1 != 0
}

/// A rule's BYDAY, BYMONTH and BYMONTHDAY filters for a frequency. Weekly
/// rules take no month days; yearly rules with ordinal weekdays need months.
pub open spec fn rule_filters(f: Seq<Option<Seq<char>>>, freq: int) -> Result<
    (Option<Seq<(int, int)>>, Option<Seq<int>>, Option<Seq<int>>),
    ErrorCode,
> {
    let byday = if f[4] is Some {
        Some(byday_of(pieces(f[4]->Some_0, ','), freq == 2 || freq == 3))
    } else {
        None
    };
    let months = if f[5] is Some {
        Some(numbers_of(pieces(f[5]->Some_0, ','), 1, 12))
    } else {
        None
    };
    let monthdays = if f[6] is Some {
        Some(numbers_of(pieces(f[6]->Some_0, ','), -31, 31))
    } else {
        None
    };
    if byday is Some && byday->Some_0 is Err {
        Err(byday->Some_0->Err_0)
    } else if freq == 1 && f[6] is Some {
        Err(ErrorCode::UnsupportedCalendarRule)
    } else if months is Some && months->Some_0 is Err {
        Err(months->Some_0->Err_0)
    } else if monthdays is Some && monthdays->Some_0 is Err {
        Err(monthdays->Some_0->Err_0)
    } else if freq == 3 && months is None && byday is Some && has_ordinal(byday->Some_0->Ok_0) {
        Err(ErrorCode::UnsupportedCalendarRule)
    } else {
        Ok(
            (
                if byday is Some {
                    Some(byday->Some_0->Ok_0)
                } else {
                    None
                },
                if months is Some {
                    Some(months->Some_0->Ok_0)
                } else {
                    None
                },
                if monthdays is Some {
                    Some(monthdays->Some_0->Ok_0)
                } else {
                    None
                },
            ),
        )
    }
}

/// A rule's week start (default Monday) and end, read as a stamp like the
/// start: a whole day when the start is one, in the start's zone unless it
/// ends in `Z`.
pub open spec fn rule_tail(f: Seq<Option<Seq<char>>>, start: (CivilDate, int, Seq<char>, bool)) -> Result<
    (int, Option<(CivilDate, int, Seq<char>, bool)>),
    ErrorCode,
> {
    let wkst = day_code(if f[7] is Some { f[7]->Some_0 } else { "MO"@ });
    let until = if f[3] is Some {
        Some(
            stamp_core(
                Some(f[3]->Some_0),
                Ok(
                    if start.3 {
                        Some("DATE"@)
                    } else {
                        None
                    },
                ),
                Ok(None),
                start.2,
            ),
        )
    } else {
        None
    };
    if wkst < 0 {
        Err(ErrorCode::InvalidIcs)
    } else if until is Some && until->Some_0 is Err {
        Err(until->Some_0->Err_0)
    } else {
        Ok(
            (
                wkst,
                if until is Some {
                    Some(until->Some_0->Ok_0)
                } else {
                    None
                },
            ),
        )
    }
}

/// The recurrence rule its fields describe, for a rule starting at `start`.
pub open spec fn rule_from_fields(f: Seq<Option<Seq<char>>>, start: (CivilDate, int, Seq<char>, bool)) -> Result<
    RuleSpec,
    ErrorCode,
> {
    match rule_head(f) {
        Err(e) => Err(e),
        Ok((freq, interval, count)) => match rule_filters(f, freq) {
            Err(e) => Err(e),
            Ok((byday, months, monthdays)) => match rule_tail(f, start) {
                Err(e) => Err(e),
                Ok((wkst, until)) => Ok(
                    RuleSpec { freq, interval, count, until, byday, months, monthdays, wkst },
                ),
            },
        },
    }
}

/// The recurrence rule an RRULE value describes: at most 512 bytes of
/// `NAME=value` parts (see `rule_fields` and `rule_from_fields`).
pub open spec fn rule_of(rule: Seq<char>, start: (CivilDate, int, Seq<char>, bool)) -> Result<RuleSpec, ErrorCode> {
    if byte_len(rule) > 512 {
        Err(ErrorCode::CalendarLimit)
    } else {
        match rule_fields(pieces(rule, ';')) {
            Err(e) => Err(e),
            Ok(f) => rule_from_fields(f, start),
        }
    }
}

/// A parsed recurrence rule (see `RuleSpec`).
pub struct Rule {
    pub freq: u8,
    pub interval: i64,
    pub count: Option<u64>,
    pub until: Option<Stamp>,
    pub byday: Option<Vec<(u32, i32)>>,
    pub months: Option<Vec<i32>>,
    pub monthdays: Option<Vec<i32>>,
    pub wkst: u32,
}

/// A rule as plain values.
pub open spec fn rule_view(r: Rule) -> RuleSpec {
    RuleSpec {
        freq: r.freq as int,
        interval: r.interval as int,
        count: if r.count is Some {
            Some(r.count->Some_0 as int)
        } else {
            None
        },
        until: if r.until is Some {
            Some(stamp_view(r.until->Some_0))
        } else {
            None
        },
        byday: if r.byday is Some {
            Some(r.byday->Some_0@.map_values(|x: (u32, i32)| (x.0 as int, x.1 as int)))
        } else {
            None
        },
        months: if r.months is Some {
            Some(r.months->Some_0@.map_values(|x: i32| x as int))
        } else {
            None
        },
        monthdays: if r.monthdays is Some {
            Some(r.monthdays->Some_0@.map_values(|x: i32| x as int))
        } else {
            None
        },
        wkst: r.wkst as int,
    }
}

/// Whether a text equals a word.
fn is_word(s: &[char], w: &str) -> (b: bool)
    ensures
        b == (s@ == w@),
{
    let v = chars_of(w);
    crate::text::chars_eq(s, v.as_slice())
}

fn rule_key_exec(k: &[char]) -> (r: i32)
    ensures
        r == rule_key(k@),
{
    if is_word(k, "FREQ") {
        0
    } else if is_word(k, "INTERVAL") {
        1
    } else if is_word(k, "COUNT") {
        2
    } else if is_word(k, "UNTIL") {
        3
    } else if is_word(k, "BYDAY") {
        4
    } else if is_word(k, "BYMONTH") {
        5
    } else if is_word(k, "BYMONTHDAY") {
        6
    } else if is_word(k, "WKST") {
        7
    } else {
        -1
    }
}

fn day_code_exec(d: &[char]) -> (r: i32)
    ensures
        r == day_code(d@),
{
    if is_word(d, "MO") {
        0
    } else if is_word(d, "TU") {
        1
    } else if is_word(d, "WE") {
        2
    } else if is_word(d, "TH") {
        3
    } else if is_word(d, "FR") {
        4
    } else if is_word(d, "SA") {
        5
    } else if is_word(d, "SU") {
        6
    } else {
        -1
    }
}

fn freq_code_exec(v: &[char]) -> (r: i32)
    ensures
        r == freq_code(v@),
{
    if is_word(v, "DAILY") {
        0
    } else if is_word(v, "WEEKLY") {
        1
    } else if is_word(v, "MONTHLY") {
        2
    } else if is_word(v, "YEARLY") {
        3
    } else {
        -1
    }
}

/// The chars of `s` from `a` to `b`.
fn slice_chars(s: &[char], a: usize, b: usize) -> (v: Vec<char>)
    requires
        a <= b <= s@.len(),
    ensures
        v@ == s@.subrange(a as int, b as int),
{
    let mut v: Vec<char> = Vec::new();
    let mut i: usize = a;
    while i < b
        invariant
            a <= i <= b <= s@.len(),
            v@ == s@.subrange(a as int, i as int),
        decreases b - i,
    {
        v.push(s[i]);
        i = i + 1;
        assert(v@ =~= s@.subrange(a as int, i as int));
    }
    v
}

/// Parts after a refused part do not change the refusal, and accepted
/// parts give eight fields.
proof fn lemma_rule_fields(ps: Seq<Seq<char>>, k: int)
    requires
        0 <= k <= ps.len(),
    ensures
        rule_fields(ps.take(k)) is Err ==> rule_fields(ps) == rule_fields(ps.take(k)),
        rule_fields(ps) matches Ok(f) ==> f.len() == 8,
    decreases ps.len(),
{
    if ps.len() > 0 {
        if k < ps.len() {
            lemma_rule_fields(ps.drop_last(), k);
            assert(ps.drop_last().take(k) =~= ps.take(k));
        } else {
            assert(ps.take(k) =~= ps);
            lemma_rule_fields(ps.drop_last(), k - 1);
        }
        lemma_rule_fields(ps.drop_last(), 0);
    }
}

/// The fields of an RRULE's parts (see `rule_fields`).
fn rule_fields_exec(parts: &Vec<Vec<char>>) -> (r: Result<Vec<Option<Vec<char>>>, ErrorCode>)
    ensures
        match (rule_fields(parts@.map_values(|p: Vec<char>| p@)), r) {
            (Ok(f), Ok(v)) => v@.len() == 8 && forall|i: int|
                0 <= i < 8 ==> match (f[i], #[trigger] v@[i]) {
                    (Some(a), Some(b)) => a == b@,
                    (None, None) => true,
                    _ => false,
                },
            (Err(a), Err(b)) => a == b,
            _ => false,
        },
{
    let ghost ps = parts@.map_values(|p: Vec<char>| p@);
    let mut fields: Vec<Option<Vec<char>>> = Vec::new();
    let mut k: usize = 0;
    while k < 8
        invariant
            k <= 8,
            fields@.len() == k,
            forall|i: int| 0 <= i < k ==> (#[trigger] fields@[i]) is None,
        decreases 8 - k,
    {
        fields.push(None);
        k = k + 1;
    }
    let mut i: usize = 0;
    while i < parts.len()
        invariant
            ps == parts@.map_values(|p: Vec<char>| p@),
            i <= parts@.len(),
            fields@.len() == 8,
            rule_fields(ps.take(i as int)) matches Ok(f) && forall|j: int|
                0 <= j < 8 ==> match (f[j], #[trigger] fields@[j]) {
                    (Some(a), Some(b)) => a == b@,
                    (None, None) => true,
                    _ => false,
                },
        decreases parts.len() - i,
    {
        let p = &parts[i];
        proof {
            assert(ps.take(i as int + 1).drop_last() =~= ps.take(i as int));
            assert(ps.take(i as int + 1).last() == p@);
            lemma_rule_fields(ps, i as int + 1);
            lemma_rule_fields(ps.take(i as int), 0);
        }
        let mut eq: usize = 0;
        while eq < p.len() && p[eq] != '='
            invariant
                eq <= p@.len(),
                forall|j: int| 0 <= j < eq ==> p@[j] != '=',
            decreases p.len() - eq,
        {
            eq = eq + 1;
        }
        if eq == p.len() {
            proof {
                lemma_no_index(p@, '=');
            }
            return Err(ErrorCode::InvalidIcs);
        }
        proof {
            lemma_first_index_at(p@, '=', eq as int);
        }
        let key = slice_chars(p.as_slice(), 0, eq);
        assert(key@ =~= p@.take(eq as int));
        let code = rule_key_exec(key.as_slice());
        if code < 0 || fields[code as usize].is_some() {
            return Err(ErrorCode::UnsupportedCalendarRule);
        }
        let val = slice_chars(p.as_slice(), eq + 1, p.len());
        assert(val@ =~= p@.skip(eq as int + 1));
        fields.set(code as usize, Some(val));
        i = i + 1;
    }
    assert(ps.take(parts@.len() as int) =~= ps);
    Ok(fields)
}

proof fn lemma_byday_prefix(ws: Seq<Seq<char>>, k: int, m_or_y: bool)
    requires
        0 <= k <= ws.len(),
    ensures
        byday_of(ws.take(k), m_or_y) is Err ==> byday_of(ws, m_or_y) == byday_of(ws.take(k), m_or_y),
    decreases ws.len(),
{
    if ws.len() > 0 && k < ws.len() {
        lemma_byday_prefix(ws.drop_last(), k, m_or_y);
        assert(ws.drop_last().take(k) =~= ws.take(k));
    } else {
        assert(ws.take(k) =~= ws);
    }
}

proof fn lemma_numbers_prefix(ws: Seq<Seq<char>>, k: int, min: int, max: int)
    requires
        0 <= k <= ws.len(),
    ensures
        numbers_of(ws.take(k), min, max) is Err ==> numbers_of(ws, min, max) == numbers_of(
            ws.take(k),
            min,
            max,
        ),
    decreases ws.len(),
{
    if ws.len() > 0 && k < ws.len() {
        lemma_numbers_prefix(ws.drop_last(), k, min, max);
        assert(ws.drop_last().take(k) =~= ws.take(k));
    } else {
        assert(ws.take(k) =~= ws);
    }
}

/// One BYDAY entry (see `byday_entry`).
fn byday_entry_exec(w: &[char], m_or_y: bool) -> (r: Result<(u32, i32), ErrorCode>)
    ensures
        match (byday_entry(w@, m_or_y), r) {
            (Ok(a), Ok(b)) => a == (b.0 as int, b.1 as int),
            (Err(a), Err(b)) => a == b,
            _ => false,
        },
{
    let n = w.len();
    if n < 2 || !ascii_exec(w) {
        return Err(ErrorCode::UnsupportedCalendarRule);
    }
    let number = slice_chars(w, 0, n - 2);
    assert(number@ =~= w@.take(n - 2));
    let ordinal: i32 = if number.len() == 0 {
        0
    } else {
        match parse_int(number.as_slice(), true) {
            Parsed::Value(v) => {
                if v < i32::MIN as i128 || v > i32::MAX as i128 {
                    return Err(ErrorCode::UnsupportedCalendarRule);
                }
                v as i32
            },
            _ => return Err(ErrorCode::UnsupportedCalendarRule),
        }
    };
    if ordinal < -5 || ordinal > 5 || (ordinal != 0 && !m_or_y) {
        return Err(ErrorCode::UnsupportedCalendarRule);
    }
    let day = slice_chars(w, n - 2, n);
    assert(day@ =~= w@.skip(n - 2));
    let code = day_code_exec(day.as_slice());
    if code < 0 {
        return Err(ErrorCode::InvalidIcs);
    }
    Ok((code as u32, ordinal))
}

/// The BYDAY entries of a value (see `byday_of`).
fn byday_exec(v: &[char], m_or_y: bool) -> (r: Result<Vec<(u32, i32)>, ErrorCode>)
    ensures
        match (byday_of(pieces(v@, ','), m_or_y), r) {
            (Ok(a), Ok(b)) => a == b@.map_values(|x: (u32, i32)| (x.0 as int, x.1 as int)),
            (Err(a), Err(b)) => a == b,
            _ => false,
        },
{
    let ws = split_on(v, ',');
    let ghost wv = pieces(v@, ',');
    let mut out: Vec<(u32, i32)> = Vec::new();
    let mut i: usize = 0;
    assert(wv.take(0) =~= Seq::<Seq<char>>::empty());
    assert(out@.map_values(|x: (u32, i32)| (x.0 as int, x.1 as int)) =~= Seq::<(int, int)>::empty());
    while i < ws.len()
        invariant
            wv == pieces(v@, ','),
            ws@.len() == wv.len(),
            forall|j: int| 0 <= j < ws@.len() ==> #[trigger] ws@[j]@ == wv[j],
            i <= ws@.len(),
            byday_of(wv.take(i as int), m_or_y) == Ok::<Seq<(int, int)>, ErrorCode>(
                out@.map_values(|x: (u32, i32)| (x.0 as int, x.1 as int)),
            ),
        decreases ws.len() - i,
    {
        proof {
            assert(wv.take(i as int + 1).drop_last() =~= wv.take(i as int));
            assert(wv.take(i as int + 1).last() == ws@[i as int]@);
            lemma_byday_prefix(wv, i as int + 1, m_or_y);
        }
        match byday_entry_exec(ws[i].as_slice(), m_or_y) {
            Ok(x) => {
                out.push(x);
                assert(out@.map_values(|x: (u32, i32)| (x.0 as int, x.1 as int)) =~= byday_of(
                    wv.take(i as int),
                    m_or_y,
                )->Ok_0.push((x.0 as int, x.1 as int)));
            },
            Err(e) => return Err(e),
        }
        i = i + 1;
    }
    assert(wv.take(ws@.len() as int) =~= wv);
    Ok(out)
}

/// A list of numbers (see `numbers_of`).
fn numbers_exec(v: &[char], min: i32, max: i32) -> (r: Result<Vec<i32>, ErrorCode>)
    ensures
        match (numbers_of(pieces(v@, ','), min as int, max as int), r) {
            (Ok(a), Ok(b)) => a == b@.map_values(|x: i32| x as int),
            (Err(a), Err(b)) => a == b,
            _ => false,
        },
{
    let ws = split_on(v, ',');
    let ghost wv = pieces(v@, ',');
    let mut out: Vec<i32> = Vec::new();
    let mut i: usize = 0;
    assert(wv.take(0) =~= Seq::<Seq<char>>::empty());
    assert(out@.map_values(|x: i32| x as int) =~= Seq::<int>::empty());
    while i < ws.len()
        invariant
            wv == pieces(v@, ','),
            ws@.len() == wv.len(),
            forall|j: int| 0 <= j < ws@.len() ==> #[trigger] ws@[j]@ == wv[j],
            i <= ws@.len(),
            numbers_of(wv.take(i as int), min as int, max as int) == Ok::<Seq<int>, ErrorCode>(
                out@.map_values(|x: i32| x as int),
            ),
        decreases ws.len() - i,
    {
        proof {
            assert(wv.take(i as int + 1).drop_last() =~= wv.take(i as int));
            assert(wv.take(i as int + 1).last() == ws@[i as int]@);
            lemma_numbers_prefix(wv, i as int + 1, min as int, max as int);
        }
        match parse_int(ws[i].as_slice(), true) {
            Parsed::Value(n) => {
                if n < i32::MIN as i128 || n > i32::MAX as i128 || n == 0 || n < min as i128 || n
                    > max as i128 {
                    return Err(ErrorCode::InvalidIcs);
                }
                out.push(n as i32);
                assert(out@.map_values(|x: i32| x as int) =~= numbers_of(
                    wv.take(i as int),
                    min as int,
                    max as int,
                )->Ok_0.push(n as int));
            },
            _ => return Err(ErrorCode::InvalidIcs),
        }
        i = i + 1;
    }
    assert(wv.take(ws@.len() as int) =~= wv);
    Ok(out)
}

/// Whether every BYDAY entry is a plain weekday, without an ordinal.
fn plain_days(b: &Vec<(u32, i32)>) -> (r: bool)
    ensures
        r == forall|k: int| 0 <= k < b@.len() ==> (#[trigger] b@[k]).1 == 0,
{
    let mut i: usize = 0;
    while i < b.len()
        invariant
            i <= b@.len(),
            forall|k: int| 0 <= k < i ==> (#[trigger] b@[k]).1 == 0,
        decreases b.len() - i,
    {
        if b[i].1 != 0 {
            return false;
        }
        i = i + 1;
    }
    true
}

/// A rule's frequency, interval and count (see `rule_head`).
fn rule_head_exec(f: &Vec<Option<Vec<char>>>, fs: Ghost<Seq<Option<Seq<char>>>>) -> (r: Result<(u8, i64, Option<u64>), ErrorCode>)
    requires
        f@.len() == 8,
        fs@.len() == 8,
        forall|i: int|
            0 <= i < 8 ==> match (fs@[i], #[trigger] f@[i]) {
                (Some(a), Some(b)) => a == b@,
                (None, None) => true,
                _ => false,
            },
    ensures
        match (rule_head(fs@), r) {
            (Ok(a), Ok(b)) => a == (b.0 as int, b.1 as int, if b.2 is Some { Some(b.2->Some_0 as int) } else { None::<int> }) && b.0 <= 3,
            (Err(a), Err(b)) => a == b,
            _ => false,
        },
{
    proof {
        reveal_strlit("1");
    }
    let freq: i32 = match &f[0] {
        Some(v) => freq_code_exec(v.as_slice()),
        None => return Err(ErrorCode::InvalidIcs),
    };
    if freq < 0 {
        return Err(ErrorCode::UnsupportedCalendarRule);
    }
    let one: Vec<char> = vec!['1'];
    assert(one@ =~= "1"@);
    let itext: &[char] = match &f[1] {
        Some(v) => v.as_slice(),
        None => one.as_slice(),
    };
    let interval: i64 = match parse_int(itext, true) {
        Parsed::Value(v) => {
            if v < i64::MIN as i128 || v > i64::MAX as i128 {
                return Err(ErrorCode::InvalidIcs);
            }
            v as i64
        },
        _ => return Err(ErrorCode::InvalidIcs),
    };
    if interval < 1 || interval > 366 {
        return Err(ErrorCode::CalendarLimit);
    }
    let count: Option<u64> = match &f[2] {
        Some(c) => match parse_int(c.as_slice(), false) {
            Parsed::Value(v) => {
                if v > usize::MAX as i128 {
                    return Err(ErrorCode::InvalidIcs);
                }
                if v < 1 || v > 100000 {
                    return Err(ErrorCode::CalendarLimit);
                }
                Some(v as u64)
            },
            _ => return Err(ErrorCode::InvalidIcs),
        },
        None => None,
    };
    if count.is_some() && f[3].is_some() {
        return Err(ErrorCode::CalendarLimit);
    }
    Ok((freq as u8, interval, count))
}

/// A rule's filters (see `rule_filters`).
fn rule_filters_exec(f: &Vec<Option<Vec<char>>>, fs: Ghost<Seq<Option<Seq<char>>>>, freq: u8) -> (r: Result<
    (Option<Vec<(u32, i32)>>, Option<Vec<i32>>, Option<Vec<i32>>),
    ErrorCode,
>)
    requires
        f@.len() == 8,
        fs@.len() == 8,
        forall|i: int|
            0 <= i < 8 ==> match (fs@[i], #[trigger] f@[i]) {
                (Some(a), Some(b)) => a == b@,
                (None, None) => true,
                _ => false,
            },
    ensures
        match (rule_filters(fs@, freq as int), r) {
            (Ok(a), Ok(b)) => a == (
                if b.0 is Some { Some(b.0->Some_0@.map_values(|x: (u32, i32)| (x.0 as int, x.1 as int))) } else { None::<Seq<(int, int)>> },
                if b.1 is Some { Some(b.1->Some_0@.map_values(|x: i32| x as int)) } else { None::<Seq<int>> },
                if b.2 is Some { Some(b.2->Some_0@.map_values(|x: i32| x as int)) } else { None::<Seq<int>> },
            ),
            (Err(a), Err(b)) => a == b,
            _ => false,
        },
{
    let m_or_y = freq == 2 || freq == 3;
    let byday: Option<Vec<(u32, i32)>> = match &f[4] {
        Some(v) => match byday_exec(v.as_slice(), m_or_y) {
            Ok(b) => Some(b),
            Err(e) => return Err(e),
        },
        None => None,
    };
    if freq == 1 && f[6].is_some() {
        return Err(ErrorCode::UnsupportedCalendarRule);
    }
    let months: Option<Vec<i32>> = match &f[5] {
        Some(v) => match numbers_exec(v.as_slice(), 1, 12) {
            Ok(b) => Some(b),
            Err(e) => return Err(e),
        },
        None => None,
    };
    let monthdays: Option<Vec<i32>> = match &f[6] {
        Some(v) => match numbers_exec(v.as_slice(), -31, 31) {
            Ok(b) => Some(b),
            Err(e) => return Err(e),
        },
        None => None,
    };
    if freq == 3 && months.is_none() {
        if let Some(b) = &byday {
            if !plain_days(b) {
                proof {
                    let k = choose|k: int| 0 <= k < b@.len() && (#[trigger] b@[k]).1 != 0;
                    let spec_b = byday_of(pieces(fs@[4]->Some_0, ','), m_or_y)->Ok_0;
                    assert(spec_b[k].1 != 0);
                    assert(m_or_y == (freq as int == 2 || freq as int == 3));
                    assert(has_ordinal(spec_b));
                }
                return Err(ErrorCode::UnsupportedCalendarRule);
            }
            proof {
                let spec_b = byday_of(pieces(fs@[4]->Some_0, ','), m_or_y)->Ok_0;
                assert forall|k: int| 0 <= k < spec_b.len() implies (#[trigger] spec_b[k]).1 == 0 by {
                    assert(b@[k].1 == 0);
                }
            }
        }
    }
    Ok((byday, months, monthdays))
}

/// A rule's week start and end (see `rule_tail`).
fn rule_tail_exec(f: &Vec<Option<Vec<char>>>, fs: Ghost<Seq<Option<Seq<char>>>>, start: &Stamp) -> (r: Result<
    (u32, Option<Stamp>),
    ErrorCode,
>)
    requires
        stamp_ok(*start),
        f@.len() == 8,
        fs@.len() == 8,
        forall|i: int|
            0 <= i < 8 ==> match (fs@[i], #[trigger] f@[i]) {
                (Some(a), Some(b)) => a == b@,
                (None, None) => true,
                _ => false,
            },
    ensures
        match (rule_tail(fs@, stamp_view(*start)), r) {
            (Ok(a), Ok(b)) => a.0 == b.0 as int && b.0 < 7 && match (a.1, b.1) {
                (Some(x), Some(y)) => x == stamp_view(y) && stamp_ok(y),
                (None, None) => true,
                _ => false,
            },
            (Err(a), Err(b)) => a == b,
            _ => false,
        },
{
    proof {
        reveal_strlit("MO");
        reveal_strlit("DATE");
    }
    let mo: Vec<char> = vec!['M', 'O'];
    assert(mo@ =~= "MO"@);
    let wtext: &[char] = match &f[7] {
        Some(v) => v.as_slice(),
        None => mo.as_slice(),
    };
    let wkst = day_code_exec(wtext);
    if wkst < 0 {
        return Err(ErrorCode::InvalidIcs);
    }
    let until: Option<Stamp> = match &f[3] {
        Some(raw) => {
            let raw_text = string_from_chars(raw.as_slice());
            let date: Vec<char> = vec!['D', 'A', 'T', 'E'];
            assert(date@ =~= "DATE"@);
            let date_text = string_from_chars(date.as_slice());
            let vp: Option<&str> = if start.date_only {
                Some(date_text.as_str())
            } else {
                None
            };
            match stamp_parts(Some(raw_text.as_str()), Ok(vp), Ok(None), start.zone.as_str()) {
                Ok(u) => Some(u),
                Err(e) => return Err(e),
            }
        },
        None => None,
    };
    Ok((wkst as u32, until))
}

/// The rule that RRULE fields describe (see `rule_from_fields`).
fn rule_from_fields_exec(f: &Vec<Option<Vec<char>>>, fs: Ghost<Seq<Option<Seq<char>>>>, start: &Stamp) -> (r:
    Result<Rule, ErrorCode>)
    requires
        stamp_ok(*start),
        f@.len() == 8,
        fs@.len() == 8,
        forall|i: int|
            0 <= i < 8 ==> match (fs@[i], #[trigger] f@[i]) {
                (Some(a), Some(b)) => a == b@,
                (None, None) => true,
                _ => false,
            },
    ensures
        match (rule_from_fields(fs@, stamp_view(*start)), r) {
            (Ok(a), Ok(b)) => rule_view(b) == a && (b.until matches Some(u) ==> stamp_ok(u)) && 1
                <= b.interval <= 366 && b.freq <= 3 && b.wkst < 7,
            (Err(a), Err(b)) => a == b,
            _ => false,
        },
{
    let (freq, interval, count) = match rule_head_exec(f, fs) {
        Ok(h) => h,
        Err(e) => return Err(e),
    };
    let (byday, months, monthdays) = match rule_filters_exec(f, fs, freq) {
        Ok(x) => x,
        Err(e) => return Err(e),
    };
    let (wkst, until) = match rule_tail_exec(f, fs, start) {
        Ok(x) => x,
        Err(e) => return Err(e),
    };
    Ok(Rule { freq, interval, count, until, byday, months, monthdays, wkst })
}

/// Reads an RRULE value for a rule starting at `start` (see `rule_of`).
pub fn parse_rule(rule: &str, start: &Stamp) -> (r: Result<Rule, ErrorCode>)
    requires
        stamp_ok(*start),
    ensures
        match (rule_of(rule@, stamp_view(*start)), r) {
            (Ok(a), Ok(b)) => rule_view(b) == a && (b.until matches Some(u) ==> stamp_ok(u)) && 1
                <= b.interval <= 366 && b.freq <= 3 && b.wkst < 7,
            (Err(a), Err(b)) => a == b,
            _ => false,
        },
{
    if rule.len() > 512 {
        return Err(ErrorCode::CalendarLimit);
    }
    let chars = chars_of(rule);
    let parts = split_on(chars.as_slice(), ';');
    proof {
        assert(parts@.map_values(|p: Vec<char>| p@) =~= pieces(rule@, ';'));
    }
    let f = match rule_fields_exec(&parts) {
        Ok(f) => f,
        Err(e) => return Err(e),
    };
    let ghost fs = rule_fields(pieces(rule@, ';'))->Ok_0;
    proof {
        lemma_rule_fields(pieces(rule@, ';'), 0);
    }
    rule_from_fields_exec(&f, Ghost(fs), start)
}

/// The date with a day number.
pub open spec fn civil(n: int) -> CivilDate {
    choose|d: CivilDate| valid_date(d) && day_number(d) == n
}

/// Valid dates with the same day number are the same date.
proof fn lemma_civil(d: CivilDate)
    requires
        valid_date(d),
    ensures
        civil(day_number(d)) == d,
{
    let c = civil(day_number(d));
    assert(valid_date(c) && day_number(c) == day_number(d));
    if c != d {
        if c.year < d.year || (c.year == d.year && c.month < d.month) || (c.year == d.year
            && c.month == d.month && c.day < d.day) {
            crate::time::lemma_day_number_monotone(c, d);
        } else {
            crate::time::lemma_day_number_monotone(d, c);
        }
    }
}

/// The first day of the week holding the rule's start.
pub open spec fn week_start(start: CivilDate, wkst: int) -> int {
    day_number(start) - (weekday(start) - wkst) % 7
}

/// Whether a day lies in a period the rule repeats in.
pub open spec fn in_period(r: RuleSpec, start: CivilDate, d: CivilDate) -> bool {
    if r.freq == 0 {
        (day_number(d) - day_number(start)) % r.interval == 0
    } else if r.freq == 1 {
        ((day_number(d) - week_start(start, r.wkst)) / 7) % r.interval == 0
    } else if r.freq == 2 {
        ((d.year - start.year) * 12 + d.month - start.month) % r.interval == 0
    } else {
        (d.year - start.year) % r.interval == 0
    }
}

/// Whether some BYDAY entry selects a day: its weekday, with no ordinal or
/// the ordinal of the day's week counted from the start or the end of the
/// month.
pub open spec fn selects(v: Seq<(int, int)>, wd: int, day: int, last: int) -> bool {
    exists|i: int|
        0 <= i < v.len() && (#[trigger] v[i]).0 == wd && (v[i].1 == 0 || v[i].1 == (day - 1) / 7 + 1
            || v[i].1 == -((last - day) / 7 + 1))
}

/// Whether a day passes the rule's month, month-day and weekday filters;
/// without filters a monthly rule keeps the start's day of the month and a
/// yearly one also its month, and a weekly one keeps the start's weekday.
/// Negative month days and ordinals count from the end of the month.
pub open spec fn passes_filters(r: RuleSpec, start: CivilDate, d: CivilDate) -> bool {
    let last = days_in_month(d.year as int, d.month as int);
    let month_match = if r.months is Some {
        r.months->Some_0.contains(d.month as int)
    } else {
        r.freq != 3 || r.byday is Some || r.monthdays is Some || d.month == start.month
    };
    let day_match = if r.monthdays is Some {
        r.monthdays->Some_0.contains(d.day as int) || r.monthdays->Some_0.contains(d.day - last - 1)
    } else {
        !(r.freq == 2 || r.freq == 3) || r.byday is Some || d.day == start.day
    };
    let weekday_match = if r.byday is Some {
        selects(r.byday->Some_0, weekday(d), d.day as int, last)
    } else {
        r.freq != 1 || weekday(d) == weekday(start)
    };
    month_match && day_match && weekday_match
}

/// Whether a candidate lies after the rule's end: a later day than a
/// whole-day end, a later instant than a UTC end, else a later wall time.
pub open spec fn past_end(r: RuleSpec, cand: (CivilDate, int, Seq<char>, bool)) -> Result<bool, ErrorCode> {
    match r.until {
        None => Ok(false),
        Some(u) => if u.3 {
            Ok(day_number(cand.0) > day_number(u.0))
        } else if u.2 == "UTC"@ {
            match resolve_wall(cand.2, stamp_local(cand)) {
                Some(t) => Ok(t > stamp_local(u)),
                None => Err(ErrorCode::InvalidValue),
            }
        } else {
            Ok(stamp_local(cand) > stamp_local(u))
        },
    }
}

/// What one day contributes: a day that matches the rule and lies before
/// its end is a candidate at the start's time; a time a transition skips
/// (other than the start itself) is left out; COUNT candidates, or a day
/// past the end, stop the walk.
pub open spec fn day_step(
    r: RuleSpec,
    s: (CivilDate, int, Seq<char>, bool),
    d: CivilDate,
    found: Seq<(CivilDate, int, Seq<char>, bool)>,
) -> Result<(Seq<(CivilDate, int, Seq<char>, bool)>, bool), ErrorCode> {
    let cand = (d, s.1, s.2, s.3);
    if !(in_period(r, s.0, d) && passes_filters(r, s.0, d)) {
        Ok((found, false))
    } else {
        match past_end(r, cand) {
            Err(e) => Err(e),
            Ok(true) => Ok((found, true)),
            Ok(false) => match projection(cand, d != s.0) {
                Err(e) => Err(e),
                Ok(None) => Ok((found, false)),
                Ok(Some(_)) => Ok(
                    (found.push(cand), r.count is Some && found.len() + 1 >= r.count->Some_0),
                ),
            },
        }
    }
}

/// The walk over the days from the rule's start through `through`, one
/// unit of the shared budget per day (see `day_step`).
#[verifier::opaque]
pub open spec fn walk(
    r: RuleSpec,
    s: (CivilDate, int, Seq<char>, bool),
    through: int,
    day: int,
    budget: int,
    found: Seq<(CivilDate, int, Seq<char>, bool)>,
) -> Result<(Seq<(CivilDate, int, Seq<char>, bool)>, int), ErrorCode>
    decreases through + 1 - day,
{
    if day > through {
        Ok((found, budget))
    } else if budget <= 0 {
        Err(ErrorCode::CalendarLimit)
    } else {
        let d = civil(day);
        if d.month == 12 && d.year + 1 > MAX_YEAR {
            Err(ErrorCode::CalendarLimit)
        } else {
            match day_step(r, s, d, found) {
                Err(e) => Err(e),
                Ok((f, true)) => Ok((f, budget - 1)),
                Ok((f, false)) => if day + 1 > MAX_DAY {
                    Err(ErrorCode::CalendarLimit)
                } else {
                    walk(r, s, through, day + 1, budget - 1, f)
                },
            }
        }
    }
}

fn contains_i32(v: &Vec<i32>, x: i64) -> (b: bool)
    ensures
        b == v@.map_values(|y: i32| y as int).contains(x as int),
{
    let ghost m = v@.map_values(|y: i32| y as int);
    let mut i: usize = 0;
    while i < v.len()
        invariant
            m == v@.map_values(|y: i32| y as int),
            i <= v@.len(),
            forall|k: int| 0 <= k < i ==> m[k] != x,
        decreases v.len() - i,
    {
        if v[i] as i64 == x {
            assert(m[i as int] == x);
            return true;
        }
        i = i + 1;
    }
    false
}

/// Whether some BYDAY entry selects a day (see `selects`).
fn byday_selects(b: &Vec<(u32, i32)>, wd: u32, day: u32, last: u32) -> (r: bool)
    requires
        1 <= day <= last <= 31,
    ensures
        r == selects(b@.map_values(|x: (u32, i32)| (x.0 as int, x.1 as int)), wd as int, day as int, last as int),
{
    let ghost m = b@.map_values(|x: (u32, i32)| (x.0 as int, x.1 as int));
    let mut i: usize = 0;
    while i < b.len()
        invariant
            m == b@.map_values(|x: (u32, i32)| (x.0 as int, x.1 as int)),
            1 <= day <= last <= 31,
            i <= b@.len(),
            forall|k: int|
                0 <= k < i ==> !((#[trigger] m[k]).0 == wd && (m[k].1 == 0 || m[k].1 == (day - 1) / 7 + 1
                    || m[k].1 == -((last - day) / 7 + 1))),
        decreases b.len() - i,
    {
        let (w, n) = b[i];
        let first = ((day - 1) / 7 + 1) as i32;
        let from_end = -(((last - day) / 7 + 1) as i32);
        assert(m[i as int] == (w as int, n as int));
        if w == wd && (n == 0 || n == first || n == from_end) {
            return true;
        }
        i = i + 1;
    }
    false
}

/// Whether a day matches the rule (see `in_period` and `passes_filters`).
fn rule_matches(r: &Rule, start: &Stamp, start_dn: i64, d: CivilDate, dn: i64) -> (b: bool)
    requires
        stamp_ok(*start),
        valid_date(d),
        start_dn == day_number(start.date),
        dn == day_number(d),
        start_dn <= dn,
        1 <= r.interval <= 366,
        r.wkst < 7,
        r.freq <= 3,
    ensures
        b == (in_period(rule_view(*r), start.date, d) && passes_filters(rule_view(*r), start.date, d)),
{
    proof {
        crate::time::lemma_day_number_bounds(d);
        crate::time::lemma_day_number_bounds(start.date);
        crate::time::lemma_day_number_order(start.date, d);
    }
    let rv = Ghost(rule_view(*r));
    let period = if r.freq == 0 {
        (dn - start_dn) % r.interval == 0
    } else if r.freq == 1 {
        let shift: i64 = (weekday_exec(start.date) as i64 - r.wkst as i64 + 7) % 7;
        assert(shift == (weekday(start.date) - r.wkst) % 7) by (nonlinear_arith)
            requires shift == (weekday(start.date) - r.wkst + 7) % 7, 0 <= weekday(start.date) < 7, r.wkst < 7;
        let ws = start_dn - shift;
        ((dn - ws) / 7) % r.interval == 0
    } else if r.freq == 2 {
        ((d.year as i64 - start.date.year as i64) * 12 + d.month as i64 - start.date.month as i64) % r.interval == 0
    } else {
        (d.year as i64 - start.date.year as i64) % r.interval == 0
    };
    let last = days_in_month_exec(d.year, d.month);
    let month_match = match &r.months {
        Some(m) => contains_i32(m, d.month as i64),
        None => r.freq != 3 || r.byday.is_some() || r.monthdays.is_some() || d.month == start.date.month,
    };
    let day_match = match &r.monthdays {
        Some(m) => contains_i32(m, d.day as i64) || contains_i32(m, d.day as i64 - last as i64 - 1),
        None => !(r.freq == 2 || r.freq == 3) || r.byday.is_some() || d.day == start.date.day,
    };
    let weekday_match = match &r.byday {
        Some(b) => byday_selects(b, weekday_exec(d), d.day, last),
        None => r.freq != 1 || weekday_exec(d) == weekday_exec(start.date),
    };
    period && month_match && day_match && weekday_match
}

/// One day of the walk.
proof fn lemma_walk_unfold(
    r: RuleSpec,
    s: (CivilDate, int, Seq<char>, bool),
    through: int,
    day: int,
    budget: int,
    found: Seq<(CivilDate, int, Seq<char>, bool)>,
)
    ensures
        walk(r, s, through, day, budget, found) == if day > through {
            Ok((found, budget))
        } else if budget <= 0 {
            Err(ErrorCode::CalendarLimit)
        } else if civil(day).month == 12 && civil(day).year + 1 > MAX_YEAR {
            Err(ErrorCode::CalendarLimit)
        } else {
            match day_step(r, s, civil(day), found) {
                Err(e) => Err(e),
                Ok((f, true)) => Ok((f, budget - 1)),
                Ok((f, false)) => if day + 1 > MAX_DAY {
                    Err(ErrorCode::CalendarLimit)
                } else {
                    walk(r, s, through, day + 1, budget - 1, f)
                },
            }
        },
{
    reveal_with_fuel(walk, 1);
}

/// One day of the walk (see `day_step`): `true` when the walk stops.
fn take_day(rv: &Rule, start: &Stamp, start_dn: i64, date: CivilDate, dn: i64, found: &mut Vec<Stamp>) -> (r:
    Result<bool, ErrorCode>)
    requires
        stamp_ok(*start),
        1 <= rv.interval <= 366,
        rv.wkst < 7,
        rv.freq <= 3,
        rv.until matches Some(u) ==> stamp_ok(u),
        start_dn == day_number(start.date),
        valid_date(date),
        dn == day_number(date),
        start_dn <= dn,
        forall|i: int| 0 <= i < old(found)@.len() ==> stamp_ok(#[trigger] old(found)@[i]),
    ensures
        match (day_step(rule_view(*rv), stamp_view(*start), date, stamps_view(old(found)@)), r) {
            (Ok((f, stop)), Ok(b)) => stamps_view(final(found)@) == f && b == stop,
            (Err(a), Err(b)) => a == b,
            _ => false,
        },
        forall|i: int| 0 <= i < final(found)@.len() ==> stamp_ok(#[trigger] final(found)@[i]),
{
    if !rule_matches(rv, start, start_dn, date, dn) {
        return Ok(false);
    }
    let cand = Stamp { date, second: start.second, zone: start.zone.clone(), date_only: start.date_only };
    let past: bool = match &rv.until {
        None => false,
        Some(u) => {
            proof {
                reveal_strlit("UTC");
                crate::time::lemma_day_number_bounds(u.date);
                crate::time::lemma_day_number_bounds(date);
            }
            if u.date_only {
                dn > day_number_exec(u.date)
            } else if str_eq(u.zone.as_str(), "UTC") {
                match resolve(cand.zone.as_str(), dn * 86400 + start.second as i64) {
                    Ok(t) => t > day_number_exec(u.date) * 86400 + u.second as i64,
                    Err(e) => return Err(e),
                }
            } else {
                dn * 86400 + start.second as i64 > day_number_exec(u.date) * 86400 + u.second as i64
            }
        },
    };
    if past {
        return Ok(true);
    }
    let generated = !(date.year == start.date.year && date.month == start.date.month && date.day
        == start.date.day);
    match cand.project(generated) {
        Err(e) => Err(e),
        Ok(None) => Ok(false),
        Ok(Some(_)) => {
            let ghost before = found@;
            let ghost cv = stamp_view(cand);
            found.push(cand);
            proof {
                assert(stamps_view(found@) =~= stamps_view(before).push(cv));
            }
            match rv.count {
                Some(n) => Ok(found.len() as u64 >= n),
                None => Ok(false),
            }
        },
    }
}

/// The stamps of a sequence, as plain values.
pub open spec fn stamps_view(v: Seq<Stamp>) -> Seq<(CivilDate, int, Seq<char>, bool)> {
    v.map_values(|s: Stamp| stamp_view(s))
}

/// The instances an RRULE yields from its start through the day `through`
/// (see `rule_of` and `walk`), spending the shared day budget.
pub fn rule_dates(start: &Stamp, rule: &str, through: i64, budget: &mut usize) -> (r: Result<Vec<Stamp>, ErrorCode>)
    requires
        stamp_ok(*start),
        through <= MAX_DAY,
    ensures
        match rule_of(rule@, stamp_view(*start)) {
            Err(e) => r == Err::<Vec<Stamp>, ErrorCode>(e),
            Ok(rs) => match (walk(rs, stamp_view(*start), through as int, day_number(start.date), *old(budget) as int, Seq::empty()), r) {
                (Ok((found, left)), Ok(v)) => stamps_view(v@) == found && *final(budget) == left && forall|i: int| 0 <= i < v@.len() ==> stamp_ok(#[trigger] v@[i]),
                (Err(a), Err(b)) => a == b,
                _ => false,
            },
        },
{
    let rv = match parse_rule(rule, start) {
        Ok(x) => x,
        Err(e) => return Err(e),
    };
    let ghost rs = rule_view(rv);
    let ghost sv = stamp_view(*start);
    proof {
        crate::time::lemma_day_number_range(start.date);
        lemma_civil(start.date);
    }
    let start_dn = day_number_exec(start.date);
    let mut date = start.date;
    let mut dn = start_dn;
    let mut found: Vec<Stamp> = Vec::new();
    let ghost budget0 = *old(budget) as int;
    assert(stamps_view(found@) =~= Seq::<(CivilDate, int, Seq<char>, bool)>::empty());
    loop
        invariant
            stamp_ok(*start),
            rule_of(rule@, stamp_view(*start)) == Ok::<RuleSpec, ErrorCode>(rs),
            budget0 == *old(budget) as int,
            rs == rule_view(rv),
            sv == stamp_view(*start),
            1 <= rv.interval <= 366,
            rv.wkst < 7,
            rv.freq <= 3,
            rv.until matches Some(u) ==> stamp_ok(u),
            start_dn == day_number(start.date),
            through <= MAX_DAY,
            valid_date(date),
            dn == day_number(date),
            start_dn <= dn,
            MIN_DAY <= dn <= MAX_DAY,
            civil(dn as int) == date,
            forall|i: int| 0 <= i < found@.len() ==> stamp_ok(#[trigger] found@[i]),
            walk(rs, sv, through as int, start_dn as int, budget0, Seq::empty()) == walk(
                rs,
                sv,
                through as int,
                dn as int,
                *budget as int,
                stamps_view(found@),
            ),
        decreases through + 1 - dn,
    {
        proof {
            lemma_walk_unfold(rs, sv, through as int, dn as int, *budget as int, stamps_view(found@));
        }
        if dn > through {
            return Ok(found);
        }
        if *budget == 0 {
            return Err(ErrorCode::CalendarLimit);
        }
        *budget = *budget - 1;
        if date.month == 12 && date.year as i64 + 1 > MAX_YEAR as i64 {
            return Err(ErrorCode::CalendarLimit);
        }
        match take_day(&rv, start, start_dn, date, dn, &mut found) {
            Err(e) => return Err(e),
            Ok(true) => return Ok(found),
            Ok(false) => {},
        }
        if dn + 1 > MAX_DAY {
            return Err(ErrorCode::CalendarLimit);
        }
        match date_from_day_number(dn + 1) {
            Some(next) => {
                proof {
                    lemma_civil(next);
                }
                date = next;
                dn = dn + 1;
            },
            None => return Err(ErrorCode::CalendarLimit),
        }
    }
}

/// An event's SEQUENCE number (default 0), which may not be negative.
pub open spec fn sequence_of(ps: Seq<IcsProperty>) -> Result<i64, ErrorCode> {
    match value_of(ps, "SEQUENCE"@) {
        Err(e) => Err(e),
        Ok(v) => match int_text(if v is Some { v->Some_0 } else { "0"@ }, true) {
            Some(n) => if 0 <= n <= i64::MAX {
                Ok(n as i64)
            } else {
                Err(ErrorCode::InvalidIcs)
            },
            None => Err(ErrorCode::InvalidIcs),
        },
    }
}

/// An event's sequence number (see `sequence_of`).
pub fn sequence(ps: &[IcsProperty]) -> (r: Result<i64, ErrorCode>)
    ensures
        r == sequence_of(ps@),
{
    proof {
        reveal_strlit("0");
    }
    let v = match value(ps, "SEQUENCE") {
        Ok(v) => v,
        Err(e) => return Err(e),
    };
    let zero: Vec<char> = vec!['0'];
    assert(zero@ =~= "0"@);
    let text: Vec<char> = match v {
        Some(t) => chars_of(t),
        None => zero,
    };
    match parse_int(text.as_slice(), true) {
        Parsed::Value(n) => {
            if n < 0 || n > i64::MAX as i128 {
                return Err(ErrorCode::InvalidIcs);
            }
            Ok(n as i64)
        },
        _ => Err(ErrorCode::InvalidIcs),
    }
}

/// An event's title: its SUMMARY unless blank, else "Calendar event", with
/// escapes resolved; it must be a valid label.
pub open spec fn title_of(ps: Seq<IcsProperty>) -> Result<Seq<char>, ErrorCode> {
    match value_of(ps, "SUMMARY"@) {
        Err(e) => Err(e),
        Ok(v) => {
            let t = if v is Some && !crate::text::is_blank(v->Some_0) {
                v->Some_0
            } else {
                "Calendar event"@
            };
            match unescaped(t) {
                None => Err(ErrorCode::InvalidIcs),
                Some(x) => if crate::content_ok(x, Seq::empty()) {
                    Ok(x)
                } else {
                    Err(ErrorCode::InvalidValue)
                },
            }
        },
    }
}

/// The stamp at a wall time, with another stamp's zone and kind.
pub open spec fn at_local(local: int, like: (CivilDate, int, Seq<char>, bool)) -> (CivilDate, int, Seq<char>, bool) {
    (civil(local / 86400), local % 86400, like.2, like.3)
}

/// An event's end, if it has a DTEND: the same kind of stamp in the same
/// zone as its start, not before it, moved with the instance.
pub open spec fn end_of(
    ps: Seq<IcsProperty>,
    start: (CivilDate, int, Seq<char>, bool),
    instance: (CivilDate, int, Seq<char>, bool),
) -> Result<Option<(Seq<char>, Option<Seq<char>>, Seq<char>, Option<int>)>, ErrorCode> {
    match property_of(ps, "DTEND"@) {
        Err(e) => Err(e),
        Ok(None) => Ok(None),
        Ok(Some(i)) => match stamp_of(ps[i], start.2, None) {
            Err(e) => Err(e),
            Ok(end) => if end.3 != start.3 {
                Err(ErrorCode::InvalidIcs)
            } else if end.2 != start.2 {
                Err(ErrorCode::UnsupportedCalendarTimezone)
            } else {
                let delta = stamp_local(end) - stamp_local(start);
                let local = stamp_local(instance) + delta;
                if delta < 0 {
                    Err(ErrorCode::InvalidIcs)
                } else if !(MIN_DAY <= local / 86400 <= MAX_DAY) {
                    Err(ErrorCode::InvalidIcs)
                } else {
                    match projection(at_local(local, end), false) {
                        Err(e) => Err(e),
                        Ok(None) => Err(ErrorCode::InvalidIcs),
                        Ok(Some(t)) => Ok(Some(t)),
                    }
                }
            },
        },
    }
}

/// The stamp at a wall time in chrono's range of days.
fn stamp_at(local: i64, like: &Stamp) -> (s: Stamp)
    requires
        stamp_ok(*like),
        MIN_DAY <= local / 86400 <= MAX_DAY,
        like.date_only ==> local % 86400 == 0,
    ensures
        stamp_view(s) == at_local(local as int, stamp_view(*like)),
        stamp_ok(s),
{
    let shifted: i64 = local + 100_000_000 * 86400;
    assert(shifted >= 0);
    let day = shifted / 86400 - 100_000_000;
    let second = (shifted % 86400) as u32;
    assert(day == local / 86400 && second == local % 86400) by (nonlinear_arith)
        requires shifted == local + 100_000_000 * 86400, shifted >= 0, day == shifted / 86400 - 100_000_000,
            second == shifted % 86400;
    let date = match date_from_day_number(day) {
        Some(d) => d,
        None => like.date,
    };
    proof {
        lemma_civil(date);
    }
    Stamp { date, second, zone: like.zone.clone(), date_only: like.date_only }
}

/// The event an instance of a calendar entry becomes: its title, sequence
/// and end (see `title_of`, `sequence_of`, `end_of`), present, identified by
/// its UID and instance key.
pub open spec fn event_of(
    ps: Seq<IcsProperty>,
    start: (CivilDate, int, Seq<char>, bool),
    instance: (CivilDate, int, Seq<char>, bool),
) -> Result<(Seq<char>, i64, Option<(Seq<char>, Option<Seq<char>>, Seq<char>, Option<int>)>), ErrorCode> {
    match title_of(ps) {
        Err(e) => Err(e),
        Ok(title) => match sequence_of(ps) {
            Err(e) => Err(e),
            Ok(sequence) => match end_of(ps, start, instance) {
                Err(e) => Err(e),
                Ok(end) => Ok((title, sequence, end)),
            },
        },
    }
}

/// The event of an instance (see `event_of`).
pub fn build(
    ps: &[IcsProperty],
    uid: &str,
    key: &str,
    start: &Stamp,
    instance: &Stamp,
    projected: EventTime,
) -> (r: Result<Event, ErrorCode>)
    requires
        stamp_ok(*start),
        stamp_ok(*instance),
        start.date_only == instance.date_only,
    ensures
        match (event_of(ps@, stamp_view(*start), stamp_view(*instance)), r) {
            (Ok((title, sequence, end)), Ok(ev)) => {
                &&& ev.uid@ == uid@
                &&& ev.original@ == key@
                &&& ev.title@ == title
                &&& event_time_view(ev.start) == event_time_view(projected)
                &&& match (end, ev.end) {
                    (Some(a), Some(b)) => a == event_time_view(b),
                    (None, None) => true,
                    _ => false,
                }
                &&& ev.status == EventStatus::Present
                &&& ev.sequence == sequence
            },
            (Err(a), Err(b)) => a == b,
            _ => false,
        },
{
    proof {
        reveal_strlit("Calendar event");
    }
    let summary = match value(ps, "SUMMARY") {
        Ok(v) => v,
        Err(e) => return Err(e),
    };
    let fallback: &str = "Calendar event";
    let text: &str = match summary {
        Some(t) => if crate::text::blank(t) {
            fallback
        } else {
            t
        },
        None => fallback,
    };
    let title = match unescape(text) {
        Ok(t) => t,
        Err(e) => return Err(e),
    };
    if crate::content(title.as_str(), "").is_err() {
        proof {
            reveal_strlit("");
        }
        return Err(ErrorCode::InvalidValue);
    }
    proof {
        reveal_strlit("");
        assert(""@ =~= Seq::<char>::empty());
    }
    let seq = match sequence(ps) {
        Ok(n) => n,
        Err(e) => return Err(e),
    };
    let end: Option<EventTime> = match property(ps, "DTEND") {
        Err(e) => return Err(e),
        Ok(None) => None,
        Ok(Some(i)) => {
            let end = match stamp(&ps[i], start.zone.as_str(), None) {
                Ok(s) => s,
                Err(e) => return Err(e),
            };
            if end.date_only != start.date_only {
                return Err(ErrorCode::InvalidIcs);
            }
            if !str_eq(end.zone.as_str(), start.zone.as_str()) {
                return Err(ErrorCode::UnsupportedCalendarTimezone);
            }
            proof {
                crate::time::lemma_day_number_bounds(end.date);
                crate::time::lemma_day_number_bounds(start.date);
                crate::time::lemma_day_number_bounds(instance.date);
            }
            let end_local = day_number_exec(end.date) * 86400 + end.second as i64;
            let start_local = day_number_exec(start.date) * 86400 + start.second as i64;
            let inst_local = day_number_exec(instance.date) * 86400 + instance.second as i64;
            let delta = end_local - start_local;
            if delta < 0 {
                return Err(ErrorCode::InvalidIcs);
            }
            let local = inst_local + delta;
            let shifted: i64 = local + 100_000_000 * 86400;
            let day = shifted / 86400 - 100_000_000;
            assert(day == local / 86400) by (nonlinear_arith)
                requires shifted == local + 100_000_000 * 86400, shifted >= 0, day == shifted / 86400 - 100_000_000;
            if day < MIN_DAY || day > MAX_DAY {
                return Err(ErrorCode::InvalidIcs);
            }
            proof {
                if end.date_only {
                    assert(local % 86400 == 0) by (nonlinear_arith)
                        requires local == day_number(instance.date) * 86400 + (day_number(end.date) * 86400 - day_number(start.date) * 86400);
                }
            }
            let moved = stamp_at(local, &end);
            match moved.project(false) {
                Err(e) => return Err(e),
                Ok(None) => return Err(ErrorCode::InvalidIcs),
                Ok(Some(t)) => Some(t),
            }
        },
    };
    Ok(Event {
        uid: uid.to_owned(),
        original: key.to_owned(),
        title,
        start: projected,
        end,
        status: EventStatus::Present,
        sequence: seq,
    })
}

/// A UTC offset written `+HHMM` or `+HHMMSS` (or with `-`), in seconds.
pub open spec fn offset_of_text(v: Seq<char>) -> Option<int> {
    if !((v.len() == 5 || v.len() == 7) && (v[0] == '+' || v[0] == '-') && crate::text::all_digits(
        v.skip(1),
    )) {
        None
    } else {
        let h = crate::text::digits_value(v.subrange(1, 3));
        let m = crate::text::digits_value(v.subrange(3, 5));
        let s = if v.len() == 7 {
            crate::text::digits_value(v.subrange(5, 7))
        } else {
            0
        };
        if !(h < 24 && m < 60 && s < 60) {
            None
        } else {
            Some(
                if v[0] == '-' {
                    -(h * 3600 + m * 60 + s)
                } else {
                    h * 3600 + m * 60 + s
                },
            )
        }
    }
}

fn digit_at(v: &[char], i: usize) -> (d: i32)
    requires
        i < v@.len(),
        crate::text::is_digit(v@[i as int]),
    ensures
        d == crate::text::digit_value(v@[i as int]),
        0 <= d <= 9,
{
    (v[i] as u32 - 48) as i32
}

/// The offset a transition property gives (see `offset_of_text`).
#[verifier::loop_isolation(false)]
fn offset(ps: &[IcsProperty], name: &str) -> (r: Result<i32, ErrorCode>)
    ensures
        match (value_of(ps@, name@), r) {
            (Err(a), Err(b)) => a == b,
            (Ok(None), Err(b)) => b == ErrorCode::InvalidIcs,
            (Ok(Some(v)), Ok(o)) => offset_of_text(v) == Some(o as int) && -86400 < o < 86400,
            (Ok(Some(v)), Err(b)) => offset_of_text(v) is None && b == ErrorCode::InvalidIcs,
            _ => false,
        },
{
    let v = match value(ps, name) {
        Ok(Some(v)) => v,
        Ok(None) => return Err(ErrorCode::InvalidIcs),
        Err(e) => return Err(e),
    };
    let c = chars_of(v);
    let n = c.len();
    if !(n == 5 || n == 7) || !(c[0] == '+' || c[0] == '-') {
        return Err(ErrorCode::InvalidIcs);
    }
    let mut i: usize = 1;
    while i < n
        invariant
            c@ == v@,
            n == c@.len(),
            1 <= i <= n,
            forall|k: int| 1 <= k < i ==> crate::text::is_digit(c@[k]),
        decreases n - i,
    {
        if !crate::text::is_digit_exec(c[i]) {
            proof {
                assert(v@.skip(1)[i - 1] == c@[i as int]);
                assert(!crate::text::is_digit(v@.skip(1)[i - 1]));
                assert(!crate::text::all_digits(v@.skip(1)));
            }
            return Err(ErrorCode::InvalidIcs);
        }
        i = i + 1;
    }
    proof {
        assert forall|k: int| 0 <= k < v@.skip(1).len() implies crate::text::is_digit(#[trigger] v@.skip(1)[k]) by {
            assert(v@.skip(1)[k] == c@[k + 1]);
        }
        reveal_with_fuel(crate::text::digits_value, 3);
    }
    let h = digit_at(c.as_slice(), 1) * 10 + digit_at(c.as_slice(), 2);
    let m = digit_at(c.as_slice(), 3) * 10 + digit_at(c.as_slice(), 4);
    let sec = if n == 7 {
        digit_at(c.as_slice(), 5) * 10 + digit_at(c.as_slice(), 6)
    } else {
        0
    };
    proof {
        let hs = v@.subrange(1, 3);
        assert(hs.drop_last() =~= seq![v@[1]]);
        assert(seq![v@[1]].drop_last() =~= Seq::<char>::empty());
        let ms = v@.subrange(3, 5);
        assert(ms.drop_last() =~= seq![v@[3]]);
        if n == 7 {
            let ss = v@.subrange(5, 7);
            assert(ss.drop_last() =~= seq![v@[5]]);
        }
    }
    if !(h < 24 && m < 60 && sec < 60) {
        return Err(ErrorCode::InvalidIcs);
    }
    let total = h * 3600 + m * 60 + sec;
    if c[0] == '-' {
        Ok(-total)
    } else {
        Ok(total)
    }
}

/// The offset of a known zone from UTC at an instant, when chrono can
/// represent the instant.
fn offset_at(zone: &str, instant: i64) -> (r: Result<i64, ErrorCode>)
    requires
        tz_known(zone@),
    ensures
        r matches Ok(o) ==> o == crate::time::tz_wall_time(zone@, instant as int) - instant,
        r is Ok <==> crate::time::wall_in_range(zone@, instant as int),
        r matches Err(e) ==> e == ErrorCode::InvalidIcs,
{
    match crate::time::zone_wall_time(zone, instant) {
        Some(w) => Ok(w - instant),
        None => Err(ErrorCode::InvalidIcs),
    }
}

/// The TZID of a zone definition: the value of its first `TZID` property.
pub open spec fn tzid_of(ps: Seq<IcsProperty>) -> Result<Seq<char>, ErrorCode>
    decreases ps.len(),
{
    if ps.len() == 0 {
        Err(ErrorCode::InvalidIcs)
    } else if ps[0].name@ == "TZID"@ {
        match ps[0].value {
            Some(v) => Ok(v@),
            None => Err(ErrorCode::InvalidIcs),
        }
    } else {
        tzid_of(ps.drop_first())
    }
}

/// The offset a transition property gives (see `offset_of_text`); a
/// missing or malformed offset is invalid.
pub open spec fn offset_res(ps: Seq<IcsProperty>, name: Seq<char>) -> Result<int, ErrorCode> {
    match value_of(ps, name) {
        Err(e) => Err(e),
        Ok(None) => Err(ErrorCode::InvalidIcs),
        Ok(Some(v)) => match offset_of_text(v) {
            Some(o) => Ok(o),
            None => Err(ErrorCode::InvalidIcs),
        },
    }
}

/// The UTC stamps of comma-separated RDATE pieces; the first failure decides.
pub open spec fn utc_pieces(p: IcsProperty, parts: Seq<Seq<char>>) -> Result<Seq<(CivilDate, int, Seq<char>, bool)>, ErrorCode>
    decreases parts.len(),
{
    if parts.len() == 0 {
        Ok(Seq::empty())
    } else {
        match utc_pieces(p, parts.drop_last()) {
            Err(e) => Err(e),
            Ok(v) => match stamp_of(p, "UTC"@, Some(parts.last())) {
                Err(e) => Err(e),
                Ok(d) => Ok(v.push(d)),
            },
        }
    }
}

/// The dates the RDATEs among the first `n` properties of a transition add.
pub open spec fn rdate_stamps(ps: Seq<IcsProperty>, n: int) -> Result<Seq<(CivilDate, int, Seq<char>, bool)>, ErrorCode>
    decreases n,
{
    if n <= 0 {
        Ok(Seq::empty())
    } else {
        match rdate_stamps(ps, n - 1) {
            Err(e) => Err(e),
            Ok(v) => if ps[n - 1].name@ == "RDATE"@ {
                match utc_pieces(
                    ps[n - 1],
                    pieces(
                        match ps[n - 1].value {
                            Some(t) => t@,
                            None => Seq::<char>::empty(),
                        },
                        ',',
                    ),
                ) {
                    Err(e) => Err(e),
                    Ok(w) => Ok(v + w),
                }
            } else {
                Ok(v)
            },
        }
    }
}

/// A zone transition read in UTC: the dates it happens (its start or its
/// rule's instances through two days past the window, then its RDATEs),
/// the offsets before and after it, and the day budget left.
pub open spec fn transition_info(ps: Seq<IcsProperty>, through: int, budget: int) -> Result<
    (Seq<(CivilDate, int, Seq<char>, bool)>, int, int, int),
    ErrorCode,
> {
    match property_of(ps, "DTSTART"@) {
        Err(e) => Err(e),
        Ok(None) => Err(ErrorCode::InvalidIcs),
        Ok(Some(i)) => match stamp_of(ps[i], "UTC"@, None) {
            Err(e) => Err(e),
            Ok(start) => match offset_res(ps, "TZOFFSETFROM"@) {
                Err(e) => Err(e),
                Ok(before) => match offset_res(ps, "TZOFFSETTO"@) {
                    Err(e) => Err(e),
                    Ok(after) => match match value_of(ps, "RRULE"@) {
                        Err(e) => Err(e),
                        Ok(Some(rule)) => match rule_of(rule, start) {
                            Err(e) => Err(e),
                            Ok(rs) => walk(rs, start, through + 2, day_number(start.0), budget, Seq::empty()),
                        },
                        Ok(None) => Ok((seq![start], budget)),
                    } {
                        Err(e) => Err(e),
                        Ok((ds, left)) => match rdate_stamps(ps, ps.len() as int) {
                            Err(e) => Err(e),
                            Ok(rd) => Ok((ds + rd, before, after, left)),
                        },
                    },
                },
            },
        },
    }
}

/// The offset from UTC of a zone at an instant, as chrono-tz defines it.
pub open spec fn zone_offset(id: Seq<char>, instant: int) -> int {
    tz_wall_time(id, instant) - instant
}

/// One date of a transition: it records the offset in force from its
/// instant on, and near the window the zone must change there from the
/// offset before to the offset after, as chrono-tz defines it.
pub open spec fn date_check(
    id: Seq<char>,
    d: (CivilDate, int, Seq<char>, bool),
    before: int,
    after: int,
    from: int,
    through: int,
    m: Map<int, int>,
) -> Result<Map<int, int>, ErrorCode> {
    let dn = day_number(d.0);
    let instant = dn * 86400 + d.1 - before;
    if from - 2 <= dn <= through + 2 {
        if !crate::time::wall_in_range(id, instant) || !crate::time::wall_in_range(id, instant - 1) {
            Err(ErrorCode::InvalidIcs)
        } else if zone_offset(id, instant) != after || zone_offset(id, instant - 1) != before {
            Err(ErrorCode::UnsupportedCalendarTimezone)
        } else {
            Ok(m.insert(instant, after))
        }
    } else {
        Ok(m.insert(instant, after))
    }
}

/// The first `n` dates of a transition checked in order.
pub open spec fn dates_check(
    id: Seq<char>,
    ds: Seq<(CivilDate, int, Seq<char>, bool)>,
    before: int,
    after: int,
    from: int,
    through: int,
    n: int,
    m: Map<int, int>,
) -> Result<Map<int, int>, ErrorCode>
    decreases n,
{
    if n <= 0 {
        Ok(m)
    } else {
        match dates_check(id, ds, before, after, from, through, n - 1, m) {
            Err(e) => Err(e),
            Ok(m2) => date_check(id, ds[n - 1], before, after, from, through, m2),
        }
    }
}

/// The first `n` transitions of a zone read and checked in order, with the
/// offsets they put in force and the day budget left.
pub open spec fn transitions_check(
    id: Seq<char>,
    ts: Seq<IcsEvent>,
    from: int,
    through: int,
    n: int,
    st: (Map<int, int>, int),
) -> Result<(Map<int, int>, int), ErrorCode>
    decreases n,
{
    if n <= 0 {
        Ok(st)
    } else {
        match transitions_check(id, ts, from, through, n - 1, st) {
            Err(e) => Err(e),
            Ok((m, b)) => match transition_info(ts[n - 1].properties@, through, b) {
                Err(e) => Err(e),
                Ok((ds, before, after, left)) => match dates_check(id, ds, before, after, from, through, ds.len() as int, m) {
                    Err(e) => Err(e),
                    Ok(m2) => Ok((m2, left)),
                },
            },
        }
    }
}

/// The offset in force at an instant: that of the latest transition at or
/// before it.
#[verifier::opaque]
pub open spec fn in_force(m: Map<int, int>, at: int) -> Option<int> {
    if exists|t: int| #[trigger] m.dom().contains(t) && t <= at && forall|u: int| #[trigger] m.dom().contains(u) && u <= at ==> u <= t {
        Some(m[choose|t: int| #[trigger] m.dom().contains(t) && t <= at && forall|u: int| #[trigger] m.dom().contains(u) && u <= at ==> u <= t])
    } else {
        None
    }
}

/// The first `n` days from `from` checked: at noon UTC of each, the offset
/// the definition puts in force must be chrono-tz's.
pub open spec fn days_check(id: Seq<char>, m: Map<int, int>, from: int, n: int) -> Result<(), ErrorCode>
    decreases n,
{
    if n <= 0 {
        Ok(())
    } else {
        match days_check(id, m, from, n - 1) {
            Err(e) => Err(e),
            Ok(_) => {
                let instant = (from + n - 1) * 86400 + 43200;
                match in_force(m, instant) {
                    None => Err(ErrorCode::UnsupportedCalendarTimezone),
                    Some(expected) => if !crate::time::wall_in_range(id, instant) {
                        Err(ErrorCode::InvalidIcs)
                    } else if zone_offset(id, instant) != expected {
                        Err(ErrorCode::UnsupportedCalendarTimezone)
                    } else {
                        Ok(())
                    },
                }
            },
        }
    }
}

/// One zone definition checked: its TZID must name a chrono-tz zone not
/// defined before, with at most 32 transitions, each as chrono-tz defines
/// it, putting the defined offset in force at noon of each day.
pub open spec fn zone_check(z: IcsZone, ids: Seq<Seq<char>>, budget: int, from: int, through: int) -> Result<
    (Seq<Seq<char>>, int),
    ErrorCode,
> {
    match tzid_of(z.header.properties@) {
        Err(e) => Err(e),
        Ok(id) => if !tz_known(id) {
            Err(ErrorCode::UnsupportedCalendarTimezone)
        } else if ids.contains(id) || z.transitions@.len() > 32 {
            Err(ErrorCode::CalendarLimit)
        } else {
            match transitions_check(id, z.transitions@, from, through, z.transitions@.len() as int, (Map::empty(), budget)) {
                Err(e) => Err(e),
                Ok((m, left)) => match days_check(id, m, from, through - from + 1) {
                    Err(e) => Err(e),
                    Ok(_) => Ok((ids.push(id), left)),
                },
            }
        },
    }
}

/// The first `n` zone definitions checked in order, sharing a day budget.
pub open spec fn zones_check(zones: Seq<IcsZone>, from: int, through: int, n: int) -> Result<(Seq<Seq<char>>, int), ErrorCode>
    decreases n,
{
    if n <= 0 {
        Ok((Seq::empty(), 1_000_000))
    } else {
        match zones_check(zones, from, through, n - 1) {
            Err(e) => Err(e),
            Ok((ids, b)) => zone_check(zones[n - 1], ids, b, from, through),
        }
    }
}

/// The verdict on a calendar's zone definitions for the window `from`
/// through `through` (day numbers): at most 16 of them, each as
/// `zone_check` requires.
pub open spec fn zones_verdict(zones: Seq<IcsZone>, from: int, through: int) -> Result<(), ErrorCode> {
    if zones.len() > 16 {
        Err(ErrorCode::CalendarLimit)
    } else {
        match zones_check(zones, from, through, zones.len() as int) {
            Err(e) => Err(e),
            Ok(_) => Ok(()),
        }
    }
}

/// Distinct transition instants.
pub open spec fn times_unique(v: Seq<(i64, i32)>) -> bool {
    forall|i: int, j: int| 0 <= i < j < v.len() ==> (#[trigger] v[i]).0 != (#[trigger] v[j]).0
}

/// Whether some recorded transition happens at `t`.
pub open spec fn has_time(v: Seq<(i64, i32)>, t: int) -> bool {
    exists|i: int| 0 <= i < v.len() && (#[trigger] v[i]).0 == t
}

/// Recorded transitions as a map from instant to the offset from then on.
pub open spec fn trans_map(v: Seq<(i64, i32)>) -> Map<int, int> {
    Map::new(
        |t: int| has_time(v, t),
        |t: int| v[choose|i: int| 0 <= i < v.len() && (#[trigger] v[i]).0 == t].1 as int,
    )
}

/// The map gives the offset of the transition at a position.
proof fn lemma_trans_at(v: Seq<(i64, i32)>, i: int)
    requires
        times_unique(v),
        0 <= i < v.len(),
    ensures
        trans_map(v).contains_key(v[i].0 as int),
        trans_map(v)[v[i].0 as int] == v[i].1 as int,
{
    assert(has_time(v, v[i].0 as int));
    let j = choose|j: int| 0 <= j < v.len() && (#[trigger] v[j]).0 == v[i].0 as int;
    if i != j {
        if i < j {
            assert(v[i].0 != v[j].0);
        } else {
            assert(v[j].0 != v[i].0);
        }
    }
}

/// The position of a zone's TZID property, and its value (see `tzid_of`).
fn zone_id(ps: &[IcsProperty]) -> (r: Result<&str, ErrorCode>)
    ensures
        match (tzid_of(ps@), r) {
            (Ok(a), Ok(b)) => a == b@,
            (Err(a), Err(b)) => a == b,
            _ => false,
        },
{
    proof {
        reveal_strlit("TZID");
        assert(ps@.skip(0) =~= ps@);
    }
    let mut k: usize = 0;
    while k < ps.len() && !str_eq(ps[k].name.as_str(), "TZID")
        invariant
            k <= ps@.len(),
            tzid_of(ps@) == tzid_of(ps@.skip(k as int)),
        decreases ps.len() - k,
    {
        assert(ps@.skip(k as int).drop_first() =~= ps@.skip(k + 1));
        assert(ps@.skip(k as int)[0] == ps@[k as int]);
        k = k + 1;
    }
    if k == ps.len() {
        assert(ps@.skip(k as int).len() == 0);
        return Err(ErrorCode::InvalidIcs);
    }
    assert(ps@.skip(k as int)[0] == ps@[k as int]);
    match &ps[k].value {
        Some(v) => Ok(v.as_str()),
        None => Err(ErrorCode::InvalidIcs),
    }
}

/// The offset of a transition property (see `offset_res`).
fn offset_value(ps: &[IcsProperty], name: &str) -> (r: Result<i32, ErrorCode>)
    ensures
        match (offset_res(ps@, name@), r) {
            (Ok(a), Ok(b)) => a == b as int && -86400 < b < 86400,
            (Err(a), Err(b)) => a == b,
            _ => false,
        },
{
    offset(ps, name)
}

/// Reads one transition in UTC (see `transition_info`), spending the
/// shared day budget on its rule.
fn transition_read(ps: &[IcsProperty], utc: &str, through_dn: i64, budget: &mut usize) -> (r: Result<(Vec<Stamp>, i32, i32), ErrorCode>)
    requires
        tz_known(utc@),
        utc@ == "UTC"@,
        through_dn + 2 <= MAX_DAY,
    ensures
        match transition_info(ps@, through_dn as int, *old(budget) as int) {
            Err(e) => r == Err::<(Vec<Stamp>, i32, i32), ErrorCode>(e),
            Ok((ds, b, a, left)) => r matches Ok((v, bb, aa)) && stamps_view(v@) == ds && bb == b && aa == a
                && -86400 < bb < 86400 && *final(budget) == left && forall|i: int| 0 <= i < v@.len() ==> stamp_ok(#[trigger] v@[i]),
        },
{
    proof {
        reveal_strlit("RDATE");
    }
    let ghost b0 = *budget as int;
    let start = match property(ps, "DTSTART") {
        Ok(Some(i)) => match stamp(&ps[i], utc, None) {
            Ok(s) => s,
            Err(e) => return Err(e),
        },
        Ok(None) => return Err(ErrorCode::InvalidIcs),
        Err(e) => return Err(e),
    };
    let before = match offset_value(ps, "TZOFFSETFROM") {
        Ok(o) => o,
        Err(e) => return Err(e),
    };
    let after = match offset_value(ps, "TZOFFSETTO") {
        Ok(o) => o,
        Err(e) => return Err(e),
    };
    let mut dates: Vec<Stamp> = match value(ps, "RRULE") {
        Err(e) => return Err(e),
        Ok(Some(rule)) => match rule_dates(&start, rule, through_dn + 2, budget) {
            Ok(v) => v,
            Err(e) => return Err(e),
        },
        Ok(None) => {
            let mut v: Vec<Stamp> = Vec::new();
            let ghost sv = stamp_view(start);
            v.push(start);
            assert(stamps_view(v@) =~= seq![sv]);
            v
        },
    };
    let ghost found = stamps_view(dates@);
    let ghost left = *budget as int;
    assert(forall|e: ErrorCode| rdate_stamps(ps@, ps@.len() as int) == Err::<Seq<(CivilDate, int, Seq<char>, bool)>, ErrorCode>(e) ==> transition_info(ps@, through_dn as int, b0) == Err::<(Seq<(CivilDate, int, Seq<char>, bool)>, int, int, int), ErrorCode>(e));
    let mut q: usize = 0;
    assert(found + Seq::<(CivilDate, int, Seq<char>, bool)>::empty() =~= found);
    while q < ps.len()
        invariant
            tz_known(utc@),
            utc@ == "UTC"@,
            q <= ps@.len(),
            *budget as int == left,
            b0 == *old(budget) as int,
            forall|e: ErrorCode| rdate_stamps(ps@, ps@.len() as int) == Err::<Seq<(CivilDate, int, Seq<char>, bool)>, ErrorCode>(e) ==> transition_info(ps@, through_dn as int, b0) == Err::<(Seq<(CivilDate, int, Seq<char>, bool)>, int, int, int), ErrorCode>(e),
            forall|i: int| 0 <= i < dates@.len() ==> stamp_ok(#[trigger] dates@[i]),
            rdate_stamps(ps@, q as int) matches Ok(rd) && stamps_view(dates@) == found + rd,
        decreases ps.len() - q,
    {
        let ghost rd0 = rdate_stamps(ps@, q as int)->Ok_0;
        if str_eq(ps[q].name.as_str(), "RDATE") {
            let raw: Vec<char> = match &ps[q].value {
                Some(v) => chars_of(v.as_str()),
                None => Vec::new(),
            };
            let ghost text = match ps@[q as int].value {
                Some(t) => t@,
                None => Seq::<char>::empty(),
            };
            assert(raw@ == text);
            let pieces_v = split_on(raw.as_slice(), ',');
            let ghost all = pieces(raw@, ',');
            let mut w: usize = 0;
            assert(all.take(0) =~= Seq::<Seq<char>>::empty());
            assert(found + rd0 + Seq::<(CivilDate, int, Seq<char>, bool)>::empty() =~= found + rd0);
            while w < pieces_v.len()
                invariant
                    w <= pieces_v@.len(),
                    q < ps@.len(),
                    tz_known(utc@),
                    utc@ == "UTC"@,
                    *budget as int == left,
                    pieces_v@.len() == all.len(),
                    forall|i: int| 0 <= i < pieces_v@.len() ==> #[trigger] pieces_v@[i]@ == all[i],
                    forall|i: int| 0 <= i < dates@.len() ==> stamp_ok(#[trigger] dates@[i]),
                    utc_pieces(ps@[q as int], all.take(w as int)) matches Ok(st) && stamps_view(dates@) == found + rd0 + st,
                    ps@[q as int].name@ == "RDATE"@,
                    b0 == *old(budget) as int,
                    forall|e: ErrorCode| rdate_stamps(ps@, ps@.len() as int) == Err::<Seq<(CivilDate, int, Seq<char>, bool)>, ErrorCode>(e) ==> transition_info(ps@, through_dn as int, b0) == Err::<(Seq<(CivilDate, int, Seq<char>, bool)>, int, int, int), ErrorCode>(e),
                    rdate_stamps(ps@, q as int) == Ok::<Seq<(CivilDate, int, Seq<char>, bool)>, ErrorCode>(rd0),
                    all == pieces(text, ','),
                    text == match ps@[q as int].value {
                        Some(t) => t@,
                        None => Seq::<char>::empty(),
                    },
                decreases pieces_v.len() - w,
            {
                let ghost st0 = utc_pieces(ps@[q as int], all.take(w as int))->Ok_0;
                let ghost dv = dates@;
                assert(all.take(w + 1).drop_last() =~= all.take(w as int));
                assert(all.take(w + 1).last() == all[w as int]);
                let piece = string_from_chars(pieces_v[w].as_slice());
                match stamp(&ps[q], utc, Some(piece.as_str())) {
                    Ok(d) => {
                        dates.push(d);
                        assert(stamps_view(dates@) =~= stamps_view(dv).push(stamp_view(d)));
                        assert(found + rd0 + st0.push(stamp_view(d)) =~= (found + rd0 + st0).push(stamp_view(d)));
                    },
                    Err(e) => {
                        proof {
                            assert(piece@ == all[w as int]);
                            assert(utc_pieces(ps@[q as int], all.take(w + 1)) == Err::<Seq<(CivilDate, int, Seq<char>, bool)>, ErrorCode>(e));
                            lemma_utc_pieces_error_stays(ps@[q as int], all, w + 1);
                            assert(utc_pieces(ps@[q as int], all) == Err::<Seq<(CivilDate, int, Seq<char>, bool)>, ErrorCode>(e));
                            assert(utc_pieces(ps@[q as int], pieces(text, ',')) == Err::<Seq<(CivilDate, int, Seq<char>, bool)>, ErrorCode>(e));
                            assert(rdate_stamps(ps@, q + 1) == Err::<Seq<(CivilDate, int, Seq<char>, bool)>, ErrorCode>(e));
                            lemma_rdate_error_stays(ps@, q + 1, ps@.len() as int);
                        }
                        return Err(e);
                    },
                }
                w = w + 1;
            }
            proof {
                assert(all.take(w as int) =~= all);
                let st = utc_pieces(ps@[q as int], all)->Ok_0;
                assert(rdate_stamps(ps@, q + 1) == Ok::<Seq<(CivilDate, int, Seq<char>, bool)>, ErrorCode>(rd0 + st));
                assert(found + rd0 + st =~= found + (rd0 + st));
            }
        }
        q = q + 1;
    }
    Ok((dates, before, after))
}

/// A failed piece fails every longer run of pieces.
proof fn lemma_utc_pieces_error_stays(p: IcsProperty, parts: Seq<Seq<char>>, w: int)
    requires
        0 <= w <= parts.len(),
        utc_pieces(p, parts.take(w)) is Err,
    ensures
        utc_pieces(p, parts) == utc_pieces(p, parts.take(w)),
    decreases parts.len() - w,
{
    if w < parts.len() {
        assert(parts.take(w + 1).drop_last() =~= parts.take(w));
        lemma_utc_pieces_error_stays(p, parts, w + 1);
    } else {
        assert(parts.take(w) =~= parts);
    }
}

/// A failed RDATE fails every longer run of properties.
proof fn lemma_rdate_error_stays(ps: Seq<IcsProperty>, n: int, m: int)
    requires
        0 <= n <= m,
        rdate_stamps(ps, n) is Err,
    ensures
        rdate_stamps(ps, m) == rdate_stamps(ps, n),
    decreases m - n,
{
    if n < m {
        lemma_rdate_error_stays(ps, n, m - 1);
    }
}

/// A failed date fails every longer run of dates.
proof fn lemma_dates_check_error_stays(
    id: Seq<char>,
    ds: Seq<(CivilDate, int, Seq<char>, bool)>,
    before: int,
    after: int,
    from: int,
    through: int,
    n: int,
    m: int,
    m0: Map<int, int>,
)
    requires
        0 <= n <= m,
        dates_check(id, ds, before, after, from, through, n, m0) is Err,
    ensures
        dates_check(id, ds, before, after, from, through, m, m0) == dates_check(id, ds, before, after, from, through, n, m0),
    decreases m - n,
{
    if n < m {
        lemma_dates_check_error_stays(id, ds, before, after, from, through, n, m - 1, m0);
    }
}

/// Checks the dates of one transition and records them (see `dates_check`).
fn check_dates(
    id: &str,
    dates: &Vec<Stamp>,
    before: i32,
    after: i32,
    from_dn: i64,
    through_dn: i64,
    transitions: &mut Vec<(i64, i32)>,
) -> (r: Result<(), ErrorCode>)
    requires
        tz_known(id@),
        forall|i: int| 0 <= i < dates@.len() ==> stamp_ok(#[trigger] dates@[i]),
        -250_000_000 <= from_dn <= 250_000_000,
        -250_000_000 <= through_dn <= 250_000_000,
        -86400 < before < 86400,
        times_unique(old(transitions)@),
    ensures
        times_unique(final(transitions)@),
        match dates_check(id@, stamps_view(dates@), before as int, after as int, from_dn as int, through_dn as int, dates@.len() as int, trans_map(old(transitions)@)) {
            Err(e) => r == Err::<(), ErrorCode>(e),
            Ok(m) => r is Ok && trans_map(final(transitions)@) == m,
        },
{
    let ghost ds = stamps_view(dates@);
    let ghost m0 = trans_map(transitions@);
    let mut di: usize = 0;
    while di < dates.len()
        invariant
            tz_known(id@),
            di <= dates@.len(),
            ds == stamps_view(dates@),
            ds.len() == dates@.len(),
            forall|i: int| 0 <= i < dates@.len() ==> stamp_ok(#[trigger] dates@[i]),
            -250_000_000 <= from_dn <= 250_000_000,
            -250_000_000 <= through_dn <= 250_000_000,
            -86400 < before < 86400,
            times_unique(transitions@),
            m0 == trans_map(old(transitions)@),
            dates_check(id@, ds, before as int, after as int, from_dn as int, through_dn as int, di as int, m0)
                == Ok::<Map<int, int>, ErrorCode>(trans_map(transitions@)),
        decreases dates.len() - di,
    {
        let d = &dates[di];
        assert(ds[di as int] == stamp_view(*d));
        proof {
            crate::time::lemma_day_number_bounds(d.date);
        }
        let dn = day_number_exec(d.date);
        let instant = dn * 86400 + d.second as i64 - before as i64;
        let ghost before_map = trans_map(transitions@);
        set_transition(transitions, instant, after);
        if dn >= from_dn - 2 && dn <= through_dn + 2 {
            let actual = match offset_at(id, instant) {
                Ok(o) => o,
                Err(e) => {
                    proof {
                        lemma_dates_check_error_stays(id@, ds, before as int, after as int, from_dn as int, through_dn as int, di + 1, ds.len() as int, m0);
                    }
                    return Err(e);
                },
            };
            let previous = match offset_at(id, instant - 1) {
                Ok(o) => o,
                Err(e) => {
                    proof {
                        lemma_dates_check_error_stays(id@, ds, before as int, after as int, from_dn as int, through_dn as int, di + 1, ds.len() as int, m0);
                    }
                    return Err(e);
                },
            };
            if actual != after as i64 || previous != before as i64 {
                proof {
                    lemma_dates_check_error_stays(id@, ds, before as int, after as int, from_dn as int, through_dn as int, di + 1, ds.len() as int, m0);
                }
                return Err(ErrorCode::UnsupportedCalendarTimezone);
            }
        }
        di = di + 1;
    }
    Ok(())
}

/// A failed day fails every longer run of days.
proof fn lemma_days_check_error_stays(id: Seq<char>, m: Map<int, int>, from: int, n: int, k: int)
    requires
        0 <= n <= k,
        days_check(id, m, from, n) is Err,
    ensures
        days_check(id, m, from, k) == days_check(id, m, from, n),
    decreases k - n,
{
    if n < k {
        lemma_days_check_error_stays(id, m, from, n, k - 1);
    }
}

/// Checks the offset at noon of each day of the window (see `days_check`).
#[verifier::rlimit(40)]
fn check_days(id: &str, transitions: &Vec<(i64, i32)>, from_dn: i64, through_dn: i64) -> (r: Result<(), ErrorCode>)
    requires
        tz_known(id@),
        times_unique(transitions@),
        -250_000_000 <= from_dn <= 250_000_000,
        -250_000_000 <= through_dn <= 250_000_000,
    ensures
        match days_check(id@, trans_map(transitions@), from_dn as int, through_dn - from_dn + 1) {
            Err(e) => r == Err::<(), ErrorCode>(e),
            Ok(_) => r is Ok,
        },
{
    let ghost m = trans_map(transitions@);
    let ghost total = through_dn - from_dn + 1;
    let mut day = from_dn;
    while day <= through_dn
        invariant
            tz_known(id@),
            times_unique(transitions@),
            m == trans_map(transitions@),
            total == through_dn - from_dn + 1,
            -250_000_000 <= from_dn <= 250_000_000,
            -250_000_000 <= through_dn <= 250_000_000,
            from_dn <= day,
            day <= through_dn + 1 || day == from_dn,
            days_check(id@, m, from_dn as int, day - from_dn) == Ok::<(), ErrorCode>(()),
        decreases through_dn + 1 - day,
    {
        let instant = day * 86400 + 43200;
        assert(from_dn + (day - from_dn + 1) - 1 == day);
        let expected = match offset_in_force(transitions, instant) {
            Some(o) => o,
            None => {
                proof {
                    lemma_days_check_error_stays(id@, m, from_dn as int, day - from_dn + 1, total);
                }
                return Err(ErrorCode::UnsupportedCalendarTimezone);
            },
        };
        let actual = match offset_at(id, instant) {
            Ok(o) => o,
            Err(e) => {
                proof {
                    lemma_days_check_error_stays(id@, m, from_dn as int, day - from_dn + 1, total);
                }
                return Err(e);
            },
        };
        if actual != expected as i64 {
            proof {
                lemma_days_check_error_stays(id@, m, from_dn as int, day - from_dn + 1, total);
            }
            return Err(ErrorCode::UnsupportedCalendarTimezone);
        }
        day = day + 1;
    }
    Ok(())
}

/// Sets the offset in force from an instant, replacing an earlier entry for
/// the same instant.
fn set_transition(v: &mut Vec<(i64, i32)>, at: i64, to: i32)
    requires
        times_unique(old(v)@),
    ensures
        times_unique(final(v)@),
        trans_map(final(v)@) == trans_map(old(v)@).insert(at as int, to as int),
{
    let ghost ov = v@;
    let mut i: usize = 0;
    while i < v.len()
        invariant
            i <= v@.len(),
            v@ == ov,
            ov == old(v)@,
            times_unique(ov),
            forall|j: int| 0 <= j < i ==> (#[trigger] ov[j]).0 != at,
        decreases v.len() - i,
    {
        if v[i].0 == at {
            v.set(i, (at, to));
            proof {
                assert forall|a: int, b: int| 0 <= a < b < v@.len() implies (#[trigger] v@[a]).0 != (#[trigger] v@[b]).0 by {
                    assert(v@[a].0 == ov[a].0 && v@[b].0 == ov[b].0);
                }
                let nm = trans_map(v@);
                let om = trans_map(ov).insert(at as int, to as int);
                assert forall|t: int| nm.contains_key(t) <==> om.contains_key(t) by {
                    if has_time(v@, t) {
                        let j = choose|j: int| 0 <= j < v@.len() && (#[trigger] v@[j]).0 == t;
                        assert(ov[j].0 == v@[j].0);
                        assert(has_time(ov, t));
                    }
                    if has_time(ov, t) {
                        let j = choose|j: int| 0 <= j < ov.len() && (#[trigger] ov[j]).0 == t;
                        assert(v@[j].0 == ov[j].0);
                        assert(has_time(v@, t));
                    }
                    if t == at {
                        assert(v@[i as int].0 == at);
                        assert(has_time(v@, t));
                    }
                }
                assert forall|t: int| nm.contains_key(t) implies nm[t] == om[t] by {
                    let j = choose|j: int| 0 <= j < v@.len() && (#[trigger] v@[j]).0 == t;
                    lemma_trans_at(v@, j);
                    if j != i {
                        assert(v@[j] == ov[j]);
                        assert(ov[j].0 != ov[i as int].0);
                        lemma_trans_at(ov, j);
                    }
                }
                assert(nm =~= om);
            }
            return;
        }
        i = i + 1;
    }
    v.push((at, to));
    proof {
        assert(v@ == ov.push((at, to)));
        assert forall|a: int, b: int| 0 <= a < b < v@.len() implies (#[trigger] v@[a]).0 != (#[trigger] v@[b]).0 by {
            if b == ov.len() {
                assert(ov[a].0 != at);
            } else {
                assert(v@[a] == ov[a] && v@[b] == ov[b]);
            }
        }
        let nm = trans_map(v@);
        let om = trans_map(ov).insert(at as int, to as int);
        assert forall|t: int| nm.contains_key(t) <==> om.contains_key(t) by {
            if has_time(v@, t) && t != at {
                let j = choose|j: int| 0 <= j < v@.len() && (#[trigger] v@[j]).0 == t;
                assert(j < ov.len());
                assert(ov[j].0 == t);
                assert(has_time(ov, t));
            }
            if has_time(ov, t) {
                let j = choose|j: int| 0 <= j < ov.len() && (#[trigger] ov[j]).0 == t;
                assert(v@[j].0 == t);
                assert(has_time(v@, t));
            }
            if t == at {
                assert(v@[ov.len() as int].0 == at);
                assert(has_time(v@, t));
            }
        }
        assert forall|t: int| nm.contains_key(t) implies nm[t] == om[t] by {
            let j = choose|j: int| 0 <= j < v@.len() && (#[trigger] v@[j]).0 == t;
            lemma_trans_at(v@, j);
            if j < ov.len() {
                assert(v@[j] == ov[j]);
                lemma_trans_at(ov, j);
            }
        }
        assert(nm =~= om);
    }
}

/// The offset in force at an instant (see `in_force`).
fn offset_in_force(v: &Vec<(i64, i32)>, at: i64) -> (r: Option<i32>)
    requires
        times_unique(v@),
    ensures
        match r {
            Some(o) => in_force(trans_map(v@), at as int) == Some(o as int),
            None => in_force(trans_map(v@), at as int) is None,
        },
{
    reveal(in_force);
    let ghost m = trans_map(v@);
    let mut best: Option<(i64, i32)> = None;
    let mut bi: usize = 0;
    let mut i: usize = 0;
    while i < v.len()
        invariant
            i <= v@.len(),
            m == trans_map(v@),
            best is None ==> forall|k: int| 0 <= k < i ==> (#[trigger] v@[k]).0 > at,
            best matches Some(b) ==> bi < i && v@[bi as int] == b && b.0 <= at && forall|k: int|
                0 <= k < i && (#[trigger] v@[k]).0 <= at ==> v@[k].0 <= b.0,
        decreases v.len() - i,
    {
        let (t, o) = v[i];
        if t <= at {
            match best {
                Some((bt, _)) => {
                    if t > bt {
                        best = Some((t, o));
                        bi = i;
                    }
                },
                None => {
                    best = Some((t, o));
                    bi = i;
                },
            }
        }
        i = i + 1;
    }
    match best {
        Some((bt, o)) => {
            proof {
                lemma_trans_at(v@, bi as int);
                let bt_i = bt as int;
                assert(m.dom().contains(bt_i) && bt_i <= at && forall|u: int| #[trigger] m.dom().contains(u) && u <= at ==> u <= bt_i) by {
                    assert forall|u: int| #[trigger] m.dom().contains(u) && u <= at implies u <= bt_i by {
                        let k = choose|k: int| 0 <= k < v@.len() && (#[trigger] v@[k]).0 == u;
                    }
                }
                let c = choose|t: int| #[trigger] m.dom().contains(t) && t <= at && forall|u: int| #[trigger] m.dom().contains(u) && u <= at ==> u <= t;
                assert(c <= bt_i && bt_i <= c);
            }
            Some(o)
        },
        None => {
            proof {
                if exists|t: int| #[trigger] m.dom().contains(t) && t <= at && forall|u: int| #[trigger] m.dom().contains(u) && u <= at ==> u <= t {
                    let c = choose|t: int| #[trigger] m.dom().contains(t) && t <= at && forall|u: int| #[trigger] m.dom().contains(u) && u <= at ==> u <= t;
                    let k = choose|k: int| 0 <= k < v@.len() && (#[trigger] v@[k]).0 == c;
                }
            }
            None
        },
    }
}

/// The zone definitions a calendar carries must agree with chrono-tz's rules
/// for the same zone names over the imported window (see `zones_verdict`):
/// every transition near the window happens as defined, and the offset at
/// noon of each day is the defined one. At most 16 zones of at most 32
/// transitions each.
#[verifier::rlimit(80)]
pub fn validate_timezones(zones: &[IcsZone], from: CivilDate, through: CivilDate) -> (r: Result<(), ErrorCode>)
    requires
        valid_date(from),
        valid_date(through),
        1900 <= from.year <= 9999,
        1900 <= through.year <= 9999,
    ensures
        r == zones_verdict(zones@, day_number(from), day_number(through)),
{
    if zones.len() > 16 {
        return Err(ErrorCode::CalendarLimit);
    }
    proof {
        crate::time::lemma_day_number_range(from);
        crate::time::lemma_day_number_range(through);
        crate::time::lemma_day_number_bounds(from);
        crate::time::lemma_day_number_bounds(through);
        let last = CivilDate { year: 9999, month: 12, day: 31 };
        if through != last {
            crate::time::lemma_day_number_monotone(through, last);
        }
        assert(day_number(last) + 2 <= MAX_DAY);
        reveal_strlit("UTC");
    }
    let from_dn = day_number_exec(from);
    let through_dn = day_number_exec(through);
    let utc = utc_zone();
    let mut ids: Vec<Vec<char>> = Vec::new();
    let mut budget: usize = 1_000_000;
    let mut z: usize = 0;
    assert(ids@.map_values(|c: Vec<char>| c@) =~= Seq::<Seq<char>>::empty());
    while z < zones.len()
        invariant
            zones@.len() <= 16,
            z <= zones@.len(),
            tz_known(utc@),
            utc@ == "UTC"@,
            from_dn == day_number(from),
            through_dn == day_number(through),
            -250_000_000 <= from_dn <= 250_000_000,
            -250_000_000 <= through_dn <= 250_000_000,
            through_dn + 2 <= MAX_DAY,
            zones_check(zones@, from_dn as int, through_dn as int, z as int)
                == Ok::<(Seq<Seq<char>>, int), ErrorCode>((ids@.map_values(|c: Vec<char>| c@), budget as int)),
        decreases zones.len() - z,
    {
        let ghost ids0 = ids@.map_values(|c: Vec<char>| c@);
        let ghost b0 = budget as int;
        let tz = &zones[z];
        let ghost zv = zones@[z as int];
        assert(*tz == zv);
        assert(zones_check(zones@, from_dn as int, through_dn as int, z + 1) == zone_check(zv, ids0, b0, from_dn as int, through_dn as int));
        let id: &str = match zone_id(tz.header.properties.as_slice()) {
            Ok(id) => id,
            Err(e) => {
                proof { lemma_zones_error_stays(zones@, from_dn as int, through_dn as int, z + 1, zones@.len() as int); }
                return Err(e);
            },
        };
        if !zone_known(id) {
            proof { lemma_zones_error_stays(zones@, from_dn as int, through_dn as int, z + 1, zones@.len() as int); }
            return Err(ErrorCode::UnsupportedCalendarTimezone);
        }
        let idc = chars_of(id);
        let mut seen = false;
        let mut j: usize = 0;
        while j < ids.len()
            invariant
                j <= ids@.len(),
                ids0 == ids@.map_values(|c: Vec<char>| c@),
                seen <==> exists|q: int| 0 <= q < j && ids0[q] == idc@,
            decreases ids.len() - j,
        {
            assert(ids0[j as int] == ids@[j as int]@);
            if crate::text::chars_eq(ids[j].as_slice(), idc.as_slice()) {
                seen = true;
            }
            j = j + 1;
        }
        proof {
            if ids0.contains(id@) {
                let q = choose|q: int| 0 <= q < ids0.len() && ids0[q] == id@;
            }
        }
        if seen || tz.transitions.len() > 32 {
            proof { lemma_zones_error_stays(zones@, from_dn as int, through_dn as int, z + 1, zones@.len() as int); }
            return Err(ErrorCode::CalendarLimit);
        }
        let mut transitions: Vec<(i64, i32)> = Vec::new();
        proof {
            assert(trans_map(transitions@) =~= Map::<int, int>::empty());
        }
        let ghost ts = tz.transitions@;
        assert(ts == zv.transitions@);
        assert(zone_check(zv, ids0, b0, from_dn as int, through_dn as int) == match transitions_check(id@, ts, from_dn as int, through_dn as int, ts.len() as int, (Map::empty(), b0)) {
                    Err(e) => Err::<(Seq<Seq<char>>, int), ErrorCode>(e),
                    Ok((m, left)) => match days_check(id@, m, from_dn as int, through_dn - from_dn + 1) {
                        Err(e) => Err::<(Seq<Seq<char>>, int), ErrorCode>(e),
                        Ok(_) => Ok::<(Seq<Seq<char>>, int), ErrorCode>((ids0.push(id@), left)),
                    },
                });
        let mut t: usize = 0;
        while t < tz.transitions.len()
            invariant
                t <= ts.len(),
                ts == tz.transitions@,
                tz_known(utc@),
                utc@ == "UTC"@,
                tz_known(id@),
                -250_000_000 <= from_dn <= 250_000_000,
                -250_000_000 <= through_dn <= 250_000_000,
                through_dn + 2 <= MAX_DAY,
                times_unique(transitions@),
                z < zones@.len(),
                zones@.len() <= 16,
                from_dn == day_number(from),
                through_dn == day_number(through),
                zones_check(zones@, from_dn as int, through_dn as int, z + 1) == zone_check(zv, ids0, b0, from_dn as int, through_dn as int),
                zone_check(zv, ids0, b0, from_dn as int, through_dn as int) == match transitions_check(id@, ts, from_dn as int, through_dn as int, ts.len() as int, (Map::empty(), b0)) {
                    Err(e) => Err::<(Seq<Seq<char>>, int), ErrorCode>(e),
                    Ok((m, left)) => match days_check(id@, m, from_dn as int, through_dn - from_dn + 1) {
                        Err(e) => Err::<(Seq<Seq<char>>, int), ErrorCode>(e),
                        Ok(_) => Ok::<(Seq<Seq<char>>, int), ErrorCode>((ids0.push(id@), left)),
                    },
                },
                transitions_check(id@, ts, from_dn as int, through_dn as int, t as int, (Map::empty(), b0))
                    == Ok::<(Map<int, int>, int), ErrorCode>((trans_map(transitions@), budget as int)),
            decreases tz.transitions.len() - t,
        {
            let ps = tz.transitions[t].properties.as_slice();
            let (dates, before, after) = match transition_read(ps, utc.as_str(), through_dn, &mut budget) {
                Ok(x) => x,
                Err(e) => {
                    proof {
                        lemma_transitions_error_stays(id@, ts, from_dn as int, through_dn as int, t + 1, ts.len() as int, (Map::empty(), b0));
                        assert(zone_check(zv, ids0, b0, from_dn as int, through_dn as int) == Err::<(Seq<Seq<char>>, int), ErrorCode>(e));
                        lemma_zones_error_stays(zones@, from_dn as int, through_dn as int, z + 1, zones@.len() as int);
                    }
                    return Err(e);
                },
            };
            if let Err(e) = check_dates(id, &dates, before, after, from_dn, through_dn, &mut transitions) {
                proof {
                    lemma_transitions_error_stays(id@, ts, from_dn as int, through_dn as int, t + 1, ts.len() as int, (Map::empty(), b0));
                    assert(zone_check(zv, ids0, b0, from_dn as int, through_dn as int) == Err::<(Seq<Seq<char>>, int), ErrorCode>(e));
                    lemma_zones_error_stays(zones@, from_dn as int, through_dn as int, z + 1, zones@.len() as int);
                }
                return Err(e);
            }
            t = t + 1;
        }
        if let Err(e) = check_days(id, &transitions, from_dn, through_dn) {
            proof {
                lemma_zones_error_stays(zones@, from_dn as int, through_dn as int, z + 1, zones@.len() as int);
            }
            return Err(e);
        }
        ids.push(idc);
        assert(ids@.map_values(|c: Vec<char>| c@) =~= ids0.push(id@));
        z = z + 1;
    }
    Ok(())
}

/// A failed zone fails every longer run of zones.
proof fn lemma_zones_error_stays(zones: Seq<IcsZone>, from: int, through: int, n: int, m: int)
    requires
        0 <= n <= m,
        zones_check(zones, from, through, n) is Err,
    ensures
        zones_check(zones, from, through, m) == zones_check(zones, from, through, n),
    decreases m - n,
{
    if n < m {
        lemma_zones_error_stays(zones, from, through, n, m - 1);
    }
}

/// A failed transition fails every longer run of transitions.
proof fn lemma_transitions_error_stays(id: Seq<char>, ts: Seq<IcsEvent>, from: int, through: int, n: int, m: int, st: (Map<int, int>, int))
    requires
        0 <= n <= m,
        transitions_check(id, ts, from, through, n, st) is Err,
    ensures
        transitions_check(id, ts, from, through, m, st) == transitions_check(id, ts, from, through, n, st),
    decreases m - n,
{
    if n < m {
        lemma_transitions_error_stays(id, ts, from, through, n, m - 1, st);
    }
}

/// The number of line feeds in a text.
pub open spec fn newline_count(s: Seq<char>) -> int
    decreases s.len(),
{
    if s.len() == 0 {
        0
    } else {
        newline_count(s.drop_last()) + if s.last() == '\n' {
            1int
        } else {
            0int
        }
    }
}

/// The number of lines `str::lines` yields: one per line feed, and one for
/// an unterminated last line.
pub open spec fn line_count(s: Seq<char>) -> int {
    newline_count(s) + if s.len() > 0 && s.last() != '\n' {
        1int
    } else {
        0int
    }
}

/// What `ical::IcalParser` reads from a text: its first item (`None` when
/// there is none, `Some(None)` when it is malformed), and whether a second
/// item follows.
pub uninterp spec fn ical_read(input: Seq<char>) -> (Option<Option<IcsCalendar>>, bool);

/// `ical::IcalParser` over the text's bytes: the first item, converted field
/// by field, and whether another item follows, as named by `ical_read`.
#[verifier::external_body]
fn read_calendar(input: &str) -> (r: (Option<Option<IcsCalendar>>, bool))
    ensures
        r == ical_read(input@),
{
    let mut items = IcalParser::new(input.as_bytes());
    let ev = |v: Vec<Property>| IcsEvent { properties: v.into_iter().map(|Property { name, params, value }| IcsProperty { name, params, value }).collect() };
    (items.next().map(|c| c.ok().map(|c| IcsCalendar {
        header: ev(c.properties),
        events: c.events.into_iter().map(|e| ev(e.properties)).collect(),
        timezones: c.timezones.into_iter().map(|z| IcsZone { header: ev(z.properties), transitions: z.transitions.into_iter().map(|t| ev(t.properties)).collect() }).collect(),
    })), items.next().is_some())
}

/// The window an import covers, once its limits are checked: at most 1 MiB
/// and 20 000 lines of input, a known zone, accepted dates, and at most 730
/// days from the first to the last.
pub open spec fn feed_window(input: Seq<char>, timezone: Seq<char>, from: Seq<char>, through: Seq<char>) -> Result<
    (CivilDate, CivilDate),
    ErrorCode,
> {
    if byte_len(input) > 1048576 || line_count(input) > 20000 {
        Err(ErrorCode::CalendarLimit)
    } else if !tz_known(timezone) {
        Err(ErrorCode::InvalidValue)
    } else if crate::time::date_of_text(from) is None || crate::time::date_of_text(through) is None {
        Err(ErrorCode::InvalidValue)
    } else {
        let f = crate::time::date_of_text(from)->Some_0;
        let t = crate::time::date_of_text(through)->Some_0;
        if !(0 <= day_number(t) - day_number(f) <= 730) {
            Err(ErrorCode::CalendarLimit)
        } else {
            Ok((f, t))
        }
    }
}

/// The window of an import (see `feed_window`).
fn window(input: &str, timezone: &str, from: &str, through: &str) -> (r: Result<(CivilDate, CivilDate), ErrorCode>)
    ensures
        r == feed_window(input@, timezone@, from@, through@),
        r matches Ok((f, t)) ==> valid_date(f) && valid_date(t) && 1900 <= f.year <= 9999 && 1900
            <= t.year <= 9999,
{
    if input.len() > 1048576 {
        return Err(ErrorCode::CalendarLimit);
    }
    let chars = chars_of(input);
    let mut count: usize = 0;
    let mut i: usize = 0;
    while i < chars.len()
        invariant
            chars@ == input@,
            i <= chars@.len(),
            count == newline_count(input@.take(i as int)),
            count <= i,
        decreases chars.len() - i,
    {
        proof {
            assert(input@.take(i as int + 1).drop_last() =~= input@.take(i as int));
        }
        if chars[i] == '\n' {
            count = count + 1;
        }
        i = i + 1;
    }
    assert(input@.take(chars@.len() as int) =~= input@);
    let n = chars.len();
    let too_many = if n > 0 && chars[n - 1] != '\n' {
        count >= 20000
    } else {
        count > 20000
    };
    if too_many {
        return Err(ErrorCode::CalendarLimit);
    }
    if !zone_known(timezone) {
        return Err(ErrorCode::InvalidValue);
    }
    let f = match crate::time::parse_date(from) {
        Ok(d) => d,
        Err(e) => return Err(e),
    };
    let t = match crate::time::parse_date(through) {
        Ok(d) => d,
        Err(e) => return Err(e),
    };
    proof {
        crate::time::lemma_day_number_bounds(f);
        crate::time::lemma_day_number_bounds(t);
    }
    let span = day_number_exec(t) - day_number_exec(f);
    if span < 0 || span > 730 {
        return Err(ErrorCode::CalendarLimit);
    }
    Ok((f, t))
}

/// An identity an event may carry: 1 to 512 bytes.
pub open spec fn uid_ok(uid: Seq<char>) -> bool {
    0 < byte_len(uid) <= 512
}

/// Positions of events under keys: in key order, each position valid and
/// each UID acceptable.
pub open spec fn index_ok(v: Seq<(Key, usize)>, n: int) -> bool {
    &&& sorted(v)
    &&& forall|i: int| 0 <= i < v.len() ==> (#[trigger] v[i]).1 < n && uid_ok(v[i].0.0@)
}

/// An event filed under its own UID and instance key.
pub open spec fn event_entry(k: (Seq<char>, Seq<char>), ev: Event) -> bool {
    &&& ev.uid@ == k.0
    &&& ev.original@ == k.1
    &&& ev.status == EventStatus::Present
    &&& ev.sequence >= 0
    &&& uid_ok(k.0)
}

/// Events in key order, each filed under its own UID and instance key.
pub open spec fn events_ok(v: Seq<(Key, Event)>) -> bool {
    &&& sorted(v)
    &&& forall|i: int| 0 <= i < v.len() ==> event_entry(key_view(v[i].0), #[trigger] v[i].1)
}

/// Files an event under its key, replacing an earlier one.
fn put_event(v: &mut Vec<(Key, Event)>, k: Key, ev: Event)
    requires
        events_ok(old(v)@),
        event_entry(key_view(k), ev),
    ensures
        events_ok(final(v)@),
        final(v)@.len() <= old(v)@.len() + 1,
        sets_entry(old(v)@, final(v)@, key_view(k), ev),
{
    let ghost kv = key_view(k);
    let ghost ov = old(v)@;
    insert(v, k, ev);
    proof {
        assert forall|i: int| 0 <= i < v@.len() implies event_entry(key_view(v@[i].0), #[trigger] v@[i].1) by {
            if !(key_view(v@[i].0) == kv && v@[i].1 == ev) {
                assert(ov.contains(v@[i]));
                let j = choose|j: int| 0 <= j < ov.len() && ov[j] == v@[i];
                assert(event_entry(key_view(ov[j].0), ov[j].1));
            }
        }
    }
}

/// Files an index entry under its key; an existing key is refused.
fn put_index(v: &mut Vec<(Key, usize)>, k: Key, x: usize, n: Ghost<int>) -> (r: bool)
    requires
        index_ok(old(v)@, n@),
        x < n@,
        uid_ok(k.0@),
    ensures
        index_ok(final(v)@, n@),
        r == forall|i: int| 0 <= i < old(v)@.len() ==> key_view(#[trigger] old(v)@[i].0) != key_view(k),
        r ==> final(v)@.len() <= old(v)@.len() + 1,
        r ==> sets_entry(old(v)@, final(v)@, key_view(k), x),
        !r ==> final(v)@ == old(v)@,
{
    if find(v, &k).is_some() {
        return false;
    }
    let ghost kv = key_view(k);
    let ghost ov = old(v)@;
    insert(v, k, x);
    proof {
        assert forall|i: int| 0 <= i < v@.len() implies (#[trigger] v@[i]).1 < n@ && uid_ok(v@[i].0.0@) by {
            if !(key_view(v@[i].0) == kv && v@[i].1 == x) {
                assert(ov.contains(v@[i]));
                let j = choose|j: int| 0 <= j < ov.len() && ov[j] == v@[i];
                assert(ov[j].1 < n@ && uid_ok(ov[j].0.0@));
            }
        }
    }
    true
}

/// The key of an identity and an instance key.
fn make_key(uid: &[char], key: &str) -> (k: Key)
    ensures
        k.0@ == uid@,
        k.1@ == key@,
{
    (crate::text::slice_to_vec(uid), chars_of(key))
}

/// Where an event is filed: whether it is a detached instance, and its key,
/// its UID (1 to 512 bytes) with an empty instance key for a master, or
/// with the key of its `RECURRENCE-ID` for a detached instance. A range of
/// instances is unsupported; a missing UID is invalid.
#[verifier::opaque]
pub open spec fn index_entry(ps: Seq<IcsProperty>, zone: Seq<char>) -> Result<(bool, (Seq<char>, Seq<char>)), ErrorCode> {
    match value_of(ps, "UID"@) {
        Err(e) => Err(e),
        Ok(None) => Err(ErrorCode::InvalidIcs),
        Ok(Some(uid)) => if !uid_ok(uid) {
            Err(ErrorCode::InvalidIcs)
        } else {
            match property_of(ps, "RECURRENCE-ID"@) {
                Err(e) => Err(e),
                Ok(None) => Ok((false, (uid, Seq::<char>::empty()))),
                Ok(Some(i)) => match parameter_of(ps[i], "RANGE"@) {
                    Err(e) => Err(e),
                    Ok(Some(_)) => Err(ErrorCode::UnsupportedCalendarRule),
                    Ok(None) => match stamp_of(ps[i], zone, None) {
                        Err(e) => Err(e),
                        Ok(st) => Ok((true, (uid, key_text(st)))),
                    },
                },
            }
        },
    }
}

/// The first error met filing the first `n` events: the error of an event
/// that cannot be filed, or `InvalidIcs` for one filed where an earlier
/// event already is.
pub open spec fn index_error(events: Seq<IcsEvent>, zone: Seq<char>, n: int) -> Option<ErrorCode>
    decreases n,
{
    if n <= 0 {
        None
    } else {
        match index_error(events, zone, n - 1) {
            Some(e) => Some(e),
            None => match index_entry(events[n - 1].properties@, zone) {
                Err(e) => Some(e),
                Ok(entry) => if exists|j: int|
                    0 <= j < n - 1 && #[trigger] index_entry(events[j].properties@, zone) == Ok::<
                        (bool, (Seq<char>, Seq<char>)),
                        ErrorCode,
                    >(entry) {
                    Some(ErrorCode::InvalidIcs)
                } else {
                    None
                },
            },
        }
    }
}

/// `v` files exactly the events among the first `n` whose entries are of
/// the given kind, each under its key.
pub open spec fn files_events(v: Seq<(Key, usize)>, events: Seq<IcsEvent>, zone: Seq<char>, n: int, detached: bool) -> bool {
    &&& forall|t: int|
        0 <= t < v.len() ==> (#[trigger] v[t]).1 < n && index_entry(events[v[t].1 as int].properties@, zone)
            == Ok::<(bool, (Seq<char>, Seq<char>)), ErrorCode>((detached, key_view(v[t].0)))
    &&& forall|i: int|
        0 <= i < n ==> filed_as(v, #[trigger] index_entry(events[i].properties@, zone), i, detached)
}

/// An event with this entry, if it is of the given kind, is filed in `v`
/// under its key.
pub open spec fn filed_as(v: Seq<(Key, usize)>, entry: Result<(bool, (Seq<char>, Seq<char>)), ErrorCode>, i: int, detached: bool) -> bool {
    match entry {
        Ok((d, k)) => d == detached ==> exists|t: int| 0 <= t < v.len() && key_view(v[t].0) == k && v[t].1 == i,
        Err(_) => true,
    }
}

/// Where one event is filed (see `index_entry`).
fn index_one(ps: &[IcsProperty], zone: &str) -> (r: Result<(bool, Key), ErrorCode>)
    requires
        tz_known(zone@),
    ensures
        match (index_entry(ps@, zone@), r) {
            (Ok((d, k)), Ok((e, key))) => d == e && k == key_view(key),
            (Err(a), Err(b)) => a == b,
            _ => false,
        },
        r matches Ok((_, key)) ==> uid_ok(key.0@),
{
    reveal(index_entry);
    let uid: &str = match value(ps, "UID") {
        Ok(Some(u)) => u,
        Ok(None) => return Err(ErrorCode::InvalidIcs),
        Err(e) => return Err(e),
    };
    if uid.len() == 0 || uid.len() > 512 {
        return Err(ErrorCode::InvalidIcs);
    }
    let uidc = chars_of(uid);
    match property(ps, "RECURRENCE-ID") {
        Err(e) => Err(e),
        Ok(Some(i)) => {
            match parameter(&ps[i], "RANGE") {
                Err(e) => return Err(e),
                Ok(Some(_)) => return Err(ErrorCode::UnsupportedCalendarRule),
                Ok(None) => {},
            }
            let st = match stamp(&ps[i], zone, None) {
                Ok(s) => s,
                Err(e) => return Err(e),
            };
            let key = st.key();
            Ok((true, make_key(uidc.as_slice(), key.as_str())))
        },
        Ok(None) => {
            let k = make_key(uidc.as_slice(), "");
            proof {
                reveal_strlit("");
                assert(key_view(k).1 =~= Seq::<char>::empty());
            }
            Ok((false, k))
        },
    }
}

/// Once filing meets an error, that error stands for every longer prefix.
proof fn lemma_index_error_stays(events: Seq<IcsEvent>, zone: Seq<char>, n: int, m: int)
    requires
        n <= m,
        index_error(events, zone, n) is Some,
    ensures
        index_error(events, zone, m) == index_error(events, zone, n),
    decreases m - n,
{
    if n < m {
        lemma_index_error_stays(events, zone, n, m - 1);
    }
}

/// Files events by UID (a master) or by UID and recurrence identity (an
/// override), each at most once (see `index_entry` and `index_error`).
fn index_events(events: &[IcsEvent], zone: &str) -> (r: Result<(Vec<(Key, usize)>, Vec<(Key, usize)>), ErrorCode>)
    requires
        tz_known(zone@),
    ensures
        r matches Ok((m, o)) ==> index_ok(m@, events@.len() as int) && index_ok(o@, events@.len() as int),
        match r {
            Err(e) => index_error(events@, zone@, events@.len() as int) == Some(e),
            Ok((m, o)) => index_error(events@, zone@, events@.len() as int) is None && files_events(
                m@,
                events@,
                zone@,
                events@.len() as int,
                false,
            ) && files_events(o@, events@, zone@, events@.len() as int, true),
        },
{
    let mut masters: Vec<(Key, usize)> = Vec::new();
    let mut overrides: Vec<(Key, usize)> = Vec::new();
    let mut ei: usize = 0;
    while ei < events.len()
        invariant
            tz_known(zone@),
            ei <= events@.len(),
            index_ok(masters@, events@.len() as int),
            index_ok(overrides@, events@.len() as int),
            index_error(events@, zone@, ei as int) is None,
            files_events(masters@, events@, zone@, ei as int, false),
            files_events(overrides@, events@, zone@, ei as int, true),
        decreases events.len() - ei,
    {
        let ghost entry = index_entry(events@[ei as int].properties@, zone@);
        let ghost om = masters@;
        let ghost oo = overrides@;
        let ps = events[ei].properties.as_slice();
        let (detached, k) = match index_one(ps, zone) {
            Ok(x) => x,
            Err(e) => {
                proof {
                    assert(index_error(events@, zone@, ei + 1) == Some(e));
                    lemma_index_error_stays(events@, zone@, ei + 1, events@.len() as int);
                }
                return Err(e);
            },
        };
        let ghost kv = key_view(k);
        let fresh = if detached {
            put_index(&mut overrides, k, ei, Ghost(events@.len() as int))
        } else {
            put_index(&mut masters, k, ei, Ghost(events@.len() as int))
        };
        if !fresh {
            proof {
                let v = if detached { oo } else { om };
                let t = choose|t: int| 0 <= t < v.len() && key_view(v[t].0) == kv;
                assert(index_entry(events@[v[t].1 as int].properties@, zone@) == entry);
                assert(index_error(events@, zone@, ei + 1) == Some(ErrorCode::InvalidIcs));
                lemma_index_error_stays(events@, zone@, ei + 1, events@.len() as int);
            }
            return Err(ErrorCode::InvalidIcs);
        }
        proof {
            if detached {
                lemma_index_unique(events@, zone@, ei as int, entry, oo, true);
                lemma_files_step(oo, overrides@, events@, zone@, ei as int, true, kv);
                lemma_files_other(masters@, events@, zone@, ei as int, false);
            } else {
                lemma_index_unique(events@, zone@, ei as int, entry, om, false);
                lemma_files_step(om, masters@, events@, zone@, ei as int, false, kv);
                lemma_files_other(overrides@, events@, zone@, ei as int, true);
            }
            assert(index_error(events@, zone@, ei + 1) is None);
        }
        ei = ei + 1;
    }
    Ok((masters, overrides))
}

/// An entry filed nowhere yet was met by no earlier event.
proof fn lemma_index_unique(
    events: Seq<IcsEvent>,
    zone: Seq<char>,
    n: int,
    entry: Result<(bool, (Seq<char>, Seq<char>)), ErrorCode>,
    v: Seq<(Key, usize)>,
    d: bool,
)
    requires
        0 <= n < events.len(),
        entry == index_entry(events[n].properties@, zone),
        entry matches Ok((dd, _)) && dd == d,
        files_events(v, events, zone, n, d),
        forall|t: int| 0 <= t < v.len() ==> key_view(#[trigger] v[t].0) != entry->Ok_0.1,
    ensures
        !exists|j: int|
            0 <= j < n && #[trigger] index_entry(events[j].properties@, zone) == entry,
{
    if exists|j: int| 0 <= j < n && #[trigger] index_entry(events[j].properties@, zone) == entry {
        let j = choose|j: int| 0 <= j < n && #[trigger] index_entry(events[j].properties@, zone) == entry;
        let k = entry->Ok_0.1;
        assert(filed_as(v, index_entry(events[j].properties@, zone), j, d));
        let t = choose|t: int| 0 <= t < v.len() && key_view(v[t].0) == k && v[t].1 == j;
        assert(key_view(v[t].0) != k);
    }
}

/// Filing event `n` under its key extends what is filed to `n + 1` events.
proof fn lemma_files_step(
    old: Seq<(Key, usize)>,
    new: Seq<(Key, usize)>,
    events: Seq<IcsEvent>,
    zone: Seq<char>,
    n: int,
    detached: bool,
    k: (Seq<char>, Seq<char>),
)
    requires
        0 <= n < events.len(),
        n <= usize::MAX,
        files_events(old, events, zone, n, detached),
        index_entry(events[n].properties@, zone) == Ok::<(bool, (Seq<char>, Seq<char>)), ErrorCode>((detached, k)),
        sets_entry(old, new, k, n as usize),
        forall|t: int| 0 <= t < old.len() ==> key_view(#[trigger] old[t].0) != k,
    ensures
        files_events(new, events, zone, n + 1, detached),
{
    assert forall|t: int| 0 <= t < new.len() implies (#[trigger] new[t]).1 < n + 1 && index_entry(
        events[new[t].1 as int].properties@,
        zone,
    ) == Ok::<(bool, (Seq<char>, Seq<char>)), ErrorCode>((detached, key_view(new[t].0))) by {
        if !(key_view(new[t].0) == k && new[t].1 == n as usize) {
            let j = choose|j: int| 0 <= j < old.len() && old[j] == new[t];
            assert(old[j].1 < n);
        }
    }
    assert forall|i: int| 0 <= i < n + 1 implies filed_as(new, #[trigger] index_entry(events[i].properties@, zone), i, detached) by {
        if i < n && (index_entry(events[i].properties@, zone) matches Ok((d, _)) && d == detached) {
            let kk = index_entry(events[i].properties@, zone)->Ok_0.1;
            assert(filed_as(old, index_entry(events[i].properties@, zone), i, detached));
            let t = choose|t: int| 0 <= t < old.len() && key_view(old[t].0) == kk && old[t].1 == i;
            if kk == k {
                assert(key_view(old[t].0) != k);
            } else {
                assert(new.contains(old[t]));
                let u = choose|u: int| 0 <= u < new.len() && new[u] == old[t];
                assert(key_view(new[u].0) == kk && new[u].1 == i);
            }
        } else if i == n {
            let u = choose|u: int| 0 <= u < new.len() && key_view(new[u].0) == k && new[u].1 == n as usize;
            assert(key_view(new[u].0) == k && new[u].1 == i);
        }
    }
}

/// Event `n` of the other kind leaves what is filed complete for `n + 1`.
proof fn lemma_files_other(v: Seq<(Key, usize)>, events: Seq<IcsEvent>, zone: Seq<char>, n: int, detached: bool)
    requires
        0 <= n < events.len(),
        files_events(v, events, zone, n, detached),
        !(index_entry(events[n].properties@, zone) matches Ok((d, _)) && d == detached),
    ensures
        files_events(v, events, zone, n + 1, detached),
{
}

/// A timed stamp moved to another zone: the wall time there at the instant
/// the stamp's own wall time resolves to (see `resolve_wall`). A wall time
/// that resolves to no instant is `InvalidValue`; an instant or a local
/// date outside chrono's range is `InvalidIcs`.
pub open spec fn moved_to_zone(d: (CivilDate, int, Seq<char>, bool), zone: Seq<char>) -> Result<
    (CivilDate, int, Seq<char>, bool),
    ErrorCode,
> {
    match resolve_wall(d.2, stamp_local(d)) {
        None => Err(ErrorCode::InvalidValue),
        Some(t) => if !crate::time::wall_in_range(zone, t) {
            Err(ErrorCode::InvalidIcs)
        } else if !(MIN_DAY <= tz_wall_time(zone, t) / 86400 <= MAX_DAY) {
            Err(ErrorCode::InvalidIcs)
        } else {
            Ok(at_local(tz_wall_time(zone, t), (d.0, d.1, zone, false)))
        },
    }
}

/// Moves a timed stamp to another zone (see `moved_to_zone`).
fn to_zone(d: &Stamp, zone: &str) -> (r: Result<Stamp, ErrorCode>)
    requires
        stamp_ok(*d),
        !d.date_only,
        tz_known(zone@),
    ensures
        r matches Ok(s) ==> stamp_ok(s) && s.zone@ == zone@ && !s.date_only,
        match (moved_to_zone(stamp_view(*d), zone@), r) {
            (Ok(v), Ok(s)) => stamp_view(s) == v,
            (Err(a), Err(b)) => a == b,
            _ => false,
        },
{
    proof {
        crate::time::lemma_day_number_bounds(d.date);
    }
    let local = day_number_exec(d.date) * 86400 + d.second as i64;
    let instant = match resolve(d.zone.as_str(), local) {
        Ok(t) => t,
        Err(e) => return Err(e),
    };
    let wall = match crate::time::zone_wall_time(zone, instant) {
        Some(w) => w,
        None => return Err(ErrorCode::InvalidIcs),
    };
    let shifted: i64 = wall + 100_000_000 * 86400;
    let day = shifted / 86400 - 100_000_000;
    assert(day == wall / 86400) by (nonlinear_arith)
        requires shifted == wall + 100_000_000 * 86400, shifted >= 0, day == shifted / 86400 - 100_000_000;
    if day < MIN_DAY || day > MAX_DAY {
        return Err(ErrorCode::InvalidIcs);
    }
    let like = Stamp { date: d.date, second: d.second, zone: zone.to_owned(), date_only: false };
    Ok(stamp_at(wall, &like))
}

/// The instance key a detached instance is refiled under: where its UID has
/// a master with a `DTSTART`, the key of its `RECURRENCE-ID` moved to the
/// zone of that start (both must be of one kind); otherwise its own key.
pub open spec fn normal_key(
    events: Seq<IcsEvent>,
    masters: Seq<(Key, usize)>,
    ps: Seq<IcsProperty>,
    uid: Seq<char>,
    key: Seq<char>,
    zone: Seq<char>,
) -> Result<Seq<char>, ErrorCode> {
    if exists|t: int| 0 <= t < masters.len() && key_view(#[trigger] masters[t].0) == (uid, Seq::<char>::empty()) {
        let t = choose|t: int| 0 <= t < masters.len() && key_view(#[trigger] masters[t].0) == (uid, Seq::<char>::empty());
        let mps = events[masters[t].1 as int].properties@;
        match property_of(mps, "DTSTART"@) {
            Err(e) => Err(e),
            Ok(None) => Ok(key),
            Ok(Some(si)) => match stamp_of(mps[si], zone, None) {
                Err(e) => Err(e),
                Ok(master) => match property_of(ps, "RECURRENCE-ID"@) {
                    Err(e) => Err(e),
                    Ok(None) => Err(ErrorCode::InvalidIcs),
                    Ok(Some(ri)) => match stamp_of(ps[ri], zone, None) {
                        Err(e) => Err(e),
                        Ok(original) => if original.3 != master.3 {
                            Err(ErrorCode::InvalidIcs)
                        } else {
                            match if !original.3 && original.2 != master.2 {
                                moved_to_zone(original, master.2)
                            } else {
                                Ok(original)
                            } {
                                Err(e) => Err(e),
                                Ok(moved) => Ok(key_text(moved)),
                            }
                        },
                    },
                },
            },
        }
    } else {
        Ok(key)
    }
}

/// The refiled key of override `j`.
pub open spec fn normal_entry(events: Seq<IcsEvent>, masters: Seq<(Key, usize)>, overrides: Seq<(Key, usize)>, zone: Seq<char>, j: int) -> Result<
    (Seq<char>, Seq<char>),
    ErrorCode,
> {
    match normal_key(
        events,
        masters,
        events[overrides[j].1 as int].properties@,
        overrides[j].0.0@,
        overrides[j].0.1@,
        zone,
    ) {
        Err(e) => Err(e),
        Ok(k) => Ok((overrides[j].0.0@, k)),
    }
}

/// The first error met refiling the first `n` overrides: the error of one
/// that cannot be refiled, or `InvalidIcs` for one refiled where an earlier
/// one already is.
pub open spec fn normal_error(events: Seq<IcsEvent>, masters: Seq<(Key, usize)>, overrides: Seq<(Key, usize)>, zone: Seq<char>, n: int) -> Option<ErrorCode>
    decreases n,
{
    if n <= 0 {
        None
    } else {
        match normal_error(events, masters, overrides, zone, n - 1) {
            Some(e) => Some(e),
            None => match normal_entry(events, masters, overrides, zone, n - 1) {
                Err(e) => Some(e),
                Ok(k) => if exists|j: int|
                    0 <= j < n - 1 && #[trigger] normal_entry(events, masters, overrides, zone, j) == Ok::<
                        (Seq<char>, Seq<char>),
                        ErrorCode,
                    >(k) {
                    Some(ErrorCode::InvalidIcs)
                } else {
                    None
                },
            },
        }
    }
}

/// Once refiling meets an error, that error stands for every longer prefix.
proof fn lemma_normal_error_stays(events: Seq<IcsEvent>, masters: Seq<(Key, usize)>, overrides: Seq<(Key, usize)>, zone: Seq<char>, n: int, m: int)
    requires
        n <= m,
        normal_error(events, masters, overrides, zone, n) is Some,
    ensures
        normal_error(events, masters, overrides, zone, m) == normal_error(events, masters, overrides, zone, n),
    decreases m - n,
{
    if n < m {
        lemma_normal_error_stays(events, masters, overrides, zone, n, m - 1);
    }
}

/// `v` files exactly the first `n` overrides, each under its refiled key.
pub open spec fn files_refiled(v: Seq<(Key, usize)>, events: Seq<IcsEvent>, masters: Seq<(Key, usize)>, overrides: Seq<(Key, usize)>, zone: Seq<char>, n: int) -> bool {
    &&& forall|t: int|
        0 <= t < v.len() ==> exists|j: int|
            0 <= j < n && #[trigger] normal_entry(events, masters, overrides, zone, j) == Ok::<
                (Seq<char>, Seq<char>),
                ErrorCode,
            >(key_view((#[trigger] v[t]).0)) && v[t].1 == overrides[j].1
    &&& forall|j: int|
        0 <= j < n ==> refiled_as(v, #[trigger] normal_entry(events, masters, overrides, zone, j), overrides[j].1)
}

/// An override with this refiled key is filed in `v` under it.
pub open spec fn refiled_as(v: Seq<(Key, usize)>, entry: Result<(Seq<char>, Seq<char>), ErrorCode>, x: usize) -> bool {
    match entry {
        Ok(k) => exists|t: int| 0 <= t < v.len() && key_view(v[t].0) == k && v[t].1 == x,
        Err(_) => true,
    }
}

/// The refiled key of one override (see `normal_key`).
fn normal_one(
    events: &[IcsEvent],
    masters: &Vec<(Key, usize)>,
    overrides: &Vec<(Key, usize)>,
    zone: &str,
    i: usize,
) -> (r: Result<Key, ErrorCode>)
    requires
        tz_known(zone@),
        i < overrides@.len(),
        index_ok(masters@, events@.len() as int),
        index_ok(overrides@, events@.len() as int),
    ensures
        match (normal_entry(events@, masters@, overrides@, zone@, i as int), r) {
            (Ok(k), Ok(key)) => key_view(key) == k,
            (Err(a), Err(b)) => a == b,
            _ => false,
        },
        r matches Ok(key) ==> uid_ok(key.0@),
{
    let (uid, key) = (&overrides[i].0.0, &overrides[i].0.1);
    let ei = overrides[i].1;
    let ps = events[ei].properties.as_slice();
    let master_key = make_key(uid.as_slice(), "");
    proof {
        reveal_strlit("");
        assert(key_view(master_key) == (uid@, Seq::<char>::empty()));
    }
    let mut new_key: Vec<char> = crate::text::slice_to_vec(key.as_slice());
    if let Some(mi) = find(masters, &master_key) {
        proof {
            let t = choose|t: int| 0 <= t < masters@.len() && key_view(#[trigger] masters@[t].0) == (uid@, Seq::<char>::empty());
            crate::calendars::keyed::lemma_sorted_unique(masters@, t, mi as int);
        }
        let mps = events[masters[mi].1].properties.as_slice();
        match property(mps, "DTSTART") {
            Err(e) => return Err(e),
            Ok(None) => {},
            Ok(Some(si)) => {
                let master = match stamp(&mps[si], zone, None) {
                    Ok(s) => s,
                    Err(e) => return Err(e),
                };
                let original = match property(ps, "RECURRENCE-ID") {
                    Ok(Some(ri)) => match stamp(&ps[ri], zone, None) {
                        Ok(s) => s,
                        Err(e) => return Err(e),
                    },
                    Ok(None) => return Err(ErrorCode::InvalidIcs),
                    Err(e) => return Err(e),
                };
                if original.date_only != master.date_only {
                    return Err(ErrorCode::InvalidIcs);
                }
                let moved = if !original.date_only && !str_eq(original.zone.as_str(), master.zone.as_str()) {
                    match to_zone(&original, master.zone.as_str()) {
                        Ok(s) => s,
                        Err(e) => return Err(e),
                    }
                } else {
                    original
                };
                new_key = chars_of(moved.key().as_str());
            },
        }
    }
    Ok((crate::text::slice_to_vec(uid.as_slice()), new_key))
}

/// Overrides refiled under the recurrence identity their master uses (see
/// `normal_key`), each at most once (see `normal_error`).
#[verifier::rlimit(50)]
fn normalise(
    events: &[IcsEvent],
    masters: &Vec<(Key, usize)>,
    overrides: &Vec<(Key, usize)>,
    zone: &str,
) -> (r: Result<Vec<(Key, usize)>, ErrorCode>)
    requires
        tz_known(zone@),
        index_ok(masters@, events@.len() as int),
        index_ok(overrides@, events@.len() as int),
    ensures
        r matches Ok(n) ==> index_ok(n@, events@.len() as int),
        match r {
            Err(e) => normal_error(events@, masters@, overrides@, zone@, overrides@.len() as int) == Some(e),
            Ok(n) => normal_error(events@, masters@, overrides@, zone@, overrides@.len() as int) is None
                && files_refiled(n@, events@, masters@, overrides@, zone@, overrides@.len() as int),
        },
{
    let mut out: Vec<(Key, usize)> = Vec::new();
    let mut i: usize = 0;
    while i < overrides.len()
        invariant
            tz_known(zone@),
            i <= overrides@.len(),
            index_ok(masters@, events@.len() as int),
            index_ok(overrides@, events@.len() as int),
            index_ok(out@, events@.len() as int),
            normal_error(events@, masters@, overrides@, zone@, i as int) is None,
            files_refiled(out@, events@, masters@, overrides@, zone@, i as int),
        decreases overrides.len() - i,
    {
        let ghost entry = normal_entry(events@, masters@, overrides@, zone@, i as int);
        let ghost before = out@;
        let k = match normal_one(events, masters, overrides, zone, i) {
            Ok(k) => k,
            Err(e) => {
                proof {
                    assert(normal_error(events@, masters@, overrides@, zone@, i + 1) == Some(e));
                    lemma_normal_error_stays(events@, masters@, overrides@, zone@, i + 1, overrides@.len() as int);
                }
                return Err(e);
            },
        };
        let ghost kv = key_view(k);
        let ei = overrides[i].1;
        if !put_index(&mut out, k, ei, Ghost(events@.len() as int)) {
            proof {
                let t = choose|t: int| 0 <= t < before.len() && key_view(before[t].0) == kv;
                let j = choose|j: int|
                    0 <= j < i && #[trigger] normal_entry(events@, masters@, overrides@, zone@, j) == Ok::<
                        (Seq<char>, Seq<char>),
                        ErrorCode,
                    >(key_view((#[trigger] before[t]).0)) && before[t].1 == overrides@[j].1;
                assert(normal_entry(events@, masters@, overrides@, zone@, j) == entry);
                assert(normal_error(events@, masters@, overrides@, zone@, i + 1) == Some(ErrorCode::InvalidIcs));
                lemma_normal_error_stays(events@, masters@, overrides@, zone@, i + 1, overrides@.len() as int);
            }
            return Err(ErrorCode::InvalidIcs);
        }
        proof {
            if exists|j: int| 0 <= j < i && #[trigger] normal_entry(events@, masters@, overrides@, zone@, j) == entry {
                let j = choose|j: int| 0 <= j < i && #[trigger] normal_entry(events@, masters@, overrides@, zone@, j) == entry;
                assert(refiled_as(before, normal_entry(events@, masters@, overrides@, zone@, j), overrides@[j].1));
                let t = choose|t: int| 0 <= t < before.len() && key_view(before[t].0) == kv && before[t].1 == overrides@[j].1;
                assert(key_view(before[t].0) != kv);
            }
            assert(normal_error(events@, masters@, overrides@, zone@, i + 1) is None);
            assert forall|t: int| 0 <= t < out@.len() implies exists|j: int|
                0 <= j < i + 1 && #[trigger] normal_entry(events@, masters@, overrides@, zone@, j) == Ok::<
                    (Seq<char>, Seq<char>),
                    ErrorCode,
                >(key_view((#[trigger] out@[t]).0)) && out@[t].1 == overrides@[j].1 by {
                if key_view(out@[t].0) == kv && out@[t].1 == ei {
                    assert(normal_entry(events@, masters@, overrides@, zone@, i as int) == Ok::<(Seq<char>, Seq<char>), ErrorCode>(key_view(out@[t].0)));
                } else {
                    let u = choose|u: int| 0 <= u < before.len() && before[u] == out@[t];
                    let j = choose|j: int|
                        0 <= j < i && #[trigger] normal_entry(events@, masters@, overrides@, zone@, j) == Ok::<
                            (Seq<char>, Seq<char>),
                            ErrorCode,
                        >(key_view((#[trigger] before[u]).0)) && before[u].1 == overrides@[j].1;
                    assert(0 <= j < i + 1);
                }
            }
            assert forall|j: int| 0 <= j < i + 1 implies refiled_as(out@, #[trigger] normal_entry(events@, masters@, overrides@, zone@, j), overrides@[j].1) by {
                if j < i {
                    if normal_entry(events@, masters@, overrides@, zone@, j) is Ok {
                        let kj = normal_entry(events@, masters@, overrides@, zone@, j)->Ok_0;
                        assert(refiled_as(before, normal_entry(events@, masters@, overrides@, zone@, j), overrides@[j].1));
                        let t = choose|t: int| 0 <= t < before.len() && key_view(before[t].0) == kj && before[t].1 == overrides@[j].1;
                        assert(key_view(before[t].0) != kv);
                        assert(out@.contains(before[t]));
                        let u = choose|u: int| 0 <= u < out@.len() && out@[u] == before[t];
                        assert(key_view(out@[u].0) == kj && out@[u].1 == overrides@[j].1);
                    }
                } else {
                    let u = choose|u: int| 0 <= u < out@.len() && key_view(out@[u].0) == kv && out@[u].1 == ei;
                    assert(key_view(out@[u].0) == kv && out@[u].1 == overrides@[j].1);
                }
            }
        }
        i = i + 1;
    }
    Ok(out)
}

/// Whether a property list says the event is cancelled.
fn cancelled(ps: &[IcsProperty]) -> (r: Result<bool, ErrorCode>)
    ensures
        match (value_of(ps@, "STATUS"@), r) {
            (Ok(v), Ok(b)) => b == (v == Some("CANCELLED"@)),
            (Err(a), Err(b)) => a == b,
            _ => false,
        },
{
    match value(ps, "STATUS") {
        Ok(Some(v)) => Ok(str_eq(v, "CANCELLED")),
        Ok(None) => Ok(false),
        Err(e) => Err(e),
    }
}

/// Whether any property has a name.
fn any_named(ps: &[IcsProperty], name: &str) -> (r: bool)
    ensures
        r == exists|i: int| 0 <= i < ps@.len() && (#[trigger] ps@[i]).name@ == name@,
{
    let mut i: usize = 0;
    while i < ps.len()
        invariant
            i <= ps@.len(),
            forall|j: int| 0 <= j < i ==> (#[trigger] ps@[j]).name@ != name@,
        decreases ps.len() - i,
    {
        if str_eq(ps[i].name.as_str(), name) {
            return true;
        }
        i = i + 1;
    }
    false
}

/// Whether a key is among some keys.
fn holds_key(keys: &Vec<Vec<char>>, k: &[char]) -> (r: bool)
    ensures
        r == exists|i: int| 0 <= i < keys@.len() && #[trigger] keys@[i]@ == k@,
{
    let mut i: usize = 0;
    while i < keys.len()
        invariant
            i <= keys@.len(),
            forall|j: int| 0 <= j < i ==> #[trigger] keys@[j]@ != k@,
        decreases keys.len() - i,
    {
        if crate::text::chars_eq(keys[i].as_slice(), k) {
            return true;
        }
        i = i + 1;
    }
    false
}

/// The state an import builds: its events, cancelled series and instances,
/// and the day budget left for rule expansion.
pub struct Collected {
    pub events: Vec<(Key, Event)>,
    pub series: Vec<(Key, i64)>,
    pub instances: Vec<(Key, i64)>,
    pub budget: usize,
}

/// Collected events in order, each under its own UID and key, with the
/// cancellations in key order.
pub open spec fn collected_ok(c: Collected) -> bool {
    events_ok(c.events@) && sorted(c.series@) && sorted(c.instances@)
}

/// Files a cancellation under its key, replacing an earlier one.
fn put_cancel(v: &mut Vec<(Key, i64)>, k: Key, x: i64)
    requires
        sorted(old(v)@),
    ensures
        sorted(final(v)@),
        sets_entry(old(v)@, final(v)@, key_view(k), x),
{
    insert(v, k, x);
}

/// Every instance a walk yields is of the start's kind.
proof fn lemma_walk_kind(
    r: RuleSpec,
    s: (CivilDate, int, Seq<char>, bool),
    through: int,
    day: int,
    budget: int,
    found: Seq<(CivilDate, int, Seq<char>, bool)>,
)
    requires
        forall|i: int| 0 <= i < found.len() ==> (#[trigger] found[i]).3 == s.3,
    ensures
        walk(r, s, through, day, budget, found) matches Ok((f, _)) ==> forall|i: int|
            0 <= i < f.len() ==> (#[trigger] f[i]).3 == s.3,
    decreases through + 1 - day,
{
    lemma_walk_unfold(r, s, through, day, budget, found);
    if day <= through && budget > 0 {
        let d = civil(day);
        let cand = (d, s.1, s.2, s.3);
        match day_step(r, s, d, found) {
            Ok((f, stop)) => {
                assert forall|i: int| 0 <= i < f.len() implies (#[trigger] f[i]).3 == s.3 by {
                    if i < found.len() {
                        assert(f[i] == found[i]);
                    }
                }
                if !stop && day + 1 <= MAX_DAY {
                    lemma_walk_kind(r, s, through, day + 1, budget - 1, f);
                }
            },
            Err(_) => {},
        }
    }
}

impl Stamp {
    /// A copy of this stamp.
    pub fn duplicate(&self) -> (s: Stamp)
        ensures
            stamp_view(s) == stamp_view(*self),
    {
        Stamp { date: self.date, second: self.second, zone: self.zone.clone(), date_only: self.date_only }
    }
}

/// The instances a master's RRULE yields, with the day budget left (see
/// `rule_dates`); without a rule, just its start.
pub open spec fn rule_part(ps: Seq<IcsProperty>, start: (CivilDate, int, Seq<char>, bool), through: int, budget: int) -> Result<
    (Seq<(CivilDate, int, Seq<char>, bool)>, int),
    ErrorCode,
> {
    match value_of(ps, "RRULE"@) {
        Err(e) => Err(e),
        Ok(Some(rule)) => match rule_of(rule, start) {
            Err(e) => Err(e),
            Ok(rs) => walk(rs, start, through, day_number(start.0), budget, Seq::empty()),
        },
        Ok(None) => Ok((seq![start], budget)),
    }
}

/// One explicit date of a master's RDATE or EXDATE: a stamp in another zone
/// is moved to the start's zone, and it must be of the start's kind.
#[verifier::opaque]
pub open spec fn piece_stamp(p: IcsProperty, start: (CivilDate, int, Seq<char>, bool), piece: Seq<char>) -> Result<
    (CivilDate, int, Seq<char>, bool),
    ErrorCode,
> {
    match stamp_of(p, start.2, Some(piece)) {
        Err(e) => Err(e),
        Ok(d) => match if !d.3 && d.2 != start.2 {
            moved_to_zone(d, start.2)
        } else {
            Ok(d)
        } {
            Err(e) => Err(e),
            Ok(m) => if m.3 != start.3 {
                Err(ErrorCode::InvalidIcs)
            } else {
                Ok(m)
            },
        },
    }
}

/// One explicit date of a master (see `piece_stamp`).
fn piece_of(p: &IcsProperty, start: &Stamp, piece: &str) -> (r: Result<Stamp, ErrorCode>)
    requires
        stamp_ok(*start),
    ensures
        match (piece_stamp(*p, stamp_view(*start), piece@), r) {
            (Ok(v), Ok(d)) => stamp_view(d) == v && stamp_ok(d) && d.date_only == start.date_only,
            (Err(a), Err(b)) => a == b,
            _ => false,
        },
{
    reveal(piece_stamp);
    let mut d = match stamp(p, start.zone.as_str(), Some(piece)) {
        Ok(d) => d,
        Err(e) => return Err(e),
    };
    if !d.date_only && !str_eq(d.zone.as_str(), start.zone.as_str()) {
        d = match to_zone(&d, start.zone.as_str()) {
            Ok(x) => x,
            Err(e) => return Err(e),
        };
    }
    if d.date_only != start.date_only {
        return Err(ErrorCode::InvalidIcs);
    }
    Ok(d)
}

/// The explicit dates of comma-separated pieces, in order; the first piece
/// that fails decides.
pub open spec fn pieces_stamps(p: IcsProperty, start: (CivilDate, int, Seq<char>, bool), parts: Seq<Seq<char>>) -> Result<
    Seq<(CivilDate, int, Seq<char>, bool)>,
    ErrorCode,
>
    decreases parts.len(),
{
    if parts.len() == 0 {
        Ok(Seq::empty())
    } else {
        match pieces_stamps(p, start, parts.drop_last()) {
            Err(e) => Err(e),
            Ok(v) => match piece_stamp(p, start, parts.last()) {
                Err(e) => Err(e),
                Ok(d) => Ok(v.push(d)),
            },
        }
    }
}

/// The keys of some stamps.
pub open spec fn stamp_keys(v: Seq<(CivilDate, int, Seq<char>, bool)>) -> Seq<Seq<char>> {
    v.map_values(|d: (CivilDate, int, Seq<char>, bool)| key_text(d))
}

/// The dates the first `n` properties add by RDATE, and the keys they
/// exclude by EXDATE; such a property without a value is invalid.
pub open spec fn explicit_dates(ps: Seq<IcsProperty>, start: (CivilDate, int, Seq<char>, bool), n: int) -> Result<
    (Seq<(CivilDate, int, Seq<char>, bool)>, Seq<Seq<char>>),
    ErrorCode,
>
    decreases n,
{
    if n <= 0 {
        Ok((Seq::empty(), Seq::empty()))
    } else {
        match explicit_dates(ps, start, n - 1) {
            Err(e) => Err(e),
            Ok((ds, xs)) => {
                let p = ps[n - 1];
                if p.name@ == "RDATE"@ || p.name@ == "EXDATE"@ {
                    match p.value {
                        None => Err(ErrorCode::InvalidIcs),
                        Some(v) => match pieces_stamps(p, start, pieces(v@, ',')) {
                            Err(e) => Err(e),
                            Ok(st) => if p.name@ == "EXDATE"@ {
                                Ok((ds, xs + stamp_keys(st)))
                            } else {
                                Ok((ds + st, xs))
                            },
                        },
                    }
                } else {
                    Ok((ds, xs))
                }
            },
        }
    }
}

/// A failed piece fails every longer run of pieces.
proof fn lemma_pieces_error_stays(p: IcsProperty, start: (CivilDate, int, Seq<char>, bool), parts: Seq<Seq<char>>, w: int)
    requires
        0 <= w <= parts.len(),
        pieces_stamps(p, start, parts.take(w)) is Err,
    ensures
        pieces_stamps(p, start, parts) == pieces_stamps(p, start, parts.take(w)),
    decreases parts.len() - w,
{
    if w < parts.len() {
        assert(parts.take(w + 1).drop_last() =~= parts.take(w));
        lemma_pieces_error_stays(p, start, parts, w + 1);
    } else {
        assert(parts.take(w) =~= parts);
    }
}

/// A failed property fails every longer run of properties.
proof fn lemma_explicit_error_stays(ps: Seq<IcsProperty>, start: (CivilDate, int, Seq<char>, bool), n: int, m: int)
    requires
        0 <= n <= m,
        explicit_dates(ps, start, n) is Err,
    ensures
        explicit_dates(ps, start, m) == explicit_dates(ps, start, n),
    decreases m - n,
{
    if n < m {
        lemma_explicit_error_stays(ps, start, n, m - 1);
    }
}

/// The instances a master event lists: its start or its rule's instances
/// (see `rule_part`), then its RDATEs; and the keys its EXDATEs exclude
/// (see `explicit_dates`). Explicit dates in another zone are moved to the
/// start's zone.
fn master_dates(ps: &[IcsProperty], start: &Stamp, through_dn: i64, budget: &mut usize) -> (r: Result<(Vec<Stamp>, Vec<Vec<char>>), ErrorCode>)
    requires
        stamp_ok(*start),
        through_dn <= MAX_DAY,
    ensures
        r matches Ok((dates, _)) ==> forall|i: int|
            0 <= i < dates@.len() ==> stamp_ok(#[trigger] dates@[i]) && dates@[i].date_only == start.date_only,
        match rule_part(ps@, stamp_view(*start), through_dn as int, *old(budget) as int) {
            Err(e) => r == Err::<(Vec<Stamp>, Vec<Vec<char>>), ErrorCode>(e),
            Ok((found, left)) => *final(budget) == left && match (explicit_dates(ps@, stamp_view(*start), ps@.len() as int), r) {
                (Ok((ds, xs)), Ok((dates, ex))) => stamps_view(dates@) == found + ds && ex@.map_values(|k: Vec<char>| k@) == xs,
                (Err(a), Err(b)) => a == b,
                _ => false,
            },
        },
{
    let ghost sv = stamp_view(*start);
    let ghost b_init = *old(budget) as int;
    proof {
        reveal_strlit("RDATE");
        reveal_strlit("EXDATE");
    }
    let mut dates: Vec<Stamp> = match value(ps, "RRULE") {
        Err(e) => return Err(e),
        Ok(Some(rule)) => {
            let ghost b0 = *budget as int;
            let v = match rule_dates(start, rule, through_dn, budget) {
                Ok(v) => v,
                Err(e) => return Err(e),
            };
            proof {
                let rs = rule_of(rule@, stamp_view(*start))->Ok_0;
                lemma_walk_kind(rs, stamp_view(*start), through_dn as int, day_number(start.date), b0, Seq::empty());
                assert forall|i: int| 0 <= i < v@.len() implies v@[i].date_only == start.date_only by {
                    assert(stamps_view(v@)[i] == stamp_view(v@[i]));
                }
            }
            v
        },
        Ok(None) => {
            let mut v: Vec<Stamp> = Vec::new();
            v.push(start.duplicate());
            assert(stamps_view(v@) =~= seq![sv]);
            v
        },
    };
    let ghost found = stamps_view(dates@);
    assert(rule_part(ps@, sv, through_dn as int, *old(budget) as int) == Ok::<(Seq<(CivilDate, int, Seq<char>, bool)>, int), ErrorCode>((found, *budget as int)));
    let mut excluded: Vec<Vec<char>> = Vec::new();
    let mut q: usize = 0;
    assert(excluded@.map_values(|k: Vec<char>| k@) =~= Seq::<Seq<char>>::empty());
    assert(found + Seq::<(CivilDate, int, Seq<char>, bool)>::empty() =~= found);
    while q < ps.len()
        invariant
            stamp_ok(*start),
            sv == stamp_view(*start),
            rule_part(ps@, sv, through_dn as int, b_init) == Ok::<(Seq<(CivilDate, int, Seq<char>, bool)>, int), ErrorCode>((found, *budget as int)),
            b_init == *old(budget) as int,
            q <= ps@.len(),
            forall|i: int|
                0 <= i < dates@.len() ==> stamp_ok(#[trigger] dates@[i]) && dates@[i].date_only == start.date_only,
            explicit_dates(ps@, sv, q as int) matches Ok((ds, xs)) && stamps_view(dates@) == found + ds
                && excluded@.map_values(|k: Vec<char>| k@) == xs,
        decreases ps.len() - q,
    {
        let ghost (ds0, xs0) = explicit_dates(ps@, sv, q as int)->Ok_0;
        let ghost d_before = dates@;
        let ghost x_before = excluded@;
        let p = &ps[q];
        assert(*p == ps@[q as int]);
        let is_rdate = str_eq(p.name.as_str(), "RDATE");
        let is_exdate = str_eq(p.name.as_str(), "EXDATE");
        if is_rdate || is_exdate {
            let raw: Vec<char> = match &p.value {
                Some(v) => chars_of(v.as_str()),
                None => {
                    proof {
                        assert(explicit_dates(ps@, sv, q + 1) == Err::<(Seq<(CivilDate, int, Seq<char>, bool)>, Seq<Seq<char>>), ErrorCode>(ErrorCode::InvalidIcs));
                        lemma_explicit_error_stays(ps@, sv, q + 1, ps@.len() as int);
                    }
                    return Err(ErrorCode::InvalidIcs);
                },
            };
            let parts = split_on(raw.as_slice(), ',');
            let ghost all = pieces(raw@, ',');
            assert(parts@.map_values(|v: Vec<char>| v@) =~= all);
            let mut w: usize = 0;
            proof {
                assert(p.value matches Some(v) && v@ == raw@);
                assert forall|e: ErrorCode| pieces_stamps(*p, sv, all) == Err::<Seq<(CivilDate, int, Seq<char>, bool)>, ErrorCode>(e) implies explicit_dates(ps@, sv, ps@.len() as int) == Err::<(Seq<(CivilDate, int, Seq<char>, bool)>, Seq<Seq<char>>), ErrorCode>(e) by {
                    assert(explicit_dates(ps@, sv, q + 1) == Err::<(Seq<(CivilDate, int, Seq<char>, bool)>, Seq<Seq<char>>), ErrorCode>(e));
                    lemma_explicit_error_stays(ps@, sv, q + 1, ps@.len() as int);
                }
            }
            assert(all.take(0) =~= Seq::<Seq<char>>::empty());
            assert(stamps_view(dates@) =~= found + ds0 + Seq::<(CivilDate, int, Seq<char>, bool)>::empty());
            assert(excluded@.map_values(|k: Vec<char>| k@) =~= xs0 + stamp_keys(Seq::<(CivilDate, int, Seq<char>, bool)>::empty()));
            while w < parts.len()
                invariant
                    stamp_ok(*start),
                    sv == stamp_view(*start),
                        rule_part(ps@, sv, through_dn as int, b_init) == Ok::<(Seq<(CivilDate, int, Seq<char>, bool)>, int), ErrorCode>((found, *budget as int)),
                    b_init == *old(budget) as int,
                    w <= parts@.len(),
                    parts@.len() == all.len(),
                    forall|i: int| 0 <= i < parts@.len() ==> #[trigger] parts@[i]@ == all[i],
                    is_exdate == (p.name@ == "EXDATE"@),
                    q < ps@.len(),
                    *p == ps@[q as int],
                    p.value matches Some(v) && v@ == raw@,
                    all == pieces(raw@, ','),
                    (p.name@ == "RDATE"@ || p.name@ == "EXDATE"@),
                    explicit_dates(ps@, sv, q as int) == Ok::<(Seq<(CivilDate, int, Seq<char>, bool)>, Seq<Seq<char>>), ErrorCode>((ds0, xs0)),
                    forall|e: ErrorCode| pieces_stamps(*p, sv, all) == Err::<Seq<(CivilDate, int, Seq<char>, bool)>, ErrorCode>(e) ==> explicit_dates(ps@, sv, ps@.len() as int) == Err::<(Seq<(CivilDate, int, Seq<char>, bool)>, Seq<Seq<char>>), ErrorCode>(e),
                    forall|i: int|
                        0 <= i < dates@.len() ==> stamp_ok(#[trigger] dates@[i]) && dates@[i].date_only
                            == start.date_only,
                    pieces_stamps(*p, sv, all.take(w as int)) matches Ok(st) && if is_exdate {
                        stamps_view(dates@) == found + ds0 && excluded@.map_values(|k: Vec<char>| k@) == xs0
                            + stamp_keys(st)
                    } else {
                        stamps_view(dates@) == found + ds0 + st && excluded@.map_values(|k: Vec<char>| k@)
                            == xs0
                    },
                decreases parts.len() - w,
            {
                let ghost st0 = pieces_stamps(*p, sv, all.take(w as int))->Ok_0;
                let ghost dv = dates@;
                let ghost xv = excluded@;
                assert(all.take(w + 1).drop_last() =~= all.take(w as int));
                assert(all.take(w + 1).last() == all[w as int]);
                let piece = string_from_chars(parts[w].as_slice());
                let d = match piece_of(p, start, piece.as_str()) {
                    Ok(d) => d,
                    Err(e) => {
                        proof {
                            lemma_pieces_error_stays(*p, sv, all, w + 1);
                        }
                        return Err(e);
                    },
                };
                let ghost dview = stamp_view(d);
                assert(piece_stamp(*p, sv, all[w as int]) == Ok::<(CivilDate, int, Seq<char>, bool), ErrorCode>(dview));
                assert(pieces_stamps(*p, sv, all.take(w + 1)) == Ok::<Seq<(CivilDate, int, Seq<char>, bool)>, ErrorCode>(st0.push(dview)));
                if is_exdate {
                    let kk = d.key();
                    excluded.push(chars_of(kk.as_str()));
                    assert(excluded@.map_values(|k: Vec<char>| k@) =~= xv.map_values(|k: Vec<char>| k@).push(key_text(dview)));
                    assert(stamp_keys(st0.push(dview)) =~= stamp_keys(st0).push(key_text(dview)));
                    assert(xs0 + stamp_keys(st0.push(dview)) =~= (xs0 + stamp_keys(st0)).push(key_text(dview)));
                } else {
                    dates.push(d);
                    assert(stamps_view(dates@) =~= stamps_view(dv).push(dview));
                    assert(found + ds0 + st0.push(dview) =~= (found + ds0 + st0).push(dview));
                }
                w = w + 1;
            }
            proof {
                assert(all.take(w as int) =~= all);
                let st = pieces_stamps(*p, sv, all)->Ok_0;
                assert(p.value matches Some(v) && v@ == raw@);
                if is_exdate {
                    assert(explicit_dates(ps@, sv, q + 1) == Ok::<(Seq<(CivilDate, int, Seq<char>, bool)>, Seq<Seq<char>>), ErrorCode>((ds0, xs0 + stamp_keys(st))));
                } else {
                    assert(explicit_dates(ps@, sv, q + 1) == Ok::<(Seq<(CivilDate, int, Seq<char>, bool)>, Seq<Seq<char>>), ErrorCode>((ds0 + st, xs0)));
                    assert(found + ds0 + st =~= found + (ds0 + st));
                }
            }
        } else {
            assert(explicit_dates(ps@, sv, q + 1) == explicit_dates(ps@, sv, q as int));
        }
        q = q + 1;
    }
    Ok((dates, excluded))
}

/// The event or cancellation of one instance of a master (see `date_step`).
fn expand_date(
    ps: &[IcsProperty],
    uid: &[char],
    start: &Stamp,
    d: &Stamp,
    excluded: &Vec<Vec<char>>,
    recurring: bool,
    from_dn: i64,
    through_dn: i64,
    overrides: &Vec<(Key, usize)>,
    c: &mut Collected,
) -> (r: Result<(), ErrorCode>)
    requires
        stamp_ok(*start),
        stamp_ok(*d),
        d.date_only == start.date_only,
        uid_ok(uid@),
        collected_ok(*old(c)),
    ensures
        collected_ok(*final(c)),
        final(c).series == old(c).series,
        final(c).budget == old(c).budget,
        match date_step(
            ps@,
            uid@,
            stamp_view(*start),
            stamp_view(*d),
            excluded@.map_values(|k: Vec<char>| k@),
            recurring,
            from_dn as int,
            through_dn as int,
            overrides@,
            (events_map(old(c).events@), entry_map(old(c).instances@)),
        ) {
            Err(e) => r == Err::<(), ErrorCode>(e),
            Ok(st) => r is Ok && st == (events_map(final(c).events@), entry_map(final(c).instances@)),
        },
{
    reveal(date_step);
    proof {
        reveal_strlit("once");
    }
    let ghost xs = excluded@.map_values(|k: Vec<char>| k@);
    let dkey = chars_of(d.key().as_str());
    let key: Vec<char> = if recurring {
        crate::text::slice_to_vec(dkey.as_slice())
    } else {
        vec!['o', 'n', 'c', 'e']
    };
    assert(key@ == if recurring { key_text(stamp_view(*d)) } else { "once"@ });
    let key_text_s = string_from_chars(key.as_slice());
    let k = make_key(uid, key_text_s.as_str());
    let ghost kv = key_view(k);
    let excluded_here = holds_key(excluded, dkey.as_slice());
    proof {
        if excluded_here {
            let w = choose|w: int| 0 <= w < excluded@.len() && #[trigger] excluded@[w]@ == dkey@;
            assert(xs[w] == dkey@);
        }
        if xs.contains(dkey@) {
            let w = choose|w: int| 0 <= w < xs.len() && xs[w] == dkey@;
            assert(excluded@[w]@ == dkey@);
        }
    }
    if excluded_here {
        let seq = match sequence(ps) {
            Ok(n) => n,
            Err(e) => return Err(e),
        };
        let ghost oi = c.instances@;
        put_cancel(&mut c.instances, k, seq);
        proof {
            lemma_sets_entry_map(oi, c.instances@, kv, seq);
        }
        return Ok(());
    }
    if find(overrides, &k).is_some() {
        assert(has_key(overrides@, kv));
        return Ok(());
    }
    proof {
        crate::time::lemma_day_number_bounds(d.date);
    }
    let dn = day_number_exec(d.date);
    if dn < from_dn || dn > through_dn {
        return Ok(());
    }
    match d.project(false) {
        Err(e) => Err(e),
        Ok(None) => Ok(()),
        Ok(Some(projected)) => {
            let uid_text = string_from_chars(uid);
            let ev = match build(ps, uid_text.as_str(), key_text_s.as_str(), start, d, projected) {
                Ok(ev) => ev,
                Err(e) => return Err(e),
            };
            let ghost evg = ev;
            let ghost oe = c.events@;
            put_event(&mut c.events, k, ev);
            proof {
                lemma_put_event_map(oe, c.events@, kv, evg);
            }
            Ok(())
        },
    }
}

/// The events and cancellations of one master event and its instances
/// (see `master_effect`).
fn expand_master(
    ps: &[IcsProperty],
    uid: &[char],
    zone: &str,
    from_dn: i64,
    through_dn: i64,
    only_cancel: bool,
    overrides: &Vec<(Key, usize)>,
    c: &mut Collected,
) -> (r: Result<(), ErrorCode>)
    requires
        tz_known(zone@),
        uid_ok(uid@),
        through_dn <= MAX_DAY,
        collected_ok(*old(c)),
    ensures
        collected_ok(*final(c)),
        match master_effect(ps@, uid@, zone@, from_dn as int, through_dn as int, only_cancel, overrides@, collected_view(*old(c))) {
            Err(e) => r == Err::<(), ErrorCode>(e),
            Ok(v) => r is Ok && collected_view(*final(c)) == v,
        },
{
    reveal(master_effect);
    proof {
        reveal_strlit("CANCELLED");
        reveal_strlit("");
        reveal_strlit("RDATE");
    }
    let ghost cv0 = collected_view(*c);
    let is_cancelled = if only_cancel {
        true
    } else {
        match cancelled(ps) {
            Ok(b) => b,
            Err(e) => return Err(e),
        }
    };
    if is_cancelled {
        let seq = match sequence(ps) {
            Ok(n) => n,
            Err(e) => return Err(e),
        };
        let mk = make_key(uid, "");
        assert(key_view(mk) == (uid@, Seq::<char>::empty()));
        let ghost os = c.series@;
        put_cancel(&mut c.series, mk, seq);
        proof {
            lemma_sets_entry_map(os, c.series@, key_view(mk), seq);
        }
        return Ok(());
    }
    match property(ps, "DURATION") {
        Err(e) => return Err(e),
        Ok(Some(_)) => return Err(ErrorCode::UnsupportedCalendarRule),
        Ok(None) => {},
    }
    match property(ps, "EXRULE") {
        Err(e) => return Err(e),
        Ok(Some(_)) => return Err(ErrorCode::UnsupportedCalendarRule),
        Ok(None) => {},
    }
    let start = match property(ps, "DTSTART") {
        Ok(Some(i)) => match stamp(&ps[i], zone, None) {
            Ok(s) => s,
            Err(e) => return Err(e),
        },
        Ok(None) => return Err(ErrorCode::InvalidIcs),
        Err(e) => return Err(e),
    };
    let has_rule = match property(ps, "RRULE") {
        Ok(p) => p.is_some(),
        Err(e) => return Err(e),
    };
    let recurring = has_rule || any_named(ps, "RDATE");
    let ghost sv = stamp_view(start);
    assert(master_start(ps@, zone@) == Ok::<((CivilDate, int, Seq<char>, bool), bool), ErrorCode>((sv, recurring)));
    let (dates, excluded) = match master_dates(ps, &start, through_dn, &mut c.budget) {
        Ok(x) => x,
        Err(e) => return Err(e),
    };
    let ghost all = stamps_view(dates@);
    let ghost xs = excluded@.map_values(|k: Vec<char>| k@);
    let ghost left = c.budget;
    assert(all.len() == dates@.len());
    assert(master_effect(ps@, uid@, zone@, from_dn as int, through_dn as int, only_cancel, overrides@, cv0) == match dates_fold(ps@, uid@, sv, all, xs, recurring, from_dn as int, through_dn as int, overrides@, all.len() as int, (cv0.0, cv0.2)) {
                Err(e) => Err::<CollectedView, ErrorCode>(e),
                Ok((em, im)) => Ok::<CollectedView, ErrorCode>((em, cv0.1, im, left as int)),
            });
    let mut i: usize = 0;
    while i < dates.len()
        invariant
            stamp_ok(start),
            sv == stamp_view(start),
            uid_ok(uid@),
            i <= dates@.len(),
            all == stamps_view(dates@),
            all.len() == dates@.len(),
            xs == excluded@.map_values(|k: Vec<char>| k@),
            forall|k: int|
                0 <= k < dates@.len() ==> stamp_ok(#[trigger] dates@[k]) && dates@[k].date_only == start.date_only,
            collected_ok(*c),
            c.series == old(c).series,
            c.budget == left,
            cv0 == collected_view(*old(c)),
            master_effect(ps@, uid@, zone@, from_dn as int, through_dn as int, only_cancel, overrides@, cv0) == match dates_fold(ps@, uid@, sv, all, xs, recurring, from_dn as int, through_dn as int, overrides@, all.len() as int, (cv0.0, cv0.2)) {
                Err(e) => Err::<CollectedView, ErrorCode>(e),
                Ok((em, im)) => Ok::<CollectedView, ErrorCode>((em, cv0.1, im, left as int)),
            },
            dates_fold(ps@, uid@, sv, all, xs, recurring, from_dn as int, through_dn as int, overrides@, i as int, (cv0.0, cv0.2))
                == Ok::<(Map<(Seq<char>, Seq<char>), EventView>, Map<(Seq<char>, Seq<char>), i64>), ErrorCode>((events_map(c.events@), entry_map(c.instances@))),
        decreases dates.len() - i,
    {
        let d = &dates[i];
        assert(all[i as int] == stamp_view(*d));
        if let Err(e) = expand_date(ps, uid, &start, d, &excluded, recurring, from_dn, through_dn, overrides, c) {
            proof {
                lemma_dates_error_stays(ps@, uid@, sv, all, xs, recurring, from_dn as int, through_dn as int, overrides@, i + 1, all.len() as int, (cv0.0, cv0.2));
            }
            return Err(e);
        }
        i = i + 1;
    }
    Ok(())
}

/// Whether an event is cancelled: always in a feed that only cancels,
/// else when its `STATUS` is `CANCELLED`.
pub open spec fn cancel_of(ps: Seq<IcsProperty>, only_cancel: bool) -> Result<bool, ErrorCode> {
    if only_cancel {
        Ok(true)
    } else {
        match value_of(ps, "STATUS"@) {
            Ok(v) => Ok(v == Some("CANCELLED"@)),
            Err(e) => Err(e),
        }
    }
}

/// The event a detached instance stands for, as its title, sequence, start
/// and end: it must carry a `DTSTART` whose time exists in its zone.
pub open spec fn detached_event(ps: Seq<IcsProperty>, zone: Seq<char>) -> Result<
    (Seq<char>, i64, (Seq<char>, Option<Seq<char>>, Seq<char>, Option<int>), Option<(Seq<char>, Option<Seq<char>>, Seq<char>, Option<int>)>),
    ErrorCode,
> {
    match property_of(ps, "DTSTART"@) {
        Err(e) => Err(e),
        Ok(None) => Err(ErrorCode::InvalidIcs),
        Ok(Some(i)) => match stamp_of(ps[i], zone, None) {
            Err(e) => Err(e),
            Ok(st) => match projection(st, false) {
                Err(e) => Err(e),
                Ok(None) => Err(ErrorCode::InvalidIcs),
                Ok(Some(t)) => match event_of(ps, st, st) {
                    Err(e) => Err(e),
                    Ok((title, sequence, end)) => Ok((title, sequence, t, end)),
                },
            },
        },
    }
}

/// `ev` is the present event with this UID, instance key, title, sequence,
/// start and end.
pub open spec fn event_is(
    ev: Event,
    uid: Seq<char>,
    key: Seq<char>,
    e: (Seq<char>, i64, (Seq<char>, Option<Seq<char>>, Seq<char>, Option<int>), Option<(Seq<char>, Option<Seq<char>>, Seq<char>, Option<int>)>),
) -> bool {
    &&& ev.uid@ == uid
    &&& ev.original@ == key
    &&& ev.title@ == e.0
    &&& ev.sequence == e.1
    &&& event_time_view(ev.start) == e.2
    &&& match (e.3, ev.end) {
        (Some(a), Some(b)) => a == event_time_view(b),
        (None, None) => true,
        _ => false,
    }
    &&& ev.status == EventStatus::Present
}

/// An event time as plain values: date, time, zone and instant.
pub type TimeView = (Seq<char>, Option<Seq<char>>, Seq<char>, Option<int>);

/// An event as plain values: UID, instance key, title, sequence, start,
/// end and status.
pub type EventView = (Seq<char>, Seq<char>, Seq<char>, i64, TimeView, Option<TimeView>, EventStatus);

/// An event as plain values.
pub open spec fn event_view(ev: Event) -> EventView {
    (
        ev.uid@,
        ev.original@,
        ev.title@,
        ev.sequence,
        event_time_view(ev.start),
        match ev.end {
            Some(b) => Some(event_time_view(b)),
            None => None,
        },
        ev.status,
    )
}

/// The present event with this UID, instance key and content.
pub open spec fn present(uid: Seq<char>, key: Seq<char>, e: (Seq<char>, i64, TimeView, Option<TimeView>)) -> EventView {
    (uid, key, e.0, e.1, e.2, e.3, EventStatus::Present)
}

/// Filed events as a map from key to event.
pub open spec fn events_map(v: Seq<(Key, Event)>) -> Map<(Seq<char>, Seq<char>), EventView> {
    entry_map(v).map_values(|e: Event| event_view(e))
}

/// What an import has collected, as plain values: its events, cancelled
/// series and instances, and the day budget left.
pub type CollectedView = (
    Map<(Seq<char>, Seq<char>), EventView>,
    Map<(Seq<char>, Seq<char>), i64>,
    Map<(Seq<char>, Seq<char>), i64>,
    int,
);

/// The collected state as plain values.
pub open spec fn collected_view(c: Collected) -> CollectedView {
    (events_map(c.events@), entry_map(c.series@), entry_map(c.instances@), c.budget as int)
}

/// Filing an event under a key files its view under that key.
proof fn lemma_put_event_map(old: Seq<(Key, Event)>, new: Seq<(Key, Event)>, k: (Seq<char>, Seq<char>), ev: Event)
    requires
        sorted(old),
        sorted(new),
        sets_entry(old, new, k, ev),
    ensures
        events_map(new) == events_map(old).insert(k, event_view(ev)),
{
    lemma_sets_entry_map(old, new, k, ev);
    assert(events_map(new) =~= events_map(old).insert(k, event_view(ev)));
}

/// What one detached instance does to the collected state (see
/// `apply_override`).
#[verifier::opaque]
pub open spec fn override_effect(ps: Seq<IcsProperty>, k: (Seq<char>, Seq<char>), zone: Seq<char>, only_cancel: bool, cv: CollectedView) -> Result<
    CollectedView,
    ErrorCode,
> {
    match cancel_of(ps, only_cancel) {
        Err(e) => Err(e),
        Ok(true) => match sequence_of(ps) {
            Err(e) => Err(e),
            Ok(n) => Ok((cv.0, cv.1, cv.2.insert(k, n), cv.3)),
        },
        Ok(false) => match detached_event(ps, zone) {
            Err(e) => Err(e),
            Ok(e) => Ok((cv.0.insert(k, present(k.0, k.1, e)), cv.1, cv.2, cv.3)),
        },
    }
}

/// A master's start and whether it recurs (by RRULE or RDATE). A DURATION
/// or an EXRULE is unsupported; a master needs a `DTSTART`.
pub open spec fn master_start(ps: Seq<IcsProperty>, zone: Seq<char>) -> Result<((CivilDate, int, Seq<char>, bool), bool), ErrorCode> {
    match property_of(ps, "DURATION"@) {
        Err(e) => Err(e),
        Ok(Some(_)) => Err(ErrorCode::UnsupportedCalendarRule),
        Ok(None) => match property_of(ps, "EXRULE"@) {
            Err(e) => Err(e),
            Ok(Some(_)) => Err(ErrorCode::UnsupportedCalendarRule),
            Ok(None) => match property_of(ps, "DTSTART"@) {
                Err(e) => Err(e),
                Ok(None) => Err(ErrorCode::InvalidIcs),
                Ok(Some(i)) => match stamp_of(ps[i], zone, None) {
                    Err(e) => Err(e),
                    Ok(st) => match property_of(ps, "RRULE"@) {
                        Err(e) => Err(e),
                        Ok(rr) => Ok(
                            (
                                st,
                                rr is Some || exists|j: int| 0 <= j < ps.len() && (#[trigger] ps[j]).name@ == "RDATE"@,
                            ),
                        ),
                    },
                },
            },
        },
    }
}

/// What one instance of a master does to the collected events and
/// instance cancellations: an excluded date cancels its instance at the
/// master's sequence; an instance that an override replaces, that lies
/// outside the window, or whose generated time does not exist, adds
/// nothing; any other adds its event. A master without recurrence files its
/// one instance under the key `once`.
#[verifier::opaque]
pub open spec fn date_step(
    ps: Seq<IcsProperty>,
    uid: Seq<char>,
    start: (CivilDate, int, Seq<char>, bool),
    d: (CivilDate, int, Seq<char>, bool),
    excluded: Seq<Seq<char>>,
    recurring: bool,
    from: int,
    through: int,
    overrides: Seq<(Key, usize)>,
    st: (Map<(Seq<char>, Seq<char>), EventView>, Map<(Seq<char>, Seq<char>), i64>),
) -> Result<(Map<(Seq<char>, Seq<char>), EventView>, Map<(Seq<char>, Seq<char>), i64>), ErrorCode> {
    let dkey = key_text(d);
    let key = if recurring {
        dkey
    } else {
        "once"@
    };
    if excluded.contains(dkey) {
        match sequence_of(ps) {
            Err(e) => Err(e),
            Ok(n) => Ok((st.0, st.1.insert((uid, key), n))),
        }
    } else if has_key(overrides, (uid, key)) || !(from <= day_number(d.0) <= through) {
        Ok(st)
    } else {
        match projection(d, false) {
            Err(e) => Err(e),
            Ok(None) => Ok(st),
            Ok(Some(t)) => match event_of(ps, start, d) {
                Err(e) => Err(e),
                Ok((title, sequence, end)) => Ok((st.0.insert((uid, key), present(uid, key, (title, sequence, t, end))), st.1)),
            },
        }
    }
}

/// The first `n` instances of a master applied in order; the first failure
/// decides.
pub open spec fn dates_fold(
    ps: Seq<IcsProperty>,
    uid: Seq<char>,
    start: (CivilDate, int, Seq<char>, bool),
    dates: Seq<(CivilDate, int, Seq<char>, bool)>,
    excluded: Seq<Seq<char>>,
    recurring: bool,
    from: int,
    through: int,
    overrides: Seq<(Key, usize)>,
    n: int,
    st: (Map<(Seq<char>, Seq<char>), EventView>, Map<(Seq<char>, Seq<char>), i64>),
) -> Result<(Map<(Seq<char>, Seq<char>), EventView>, Map<(Seq<char>, Seq<char>), i64>), ErrorCode>
    decreases n,
{
    if n <= 0 {
        Ok(st)
    } else {
        match dates_fold(ps, uid, start, dates, excluded, recurring, from, through, overrides, n - 1, st) {
            Err(e) => Err(e),
            Ok(s2) => date_step(ps, uid, start, dates[n - 1], excluded, recurring, from, through, overrides, s2),
        }
    }
}

/// A failed instance fails every longer run of instances.
proof fn lemma_dates_error_stays(
    ps: Seq<IcsProperty>,
    uid: Seq<char>,
    start: (CivilDate, int, Seq<char>, bool),
    dates: Seq<(CivilDate, int, Seq<char>, bool)>,
    excluded: Seq<Seq<char>>,
    recurring: bool,
    from: int,
    through: int,
    overrides: Seq<(Key, usize)>,
    n: int,
    m: int,
    st: (Map<(Seq<char>, Seq<char>), EventView>, Map<(Seq<char>, Seq<char>), i64>),
)
    requires
        0 <= n <= m,
        dates_fold(ps, uid, start, dates, excluded, recurring, from, through, overrides, n, st) is Err,
    ensures
        dates_fold(ps, uid, start, dates, excluded, recurring, from, through, overrides, m, st) == dates_fold(
            ps,
            uid,
            start,
            dates,
            excluded,
            recurring,
            from,
            through,
            overrides,
            n,
            st,
        ),
    decreases m - n,
{
    if n < m {
        lemma_dates_error_stays(ps, uid, start, dates, excluded, recurring, from, through, overrides, n, m - 1, st);
    }
}

/// What one master does to the collected state (see `expand_master`): a
/// cancelled master cancels its series at its sequence; any other adds the
/// instances its start, rule and RDATEs give (see `rule_part`,
/// `explicit_dates` and `dates_fold`), spending the day budget.
#[verifier::opaque]
pub open spec fn master_effect(
    ps: Seq<IcsProperty>,
    uid: Seq<char>,
    zone: Seq<char>,
    from: int,
    through: int,
    only_cancel: bool,
    overrides: Seq<(Key, usize)>,
    cv: CollectedView,
) -> Result<CollectedView, ErrorCode> {
    match cancel_of(ps, only_cancel) {
        Err(e) => Err(e),
        Ok(true) => match sequence_of(ps) {
            Err(e) => Err(e),
            Ok(n) => Ok((cv.0, cv.1.insert((uid, Seq::<char>::empty()), n), cv.2, cv.3)),
        },
        Ok(false) => match master_start(ps, zone) {
            Err(e) => Err(e),
            Ok((start, recurring)) => match rule_part(ps, start, through, cv.3) {
                Err(e) => Err(e),
                Ok((found, left)) => match explicit_dates(ps, start, ps.len() as int) {
                    Err(e) => Err(e),
                    Ok((ds, xs)) => match dates_fold(
                        ps,
                        uid,
                        start,
                        found + ds,
                        xs,
                        recurring,
                        from,
                        through,
                        overrides,
                        (found + ds).len() as int,
                        (cv.0, cv.2),
                    ) {
                        Err(e) => Err(e),
                        Ok((em, im)) => Ok((em, cv.1, im, left)),
                    },
                },
            },
        },
    }
}

/// The event or cancellation of one detached instance. Detached instances
/// outside the window still update previously anchored work. A cancelled
/// instance sets the cancellation of its key to its sequence; any other
/// sets the event of its key (see `detached_event`). Nothing changes when
/// it fails.
fn apply_override(ps: &[IcsProperty], k: &Key, zone: &str, only_cancel: bool, c: &mut Collected) -> (r: Result<(), ErrorCode>)
    requires
        tz_known(zone@),
        uid_ok(k.0@),
        collected_ok(*old(c)),
    ensures
        collected_ok(*final(c)),
        final(c).budget == old(c).budget,
        r is Err ==> *final(c) == *old(c),
        match cancel_of(ps@, only_cancel) {
            Err(e) => r == Err::<(), ErrorCode>(e),
            Ok(true) => match sequence_of(ps@) {
                Err(e) => r == Err::<(), ErrorCode>(e),
                Ok(n) => r is Ok && final(c).events == old(c).events && final(c).series == old(c).series
                    && sets_entry(old(c).instances@, final(c).instances@, key_view(*k), n),
            },
            Ok(false) => match detached_event(ps@, zone@) {
                Err(e) => r == Err::<(), ErrorCode>(e),
                Ok(e) => r is Ok && final(c).series == old(c).series && final(c).instances == old(c).instances
                    && exists|ev: Event|
                    event_is(ev, k.0@, k.1@, e) && sets_entry(old(c).events@, final(c).events@, key_view(*k), ev),
            },
        },
        match override_effect(ps@, key_view(*k), zone@, only_cancel, collected_view(*old(c))) {
            Err(e) => r == Err::<(), ErrorCode>(e),
            Ok(v) => r is Ok && collected_view(*final(c)) == v,
        },
{
    reveal(override_effect);
    proof {
        reveal_strlit("CANCELLED");
    }
    let is_cancelled = if only_cancel {
        true
    } else {
        match cancelled(ps) {
            Ok(b) => b,
            Err(e) => return Err(e),
        }
    };
    let key: Key = (crate::text::slice_to_vec(k.0.as_slice()), crate::text::slice_to_vec(k.1.as_slice()));
    assert(key_view(key) == key_view(*k));
    if is_cancelled {
        let seq = match sequence(ps) {
            Ok(n) => n,
            Err(e) => return Err(e),
        };
        let ghost oi = c.instances@;
        put_cancel(&mut c.instances, key, seq);
        proof {
            lemma_sets_entry_map(oi, c.instances@, key_view(*k), seq);
        }
        return Ok(());
    }
    let start = match property(ps, "DTSTART") {
        Ok(Some(i)) => match stamp(&ps[i], zone, None) {
            Ok(s) => s,
            Err(e) => return Err(e),
        },
        Ok(None) => return Err(ErrorCode::InvalidIcs),
        Err(e) => return Err(e),
    };
    let projected = match start.project(false) {
        Ok(Some(t)) => t,
        Ok(None) => return Err(ErrorCode::InvalidIcs),
        Err(e) => return Err(e),
    };
    let uid_text = string_from_chars(k.0.as_slice());
    let key_text = string_from_chars(k.1.as_slice());
    let ev = match build(ps, uid_text.as_str(), key_text.as_str(), &start, &start, projected) {
        Ok(ev) => ev,
        Err(e) => return Err(e),
    };
    let ghost evg = ev;
    let ghost oe = c.events@;
    put_event(&mut c.events, key, ev);
    assert(event_is(evg, k.0@, k.1@, detached_event(ps@, zone@)->Ok_0));
    proof {
        lemma_put_event_map(oe, c.events@, key_view(*k), evg);
        assert(event_view(evg) == present(k.0@, k.1@, detached_event(ps@, zone@)->Ok_0));
    }
    Ok(())
}

/// The cancellations of series, by UID.
fn series_list(v: Vec<(Key, i64)>) -> (out: Vec<(String, i64)>)
    ensures
        out@.len() == v@.len(),
        forall|i: int| 0 <= i < v@.len() ==> (#[trigger] out@[i]).0@ == v@[i].0.0@ && out@[i].1 == v@[i].1,
{
    let mut out: Vec<(String, i64)> = Vec::new();
    let mut i: usize = 0;
    while i < v.len()
        invariant
            i <= v@.len(),
            out@.len() == i,
            forall|k: int| 0 <= k < i ==> (#[trigger] out@[k]).0@ == v@[k].0.0@ && out@[k].1 == v@[k].1,
        decreases v.len() - i,
    {
        out.push((string_from_chars(v[i].0.0.as_slice()), v[i].1));
        i = i + 1;
    }
    out
}

/// The cancellations of instances, by UID and instance key.
fn instance_list(v: Vec<(Key, i64)>) -> (out: Vec<((String, String), i64)>)
    ensures
        out@.len() == v@.len(),
        forall|i: int|
            0 <= i < v@.len() ==> (#[trigger] out@[i]).0.0@ == v@[i].0.0@ && out@[i].0.1@ == v@[i].0.1@
                && out@[i].1 == v@[i].1,
{
    let mut out: Vec<((String, String), i64)> = Vec::new();
    let mut i: usize = 0;
    while i < v.len()
        invariant
            i <= v@.len(),
            out@.len() == i,
            forall|k: int|
                0 <= k < i ==> (#[trigger] out@[k]).0.0@ == v@[k].0.0@ && out@[k].0.1@ == v@[k].0.1@
                    && out@[k].1 == v@[k].1,
        decreases v.len() - i,
    {
        out.push(((string_from_chars(v[i].0.0.as_slice()), string_from_chars(v[i].0.1.as_slice())), v[i].1));
        i = i + 1;
    }
    out
}

/// The first `n` masters applied in order to the collected state; the
/// first failure decides.
pub open spec fn masters_fold(
    events: Seq<IcsEvent>,
    masters: Seq<(Key, usize)>,
    overrides: Seq<(Key, usize)>,
    zone: Seq<char>,
    from: int,
    through: int,
    only_cancel: bool,
    n: int,
    cv: CollectedView,
) -> Result<CollectedView, ErrorCode>
    decreases n,
{
    if n <= 0 {
        Ok(cv)
    } else {
        match masters_fold(events, masters, overrides, zone, from, through, only_cancel, n - 1, cv) {
            Err(e) => Err(e),
            Ok(c2) => master_effect(
                events[masters[n - 1].1 as int].properties@,
                masters[n - 1].0.0@,
                zone,
                from,
                through,
                only_cancel,
                overrides,
                c2,
            ),
        }
    }
}

/// The first `n` detached instances applied in order to the collected
/// state; the first failure decides.
pub open spec fn overrides_fold(
    events: Seq<IcsEvent>,
    overrides: Seq<(Key, usize)>,
    zone: Seq<char>,
    only_cancel: bool,
    n: int,
    cv: CollectedView,
) -> Result<CollectedView, ErrorCode>
    decreases n,
{
    if n <= 0 {
        Ok(cv)
    } else {
        match overrides_fold(events, overrides, zone, only_cancel, n - 1, cv) {
            Err(e) => Err(e),
            Ok(c2) => override_effect(
                events[overrides[n - 1].1 as int].properties@,
                key_view(overrides[n - 1].0),
                zone,
                only_cancel,
                c2,
            ),
        }
    }
}

/// The day budget an import starts with.
pub const IMPORT_BUDGET: usize = 1_000_000;

/// What an import collects: every master in turn, then every detached
/// instance, from nothing and the full day budget.
pub open spec fn collect_effect(
    events: Seq<IcsEvent>,
    masters: Seq<(Key, usize)>,
    overrides: Seq<(Key, usize)>,
    zone: Seq<char>,
    from: int,
    through: int,
    only_cancel: bool,
) -> Result<CollectedView, ErrorCode> {
    match masters_fold(
        events,
        masters,
        overrides,
        zone,
        from,
        through,
        only_cancel,
        masters.len() as int,
        (Map::empty(), Map::empty(), Map::empty(), IMPORT_BUDGET as int),
    ) {
        Err(e) => Err(e),
        Ok(cv) => overrides_fold(events, overrides, zone, only_cancel, overrides.len() as int, cv),
    }
}

/// A failed master fails every longer run of masters.
proof fn lemma_masters_error_stays(
    events: Seq<IcsEvent>,
    masters: Seq<(Key, usize)>,
    overrides: Seq<(Key, usize)>,
    zone: Seq<char>,
    from: int,
    through: int,
    only_cancel: bool,
    n: int,
    m: int,
    cv: CollectedView,
)
    requires
        0 <= n <= m,
        masters_fold(events, masters, overrides, zone, from, through, only_cancel, n, cv) is Err,
    ensures
        masters_fold(events, masters, overrides, zone, from, through, only_cancel, m, cv) == masters_fold(
            events,
            masters,
            overrides,
            zone,
            from,
            through,
            only_cancel,
            n,
            cv,
        ),
    decreases m - n,
{
    if n < m {
        lemma_masters_error_stays(events, masters, overrides, zone, from, through, only_cancel, n, m - 1, cv);
    }
}

/// A failed detached instance fails every longer run of them.
proof fn lemma_overrides_error_stays(
    events: Seq<IcsEvent>,
    overrides: Seq<(Key, usize)>,
    zone: Seq<char>,
    only_cancel: bool,
    n: int,
    m: int,
    cv: CollectedView,
)
    requires
        0 <= n <= m,
        overrides_fold(events, overrides, zone, only_cancel, n, cv) is Err,
    ensures
        overrides_fold(events, overrides, zone, only_cancel, m, cv) == overrides_fold(events, overrides, zone, only_cancel, n, cv),
    decreases m - n,
{
    if n < m {
        lemma_overrides_error_stays(events, overrides, zone, only_cancel, n, m - 1, cv);
    }
}

/// The events and cancellations of all masters, then of all detached
/// instances (see `collect_effect`).
fn collect(
    events: &[IcsEvent],
    masters: &Vec<(Key, usize)>,
    overrides: &Vec<(Key, usize)>,
    timezone: &str,
    from_dn: i64,
    through_dn: i64,
    only_cancel: bool,
) -> (r: Result<Collected, ErrorCode>)
    requires
        tz_known(timezone@),
        through_dn <= MAX_DAY,
        index_ok(masters@, events@.len() as int),
        index_ok(overrides@, events@.len() as int),
    ensures
        r matches Ok(c) ==> collected_ok(c),
        match (collect_effect(events@, masters@, overrides@, timezone@, from_dn as int, through_dn as int, only_cancel), r) {
            (Ok(v), Ok(c)) => collected_view(c) == v,
            (Err(a), Err(b)) => a == b,
            _ => false,
        },
{
    let mut c = Collected { events: Vec::new(), series: Vec::new(), instances: Vec::new(), budget: IMPORT_BUDGET };
    let ghost cv0 = collected_view(c);
    assert(events_map(c.events@) =~= Map::<(Seq<char>, Seq<char>), EventView>::empty());
    assert(entry_map(c.series@) =~= Map::<(Seq<char>, Seq<char>), i64>::empty());
    assert(entry_map(c.instances@) =~= Map::<(Seq<char>, Seq<char>), i64>::empty());
    assert(cv0 == (Map::<(Seq<char>, Seq<char>), EventView>::empty(), Map::<(Seq<char>, Seq<char>), i64>::empty(), Map::<(Seq<char>, Seq<char>), i64>::empty(), IMPORT_BUDGET as int));
    let mut m: usize = 0;
    while m < masters.len()
        invariant
            tz_known(timezone@),
            through_dn <= MAX_DAY,
            m <= masters@.len(),
            index_ok(masters@, events@.len() as int),
            collected_ok(c),
            cv0 == (Map::<(Seq<char>, Seq<char>), EventView>::empty(), Map::<(Seq<char>, Seq<char>), i64>::empty(), Map::<(Seq<char>, Seq<char>), i64>::empty(), IMPORT_BUDGET as int),
            masters_fold(events@, masters@, overrides@, timezone@, from_dn as int, through_dn as int, only_cancel, m as int, cv0)
                == Ok::<CollectedView, ErrorCode>(collected_view(c)),
        decreases masters.len() - m,
    {
        let ei = masters[m].1;
        if let Err(e) = expand_master(
            events[ei].properties.as_slice(),
            masters[m].0.0.as_slice(),
            timezone,
            from_dn,
            through_dn,
            only_cancel,
            &overrides,
            &mut c,
        ) {
            proof {
                assert(masters_fold(events@, masters@, overrides@, timezone@, from_dn as int, through_dn as int, only_cancel, m + 1, cv0) == Err::<CollectedView, ErrorCode>(e));
                lemma_masters_error_stays(events@, masters@, overrides@, timezone@, from_dn as int, through_dn as int, only_cancel, m + 1, masters@.len() as int, cv0);
            }
            return Err(e);
        }
        m = m + 1;
    }
    let ghost cv1 = collected_view(c);
    let mut o: usize = 0;
    while o < overrides.len()
        invariant
            tz_known(timezone@),
            o <= overrides@.len(),
            index_ok(overrides@, events@.len() as int),
            collected_ok(c),
            cv0 == (Map::<(Seq<char>, Seq<char>), EventView>::empty(), Map::<(Seq<char>, Seq<char>), i64>::empty(), Map::<(Seq<char>, Seq<char>), i64>::empty(), IMPORT_BUDGET as int),
            masters_fold(events@, masters@, overrides@, timezone@, from_dn as int, through_dn as int, only_cancel, masters@.len() as int, cv0)
                == Ok::<CollectedView, ErrorCode>(cv1),
            overrides_fold(events@, overrides@, timezone@, only_cancel, o as int, cv1) == Ok::<CollectedView, ErrorCode>(collected_view(c)),
        decreases overrides.len() - o,
    {
        let ei = overrides[o].1;
        if let Err(e) = apply_override(events[ei].properties.as_slice(), &overrides[o].0, timezone, only_cancel, &mut c) {
            proof {
                assert(overrides_fold(events@, overrides@, timezone@, only_cancel, o + 1, cv1) == Err::<CollectedView, ErrorCode>(e));
                lemma_overrides_error_stays(events@, overrides@, timezone@, only_cancel, o + 1, overrides@.len() as int, cv1);
            }
            return Err(e);
        }
        o = o + 1;
    }
    Ok(c)
}

/// Whether a calendar only cancels: its METHOD is CANCEL.
pub open spec fn only_cancels(c: IcsCalendar) -> bool {
    value_of(c.header.properties@, "METHOD"@) == Ok::<Option<Seq<char>>, ErrorCode>(Some("CANCEL"@))
}

/// A feed holds exactly the collected state: its events are the collected
/// events, keyed by UID and instance key; its cancelled instances and
/// series are the collected cancellations.
#[verifier::opaque]
pub open spec fn feed_is(feed: Feed, cv: CollectedView, only_cancel: bool) -> bool {
    &&& feed.cancellations_only == only_cancel
    &&& feed.events@.len() == cv.0.dom().len()
    &&& forall|i: int|
        0 <= i < feed.events@.len() ==> cv.0.contains_key((feed.events@[i].uid@, feed.events@[i].original@))
            && cv.0[(feed.events@[i].uid@, feed.events@[i].original@)] == event_view(#[trigger] feed.events@[i])
    &&& feed.cancelled_instances@.len() == cv.2.dom().len()
    &&& forall|i: int|
        0 <= i < feed.cancelled_instances@.len() ==> cv.2.contains_key(
            ((#[trigger] feed.cancelled_instances@[i]).0.0@, feed.cancelled_instances@[i].0.1@),
        ) && cv.2[(feed.cancelled_instances@[i].0.0@, feed.cancelled_instances@[i].0.1@)] == feed.cancelled_instances@[i].1
    &&& feed.cancelled_series@.len() == cv.1.dom().len()
    &&& forall|i: int|
        0 <= i < feed.cancelled_series@.len() ==> cancels_series(
            cv.1,
            (#[trigger] feed.cancelled_series@[i]).0@,
            feed.cancelled_series@[i].1,
        )
}

/// Whether the cancellations hold one of the series `uid` at sequence `n`.
pub open spec fn cancels_series(m: Map<(Seq<char>, Seq<char>), i64>, uid: Seq<char>, n: i64) -> bool {
    exists|k: (Seq<char>, Seq<char>)| m.contains_key(k) && k.0 == uid && m[k] == n
}

/// What an import of one calendar gives once the window is accepted (see
/// `parse`): its zone definitions must pass (see `zones_verdict`), it may
/// hold at most 256 events, and its METHOD, if any, must be PUBLISH or
/// CANCEL. Its events are then filed (see `index_error`), detached
/// instances refiled under their masters' keys (see `normal_error`), and
/// everything collected (see `collect_effect`); at most 2048 events may
/// result.
#[verifier::opaque]
pub open spec fn parse_outcome(cal: IcsCalendar, zone: Seq<char>, from: int, through: int, r: Result<Feed, ErrorCode>) -> bool {
    match zones_verdict(cal.timezones@, from, through) {
        Err(e) => r == Err::<Feed, ErrorCode>(e),
        Ok(_) => if cal.events@.len() > 256 {
            r == Err::<Feed, ErrorCode>(ErrorCode::CalendarLimit)
        } else {
            match value_of(cal.header.properties@, "METHOD"@) {
                Err(e) => r == Err::<Feed, ErrorCode>(e),
                Ok(method) => if method matches Some(m) && m != "PUBLISH"@ && m != "CANCEL"@ {
                    r == Err::<Feed, ErrorCode>(ErrorCode::UnsupportedCalendarRule)
                } else {
                    let events = cal.events@;
                    let n = events.len() as int;
                    let only = method == Some("CANCEL"@);
                    match index_error(events, zone, n) {
                        Some(e) => r == Err::<Feed, ErrorCode>(e),
                        None => exists|m: Seq<(Key, usize)>, o: Seq<(Key, usize)>|
                            index_ok(m, n) && index_ok(o, n) && files_events(m, events, zone, n, false)
                                && files_events(o, events, zone, n, true) && #[trigger] detached_outcome(
                                events,
                                m,
                                o,
                                zone,
                                from,
                                through,
                                only,
                                r,
                            ),
                    }
                },
            }
        },
    }
}

/// The rest of an import once its events are filed as masters `m` and
/// detached instances `o`.
#[verifier::opaque]
pub open spec fn detached_outcome(
    events: Seq<IcsEvent>,
    m: Seq<(Key, usize)>,
    o: Seq<(Key, usize)>,
    zone: Seq<char>,
    from: int,
    through: int,
    only: bool,
    r: Result<Feed, ErrorCode>,
) -> bool {
    match normal_error(events, m, o, zone, o.len() as int) {
        Some(e) => r == Err::<Feed, ErrorCode>(e),
        None => exists|nn: Seq<(Key, usize)>|
            index_ok(nn, events.len() as int) && files_refiled(nn, events, m, o, zone, o.len() as int) && #[trigger] collected_outcome(
                events,
                m,
                nn,
                zone,
                from,
                through,
                only,
                r,
            ),
    }
}

/// The feed an import gives from its filed masters and refiled detached
/// instances.
#[verifier::opaque]
pub open spec fn collected_outcome(
    events: Seq<IcsEvent>,
    m: Seq<(Key, usize)>,
    nn: Seq<(Key, usize)>,
    zone: Seq<char>,
    from: int,
    through: int,
    only: bool,
    r: Result<Feed, ErrorCode>,
) -> bool {
    match collect_effect(events, m, nn, zone, from, through, only) {
        Err(e) => r == Err::<Feed, ErrorCode>(e),
        Ok(cv) => if cv.0.dom().len() > 2048 {
            r == Err::<Feed, ErrorCode>(ErrorCode::CalendarLimit)
        } else {
            r matches Ok(feed) && feed_is(feed, cv, only)
        },
    }
}

/// Imports one calendar once its window is accepted (see `parse_outcome`).
fn parse_calendar(
    cal: &IcsCalendar,
    timezone: &str,
    from_date: CivilDate,
    through_date: CivilDate,
    from: &str,
    through: &str,
) -> (r: Result<Feed, ErrorCode>)
    requires
        tz_known(timezone@),
        valid_date(from_date),
        valid_date(through_date),
        1900 <= from_date.year <= 9999,
        1900 <= through_date.year <= 9999,
    ensures
        parse_outcome(*cal, timezone@, day_number(from_date), day_number(through_date), r),
        r matches Ok(feed) ==> {
            &&& feed.from@ == from@
            &&& feed.through@ == through@
            &&& feed.events@.len() <= 2048
            &&& feed.cancellations_only == only_cancels(*cal)
            &&& forall|i: int, j: int|
                0 <= i < j < feed.events@.len() ==> key_lt(
                    (#[trigger] feed.events@[i].uid@, feed.events@[i].original@),
                    (#[trigger] feed.events@[j].uid@, feed.events@[j].original@),
                )
            &&& forall|i: int|
                0 <= i < feed.events@.len() ==> (#[trigger] feed.events@[i]).status == EventStatus::Present
                    && feed.events@[i].sequence >= 0 && uid_ok(feed.events@[i].uid@)
        },
{
    reveal(parse_outcome);
    proof {
        reveal_strlit("CANCEL");
        reveal_strlit("PUBLISH");
    }
    if let Err(e) = validate_timezones(cal.timezones.as_slice(), from_date, through_date) {
        return Err(e);
    }
    if cal.events.len() > 256 {
        return Err(ErrorCode::CalendarLimit);
    }
    let method = match value(cal.header.properties.as_slice(), "METHOD") {
        Ok(m) => m,
        Err(e) => return Err(e),
    };
    if let Some(m) = method {
        if !str_eq(m, "PUBLISH") && !str_eq(m, "CANCEL") {
            return Err(ErrorCode::UnsupportedCalendarRule);
        }
    }
    let only_cancel = match method {
        Some(m) => str_eq(m, "CANCEL"),
        None => false,
    };
    let events = cal.events.as_slice();
    proof {
        assert(only_cancel == (value_of(cal.header.properties@, "METHOD"@)->Ok_0 == Some("CANCEL"@)));
        assert(events@ == cal.events@);
    }
    let ghost zone = timezone@;
    let ghost fd = day_number(from_date);
    let ghost td = day_number(through_date);
    let (masters, filed) = match index_events(events, timezone) {
        Ok(x) => x,
        Err(e) => return Err(e),
    };
    let overrides = match normalise(events, &masters, &filed, timezone) {
        Ok(x) => x,
        Err(e) => {
            proof {
                assert(detached_outcome(events@, masters@, filed@, zone, fd, td, only_cancel, Err::<Feed, ErrorCode>(e))) by {
                    reveal(detached_outcome);
                }
            }
            return Err(e);
        },
    };
    proof {
        crate::time::lemma_day_number_range(from_date);
        crate::time::lemma_day_number_range(through_date);
    }
    let from_dn = day_number_exec(from_date);
    let through_dn = day_number_exec(through_date);
    let c = match collect(events, &masters, &overrides, timezone, from_dn, through_dn, only_cancel) {
        Ok(c) => c,
        Err(e) => {
            proof {
                let rr = Err::<Feed, ErrorCode>(e);
                assert(collected_outcome(events@, masters@, overrides@, zone, fd, td, only_cancel, rr)) by {
                    reveal(collected_outcome);
                }
                assert(detached_outcome(events@, masters@, filed@, zone, fd, td, only_cancel, rr)) by {
                    reveal(detached_outcome);
                }
            }
            return Err(e);
        },
    };
    let ghost cv = collected_view(c);
    proof {
        lemma_entry_map_len(c.events@);
        lemma_entry_map_len(c.series@);
        lemma_entry_map_len(c.instances@);
        assert(cv.0.dom() =~= entry_map(c.events@).dom());
    }
    if c.events.len() > 2048 {
        proof {
            let rr = Err::<Feed, ErrorCode>(ErrorCode::CalendarLimit);
            assert(collected_outcome(events@, masters@, overrides@, zone, fd, td, only_cancel, rr)) by {
                reveal(collected_outcome);
            }
            assert(detached_outcome(events@, masters@, filed@, zone, fd, td, only_cancel, rr)) by {
                reveal(detached_outcome);
            }
        }
        return Err(ErrorCode::CalendarLimit);
    }
    let ghost ev = c.events@;
    let ghost sv = c.series@;
    let ghost iv = c.instances@;
    let list = values(c.events);
    let series = series_list(c.series);
    let instances = instance_list(c.instances);
    proof {
        assert forall|i: int, j: int| 0 <= i < j < list@.len() implies key_lt(
            (#[trigger] list@[i].uid@, list@[i].original@),
            (#[trigger] list@[j].uid@, list@[j].original@),
        ) by {
            assert(event_entry(key_view(ev[i].0), ev[i].1));
            assert(event_entry(key_view(ev[j].0), ev[j].1));
        }
        assert forall|i: int| 0 <= i < list@.len() implies (#[trigger] list@[i]).status == EventStatus::Present
            && list@[i].sequence >= 0 && uid_ok(list@[i].uid@) by {
            assert(event_entry(key_view(ev[i].0), ev[i].1));
        }
    }
    let feed = Feed {
        events: list,
        cancelled_series: series,
        cancelled_instances: instances,
        cancellations_only: only_cancel,
        from: from.to_owned(),
        through: through.to_owned(),
    };
    proof {
        assert(feed_is(feed, cv, only_cancel)) by {
            reveal(feed_is);
            assert(feed.events@.len() == cv.0.dom().len());
            assert(feed.cancelled_instances@.len() == cv.2.dom().len());
            assert(feed.cancelled_series@.len() == cv.1.dom().len());
            assert forall|i: int| 0 <= i < feed.events@.len() implies cv.0.contains_key(
                (feed.events@[i].uid@, feed.events@[i].original@),
            ) && cv.0[(feed.events@[i].uid@, feed.events@[i].original@)] == event_view(#[trigger] feed.events@[i]) by {
                assert(event_entry(key_view(ev[i].0), ev[i].1));
                lemma_entry_map_at(ev, i);
            }
            assert forall|i: int| 0 <= i < feed.cancelled_instances@.len() implies cv.2.contains_key(
                ((#[trigger] feed.cancelled_instances@[i]).0.0@, feed.cancelled_instances@[i].0.1@),
            ) && cv.2[(feed.cancelled_instances@[i].0.0@, feed.cancelled_instances@[i].0.1@)]
                == feed.cancelled_instances@[i].1 by {
                lemma_entry_map_at(iv, i);
            }
            assert forall|i: int| 0 <= i < feed.cancelled_series@.len() implies cancels_series(
                cv.1,
                (#[trigger] feed.cancelled_series@[i]).0@,
                feed.cancelled_series@[i].1,
            ) by {
                lemma_entry_map_at(sv, i);
                let k = key_view(sv[i].0);
                assert(cv.1.contains_key(k) && k.0 == feed.cancelled_series@[i].0@);
            }
        }
        let rr = Ok::<Feed, ErrorCode>(feed);
        assert(collected_outcome(events@, masters@, overrides@, zone, fd, td, only_cancel, rr)) by {
            reveal(collected_outcome);
        }
        assert(detached_outcome(events@, masters@, filed@, zone, fd, td, only_cancel, rr)) by {
            reveal(detached_outcome);
        }
    }
    Ok(feed)
}

/// Imports a calendar for the days `from` through `through` in a default
/// zone. Unsupported semantics fail the whole import. The window's limits
/// decide first (see `feed_window`); the text must hold exactly one
/// calendar. A feed lists its events in order of UID and instance key, each
/// present and filed under its own UID (1 to 512 bytes) and instance key,
/// at most 2048 of them. What the import gives from the one calendar is
/// `parse_outcome`: exactly the events and cancellations collected for the
/// window, or the first error met.
pub fn parse(input: &str, timezone: &str, from: &str, through: &str) -> (r: Result<Feed, ErrorCode>)
    ensures
        feed_window(input@, timezone@, from@, through@) matches Err(e) ==> r == Err::<Feed, ErrorCode>(e),
        feed_window(input@, timezone@, from@, through@) is Ok && !(ical_read(input@).0 matches Some(Some(_))
            && !ical_read(input@).1) ==> r == Err::<Feed, ErrorCode>(ErrorCode::InvalidIcs),
        match (feed_window(input@, timezone@, from@, through@), ical_read(input@)) {
            (Ok((f, t)), (Some(Some(cal)), false)) => parse_outcome(cal, timezone@, day_number(f), day_number(t), r),
            _ => true,
        },
        r matches Ok(feed) ==> {
            &&& feed.from@ == from@
            &&& feed.through@ == through@
            &&& feed.events@.len() <= 2048
            &&& (ical_read(input@).0 matches Some(Some(cal)) && feed.cancellations_only == only_cancels(cal))
            &&& forall|i: int, j: int|
                0 <= i < j < feed.events@.len() ==> key_lt(
                    (#[trigger] feed.events@[i].uid@, feed.events@[i].original@),
                    (#[trigger] feed.events@[j].uid@, feed.events@[j].original@),
                )
            &&& forall|i: int|
                0 <= i < feed.events@.len() ==> (#[trigger] feed.events@[i]).status == EventStatus::Present
                    && feed.events@[i].sequence >= 0 && uid_ok(feed.events@[i].uid@)
        },
{
    proof {
        reveal_strlit("CANCEL");
        reveal_strlit("PUBLISH");
    }
    let (from_date, through_date) = match window(input, timezone, from, through) {
        Ok(w) => w,
        Err(e) => return Err(e),
    };
    let cal = match read_calendar(input) {
        (Some(Some(c)), false) => c,
        _ => return Err(ErrorCode::InvalidIcs),
    };
    parse_calendar(&cal, timezone, from_date, through_date, from, through)
}


/// A found instance of a rule without BYMONTH, BYDAY or BYMONTHDAY: at the
/// start's time, a whole number of intervals on from the start; a weekly
/// rule keeps the start's weekday, a monthly one its day of the month and
/// a yearly one also its month.
pub open spec fn on_unfiltered_date(
    r: RuleSpec,
    f: (CivilDate, int, Seq<char>, bool),
    s: (CivilDate, int, Seq<char>, bool),
) -> bool {
    &&& f.1 == s.1
    &&& if r.freq == 0 {
        (day_number(f.0) - day_number(s.0)) % r.interval == 0
    } else if r.freq == 1 {
        weekday(f.0) == weekday(s.0) && ((day_number(f.0) - week_start(s.0, r.wkst)) / 7) % r.interval == 0
    } else if r.freq == 2 {
        f.0.day == s.0.day && ((f.0.year - s.0.year) * 12 + f.0.month - s.0.month) % r.interval == 0
    } else {
        f.0.month == s.0.month && f.0.day == s.0.day && (f.0.year - s.0.year) % r.interval == 0
    }
}

proof fn lemma_unfiltered_walk(
    r: RuleSpec,
    s: (CivilDate, int, Seq<char>, bool),
    through: int,
    day: int,
    budget: int,
    found: Seq<(CivilDate, int, Seq<char>, bool)>,
)
    requires
        0 <= r.freq <= 3,
        r.months is None,
        r.byday is None,
        r.monthdays is None,
        forall|i: int| 0 <= i < found.len() ==> on_unfiltered_date(r, #[trigger] found[i], s),
    ensures
        walk(r, s, through, day, budget, found) matches Ok((f, _)) ==> forall|i: int|
            0 <= i < f.len() ==> on_unfiltered_date(r, #[trigger] f[i], s),
    decreases through + 1 - day,
{
    reveal(walk);
    if day > through || budget <= 0 {
    } else {
        let d = civil(day);
        if !(d.month == 12 && d.year + 1 > MAX_YEAR) {
            match day_step(r, s, d, found) {
                Err(_) => {},
                Ok((f2, stop)) => {
                    assert forall|i: int| 0 <= i < f2.len() implies on_unfiltered_date(r, #[trigger] f2[i], s) by {
                        if i >= found.len() {
                            assert(f2 == found.push((d, s.1, s.2, s.3)));
                        }
                    }
                    if !stop && day + 1 <= MAX_DAY {
                        lemma_unfiltered_walk(r, s, through, day + 1, budget - 1, f2);
                    }
                },
            }
        }
    }
}

/// A rule without BYMONTH, BYDAY or BYMONTHDAY recurs at its start's time,
/// a whole number of intervals on from its start: daily every `interval`
/// days, weekly on the start's weekday every `interval` weeks, monthly on
/// the start's day of the month, yearly on the start's month and day.
pub proof fn law_unfiltered_rule_keeps_the_pattern(
    r: RuleSpec,
    s: (CivilDate, int, Seq<char>, bool),
    through: int,
    budget: int,
)
    requires
        0 <= r.freq <= 3,
        r.months is None,
        r.byday is None,
        r.monthdays is None,
    ensures
        walk(r, s, through, day_number(s.0), budget, Seq::empty()) matches Ok((found, _)) ==> forall|i: int|
            0 <= i < found.len() ==> on_unfiltered_date(r, #[trigger] found[i], s),
{
    lemma_unfiltered_walk(r, s, through, day_number(s.0), budget, Seq::empty());
}

/// A yearly rule without BYMONTH, BYDAY or BYMONTHDAY recurs on its start's
/// month and day of the month, at the start's time, in years a whole
/// number of intervals after the start's.
pub proof fn law_yearly_rule_keeps_the_date(r: RuleSpec, s: (CivilDate, int, Seq<char>, bool), through: int, budget: int)
    requires
        r.freq == 3,
        r.months is None,
        r.byday is None,
        r.monthdays is None,
    ensures
        walk(r, s, through, day_number(s.0), budget, Seq::empty()) matches Ok((found, _)) ==> forall|i: int|
            0 <= i < found.len() ==> {
                &&& (#[trigger] found[i]).0.month == s.0.month
                &&& found[i].0.day == s.0.day
                &&& (found[i].0.year - s.0.year) % r.interval == 0
                &&& found[i].1 == s.1
            },
{
    lemma_unfiltered_walk(r, s, through, day_number(s.0), budget, Seq::empty());
    if let Ok((found, _)) = walk(r, s, through, day_number(s.0), budget, Seq::empty()) {
        assert forall|i: int| 0 <= i < found.len() implies {
            &&& (#[trigger] found[i]).0.month == s.0.month
            &&& found[i].0.day == s.0.day
            &&& (found[i].0.year - s.0.year) % r.interval == 0
            &&& found[i].1 == s.1
        } by {
            assert(on_unfiltered_date(r, found[i], s));
        }
    }
}

} // verus!
