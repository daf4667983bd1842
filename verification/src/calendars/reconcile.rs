//! Keeping anchored occurrences in step with what they follow: which dates
//! are candidates, which candidates are eligible, and what becomes of an
//! occurrence when its reference changes. Calendar input never deletes
//! work: at most it moves an untouched occurrence or asks for a review.
use vstd::prelude::*;
use crate::calendars::anchors::Anchor;
use crate::calendars::ics::EventStatus;
use crate::error::ErrorCode;
use crate::people::{lowercase, to_lowercase};
use crate::tasks::definition::Carry;
use crate::text::{chars_of, int_text, parse_int, Parsed};
use crate::time::{CivilDate, MAX_SECOND, MIN_SECOND, date_from_ymd, valid_date, weekday};

verus! {

/// `needle` occurs in `hay` starting at position `i`.
pub open spec fn occurs_at(hay: Seq<char>, needle: Seq<char>, i: int) -> bool {
    0 <= i && i + needle.len() <= hay.len() && hay.subrange(i, i + needle.len()) == needle
}

/// `needle` occurs somewhere in `hay`.
pub open spec fn contains_text(hay: Seq<char>, needle: Seq<char>) -> bool {
    exists|i: int| #[trigger] occurs_at(hay, needle, i)
}

/// Whether `needle` occurs in `hay` (`str::contains`).
pub fn text_contains(hay: &[char], needle: &[char]) -> (r: bool)
    ensures
        r == contains_text(hay@, needle@),
{
    if needle.len() > hay.len() {
        proof {
            assert forall|i: int| !occurs_at(hay@, needle@, i) by {}
        }
        return false;
    }
    let last = hay.len() - needle.len();
    let mut i: usize = 0;
    while i <= last
        invariant
            last == hay@.len() - needle@.len(),
            i <= last + 1,
            forall|j: int| 0 <= j < i ==> !occurs_at(hay@, needle@, j),
        decreases last + 1 - i,
    {
        let mut k: usize = 0;
        while k < needle.len() && hay[i + k] == needle[k]
            invariant
                i <= last,
                last == hay@.len() - needle@.len(),
                hay@.len() == hay.len(),
                k <= needle@.len(),
                forall|m: int| 0 <= m < k ==> hay@[i + m] == needle@[m],
            decreases needle.len() - k,
        {
            k = k + 1;
        }
        if k == needle.len() {
            assert(hay@.subrange(i as int, i + needle@.len()) =~= needle@);
            assert(occurs_at(hay@, needle@, i as int));
            return true;
        }
        assert(!occurs_at(hay@, needle@, i as int)) by {
            if occurs_at(hay@, needle@, i as int) {
                assert(hay@.subrange(i as int, i + needle@.len())[k as int] == needle@[k as int]);
            }
        }
        i = i + 1;
    }
    proof {
        assert forall|j: int| !occurs_at(hay@, needle@, j) by {
            if occurs_at(hay@, needle@, j) {
                assert(0 <= j <= last);
            }
        }
    }
    false
}

/// A candidate is eligible when its date falls on one of the anchor's
/// weekdays (numbered 1 for Monday to 7; none listed means any day), and its
/// title contains the anchor's filter text, compared in lower case.
pub open spec fn anchor_eligible(a: Anchor, date: CivilDate, title: Seq<char>) -> bool {
    &&& (a.weekdays@.len() == 0 || a.weekdays@.contains((weekday(date) + 1) as u32))
    &&& (a.title_contains matches Some(f) ==> contains_text(lowercase(title), lowercase(f@)))
}

/// Whether a candidate on `date` with `title` is eligible for an anchor.
pub fn eligible(a: &Anchor, date: CivilDate, title: &str) -> (r: bool)
    requires
        valid_date(date),
    ensures
        r == anchor_eligible(*a, date, title@),
{
    proof {
        crate::time::lemma_day_number_bounds(date);
    }
    let number: u32 = (crate::time::weekday_exec(date) + 1) as u32;
    let mut on_day = a.weekdays.len() == 0;
    let mut i: usize = 0;
    while i < a.weekdays.len() && !on_day
        invariant
            i <= a.weekdays@.len(),
            on_day == (a.weekdays@.len() == 0 || exists|j: int|
                0 <= j < i && a.weekdays@[j] == number),
        decreases a.weekdays.len() - i,
    {
        if a.weekdays[i] == number {
            on_day = true;
        }
        i = i + 1;
    }
    proof {
        if on_day && a.weekdays@.len() > 0 {
            let j = choose|j: int| 0 <= j < i && a.weekdays@[j] == number;
            assert(a.weekdays@.contains(number));
        }
        if !on_day {
            assert forall|j: int| 0 <= j < a.weekdays@.len() implies a.weekdays@[j] != number by {}
        }
    }
    if !on_day {
        return false;
    }
    match &a.title_contains {
        None => true,
        Some(f) => {
            let hay = to_lowercase(title);
            let needle = to_lowercase(f.as_str());
            let h = chars_of(hay.as_str());
            let n = chars_of(needle.as_str());
            text_contains(h.as_slice(), n.as_slice())
        },
    }
}

/// The date a person's date field gives in a year: the date itself, or for
/// an annual anchor on 29 February, 28 February in years without it.
pub open spec fn candidate_date_of(year: i32, month: u32, day: u32, annual: bool) -> Option<
    CivilDate,
> {
    if valid_date(CivilDate { year, month, day }) {
        Some(CivilDate { year, month, day })
    } else if annual && month == 2 && day == 29 && valid_date(
        CivilDate { year, month: 2, day: 28 },
    ) {
        Some(CivilDate { year, month: 2, day: 28 })
    } else {
        None
    }
}

/// The date a person's date field gives in a year (see `candidate_date_of`).
pub fn candidate_date(year: i32, month: u32, day: u32, annual: bool) -> (r: Option<CivilDate>)
    ensures
        r == candidate_date_of(year, month, day, annual),
{
    match date_from_ymd(year, month, day) {
        Some(d) => Some(d),
        None => {
            if annual && month == 2 && day == 29 {
                date_from_ymd(year, 2, 28)
            } else {
                None
            }
        },
    }
}

/// Why an anchored occurrence is offered for review.
#[derive(Clone, Copy, Debug, PartialEq, Eq, Structural)]
pub enum ReviewReason {
    ContextUnavailable,
    Cancelled,
    Missing,
    NoLongerEligible,
    WorkStarted,
    Moved,
}

impl ReviewReason {
    /// The reason's name as reviews record it.
    pub fn name(&self) -> (r: &'static str)
        ensures
            r@ == review_reason_name(*self),
    {
        match self {
            ReviewReason::ContextUnavailable => "context_unavailable",
            ReviewReason::Cancelled => "cancelled",
            ReviewReason::Missing => "missing",
            ReviewReason::NoLongerEligible => "no_longer_eligible",
            ReviewReason::WorkStarted => "work_started",
            ReviewReason::Moved => "moved",
        }
    }
}

/// The recorded name of a review reason.
pub open spec fn review_reason_name(r: ReviewReason) -> Seq<char> {
    match r {
        ReviewReason::ContextUnavailable => "context_unavailable"@,
        ReviewReason::Cancelled => "cancelled"@,
        ReviewReason::Missing => "missing"@,
        ReviewReason::NoLongerEligible => "no_longer_eligible"@,
        ReviewReason::WorkStarted => "work_started"@,
        ReviewReason::Moved => "moved"@,
    }
}

/// What becomes of an existing anchored occurrence.
#[derive(Clone, Copy, Debug, PartialEq, Eq, Structural)]
pub enum AnchoredStep {
    /// Leave it as it is.
    Keep,
    /// Leave it, and offer it for review.
    Review(ReviewReason),
    /// Move it to the new slot (and record the move for review).
    Move,
}

/// What an anchored occurrence is in: whether it is resolved, how it
/// closes, whether every reader still shares its context, whether every
/// reader sees it complete, and whether any work was recorded on it.
pub struct AnchoredState {
    pub resolved: bool,
    pub carry: Carry,
    pub closes_at: Option<i64>,
    pub common: bool,
    pub completed: bool,
    pub has_work: bool,
}

/// A resolved occurrence, or a closed one whose unfinished work closes, is
/// history and stays. One whose context is no longer common to its readers
/// is reviewed; a completed one stays; a cancelled, missing or ineligible
/// reference is reviewed; an unchanged slot stays; recorded work freezes
/// the period (reviewed); otherwise the occurrence moves.
pub open spec fn anchored_step_of(s: AnchoredState, now: i64, status: EventStatus, eligible: bool, unchanged: bool) -> AnchoredStep {
    if s.resolved || (s.carry == Carry::CloseIncomplete && (s.closes_at matches Some(v) && v
        <= now)) {
        AnchoredStep::Keep
    } else if !s.common {
        AnchoredStep::Review(ReviewReason::ContextUnavailable)
    } else if s.completed {
        AnchoredStep::Keep
    } else if status == EventStatus::Cancelled {
        AnchoredStep::Review(ReviewReason::Cancelled)
    } else if status == EventStatus::Missing {
        AnchoredStep::Review(ReviewReason::Missing)
    } else if !eligible {
        AnchoredStep::Review(ReviewReason::NoLongerEligible)
    } else if unchanged {
        AnchoredStep::Keep
    } else if s.has_work {
        AnchoredStep::Review(ReviewReason::WorkStarted)
    } else {
        AnchoredStep::Move
    }
}

/// Decides what becomes of an existing anchored occurrence.
pub fn anchored_step(s: &AnchoredState, now: i64, status: EventStatus, eligible: bool, unchanged: bool) -> (r: AnchoredStep)
    ensures
        r == anchored_step_of(*s, now, status, eligible, unchanged),
{
    let closed = match s.closes_at {
        Some(v) => v <= now,
        None => false,
    };
    if s.resolved || (s.carry == Carry::CloseIncomplete && closed) {
        AnchoredStep::Keep
    } else if !s.common {
        AnchoredStep::Review(ReviewReason::ContextUnavailable)
    } else if s.completed {
        AnchoredStep::Keep
    } else if status == EventStatus::Cancelled {
        AnchoredStep::Review(ReviewReason::Cancelled)
    } else if status == EventStatus::Missing {
        AnchoredStep::Review(ReviewReason::Missing)
    } else if !eligible {
        AnchoredStep::Review(ReviewReason::NoLongerEligible)
    } else if unchanged {
        AnchoredStep::Keep
    } else if s.has_work {
        AnchoredStep::Review(ReviewReason::WorkStarted)
    } else {
        AnchoredStep::Move
    }
}

/// Calendar input never deletes work: whatever the reference does, an
/// existing anchored occurrence is kept, moved or offered for review, and
/// it only moves when no work was recorded on it and it is neither
/// resolved nor completed.
pub proof fn law_anchor_never_deletes(s: AnchoredState, now: i64, status: EventStatus, eligible: bool, unchanged: bool)
    ensures
        anchored_step_of(s, now, status, eligible, unchanged) == AnchoredStep::Move ==> !s.has_work
            && !s.resolved && !s.completed && s.common && status == EventStatus::Present
            && eligible && !unchanged,
        status != EventStatus::Present && !s.resolved && !(s.carry == Carry::CloseIncomplete && (
        s.closes_at matches Some(v) && v <= now)) && s.common && !s.completed ==> anchored_step_of(
            s,
            now,
            status,
            eligible,
            unchanged,
        ) is Review,
{
}

/// A new anchored occurrence is created for a present, eligible candidate
/// dated from 30 days before to 400 days after the current UTC date; `now`
/// must be a representable instant.
pub open spec fn admits_new_of(status: EventStatus, eligible: bool, day: int, now: int) -> bool {
    &&& status == EventStatus::Present
    &&& eligible
    &&& now / 86400 - 30 <= day <= now / 86400 + 400
}

/// Decides whether a candidate becomes a new anchored occurrence.
pub fn admits_new(status: EventStatus, eligible: bool, day: i64, now: i64) -> (r: Result<bool, ErrorCode>)
    ensures
        (status == EventStatus::Present && eligible) ==> (MIN_SECOND <= now <= MAX_SECOND ==> r
            == Ok::<bool, ErrorCode>(admits_new_of(status, eligible, day as int, now as int))),
        (status == EventStatus::Present && eligible) && !(MIN_SECOND <= now <= MAX_SECOND) ==> r
            == Err::<bool, ErrorCode>(ErrorCode::InvalidValue),
        !(status == EventStatus::Present && eligible) ==> r == Ok::<bool, ErrorCode>(false),
{
    if !(status == EventStatus::Present && eligible) {
        return Ok(false);
    }
    if now < MIN_SECOND || now > MAX_SECOND {
        return Err(ErrorCode::InvalidValue);
    }
    let today: i64 = (now - MIN_SECOND) / 86400 + MIN_SECOND / 86400;
    assert(today == now / 86400);
    Ok(today - 30 <= day && day <= today + 400)
}

/// The position of the last `c` in `s`, if any.
pub open spec fn last_index(s: Seq<char>, c: char) -> Option<int>
    decreases s.len(),
{
    if s.len() == 0 {
        None
    } else if s.last() == c {
        Some(s.len() - 1)
    } else {
        last_index(s.drop_last(), c)
    }
}

/// The year an anchored occurrence's key carries after its last `:`:
/// `Some(None)` for a key without one, `None` when the text there is not a
/// 32-bit integer.
pub open spec fn key_year_of(key: Seq<char>) -> Option<Option<int>> {
    match last_index(key, ':') {
        None => Some(None),
        Some(i) => match int_text(key.skip(i + 1), true) {
            Some(v) => if i32::MIN <= v <= i32::MAX {
                Some(Some(v))
            } else {
                None
            },
            None => None,
        },
    }
}

proof fn lemma_last_index(s: Seq<char>, c: char)
    ensures
        last_index(s, c) matches Some(i) ==> 0 <= i < s.len() && s[i] == c && forall|j: int|
            i < j < s.len() ==> s[j] != c,
        last_index(s, c) is None ==> forall|j: int| 0 <= j < s.len() ==> s[j] != c,
    decreases s.len(),
{
    if s.len() > 0 {
        let t = s.drop_last();
        lemma_last_index(t, c);
        assert forall|j: int| 0 <= j < t.len() implies t[j] == s[j] by {}
        if s.last() != c {
            if let Some(i) = last_index(t, c) {
                assert forall|j: int| i < j < s.len() implies s[j] != c by {
                    if j < t.len() {
                        assert(t[j] == s[j]);
                    }
                }
            } else {
                assert forall|j: int| 0 <= j < s.len() implies s[j] != c by {
                    if j < t.len() {
                        assert(t[j] == s[j]);
                    }
                }
            }
        }
    }
}

/// Reads the year an anchored occurrence's key carries (see `key_year_of`).
pub fn key_year(key: &str) -> (r: Result<Option<i32>, ErrorCode>)
    ensures
        match (key_year_of(key@), r) {
            (Some(None), Ok(None)) => true,
            (Some(Some(y)), Ok(Some(x))) => x == y,
            (None, Err(e)) => e == ErrorCode::InvalidValue,
            _ => false,
        },
{
    let chars = chars_of(key);
    let mut i: usize = chars.len();
    proof {
        lemma_last_index(key@, ':');
    }
    while i > 0 && chars[i - 1] != ':'
        invariant
            chars@ == key@,
            i <= chars@.len(),
            forall|j: int| i <= j < chars@.len() ==> chars@[j] != ':',
        decreases i,
    {
        i = i - 1;
    }
    proof {
        if i > 0 {
            assert(last_index(key@, ':') == Some((i - 1) as int)) by {
                if last_index(key@, ':') != Some((i - 1) as int) {
                    match last_index(key@, ':') {
                        Some(k) => {
                            assert(k < i - 1 || k > i - 1);
                        },
                        None => {},
                    }
                }
            }
        } else {
            assert(last_index(key@, ':') is None) by {
                if let Some(k) = last_index(key@, ':') {
                    assert(chars@[k] != ':');
                }
            }
        }
    }
    if i == 0 {
        return Ok(None);
    }
    let mut tail: Vec<char> = Vec::new();
    let mut j: usize = i;
    while j < chars.len()
        invariant
            chars@ == key@,
            i <= j <= chars@.len(),
            tail@ == key@.subrange(i as int, j as int),
        decreases chars.len() - j,
    {
        tail.push(chars[j]);
        j = j + 1;
        assert(tail@ =~= key@.subrange(i as int, j as int));
    }
    assert(tail@ =~= key@.skip(i as int));
    match parse_int(tail.as_slice(), true) {
        Parsed::Value(v) => {
            if v >= i32::MIN as i128 && v <= i32::MAX as i128 {
                Ok(Some(v as i32))
            } else {
                Err(ErrorCode::InvalidValue)
            }
        },
        _ => Err(ErrorCode::InvalidValue),
    }
}

/// Strictly increasing years.
pub open spec fn increasing(v: Seq<i32>) -> bool {
    forall|i: int, j: int| 0 <= i < j < v.len() ==> v[i] < v[j]
}

/// The years of some values, as a set of integers.
pub open spec fn year_set(v: Seq<i32>) -> Set<int> {
    Set::new(|y: int| exists|i: int| 0 <= i < v.len() && v[i] == y)
}

/// Adds a year to strictly increasing years.
fn insert_year(v: &mut Vec<i32>, y: i32)
    requires
        increasing(old(v)@),
    ensures
        increasing(final(v)@),
        year_set(final(v)@) == year_set(old(v)@).insert(y as int),
{
    let mut i: usize = 0;
    while i < v.len() && v[i] < y
        invariant
            i <= v@.len(),
            forall|j: int| 0 <= j < i ==> v@[j] < y,
        decreases v.len() - i,
    {
        i = i + 1;
    }
    if i < v.len() && v[i] == y {
        assert(year_set(v@) =~= year_set(v@).insert(y as int)) by {
            assert(v@[i as int] == y);
        }
        return;
    }
    let ghost before = v@;
    v.insert(i, y);
    assert(v@ == before.insert(i as int, y));
    assert(increasing(v@)) by {
        assert forall|a: int, b: int| 0 <= a < b < v@.len() implies v@[a] < v@[b] by {
            if a < i && b == i {
            } else if a == i && b > i {
                assert(v@[b] == before[b - 1]);
                assert(before[i as int] >= y);
                if b - 1 > i {
                    assert(before[i as int] < before[b - 1]);
                }
            } else if a < i && b > i {
                assert(v@[b] == before[b - 1]);
            } else if a > i {
                assert(v@[a] == before[a - 1] && v@[b] == before[b - 1]);
            }
        }
    }
    assert(year_set(v@) =~= year_set(before).insert(y as int)) by {
        assert forall|z: int| year_set(v@).contains(z) implies year_set(before).insert(y as int).contains(z) by {
            let k = choose|k: int| 0 <= k < v@.len() && v@[k] == z;
            if k < i {
                assert(before[k] == z);
            } else if k > i {
                assert(before[k - 1] == z);
            }
        }
        assert forall|z: int| year_set(before).insert(y as int).contains(z) implies year_set(v@).contains(z) by {
            if z == y {
                assert(v@[i as int] == y);
            } else {
                let k = choose|k: int| 0 <= k < before.len() && before[k] == z;
                if k < i {
                    assert(v@[k] == z);
                } else {
                    assert(v@[k + 1] == z);
                }
            }
        }
    }
}

/// The years a person's date field is considered in: for an annual anchor,
/// last, this and next UTC year and every year an existing occurrence's
/// key carries (unless one of them does not read as a year); otherwise the
/// field's own year, which it must have.
pub open spec fn candidate_years_of(annual: bool, year: Option<i32>, this_year: int, keys: Seq<Seq<char>>) -> Option<Set<int>> {
    if annual {
        if exists|k: int| 0 <= k < keys.len() && key_year_of(#[trigger] keys[k]) is None {
            None
        } else {
            Some(
                Set::new(
                    |y: int|
                        this_year - 1 <= y <= this_year + 1 || exists|k: int|
                            0 <= k < keys.len() && key_year_of(#[trigger] keys[k]) == Some(
                                Some(y),
                            ),
                ),
            )
        }
    } else {
        match year {
            Some(y) => Some(set![y as int]),
            None => None,
        }
    }
}

/// The years a person's date field is considered in, in increasing order
/// (see `candidate_years_of`); `InvalidValue` where that gives none.
pub fn candidate_years(annual: bool, year: Option<i32>, this_year: i32, keys: &[String]) -> (r: Result<Vec<i32>, ErrorCode>)
    requires
        i32::MIN < this_year < i32::MAX,
    ensures
        match (candidate_years_of(annual, year, this_year as int, keys@.map_values(|k: String| k@)), r) {
            (Some(set), Ok(v)) => increasing(v@) && year_set(v@) == set,
            (None, Err(e)) => e == ErrorCode::InvalidValue,
            _ => false,
        },
{
    let ghost ks = keys@.map_values(|k: String| k@);
    if !annual {
        match year {
            Some(y) => {
                let v = vec![y];
                assert(year_set(v@) =~= set![y as int]) by {
                    assert(v@[0] == y);
                }
                return Ok(v);
            },
            None => return Err(ErrorCode::InvalidValue),
        }
    }
    let mut v: Vec<i32> = vec![this_year - 1, this_year, this_year + 1];
    assert(year_set(v@) =~= Set::new(|y: int| this_year - 1 <= y <= this_year + 1)) by {
        assert forall|y: int| this_year - 1 <= y <= this_year + 1 implies year_set(v@).contains(y) by {
            assert(v@[y - this_year + 1] == y);
        }
    }
    let mut k: usize = 0;
    while k < keys.len()
        invariant
            ks == keys@.map_values(|k: String| k@),
            k <= keys@.len(),
            annual,
            increasing(v@),
            forall|j: int| 0 <= j < k ==> key_year_of(#[trigger] ks[j]) is Some,
            year_set(v@) == Set::new(
                |y: int|
                    this_year - 1 <= y <= this_year + 1 || exists|j: int|
                        0 <= j < k && key_year_of(#[trigger] ks[j]) == Some(Some(y)),
            ),
        decreases keys.len() - k,
    {
        let ghost before = year_set(v@);
        match key_year(keys[k].as_str()) {
            Err(e) => {
                assert(key_year_of(ks[k as int]) is None);
                return Err(e);
            },
            Ok(None) => {},
            Ok(Some(y)) => {
                insert_year(&mut v, y);
            },
        }
        k = k + 1;
        assert(year_set(v@) =~= Set::new(
            |y: int|
                this_year - 1 <= y <= this_year + 1 || exists|j: int|
                    0 <= j < k && key_year_of(#[trigger] ks[j]) == Some(Some(y)),
        )) by {
            assert forall|y: int| #![auto] year_set(v@).contains(y) == (this_year - 1 <= y <= this_year + 1 || exists|j: int|
                    0 <= j < k && key_year_of(#[trigger] ks[j]) == Some(Some(y))) by {
                if exists|j: int| 0 <= j < k && key_year_of(#[trigger] ks[j]) == Some(Some(y)) {
                    let j = choose|j: int| 0 <= j < k && key_year_of(#[trigger] ks[j]) == Some(Some(y));
                    if j < k - 1 {
                        assert(before.contains(y));
                    }
                }
                if before.contains(y) && !(this_year - 1 <= y <= this_year + 1) {
                    let j = choose|j: int| 0 <= j < k - 1 && key_year_of(#[trigger] ks[j]) == Some(Some(y));
                    assert(0 <= j < k);
                }
            }
        }
    }
    Ok(v)
}


/// Whether some candidate has the key `key`.
pub open spec fn has_candidate(candidates: Seq<String>, key: Seq<char>) -> bool {
    exists|i: int| 0 <= i < candidates.len() && (#[trigger] candidates[i])@ == key
}

/// The anchored occurrences, among the first `n` of `existing` (each its
/// anchor key and anchor revision), whose key no candidate offers any more:
/// their positions, each with the revision its review records (one past its
/// own), in order.
pub open spec fn unavailable_of(existing: Seq<(String, i64)>, candidates: Seq<String>, n: int) -> Seq<(usize, i64)>
    decreases n,
{
    if n <= 0 {
        Seq::empty()
    } else {
        let rest = unavailable_of(existing, candidates, n - 1);
        if has_candidate(candidates, existing[n - 1].0@) {
            rest
        } else {
            rest.push(((n - 1) as usize, (existing[n - 1].1 + 1) as i64))
        }
    }
}

/// Finds the anchored occurrences whose context is no longer available:
/// those whose anchor key no candidate offers. Each is reviewed as
/// `ContextUnavailable` under the next anchor revision.
pub fn unavailable(existing: &[(String, i64)], candidates: &[String]) -> (r: Vec<(usize, i64)>)
    requires
        forall|i: int| 0 <= i < existing@.len() ==> (#[trigger] existing@[i]).1 < i64::MAX,
    ensures
        r@ == unavailable_of(existing@, candidates@, existing@.len() as int),
{
    let mut out: Vec<(usize, i64)> = Vec::new();
    let mut i: usize = 0;
    while i < existing.len()
        invariant
            i <= existing@.len(),
            forall|k: int| 0 <= k < existing@.len() ==> (#[trigger] existing@[k]).1 < i64::MAX,
            out@ == unavailable_of(existing@, candidates@, i as int),
        decreases existing.len() - i,
    {
        let mut found = false;
        let mut k: usize = 0;
        while k < candidates.len()
            invariant
                k <= candidates@.len(),
                i < existing@.len(),
                found == exists|j: int| 0 <= j < k && (#[trigger] candidates@[j])@ == existing@[i as int].0@,
            decreases candidates.len() - k,
        {
            if crate::text::str_eq(candidates[k].as_str(), existing[i].0.as_str()) {
                found = true;
            }
            k = k + 1;
        }
        if !found {
            out.push((i, existing[i].1 + 1));
        }
        i = i + 1;
    }
    out
}

} // verus!
