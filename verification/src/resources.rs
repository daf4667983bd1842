//! Typed values of person and resource fields.
use vstd::prelude::*;
use crate::error::ErrorCode;
use crate::tasks::decimal::{Decimal, decimal_units};
use crate::tasks::goals::{ChecklistItem, checklist_valid, validate_checklist};
use crate::text::{blank, is_blank, str_eq};
use crate::time::{CivilDate, date_from_ymd, valid_date};

verus! {

/// The value a field holds.
pub enum FieldValue {
    Text { text: String },
    Quantity { amount: Decimal, unit: String },
    Date { year: Option<i32>, month: u32, day: u32 },
    Url { url: String },
    Boolean { value: bool },
    Choices { options: Vec<String>, selected: Vec<String> },
    Checklist { items: Vec<ChecklistItem>, checked: Vec<String> },
}

/// What `Url::parse` yields that the rules read: the scheme, the host, the
/// user name and the password.
pub uninterp spec fn url_components(text: Seq<char>) -> Option<(Seq<char>, Option<Seq<char>>, Seq<char>, Option<Seq<char>>)>;

/// The text of an optional string.
pub open spec fn opt_view(o: Option<String>) -> Option<Seq<char>> {
    match o {
        Some(s) => Some(s@),
        None => None,
    }
}

/// `url::Url::parse`, read as its scheme, host (`host_str`), user name and
/// password: the components named `url_components`, or `None` when the text
/// does not parse.
#[verifier::external_body]
fn parse_url(text: &str) -> (r: Option<(String, Option<String>, String, Option<String>)>)
    ensures
        match (r, url_components(text@)) {
            (Some((scheme, host, user, password)), Some((s, h, u, p))) => scheme@ == s && opt_view(
                host,
            ) == h && user@ == u && opt_view(password) == p,
            (None, None) => true,
            _ => false,
        },
{
    url::Url::parse(text).ok().map(|u| {
        (
            u.scheme().to_owned(),
            u.host_str().map(|h| h.to_owned()),
            u.username().to_owned(),
            u.password().map(|p| p.to_owned()),
        )
    })
}

/// Strings that are pairwise different.
pub open spec fn distinct(s: Seq<String>) -> bool {
    forall|i: int, j: int| 0 <= i < j < s.len() ==> #[trigger] s[i]@ != #[trigger] s[j]@
}

/// `s` holds a string equal to `v`.
pub open spec fn holds(s: Seq<String>, v: Seq<char>) -> bool {
    exists|i: int| 0 <= i < s.len() && #[trigger] s[i]@ == v
}

/// Some item of the checklist has identity `id`.
pub open spec fn listed(items: Seq<ChecklistItem>, id: Seq<char>) -> bool {
    exists|k: int| 0 <= k < items.len() && #[trigger] items[k].id@ == id
}

/// A web address the rules accept: http or https, with a host and without
/// credentials.
pub open spec fn url_ok(text: Seq<char>) -> bool {
    match url_components(text) {
        Some((scheme, host, user, password)) => (scheme == "http"@ || scheme == "https"@)
            && host is Some && user.len() == 0 && password is None,
        None => false,
    }
}

/// A field value the rules accept, given the length of its wire encoding.
pub open spec fn field_value_valid(v: FieldValue, encoded_len: int) -> bool {
    &&& match v {
        FieldValue::Text { text } => text@.len() <= 4096,
        FieldValue::Quantity { amount, unit } => decimal_units(amount.0@) is Some && !is_blank(unit@)
            && unit@.len() <= 40,
        FieldValue::Date { year, month, day } => (year is Some ==> 1900 <= year->Some_0 <= 9999)
            && valid_date(
            CivilDate { year: if year is Some { year->Some_0 } else { 2000 }, month, day },
        ),
        FieldValue::Url { url } => url_ok(url@),
        FieldValue::Boolean { .. } => true,
        FieldValue::Choices { options, selected } => {
            &&& 1 <= options@.len() <= 100
            &&& selected@.len() <= 100
            &&& distinct(options@)
            &&& distinct(selected@)
            &&& forall|i: int|
                0 <= i < options@.len() ==> !is_blank(#[trigger] options@[i]@) && options@[i]@.len()
                    <= 100
            &&& forall|i: int| 0 <= i < selected@.len() ==> holds(options@, #[trigger] selected@[i]@)
        },
        FieldValue::Checklist { items, checked } => {
            &&& checklist_valid(items@)
            &&& distinct(checked@)
            &&& forall|i: int| 0 <= i < checked@.len() ==> listed(items@, #[trigger] checked@[i]@)
        },
    }
    &&& encoded_len <= 8192
}

/// Whether the strings are pairwise different.
pub fn distinct_strings(s: &[String]) -> (b: bool)
    ensures
        b == distinct(s@),
{
    let mut i: usize = 0;
    while i < s.len()
        invariant
            i <= s@.len(),
            forall|a: int, b: int| 0 <= a < b < i ==> #[trigger] s@[a]@ != #[trigger] s@[b]@,
        decreases s.len() - i,
    {
        let mut j: usize = 0;
        while j < i
            invariant
                i < s@.len(),
                j <= i,
                forall|a: int| 0 <= a < j ==> s@[a]@ != s@[i as int]@,
            decreases i - j,
        {
            if str_eq(s[j].as_str(), s[i].as_str()) {
                assert(s@[j as int]@ == s@[i as int]@);
                return false;
            }
            j = j + 1;
        }
        i = i + 1;
    }
    true
}

/// Whether some string equals `v`.
pub fn holds_string(s: &[String], v: &str) -> (b: bool)
    ensures
        b == holds(s@, v@),
{
    let mut i: usize = 0;
    while i < s.len()
        invariant
            i <= s@.len(),
            forall|a: int| 0 <= a < i ==> s@[a]@ != v@,
        decreases s.len() - i,
    {
        if str_eq(s[i].as_str(), v) {
            assert(s@[i as int]@ == v@);
            return true;
        }
        i = i + 1;
    }
    false
}

impl FieldValue {
    /// Checks a field value whose wire encoding is `encoded_len` bytes long.
    #[verifier::loop_isolation(false)]
    pub fn validate(&self, encoded_len: usize) -> (r: Result<(), ErrorCode>)
        ensures
            r is Ok <==> field_value_valid(*self, encoded_len as int),
            r matches Err(e) ==> e == ErrorCode::InvalidValue,
    {
        let ok = match self {
            FieldValue::Text { text } => text.as_str().unicode_len() <= 4096,
            FieldValue::Quantity { amount, unit } => amount.units().is_ok() && !blank(unit.as_str())
                && unit.as_str().unicode_len() <= 40,
            FieldValue::Date { year, month, day } => {
                let y = match year {
                    Some(y) => *y,
                    None => 2000,
                };
                let year_ok = match year {
                    Some(y) => 1900 <= *y && *y <= 9999,
                    None => true,
                };
                year_ok && date_from_ymd(y, *month, *day).is_some()
            },
            FieldValue::Url { url } => {
                proof {
                    reveal_strlit("http");
                    reveal_strlit("https");
                }
                match parse_url(url.as_str()) {
                    Some((scheme, host, user, password)) => (str_eq(scheme.as_str(), "http")
                        || str_eq(scheme.as_str(), "https")) && host.is_some() && user.as_str().unicode_len()
                        == 0 && password.is_none(),
                    None => false,
                }
            },
            FieldValue::Boolean { .. } => true,
            FieldValue::Choices { options, selected } => {
                if options.len() == 0 || options.len() > 100 || selected.len() > 100 {
                    false
                } else if !distinct_strings(options.as_slice()) || !distinct_strings(selected.as_slice()) {
                    false
                } else {
                    let mut good = true;
                    let mut i: usize = 0;
                    while i < options.len()
                        invariant
                            i <= options@.len(),
                            good == (forall|k: int|
                                0 <= k < i ==> !is_blank(#[trigger] options@[k]@) && options@[k]@.len()
                                    <= 100),
                        decreases options.len() - i,
                    {
                        if blank(options[i].as_str()) || options[i].as_str().unicode_len() > 100 {
                            good = false;
                        }
                        i = i + 1;
                    }
                    let mut j: usize = 0;
                    while j < selected.len()
                        invariant
                            j <= selected@.len(),
                            good == ((forall|k: int|
                                0 <= k < options@.len() ==> !is_blank(#[trigger] options@[k]@)
                                    && options@[k]@.len() <= 100) && forall|k: int|
                                0 <= k < j ==> holds(options@, #[trigger] selected@[k]@)),
                        decreases selected.len() - j,
                    {
                        if !holds_string(options.as_slice(), selected[j].as_str()) {
                            good = false;
                        }
                        j = j + 1;
                    }
                    good
                }
            },
            FieldValue::Checklist { items, checked } => {
                if validate_checklist(items.as_slice()).is_err() || !distinct_strings(checked.as_slice()) {
                    false
                } else {
                    let mut good = true;
                    let mut j: usize = 0;
                    while j < checked.len()
                        invariant
                            j <= checked@.len(),
                            good == (forall|i: int| 0 <= i < j ==> listed(items@, #[trigger] checked@[i]@)),
                        decreases checked.len() - j,
                    {
                        let mut found = false;
                        let mut k: usize = 0;
                        while k < items.len()
                            invariant
                                k <= items@.len(),
                                j < checked@.len(),
                                found == (exists|m: int| 0 <= m < k && #[trigger] items@[m].id@ == checked@[j as int]@),
                            decreases items.len() - k,
                        {
                            if str_eq(items[k].id.as_str(), checked[j].as_str()) {
                                found = true;
                            }
                            k = k + 1;
                        }
                        if !found {
                            good = false;
                        }
                        assert(found == listed(items@, checked@[j as int]@));
                        j = j + 1;
                    }
                    good
                }
            },
        };
        if !ok || encoded_len > 8192 {
            return Err(ErrorCode::InvalidValue);
        }
        Ok(())
    }
}

} // verus!
