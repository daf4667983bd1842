//! Decisions made when a store is opened: the retention window and whether an
//! existing schema baseline can be used.
use vstd::prelude::*;

verus! {

/// Seconds in a day.
pub const DAY_SECONDS: i64 = 86400;

/// The retention window used when none is configured: ninety days.
pub const DEFAULT_RETENTION_SECONDS: i64 = 7776000;

/// The only schema baseline this release accepts.
pub const SCHEMA_BASELINE: i64 = 1000;

/// A configured retention of `days` days, in seconds, when `days` lies in
/// `1..=3650`; `None` for any other value.
pub fn retention_seconds(days: i64) -> (r: Option<i64>)
    ensures
        r is Some <==> 1 <= days <= 3650,
        r matches Some(s) ==> s == days * 86400,
{
    if 1 <= days && days <= 3650 {
        Some(days * DAY_SECONDS)
    } else {
        None
    }
}

/// An existing database may be used only when its recorded schema versions
/// are exactly the current baseline; anything else needs an explicit reset.
pub fn schema_supported(versions: &Vec<i64>) -> (r: bool)
    ensures
        r <==> versions@ == seq![SCHEMA_BASELINE],
{
    let ok = versions.len() == 1 && versions[0] == SCHEMA_BASELINE;
    proof {
        if ok {
            assert(versions@ =~= seq![SCHEMA_BASELINE]);
        }
    }
    ok
}

} // verus!
