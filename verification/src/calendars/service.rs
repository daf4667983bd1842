//! Calendar sources: the commands that configure them and their refreshes.
use vstd::prelude::*;
use crate::calendars::anchors::Anchor;
use crate::error::ErrorCode;
use crate::policy::Policy;
use crate::text::{byte_len, str_eq};
use crate::time::{tz_known, zone_known};

verus! {

/// A change to a calendar source or its review items.
pub enum CalendarCommand {
    CreateSource {
        id: String,
        label: String,
        timezone: String,
        connection: Option<String>,
        initial_policy: Option<Policy>,
    },
    ConfigureSource {
        id: String,
        expected_version: i64,
        timezone: String,
        connection: Option<String>,
        enabled: bool,
    },
    SetAnchor { id: String, expected_version: i64, anchor: Option<Anchor> },
    ResolveReview { id: String, expected_version: i64, resolved: bool },
}

/// A claimed refresh of a calendar source.
pub struct Refresh {
    pub generation: i64,
    pub timezone: String,
    pub connection: Option<String>,
    pub etag: Option<String>,
    pub modified: Option<String>,
}

/// A source's settings: a zone chrono-tz knows and a connection of at most
/// 8 KiB.
pub open spec fn source_settings_ok(timezone: Seq<char>, connection: Option<Seq<char>>) -> bool {
    tz_known(timezone) && (connection matches Some(c) ==> byte_len(c) <= 8192)
}

/// Checks a source's settings.
pub fn check_source(timezone: &str, connection: Option<&str>) -> (r: Result<(), ErrorCode>)
    ensures
        r is Ok <==> source_settings_ok(
            timezone@,
            match connection {
                Some(c) => Some(c@),
                None => None,
            },
        ),
        r matches Err(e) ==> e == ErrorCode::InvalidValue,
{
    if !zone_known(timezone) {
        return Err(ErrorCode::InvalidValue);
    }
    match connection {
        Some(c) => if c.len() <= 8192 {
            Ok(())
        } else {
            Err(ErrorCode::InvalidValue)
        },
        None => Ok(()),
    }
}

/// Connection settings are the owner's alone, even where imported events are
/// edited together.
pub fn check_source_owner(owner: &str, actor: &str) -> (r: Result<(), ErrorCode>)
    ensures
        r is Ok <==> owner@ == actor@,
        r matches Err(e) ==> e == ErrorCode::Forbidden,
{
    if str_eq(owner, actor) {
        Ok(())
    } else {
        Err(ErrorCode::Forbidden)
    }
}

} // verus!
