//! Stable, client-visible error codes.
use vstd::prelude::*;

verus! {

/// Every refusal of the domain rules carries one of these codes.
#[derive(Clone, Copy, Debug, PartialEq, Eq, Structural)]
pub enum ErrorCode {
    AccessChanged,
    BatchTooLarge,
    CalendarLimit,
    Conflict,
    DefaultsChanged,
    DeviceCapacity,
    ExpansionLimit,
    Forbidden,
    IdentityGrantRequired,
    InvalidIcs,
    InvalidValue,
    InvitationExpired,
    LastManager,
    MaterialisationRequired,
    NotFound,
    OperationConflict,
    RefreshInProgress,
    ReminderTimeRequired,
    ResyncRequired,
    SliceCapacity,
    StaleDelivery,
    StaleRefresh,
    Unauthenticated,
    UnsupportedCalendarRule,
    UnsupportedCalendarTimezone,
    UnsupportedReceipt,
}

/// The name a code is reported by: its variant in snake case.
pub open spec fn code_name(e: ErrorCode) -> Seq<char> {
    match e {
        ErrorCode::AccessChanged => "access_changed"@,
        ErrorCode::BatchTooLarge => "batch_too_large"@,
        ErrorCode::CalendarLimit => "calendar_limit"@,
        ErrorCode::Conflict => "conflict"@,
        ErrorCode::DefaultsChanged => "defaults_changed"@,
        ErrorCode::DeviceCapacity => "device_capacity"@,
        ErrorCode::ExpansionLimit => "expansion_limit"@,
        ErrorCode::Forbidden => "forbidden"@,
        ErrorCode::IdentityGrantRequired => "identity_grant_required"@,
        ErrorCode::InvalidIcs => "invalid_ics"@,
        ErrorCode::InvalidValue => "invalid_value"@,
        ErrorCode::InvitationExpired => "invitation_expired"@,
        ErrorCode::LastManager => "last_manager"@,
        ErrorCode::MaterialisationRequired => "materialisation_required"@,
        ErrorCode::NotFound => "not_found"@,
        ErrorCode::OperationConflict => "operation_conflict"@,
        ErrorCode::RefreshInProgress => "refresh_in_progress"@,
        ErrorCode::ReminderTimeRequired => "reminder_time_required"@,
        ErrorCode::ResyncRequired => "resync_required"@,
        ErrorCode::SliceCapacity => "slice_capacity"@,
        ErrorCode::StaleDelivery => "stale_delivery"@,
        ErrorCode::StaleRefresh => "stale_refresh"@,
        ErrorCode::Unauthenticated => "unauthenticated"@,
        ErrorCode::UnsupportedCalendarRule => "unsupported_calendar_rule"@,
        ErrorCode::UnsupportedCalendarTimezone => "unsupported_calendar_timezone"@,
        ErrorCode::UnsupportedReceipt => "unsupported_receipt"@,
    }
}

impl ErrorCode {
    /// The name the code is reported by (see `code_name`).
    pub fn name(&self) -> (r: &'static str)
        ensures
            r@ == code_name(*self),
    {
        match self {
            ErrorCode::AccessChanged => "access_changed",
            ErrorCode::BatchTooLarge => "batch_too_large",
            ErrorCode::CalendarLimit => "calendar_limit",
            ErrorCode::Conflict => "conflict",
            ErrorCode::DefaultsChanged => "defaults_changed",
            ErrorCode::DeviceCapacity => "device_capacity",
            ErrorCode::ExpansionLimit => "expansion_limit",
            ErrorCode::Forbidden => "forbidden",
            ErrorCode::IdentityGrantRequired => "identity_grant_required",
            ErrorCode::InvalidIcs => "invalid_ics",
            ErrorCode::InvalidValue => "invalid_value",
            ErrorCode::InvitationExpired => "invitation_expired",
            ErrorCode::LastManager => "last_manager",
            ErrorCode::MaterialisationRequired => "materialisation_required",
            ErrorCode::NotFound => "not_found",
            ErrorCode::OperationConflict => "operation_conflict",
            ErrorCode::RefreshInProgress => "refresh_in_progress",
            ErrorCode::ReminderTimeRequired => "reminder_time_required",
            ErrorCode::ResyncRequired => "resync_required",
            ErrorCode::SliceCapacity => "slice_capacity",
            ErrorCode::StaleDelivery => "stale_delivery",
            ErrorCode::StaleRefresh => "stale_refresh",
            ErrorCode::Unauthenticated => "unauthenticated",
            ErrorCode::UnsupportedCalendarRule => "unsupported_calendar_rule",
            ErrorCode::UnsupportedCalendarTimezone => "unsupported_calendar_timezone",
            ErrorCode::UnsupportedReceipt => "unsupported_receipt",
        }
    }
}

} // verus!
