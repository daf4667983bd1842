//! Devices that synchronise for an account.
use vstd::prelude::*;
use crate::calendars::reminders::device_name_ok;
use crate::error::ErrorCode;

verus! {

/// A device that synchronises for an account.
pub struct Device {
    pub id: String,
    pub last_synced_at: Option<i64>,
    pub active_sessions: i64,
}

/// A device is named by 1 to 100 bytes (else `InvalidValue`).
pub fn check_device(device: &str) -> (r: Result<(), ErrorCode>)
    ensures
        r is Ok <==> device_name_ok(device@),
        r matches Err(e) ==> e == ErrorCode::InvalidValue,
{
    if !device.is_empty() && device.len() <= 100 {
        Ok(())
    } else {
        Err(ErrorCode::InvalidValue)
    }
}

} // verus!
