//! Durable operations: a request names its operation, and a retried request
//! is recognised by the digest of its payload stored in a receipt.
use vstd::prelude::*;
use crate::error::ErrorCode;
use crate::sync_cursor::hex_bytes;
use crate::text::{push_str, string_from_chars};

verus! {

/// The most commands one operation may carry.
pub const MAX_BATCH: usize = 20;

/// The receipt fingerprint of a payload text: the lower-case hexadecimal
/// SHA-256 of the payload after a fixed label line.
pub open spec fn digest_of(payload: Seq<char>) -> Seq<char> {
    hex_bytes(crate::sha256("atlas-command-v1\n"@ + payload))
}

/// What a completed operation left behind: the digest of its payload, the
/// revision it published and the digest scheme it was recorded under.
pub struct StoredReceipt {
    pub payload: String,
    pub revision: i64,
    pub digest_version: i64,
}

/// How a request under an operation identifier is answered, given the
/// receipt already stored under that identifier: `Ok(None)` runs the
/// operation; `Ok(Some(revision))` answers with the stored revision and runs
/// nothing; a receipt of another digest scheme, or of another payload, is
/// refused.
pub open spec fn replay_of(stored: Option<StoredReceipt>, payload: Seq<char>) -> Result<
    Option<i64>,
    ErrorCode,
> {
    match stored {
        None => Ok(None),
        Some(r) => if r.digest_version != 1 {
            Err(ErrorCode::UnsupportedReceipt)
        } else if r.payload@ != payload {
            Err(ErrorCode::OperationConflict)
        } else {
            Ok(Some(r.revision))
        },
    }
}

/// Decides whether a request replays a stored operation, runs as a new one
/// or conflicts with what was stored under its identifier.
pub fn replay(stored: Option<StoredReceipt>, payload: &str) -> (r: Result<Option<i64>, ErrorCode>)
    ensures
        r == replay_of(stored, payload@),
{
    match stored {
        None => Ok(None),
        Some(receipt) => {
            if receipt.digest_version != 1 {
                Err(ErrorCode::UnsupportedReceipt)
            } else if !crate::text::str_eq(receipt.payload.as_str(), payload) {
                Err(ErrorCode::OperationConflict)
            } else {
                Ok(Some(receipt.revision))
            }
        },
    }
}

/// Retrying is safe: once an operation's receipt is stored, the same
/// request under the same identifier is answered with the stored revision,
/// any other payload under that identifier is refused as a conflict, and an
/// identifier without a receipt runs.
pub proof fn law_retry_replays(receipt: StoredReceipt, text: Seq<char>, other: Seq<char>)
    requires
        receipt.digest_version == 1,
        receipt.payload@ == digest_of(text),
    ensures
        replay_of(Some(receipt), digest_of(text)) == Ok::<Option<i64>, ErrorCode>(
            Some(receipt.revision),
        ),
        other != digest_of(text) ==> replay_of(Some(receipt), other) == Err::<
            Option<i64>,
            ErrorCode,
        >(ErrorCode::OperationConflict),
        replay_of(None, other) == Ok::<Option<i64>, ErrorCode>(None),
{
}

/// An operation carries between one and `MAX_BATCH` commands.
pub fn batch_size(n: usize) -> (r: Result<(), ErrorCode>)
    ensures
        r is Ok <==> 1 <= n <= MAX_BATCH,
        r matches Err(e) ==> e == ErrorCode::InvalidValue,
{
    if 1 <= n && n <= MAX_BATCH {
        Ok(())
    } else {
        Err(ErrorCode::InvalidValue)
    }
}

/// The payload text of a batch of people and field commands, given their
/// canonical encoding and the defaults revision the client relied on.
pub open spec fn guarded_text(guard: Option<Seq<char>>, canonical: Seq<char>) -> Seq<char> {
    match guard {
        Some(g) => "guarded-defaults-v1\n"@ + g + "\n"@ + canonical,
        None => canonical,
    }
}

/// Builds the payload text of a batch of people and field commands.
pub fn guarded_payload(guard: Option<&str>, canonical: &str) -> (r: String)
    ensures
        r@ == guarded_text(
            match guard {
                Some(g) => Some(g@),
                None => None,
            },
            canonical@,
        ),
{
    match guard {
        Some(g) => {
            let mut v: Vec<char> = Vec::new();
            push_str(&mut v, "guarded-defaults-v1\n");
            push_str(&mut v, g);
            push_str(&mut v, "\n");
            push_str(&mut v, canonical);
            string_from_chars(v.as_slice())
        },
        None => {
            let mut v: Vec<char> = Vec::new();
            push_str(&mut v, canonical);
            assert(v@ =~= canonical@);
            string_from_chars(v.as_slice())
        },
    }
}

/// Builds the payload text of a batch of household and policy commands from
/// their canonical encoding.
pub fn management_payload(canonical: &str) -> (r: String)
    ensures
        r@ == "management-v1\n"@ + canonical@,
{
    let mut v: Vec<char> = Vec::new();
    push_str(&mut v, "management-v1\n");
    push_str(&mut v, canonical);
    assert(v@ =~= "management-v1\n"@ + canonical@);
    string_from_chars(v.as_slice())
}

/// The `Debug` rendering of an optional text, as `format!("{:?}")` writes it.
pub uninterp spec fn debug_rendering(s: Option<Seq<char>>) -> Seq<char>;

/// `format!("{:?}")` of an optional text: the rendering named
/// `debug_rendering`. Its exact form is std's and is not restated here.
#[verifier::external_body]
pub(crate) fn debug_text(s: Option<&str>) -> (r: String)
    ensures
        r@ == debug_rendering(
            match s {
                Some(t) => Some(t@),
                None => None,
            },
        ),
{
    format!("{s:?}")
}

/// Builds the payload text of a task command from its canonical encoding and
/// the defaults revision the client relied on.
pub fn task_payload(defaults_revision: Option<&str>, canonical: &str) -> (r: String)
    ensures
        r@ == "task-command-v1\n"@ + debug_rendering(
            match defaults_revision {
                Some(t) => Some(t@),
                None => None,
            },
        ) + "\n"@ + canonical@,
{
    let rendered = debug_text(defaults_revision);
    let mut v: Vec<char> = Vec::new();
    push_str(&mut v, "task-command-v1\n");
    push_str(&mut v, rendered.as_str());
    push_str(&mut v, "\n");
    push_str(&mut v, canonical);
    string_from_chars(v.as_slice())
}

/// How a calendar or reminder command under an operation identifier is
/// answered, given the payload and revision stored under it: none runs the
/// command, the same payload answers with the stored revision, and another
/// payload is a conflict.
pub open spec fn replay_plain_of(stored: Option<(Seq<char>, i64)>, payload: Seq<char>) -> Result<
    Option<i64>,
    ErrorCode,
> {
    match stored {
        None => Ok(None),
        Some((p, revision)) => if p != payload {
            Err(ErrorCode::OperationConflict)
        } else {
            Ok(Some(revision))
        },
    }
}

/// Decides whether a calendar or reminder command replays a stored one.
pub fn replay_plain(stored: Option<(String, i64)>, payload: &str) -> (r: Result<Option<i64>, ErrorCode>)
    ensures
        r == replay_plain_of(
            match stored {
                Some((p, v)) => Some((p@, v)),
                None => None,
            },
            payload@,
        ),
{
    match stored {
        None => Ok(None),
        Some((p, revision)) => {
            if crate::text::str_eq(p.as_str(), payload) {
                Ok(Some(revision))
            } else {
                Err(ErrorCode::OperationConflict)
            }
        },
    }
}

/// Builds the payload text of a calendar command from its canonical
/// encoding (with any connection secret replaced by its identity).
pub fn calendar_payload(canonical: &str) -> (r: String)
    ensures
        r@ == "calendar-command-v1:"@ + canonical@,
{
    let mut v: Vec<char> = Vec::new();
    push_str(&mut v, "calendar-command-v1:");
    push_str(&mut v, canonical);
    string_from_chars(v.as_slice())
}

/// Builds the payload text of a reminder command from its canonical
/// encoding (with any subscription secret replaced by its identity).
pub fn reminder_payload(canonical: &str) -> (r: String)
    ensures
        r@ == "reminder-command-v1:"@ + canonical@,
{
    let mut v: Vec<char> = Vec::new();
    push_str(&mut v, "reminder-command-v1:");
    push_str(&mut v, canonical);
    string_from_chars(v.as_slice())
}

} // verus!
