//! Atlas domain rules: task goals and progress, schedules, calendar anchors,
//! sharing policies and synchronisation cursors.
use vstd::prelude::*;
use crate::error::ErrorCode;
use crate::policy::Policy;
use crate::sync_cursor::{hex_bytes, hex_bytes_exec};
use crate::text::{blank, chars_of, is_blank, string_from_chars};

pub mod calendars;
pub mod devices;
pub mod error;
pub mod households;
pub mod people;
pub mod policy;
pub mod receipts;
pub mod resources;
pub mod storage;
pub mod sync;
pub mod sync_cursor;
pub mod tasks;
pub mod text;
pub mod time;

verus! {

/// A lower-case hexadecimal digit.
pub open spec fn is_lower_hex(c: char) -> bool {
    ('0' <= c && c <= '9') || ('a' <= c && c <= 'f')
}

/// `s` is a UUID in its canonical text form: 36 characters, lower-case
/// hexadecimal digits in groups of 8-4-4-4-12 separated by hyphens.
pub open spec fn is_canonical_uuid(s: Seq<char>) -> bool {
    &&& s.len() == 36
    &&& forall|i: int|
        0 <= i < 36 ==> if i == 8 || i == 13 || i == 18 || i == 23 {
            #[trigger] s[i] == '-'
        } else {
            is_lower_hex(s[i])
        }
}

/// Parses `s` with `uuid::Uuid::parse_str` and renders the UUID with its
/// `Display` impl, which writes the hyphenated lower-case form. The rendering
/// is therefore canonical, and a canonical text renders back to itself.
/// Which other spellings `parse_str` accepts is left unsaid.
#[verifier::external_body]
fn uuid_round_trip(s: &str) -> (r: Option<String>)
    ensures
        r is Some ==> is_canonical_uuid(r->Some_0@),
        is_canonical_uuid(s@) ==> r is Some && r->Some_0@ == s@,
{
    uuid::Uuid::parse_str(s).ok().map(|u| u.to_string())
}

/// Accepts exactly the canonical UUID texts used as resource identities.
pub fn identifier(id: &str) -> (r: Result<(), ErrorCode>)
    ensures
        r is Ok <==> is_canonical_uuid(id@),
        r matches Err(e) ==> e == ErrorCode::InvalidValue,
{
    match uuid_round_trip(id) {
        Some(text) => {
            if crate::text::str_eq(text.as_str(), id) {
                Ok(())
            } else {
                Err(ErrorCode::InvalidValue)
            }
        },
        None => Err(ErrorCode::InvalidValue),
    }
}

/// A label and value a resource may hold.
pub open spec fn content_ok(label: Seq<char>, value: Seq<char>) -> bool {
    !is_blank(label) && label.len() <= 300 && value.len() <= 8192
}

/// Labels are non-blank and at most 300 characters; values at most 8192.
pub fn content(label: &str, value: &str) -> (r: Result<(), ErrorCode>)
    ensures
        r is Ok <==> content_ok(label@, value@),
        r matches Err(e) ==> e == ErrorCode::InvalidValue,
{
    if !blank(label) && label.unicode_len() <= 300 && value.unicode_len() <= 8192 {
        Ok(())
    } else {
        Err(ErrorCode::InvalidValue)
    }
}

/// A change to people, fields or their grants.
pub enum Command {
    CreatePerson { id: String, name: String, initial_policy: Option<Policy> },
    CreateField {
        id: String,
        person_id: String,
        label: String,
        value: String,
        initial_policy: Option<Policy>,
    },
    Edit { id: String, expected_version: i64, label: String, value: String },
    Grant { id: String, expected_version: i64, account_id: String, edit: bool },
    Revoke { id: String, expected_version: i64, account_id: String },
}

/// The resource a command changes.
pub open spec fn command_target(c: Command) -> String {
    match c {
        Command::CreatePerson { id, .. } => id,
        Command::CreateField { id, .. } => id,
        Command::Edit { id, .. } => id,
        Command::Grant { id, .. } => id,
        Command::Revoke { id, .. } => id,
    }
}

/// A command that creates a resource from the account's defaults: a
/// creation without an initial policy of its own.
pub open spec fn uses_defaults(c: Command) -> bool {
    c matches Command::CreatePerson { initial_policy: None, .. } || c matches Command::CreateField {
        initial_policy: None,
        ..
    }
}

/// How many of some commands create a resource.
pub open spec fn creation_count(cs: Seq<Command>) -> nat
    decreases cs.len(),
{
    if cs.len() == 0 {
        0
    } else {
        creation_count(cs.drop_last()) + if cs.last() is CreatePerson || cs.last() is CreateField {
            1nat
        } else {
            0nat
        }
    }
}

impl Command {
    /// The resource the command changes (see `command_target`).
    pub fn target(&self) -> (r: &String)
        ensures
            *r == command_target(*self),
    {
        match self {
            Command::CreatePerson { id, .. } | Command::CreateField { id, .. } | Command::Edit {
                id,
                ..
            } | Command::Grant { id, .. } | Command::Revoke { id, .. } => id,
        }
    }
}

/// Whether any of some commands creates a resource from the defaults, so
/// that the defaults must be read (and the client's view of them checked).
pub fn needs_defaults(cs: &[Command]) -> (r: bool)
    ensures
        r == exists|i: int| 0 <= i < cs@.len() && uses_defaults(#[trigger] cs@[i]),
{
    let mut i: usize = 0;
    while i < cs.len()
        invariant
            i <= cs@.len(),
            forall|j: int| 0 <= j < i ==> !uses_defaults(#[trigger] cs@[j]),
        decreases cs.len() - i,
    {
        let uses = match &cs[i] {
            Command::CreatePerson { initial_policy: None, .. } | Command::CreateField {
                initial_policy: None,
                ..
            } => true,
            _ => false,
        };
        if uses {
            return true;
        }
        i = i + 1;
    }
    false
}

/// Counts the commands that create a resource.
pub fn creations(cs: &[Command]) -> (n: i64)
    requires
        cs@.len() <= i64::MAX,
    ensures
        n == creation_count(cs@),
{
    let mut n: i64 = 0;
    let mut i: usize = 0;
    while i < cs.len()
        invariant
            cs@.len() <= i64::MAX,
            i <= cs@.len(),
            n == creation_count(cs@.take(i as int)),
            n <= i,
        decreases cs.len() - i,
    {
        assert(cs@.take(i + 1).drop_last() =~= cs@.take(i as int));
        match &cs[i] {
            Command::CreatePerson { .. } | Command::CreateField { .. } => {
                n = n + 1;
            },
            _ => {},
        }
        i = i + 1;
    }
    assert(cs@.take(i as int) =~= cs@);
    n
}

/// The most resources an installation holds.
pub const MAX_RESOURCES: i64 = 10000;

/// What an edit of a person or field may change, given the resource as the
/// editor sees it: the editor must be allowed to edit (else `Forbidden`)
/// the version they saw (else `Conflict`); only people and fields are
/// edited, a person keeps an empty value, and a field must hold text (else
/// `InvalidValue`).
pub open spec fn edit_outcome(can_edit: bool, version: i64, expected: i64, kind: Seq<char>, value_empty: bool, text_field: bool) -> Result<(), ErrorCode> {
    if !can_edit {
        Err(ErrorCode::Forbidden)
    } else if version != expected {
        Err(ErrorCode::Conflict)
    } else if !(kind == "person"@ || kind == "field"@) {
        Err(ErrorCode::InvalidValue)
    } else if kind == "person"@ && !value_empty {
        Err(ErrorCode::InvalidValue)
    } else if kind == "field"@ && !text_field {
        Err(ErrorCode::InvalidValue)
    } else {
        Ok(())
    }
}

/// Checks an edit of a person or field (see `edit_outcome`); `text_field`
/// tells whether an edited field currently holds text.
pub fn check_edit(can_edit: bool, version: i64, expected: i64, kind: &str, value: &str, text_field: bool) -> (r: Result<(), ErrorCode>)
    ensures
        r == edit_outcome(can_edit, version, expected, kind@, value@.len() == 0, text_field),
{
    if !can_edit {
        return Err(ErrorCode::Forbidden);
    }
    if version != expected {
        return Err(ErrorCode::Conflict);
    }
    let person = crate::text::str_eq(kind, "person");
    let field = crate::text::str_eq(kind, "field");
    if !(person || field) {
        return Err(ErrorCode::InvalidValue);
    }
    if person && !value.is_empty() {
        return Err(ErrorCode::InvalidValue);
    }
    if field && !text_field {
        return Err(ErrorCode::InvalidValue);
    }
    Ok(())
}

/// The SHA-256 digest of a text's UTF-8 bytes.
pub uninterp spec fn sha256(message: Seq<char>) -> Seq<u8>;

/// `Sha256::digest` of the message's bytes: the digest named `sha256`.
#[verifier::external_body]
fn sha256_digest(message: &str) -> (r: Vec<u8>)
    ensures
        r@ == sha256(message@),
{
    <sha2::Sha256 as sha2::Digest>::digest(message.as_bytes()).to_vec()
}

/// The fingerprint of a command payload that makes a replayed operation
/// recognisable: the lower-case hexadecimal SHA-256 of the payload after a
/// fixed label line.
pub fn receipt_digest(payload: &str) -> (r: String)
    ensures
        r@ == crate::receipts::digest_of(payload@),
{
    let mut v: Vec<char> = vec![
        'a', 't', 'l', 'a', 's', '-', 'c', 'o', 'm', 'm', 'a', 'n', 'd', '-', 'v', '1', '\n',
    ];
    proof {
        reveal_strlit("atlas-command-v1\n");
    }
    assert(v@ =~= "atlas-command-v1\n"@);
    let ghost head = v@;
    let p = chars_of(payload);
    let mut i: usize = 0;
    while i < p.len()
        invariant
            p@ == payload@,
            i <= p@.len(),
            v@ == head + p@.take(i as int),
        decreases p.len() - i,
    {
        v.push(p[i]);
        i = i + 1;
        assert(v@ =~= head + p@.take(i as int));
    }
    assert(p@.take(i as int) =~= p@);
    let message = string_from_chars(v.as_slice());
    let digest = sha256_digest(message.as_str());
    string_from_chars(hex_bytes_exec(digest.as_slice()).as_slice())
}


/// How a batch of resource commands begins. Its operation is named by a
/// canonical UUID and it holds 1 to 20 commands; a stored receipt replays
/// or conflicts (see `receipts::replay_of`, over the batch's `payload`);
/// otherwise the commands' references must resolve (`resolved`, as the
/// caller found them), and a batch that creates from the defaults, made
/// against a revision of them, only runs while that revision is current.
pub open spec fn apply_start_of(
    operation: Seq<char>,
    commands: Seq<Command>,
    stored: Option<crate::receipts::StoredReceipt>,
    payload: Seq<char>,
    resolved: Result<(), ErrorCode>,
    expected_defaults: Option<Seq<char>>,
    current_defaults: Seq<char>,
) -> Result<crate::tasks::commands::CommandStart, ErrorCode> {
    if !is_canonical_uuid(operation) || !(1 <= commands.len() <= 20) {
        Err(ErrorCode::InvalidValue)
    } else {
        match crate::receipts::replay_of(stored, payload) {
            Err(e) => Err(e),
            Ok(Some(revision)) => Ok(crate::tasks::commands::CommandStart::Replayed(revision)),
            Ok(None) => match resolved {
                Err(e) => Err(e),
                Ok(_) => if (expected_defaults matches Some(x) && x != current_defaults) && (exists|i: int|
                    0 <= i < commands.len() && uses_defaults(#[trigger] commands[i])) {
                    Err(ErrorCode::DefaultsChanged)
                } else {
                    Ok(crate::tasks::commands::CommandStart::Run)
                },
            },
        }
    }
}

/// Decides how a batch of resource commands begins (see `apply_start_of`).
pub fn apply_start(
    operation: &str,
    commands: &[Command],
    stored: Option<crate::receipts::StoredReceipt>,
    payload: &str,
    resolved: Result<(), ErrorCode>,
    expected_defaults: Option<&str>,
    current_defaults: &str,
) -> (r: Result<crate::tasks::commands::CommandStart, ErrorCode>)
    ensures
        r == apply_start_of(
            operation@,
            commands@,
            stored,
            payload@,
            resolved,
            match expected_defaults {
                Some(x) => Some(x@),
                None => None,
            },
            current_defaults@,
        ),
{
    if identifier(operation).is_err() || commands.len() == 0 || commands.len() > 20 {
        return Err(ErrorCode::InvalidValue);
    }
    match crate::receipts::replay(stored, payload) {
        Err(e) => Err(e),
        Ok(Some(revision)) => Ok(crate::tasks::commands::CommandStart::Replayed(revision)),
        Ok(None) => match resolved {
            Err(e) => Err(e),
            Ok(()) => {
                if needs_defaults(commands) {
                    if let Some(x) = expected_defaults {
                        if !crate::text::str_eq(x, current_defaults) {
                            return Err(ErrorCode::DefaultsChanged);
                        }
                    }
                }
                Ok(crate::tasks::commands::CommandStart::Run)
            },
        },
    }
}

} // verus!
