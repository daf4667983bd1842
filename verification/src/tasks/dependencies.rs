//! Dependencies between occurrences: which prerequisites may be named, who
//! may complete an occurrence from a preview, and how a completion walks
//! through its prerequisites.
use vstd::prelude::*;
use crate::error::ErrorCode;
use crate::is_canonical_uuid;
use crate::tasks::goals::{Evidence, Goal, Participation};
use crate::tasks::service::{CompletionMode, DependencyItem, uuid_v5, uuid_v5_text};
use crate::text::{all_distinct, distinct_texts, push_str, str_eq, string_from_chars};

verus! {

/// The most prerequisites one occurrence may name.
pub const MAX_PREREQUISITES: usize = 32;

/// An occurrence names at most 32 prerequisites, each once.
pub fn check_prerequisites(prerequisites: &[String]) -> (r: Result<(), ErrorCode>)
    ensures
        r is Ok <==> prerequisites@.len() <= MAX_PREREQUISITES && distinct_texts(
            prerequisites@.map_values(|p: String| p@),
        ),
        r matches Err(e) ==> e == ErrorCode::InvalidValue,
{
    if prerequisites.len() <= MAX_PREREQUISITES && all_distinct(prerequisites) {
        Ok(())
    } else {
        Err(ErrorCode::InvalidValue)
    }
}

/// An occurrence is not its own prerequisite (else `InvalidValue`), and a
/// prerequisite must not already depend on it, directly or not (else
/// `Conflict`), so that the graph stays acyclic.
pub fn check_prerequisite(prerequisite: &str, occurrence: &str, reaches_back: bool) -> (r: Result<
    (),
    ErrorCode,
>)
    ensures
        prerequisite@ == occurrence@ ==> r == Err::<(), ErrorCode>(ErrorCode::InvalidValue),
        prerequisite@ != occurrence@ ==> (r is Ok <==> !reaches_back),
        prerequisite@ != occurrence@ ==> (r matches Err(e) ==> e == ErrorCode::Conflict),
{
    if str_eq(prerequisite, occurrence) {
        Err(ErrorCode::InvalidValue)
    } else if reaches_back {
        Err(ErrorCode::Conflict)
    } else {
        Ok(())
    }
}

/// How a preview offers an occurrence to the caller: only a checkbox no
/// chore covers, through the caller's own stream where they may edit it, or
/// through a stream created on demand where anyone may join and the caller
/// may edit the occurrence; the version then expected is the stream's, or
/// 1 for a stream created on demand.
pub open spec fn offered(goal: Goal, covered: bool, stream: Option<(bool, i64)>, can_edit: bool, participation: Participation) -> (bool, Option<i64>) {
    let on_demand = stream is None && can_edit && participation == Participation::Anyone;
    let can_complete = goal is Checkbox && !covered && (on_demand || (stream matches Some((
        editable,
        _,
    )) && editable));
    let version = match stream {
        Some((_, v)) => Some(v),
        None => if on_demand {
            Some(1i64)
        } else {
            None
        },
    };
    (can_complete, version)
}

/// Decides how a preview offers an occurrence (see `offered`); `stream`
/// holds whether the caller may edit their stream and its version.
pub fn offer(goal: &Goal, covered: bool, stream: Option<(bool, i64)>, can_edit: bool, participation: Participation) -> (r: (bool, Option<i64>))
    ensures
        r == offered(*goal, covered, stream, can_edit, participation),
{
    let on_demand = stream.is_none() && can_edit && participation == Participation::Anyone;
    let editable = match stream {
        Some((e, _)) => e,
        None => false,
    };
    let checkbox = match goal {
        Goal::Checkbox => true,
        _ => false,
    };
    let version = match stream {
        Some((_, v)) => Some(v),
        None => if on_demand {
            Some(1)
        } else {
            None
        },
    };
    (checkbox && !covered && (on_demand || editable), version)
}

/// A completion applies to the preview the caller saw; an advisory override
/// is refused where dependencies are strict, and completing prerequisites
/// needs every prerequisite to be visible (else `Conflict`).
pub open spec fn completion_allowed(same_token: bool, mode: CompletionMode, strict: bool, unavailable: bool) -> bool {
    &&& same_token
    &&& (mode == CompletionMode::AdvisoryOverride ==> !strict)
    &&& (mode == CompletionMode::CompletePrerequisites ==> !unavailable)
}

/// Checks a completion against the preview it was made from.
pub fn check_completion(token: &str, preview_token: &str, mode: CompletionMode, strict: bool, unavailable: bool) -> (r: Result<(), ErrorCode>)
    ensures
        r is Ok <==> completion_allowed(token@ == preview_token@, mode, strict, unavailable),
        r matches Err(e) ==> e == ErrorCode::Conflict,
{
    if !str_eq(token, preview_token) {
        return Err(ErrorCode::Conflict);
    }
    if mode == CompletionMode::AdvisoryOverride && strict {
        return Err(ErrorCode::Conflict);
    }
    if mode == CompletionMode::CompletePrerequisites && unavailable {
        return Err(ErrorCode::Conflict);
    }
    Ok(())
}

/// Which items of a preview a completion records: the requested occurrence
/// itself, and, when completing prerequisites, each prerequisite not yet
/// complete.
pub open spec fn records_item(root: bool, complete: bool, mode: CompletionMode) -> bool {
    root || (mode == CompletionMode::CompletePrerequisites && !complete)
}

/// What a completion does with one item of its preview.
pub fn item_recorded(item: &DependencyItem, root: &str, mode: CompletionMode) -> (r: bool)
    ensures
        r == records_item(item.occurrence_id@ == root@, item.complete, mode),
{
    let is_root = str_eq(item.occurrence_id.as_str(), root);
    is_root || (mode == CompletionMode::CompletePrerequisites && !item.complete)
}

/// A recorded item must be completable by the caller, unless it is the
/// requested occurrence and the caller brought its evidence.
pub fn check_completable(root: bool, brought_evidence: bool, can_complete: bool) -> (r: Result<(), ErrorCode>)
    ensures
        r is Ok <==> (root && brought_evidence) || can_complete,
        r matches Err(e) ==> e == ErrorCode::Conflict,
{
    if (root && brought_evidence) || can_complete {
        Ok(())
    } else {
        Err(ErrorCode::Conflict)
    }
}

/// The evidence a completion records for an item: the caller's own for the
/// requested occurrence if they brought any, otherwise a ticked checkbox.
pub open spec fn completion_evidence_of(root: bool, brought: Option<Evidence>) -> Evidence {
    if root && brought is Some {
        brought->Some_0
    } else {
        Evidence::Checkbox { complete: true }
    }
}

/// Picks the evidence a completion records for an item.
pub fn completion_evidence(root: bool, brought: Option<Evidence>) -> (r: Evidence)
    ensures
        r == completion_evidence_of(root, brought),
{
    match brought {
        Some(e) => if root {
            e
        } else {
            Evidence::Checkbox { complete: true }
        },
        None => Evidence::Checkbox { complete: true },
    }
}

/// The name a completion entry's identity is derived from.
pub open spec fn completion_name(occurrence: Seq<char>, actor: Seq<char>) -> Seq<char> {
    "dependency-completion:"@ + occurrence + ":"@ + actor
}

/// The identity of the entry a completion records for an occurrence: a
/// version-5 UUID in the operation's namespace, so that a retried operation
/// records the same entry. The operation must be a canonical UUID.
pub fn completion_entry_id(operation: &str, occurrence: &str, actor: &str) -> (r: Result<String, ErrorCode>)
    ensures
        r is Ok <==> is_canonical_uuid(operation@),
        r matches Ok(id) ==> id@ == uuid_v5(operation@, completion_name(occurrence@, actor@)),
        r matches Err(e) ==> e == ErrorCode::InvalidValue,
{
    if crate::identifier(operation).is_err() {
        return Err(ErrorCode::InvalidValue);
    }
    let mut name: Vec<char> = Vec::new();
    push_str(&mut name, "dependency-completion:");
    push_str(&mut name, occurrence);
    push_str(&mut name, ":");
    push_str(&mut name, actor);
    let text = string_from_chars(name.as_slice());
    Ok(uuid_v5_text(operation, text.as_str()))
}

} // verus!
