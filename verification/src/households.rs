//! Households: membership, invitations, and the commands that manage them.
use vstd::prelude::*;
use crate::error::ErrorCode;
use crate::policy::{DefaultTemplate, Policy};
use crate::text::str_eq;

verus! {

/// A change to households, defaults or a resource's policy.
pub enum ManagementCommand {
    CreateHousehold { id: String, name: String },
    RenameHousehold { id: String, name: String, expected_version: i64 },
    RevokeHouseholdInvitation { id: String, expected_version: i64 },
    InviteToHousehold { id: String, household_id: String, recipient_id: String, expected_version: i64 },
    RespondToHouseholdInvitation { id: String, expected_version: i64, accept: bool },
    RemoveHouseholdMember { household_id: String, account_id: String, expected_version: i64 },
    SetHouseholdRole { household_id: String, account_id: String, expected_version: i64, manager: bool },
    SetPrimaryHousehold { household_id: Option<String>, expected_version: i64 },
    SetDefaults {
        household_id: Option<String>,
        resource_kind: String,
        expected_version: i64,
        template: Option<DefaultTemplate>,
    },
    ReplacePolicy { id: String, expected_version: i64, policy: Policy },
}

/// A member of a household and their role.
pub struct HouseholdMember {
    pub account_id: String,
    pub username: String,
    pub role: String,
}

/// A household as one of its members sees it.
pub struct Household {
    pub id: String,
    pub name: String,
    pub version: i64,
    pub role: String,
    pub members: Vec<HouseholdMember>,
}

/// An invitation to join a household.
pub struct Invitation {
    pub id: String,
    pub household_id: String,
    pub household_name: String,
    pub sender_id: String,
    pub status: String,
    pub expires_at: String,
    pub version: i64,
}

/// The most households an account may belong to.
pub const MAX_HOUSEHOLDS: i64 = 32;

/// The most pending invitations an account may hold.
pub const MAX_PENDING: i64 = 200;

/// How long an invitation stays open, in seconds.
pub const INVITATION_SECONDS: i64 = 7 * 86400;

/// The role an account holds in a household allows an action: it must be a
/// member at all (else `NotFound`), and a manager where the action manages
/// the household (else `Forbidden`).
pub fn check_role(role: Option<&str>, manager: bool) -> (r: Result<(), ErrorCode>)
    ensures
        role is None ==> r == Err::<(), ErrorCode>(ErrorCode::NotFound),
        role matches Some(x) ==> (manager && x@ != "manager"@ ==> r == Err::<(), ErrorCode>(
            ErrorCode::Forbidden)) && (!(manager && x@ != "manager"@) ==> r is Ok),
{
    match role {
        None => Err(ErrorCode::NotFound),
        Some(x) => {
            if manager && !str_eq(x, "manager") {
                Err(ErrorCode::Forbidden)
            } else {
                Ok(())
            }
        },
    }
}

/// A change applies to the version the client saw.
pub fn check_version(current: i64, expected: i64) -> (r: Result<(), ErrorCode>)
    ensures
        r is Ok <==> current == expected,
        r matches Err(e) ==> e == ErrorCode::Conflict,
{
    if current == expected {
        Ok(())
    } else {
        Err(ErrorCode::Conflict)
    }
}

/// An account joins or creates a household only while it belongs to fewer
/// than 32.
pub fn household_capacity(count: i64) -> (r: Result<(), ErrorCode>)
    ensures
        r is Ok <==> count < MAX_HOUSEHOLDS,
        r matches Err(e) ==> e == ErrorCode::SliceCapacity,
{
    if count < MAX_HOUSEHOLDS {
        Ok(())
    } else {
        Err(ErrorCode::SliceCapacity)
    }
}

/// A membership as stored: the member and whether they manage the household.
pub struct Membership {
    pub account_id: String,
    pub manager: bool,
}

/// How many managers a household has besides `account`.
pub open spec fn managers_besides(ms: Seq<Membership>, account: Seq<char>) -> nat
    decreases ms.len(),
{
    if ms.len() == 0 {
        0
    } else {
        managers_besides(ms.drop_last(), account) + if ms.last().manager && ms.last().account_id@
            != account {
            1nat
        } else {
            0nat
        }
    }
}

/// How many managers a household has.
pub open spec fn manager_count(ms: Seq<Membership>) -> nat
    decreases ms.len(),
{
    if ms.len() == 0 {
        0
    } else {
        manager_count(ms.drop_last()) + if ms.last().manager {
            1nat
        } else {
            0nat
        }
    }
}

/// The memberships that remain once `account` leaves.
pub open spec fn without(ms: Seq<Membership>, account: Seq<char>) -> Seq<Membership>
    decreases ms.len(),
{
    if ms.len() == 0 {
        ms
    } else if ms.last().account_id@ == account {
        without(ms.drop_last(), account)
    } else {
        without(ms.drop_last(), account).push(ms.last())
    }
}

/// The memberships once `account` no longer manages.
pub open spec fn demoted(ms: Seq<Membership>, account: Seq<char>) -> Seq<Membership>
    decreases ms.len(),
{
    if ms.len() == 0 {
        ms
    } else if ms.last().account_id@ == account {
        demoted(ms.drop_last(), account).push(
            Membership { account_id: ms.last().account_id, manager: false },
        )
    } else {
        demoted(ms.drop_last(), account).push(ms.last())
    }
}

/// Counts the managers of a household besides `account`.
pub fn count_managers_besides(ms: &[Membership], account: &str) -> (n: i64)
    requires
        ms@.len() <= i64::MAX,
    ensures
        n == managers_besides(ms@, account@),
{
    let mut n: i64 = 0;
    let mut i: usize = 0;
    while i < ms.len()
        invariant
            ms@.len() <= i64::MAX,
            i <= ms@.len(),
            n == managers_besides(ms@.take(i as int), account@),
            n <= i,
        decreases ms.len() - i,
    {
        assert(ms@.take(i + 1).drop_last() =~= ms@.take(i as int));
        if ms[i].manager && !str_eq(ms[i].account_id.as_str(), account) {
            n = n + 1;
        }
        i = i + 1;
    }
    assert(ms@.take(i as int) =~= ms@);
    n
}

/// A member leaves or stops managing only while another manager remains.
pub fn retain_manager(others: i64) -> (r: Result<(), ErrorCode>)
    ensures
        r is Ok <==> others > 0,
        r matches Err(e) ==> e == ErrorCode::LastManager,
{
    if others > 0 {
        Ok(())
    } else {
        Err(ErrorCode::LastManager)
    }
}

proof fn lemma_without_managers(ms: Seq<Membership>, account: Seq<char>)
    ensures
        manager_count(without(ms, account)) == managers_besides(ms, account),
    decreases ms.len(),
{
    if ms.len() > 0 {
        lemma_without_managers(ms.drop_last(), account);
        if ms.last().account_id@ != account {
            assert(without(ms, account).drop_last() =~= without(ms.drop_last(), account));
        }
    }
}

proof fn lemma_demoted_managers(ms: Seq<Membership>, account: Seq<char>)
    ensures
        manager_count(demoted(ms, account)) == managers_besides(ms, account),
    decreases ms.len(),
{
    if ms.len() > 0 {
        lemma_demoted_managers(ms.drop_last(), account);
        assert(demoted(ms, account).drop_last() =~= demoted(ms.drop_last(), account));
    }
}

/// A household never loses its last manager: when the check on the managers
/// besides a member passes, a manager remains after that member leaves or
/// stops managing.
pub proof fn law_household_keeps_manager(ms: Seq<Membership>, account: Seq<char>)
    requires
        managers_besides(ms, account) > 0,
    ensures
        manager_count(without(ms, account)) > 0,
        manager_count(demoted(ms, account)) > 0,
{
    lemma_without_managers(ms, account);
    lemma_demoted_managers(ms, account);
}

/// The state of an invitation answered by its recipient.
pub open spec fn answered_status(accept: bool) -> Seq<char> {
    if accept {
        "accepted"@
    } else {
        "declined"@
    }
}

/// The status an answered invitation takes.
pub fn answer_status(accept: bool) -> (r: &'static str)
    ensures
        r@ == answered_status(accept),
{
    if accept {
        "accepted"
    } else {
        "declined"
    }
}

/// An invitation can be answered while it is pending at the version the
/// recipient saw (else `Conflict`) and has not expired (else
/// `InvitationExpired`).
pub fn check_answer(version: i64, status: &str, expires_at: i64, expected: i64, now: i64) -> (r:
    Result<(), ErrorCode>)
    ensures
        !(version == expected && status@ == "pending"@) ==> r == Err::<(), ErrorCode>(
            ErrorCode::Conflict),
        version == expected && status@ == "pending"@ && expires_at <= now ==> r == Err::<
            (),
            ErrorCode,
        >(ErrorCode::InvitationExpired),
        version == expected && status@ == "pending"@ && expires_at > now ==> r is Ok,
{
    if !(version == expected && str_eq(status, "pending")) {
        return Err(ErrorCode::Conflict);
    }
    if expires_at <= now {
        return Err(ErrorCode::InvitationExpired);
    }
    Ok(())
}

/// A new invitation needs an existing recipient (else `NotFound`) who is
/// not yet a member and has no open invitation to this household (else
/// `Conflict`) and holds fewer than 200 open invitations (else
/// `SliceCapacity`).
pub fn check_invite(recipients: i64, memberships: i64, open_here: i64, open_total: i64) -> (r: Result<
    (),
    ErrorCode,
>)
    ensures
        recipients != 1 ==> r == Err::<(), ErrorCode>(ErrorCode::NotFound),
        recipients == 1 && (memberships != 0 || open_here != 0) ==> r == Err::<(), ErrorCode>(
            ErrorCode::Conflict),
        recipients == 1 && memberships == 0 && open_here == 0 && open_total >= MAX_PENDING ==> r
            == Err::<(), ErrorCode>(ErrorCode::SliceCapacity),
        recipients == 1 && memberships == 0 && open_here == 0 && open_total < MAX_PENDING ==> r is Ok,
{
    if recipients != 1 {
        Err(ErrorCode::NotFound)
    } else if memberships != 0 || open_here != 0 {
        Err(ErrorCode::Conflict)
    } else if open_total >= MAX_PENDING {
        Err(ErrorCode::SliceCapacity)
    } else {
        Ok(())
    }
}

/// When an invitation sent at `now` expires: a week later.
pub fn invitation_expiry(now: i64) -> (r: Result<i64, ErrorCode>)
    ensures
        now + INVITATION_SECONDS <= i64::MAX ==> r == Ok::<i64, ErrorCode>(
            (now + INVITATION_SECONDS) as i64,
        ),
        now + INVITATION_SECONDS > i64::MAX ==> r == Err::<i64, ErrorCode>(ErrorCode::InvalidValue),
{
    match now.checked_add(INVITATION_SECONDS) {
        Some(v) => Ok(v),
        None => Err(ErrorCode::InvalidValue),
    }
}

/// The kinds of resource that defaults can be set for.
pub open spec fn defaults_kind_ok(kind: Seq<char>) -> bool {
    kind == "person"@ || kind == "field"@ || kind == "task"@ || kind == "list"@ || kind
        == "progress"@
}

/// Accepts a resource kind that defaults can be set for.
pub fn defaults_kind(kind: &str) -> (r: Result<(), ErrorCode>)
    ensures
        r is Ok <==> defaults_kind_ok(kind@),
        r matches Err(e) ==> e == ErrorCode::InvalidValue,
{
    if str_eq(kind, "person") || str_eq(kind, "field") || str_eq(kind, "task") || str_eq(kind, "list")
        || str_eq(kind, "progress") {
        Ok(())
    } else {
        Err(ErrorCode::InvalidValue)
    }
}


/// The memberships once `account` manages.
pub open spec fn promoted(ms: Seq<Membership>, account: Seq<char>) -> Seq<Membership>
    decreases ms.len(),
{
    if ms.len() == 0 {
        ms
    } else if ms.last().account_id@ == account {
        promoted(ms.drop_last(), account).push(Membership { account_id: ms.last().account_id, manager: true })
    } else {
        promoted(ms.drop_last(), account).push(ms.last())
    }
}

/// Whether `account` belongs to the household, and then whether it manages.
pub open spec fn role_in(ms: Seq<Membership>, account: Seq<char>) -> Option<bool>
    decreases ms.len(),
{
    if ms.len() == 0 {
        None
    } else if ms.last().account_id@ == account {
        Some(ms.last().manager)
    } else {
        role_in(ms.drop_last(), account)
    }
}

/// An account may act on a household only as a member (else `NotFound`),
/// and only as a manager where the action manages it (else `Forbidden`).
pub open spec fn member_check(ms: Seq<Membership>, account: Seq<char>, manage: bool) -> Result<(), ErrorCode> {
    match role_in(ms, account) {
        None => Err(ErrorCode::NotFound),
        Some(m) => if manage && !m {
            Err(ErrorCode::Forbidden)
        } else {
            Ok(())
        },
    }
}

/// What a change of membership makes of a household's memberships: with
/// `role` none, `account` leaves (a manager may remove anyone, a member
/// only themselves); otherwise a manager sets whether `account` manages.
/// The actor's role decides first, then the household's version, then
/// whether `account` belongs to it; a member leaves or stops managing only
/// while another manager remains.
pub open spec fn membership_change_of(
    ms: Seq<Membership>,
    actor: Seq<char>,
    account: Seq<char>,
    version: i64,
    expected: i64,
    role: Option<bool>,
) -> Result<Seq<Membership>, ErrorCode> {
    let manage = match role {
        None => actor != account,
        Some(_) => true,
    };
    match member_check(ms, actor, manage) {
        Err(e) => Err(e),
        Ok(_) => if version != expected {
            Err(ErrorCode::Conflict)
        } else {
            match member_check(ms, account, false) {
                Err(e) => Err(e),
                Ok(_) => if role != Some(true) && managers_besides(ms, account) == 0 {
                    Err(ErrorCode::LastManager)
                } else {
                    Ok(
                        match role {
                            None => without(ms, account),
                            Some(false) => demoted(ms, account),
                            Some(true) => promoted(ms, account),
                        },
                    )
                },
            }
        },
    }
}

/// Finds whether an account belongs to the household, and its role.
fn find_role(ms: &[Membership], account: &str) -> (r: Option<bool>)
    ensures
        r == role_in(ms@, account@),
{
    let mut k: usize = ms.len();
    assert(ms@.take(k as int) =~= ms@);
    while k > 0
        invariant
            k <= ms@.len(),
            role_in(ms@, account@) == role_in(ms@.take(k as int), account@),
        decreases k,
    {
        assert(ms@.take(k as int).drop_last() =~= ms@.take(k - 1));
        if str_eq(ms[k - 1].account_id.as_str(), account) {
            return Some(ms[k - 1].manager);
        }
        k = k - 1;
    }
    None
}

fn check_member(ms: &[Membership], account: &str, manage: bool) -> (r: Result<(), ErrorCode>)
    ensures
        r == member_check(ms@, account@, manage),
{
    match find_role(ms, account) {
        None => Err(ErrorCode::NotFound),
        Some(m) => if manage && !m {
            Err(ErrorCode::Forbidden)
        } else {
            Ok(())
        },
    }
}

/// The memberships with `account` removed (`role` none) or given a role.
fn rewritten(ms: &[Membership], account: &str, role: Option<bool>) -> (out: Vec<Membership>)
    ensures
        out@ == match role {
            None => without(ms@, account@),
            Some(false) => demoted(ms@, account@),
            Some(true) => promoted(ms@, account@),
        },
{
    let mut out: Vec<Membership> = Vec::new();
    let mut i: usize = 0;
    while i < ms.len()
        invariant
            i <= ms@.len(),
            out@ == match role {
                None => without(ms@.take(i as int), account@),
                Some(false) => demoted(ms@.take(i as int), account@),
                Some(true) => promoted(ms@.take(i as int), account@),
            },
        decreases ms.len() - i,
    {
        assert(ms@.take(i + 1).drop_last() =~= ms@.take(i as int));
        assert(ms@.take(i + 1).last() == ms@[i as int]);
        let id = ms[i].account_id.clone();
        if str_eq(id.as_str(), account) {
            match role {
                None => {},
                Some(m) => {
                    out.push(Membership { account_id: id, manager: m });
                },
            }
        } else {
            out.push(Membership { account_id: id, manager: ms[i].manager });
        }
        i = i + 1;
    }
    assert(ms@.take(i as int) =~= ms@);
    out
}

/// Decides a change of membership in one household (see
/// `membership_change_of`): `account` leaves when `role` is none, else it
/// manages or stops managing. The household's memberships follow, and a
/// household that changes always keeps a manager.
pub fn membership_step(
    ms: &[Membership],
    actor: &str,
    account: &str,
    version: i64,
    expected: i64,
    role: Option<bool>,
) -> (r: Result<Vec<Membership>, ErrorCode>)
    requires
        ms@.len() <= i64::MAX,
    ensures
        match r {
            Ok(n) => membership_change_of(ms@, actor@, account@, version, expected, role) == Ok::<
                Seq<Membership>,
                ErrorCode,
            >(n@),
            Err(e) => membership_change_of(ms@, actor@, account@, version, expected, role) == Err::<
                Seq<Membership>,
                ErrorCode,
            >(e),
        },
        r matches Ok(n) ==> manager_count(n@) > 0,
{
    let manage = match role {
        None => !str_eq(actor, account),
        Some(_) => true,
    };
    if let Err(e) = check_member(ms, actor, manage) {
        return Err(e);
    }
    if let Err(e) = check_version(version, expected) {
        return Err(e);
    }
    if let Err(e) = check_member(ms, account, false) {
        return Err(e);
    }
    if role != Some(true) {
        if let Err(e) = retain_manager(count_managers_besides(ms, account)) {
            return Err(e);
        }
    }
    let out = rewritten(ms, account, role);
    proof {
        match role {
            None => law_household_keeps_manager(ms@, account@),
            Some(false) => law_household_keeps_manager(ms@, account@),
            Some(true) => lemma_promoted_manages(ms@, account@),
        }
    }
    Ok(out)
}

proof fn lemma_promoted_manages(ms: Seq<Membership>, account: Seq<char>)
    requires
        role_in(ms, account) is Some,
    ensures
        manager_count(promoted(ms, account)) > 0,
    decreases ms.len(),
{
    if ms.len() > 0 && ms.last().account_id@ != account {
        lemma_promoted_manages(ms.drop_last(), account);
        assert(promoted(ms, account).drop_last() =~= promoted(ms.drop_last(), account));
    }
    if ms.len() > 0 && ms.last().account_id@ == account {
        assert(promoted(ms, account).last().manager);
        assert(promoted(ms, account).drop_last() =~= promoted(ms.drop_last(), account));
    }
}

} // verus!
