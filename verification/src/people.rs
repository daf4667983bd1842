//! People: profiles, links to accounts, merges, and duplicate hints.
use vstd::prelude::*;
use crate::error::ErrorCode;
use crate::text::{chars_of, is_white_space, is_white_space_exec, lex_lt, push_str, str_eq, str_less, string_from_chars};

verus! {

/// A change to people and their links.
pub enum PeopleCommand {
    CancelRequest { id: String },
    ReferenceAccount { account_id: String, person_id: String },
    RequestLink { id: String, person_id: String, account_id: String, expected_version: i64 },
    RequestMerge { id: String, source_id: String, target_id: String, preview_token: String, name: String },
    RespondRequest { id: String, accept: bool },
    Merge { source_id: String, target_id: String, preview_token: String, name: String },
    RenameProfile { person_id: String, expected_version: i64, name: String },
    Unlink { person_id: String, expected_version: i64 },
}

/// The result of a people command.
pub struct PersonResult {
    pub revision: i64,
    pub person_id: String,
}

/// A field that a merge moves.
pub struct MergeField {
    pub id: String,
    pub parent_id: Option<String>,
    pub label: String,
    pub version: i64,
}

/// The words of a text joined by single spaces, with whether white space
/// follows the last word.
pub open spec fn squeeze(s: Seq<char>) -> (Seq<char>, bool)
    decreases s.len(),
{
    if s.len() == 0 {
        (Seq::<char>::empty(), false)
    } else {
        let (out, pending) = squeeze(s.drop_last());
        let c = s.last();
        if is_white_space(c) {
            (out, true)
        } else if pending && out.len() > 0 {
            (out + seq![' ', c], false)
        } else {
            (out.push(c), false)
        }
    }
}

/// The lower-case form of a text.
pub uninterp spec fn lowercase(s: Seq<char>) -> Seq<char>;

/// `str::to_lowercase`: the text named `lowercase`.
#[verifier::external_body]
pub(crate) fn to_lowercase(s: &str) -> (r: String)
    ensures
        r@ == lowercase(s@),
{
    s.to_lowercase()
}

/// A name as duplicate hints compare it: its words joined by single spaces,
/// in lower case.
pub fn normalise_name(name: &str) -> (r: String)
    ensures
        r@ == lowercase(squeeze(name@).0),
{
    let chars = chars_of(name);
    let mut out: Vec<char> = Vec::new();
    let mut pending = false;
    let mut i: usize = 0;
    while i < chars.len()
        invariant
            chars@ == name@,
            i <= chars@.len(),
            (out@, pending) == squeeze(name@.take(i as int)),
        decreases chars.len() - i,
    {
        let c = chars[i];
        proof {
            assert(name@.take(i as int + 1).drop_last() =~= name@.take(i as int));
        }
        if is_white_space_exec(c) {
            pending = true;
        } else {
            if pending && out.len() > 0 {
                out.push(' ');
            }
            out.push(c);
            pending = false;
        }
        i = i + 1;
        proof {
            let (o, p) = squeeze(name@.take(i as int));
            assert(out@ =~= o);
        }
    }
    assert(name@.take(chars@.len() as int) =~= name@);
    let squeezed = string_from_chars(out.as_slice());
    to_lowercase(squeezed.as_str())
}

/// Builds the payload text of a people command from its canonical encoding.
pub fn people_payload(canonical: &str) -> (r: String)
    ensures
        r@ == "people-command-v1:"@ + canonical@,
{
    let mut v: Vec<char> = Vec::new();
    push_str(&mut v, "people-command-v1:");
    push_str(&mut v, canonical);
    string_from_chars(v.as_slice())
}

/// What a people command's operation left behind: its payload digest, the
/// revision it published and the person it resulted in, if recorded.
pub struct PeopleReceipt {
    pub payload: String,
    pub revision: i64,
    pub person_id: Option<String>,
}

/// How a people command under an operation identifier is answered, given
/// the receipt stored under it: none runs the command; the same payload
/// with its recorded person answers with that result; anything else is a
/// conflict.
pub open spec fn people_replay_of(stored: Option<PeopleReceipt>, payload: Seq<char>) -> Result<
    Option<(i64, String)>,
    ErrorCode,
> {
    match stored {
        None => Ok(None),
        Some(r) => if r.payload@ != payload {
            Err(ErrorCode::OperationConflict)
        } else {
            match r.person_id {
                Some(p) => Ok(Some((r.revision, p))),
                None => Err(ErrorCode::OperationConflict),
            }
        },
    }
}

/// Decides whether a people command replays a stored operation.
pub fn people_replay(stored: Option<PeopleReceipt>, payload: &str) -> (r: Result<
    Option<PersonResult>,
    ErrorCode,
>)
    ensures
        match (people_replay_of(stored, payload@), r) {
            (Ok(None), Ok(None)) => true,
            (Ok(Some((rev, p))), Ok(Some(x))) => x.revision == rev && x.person_id == p,
            (Err(a), Err(b)) => a == b,
            _ => false,
        },
{
    match stored {
        None => Ok(None),
        Some(receipt) => {
            if !str_eq(receipt.payload.as_str(), payload) {
                return Err(ErrorCode::OperationConflict);
            }
            match receipt.person_id {
                Some(p) => Ok(Some(PersonResult { revision: receipt.revision, person_id: p })),
                None => Err(ErrorCode::OperationConflict),
            }
        },
    }
}

/// A person can be offered for linking while it is shared under a policy,
/// unarchived, at the version the requester saw (else `Conflict`), and not
/// already linked to an account (else `Conflict`).
pub fn check_link_request(has_policy: bool, version: i64, expected: i64, archived: bool, links: i64) -> (r:
    Result<(), ErrorCode>)
    ensures
        r is Ok <==> has_policy && version == expected && !archived && links == 0,
        r matches Err(e) ==> e == ErrorCode::Conflict,
{
    if has_policy && version == expected && !archived && links == 0 {
        Ok(())
    } else {
        Err(ErrorCode::Conflict)
    }
}

/// A link is accepted by the proposed account, for a person still owned by
/// the sender (else `Forbidden`), unchanged since the proposal (else
/// `Conflict`).
pub fn check_link_acceptance(
    proposed: &str,
    actor: &str,
    owner: &str,
    sender: &str,
    version: i64,
    proposed_version: i64,
    policy_version: Option<i64>,
    proposed_policy_version: i64,
) -> (r: Result<(), ErrorCode>)
    ensures
        !(proposed@ == actor@ && owner@ == sender@) ==> r == Err::<(), ErrorCode>(
            ErrorCode::Forbidden),
        proposed@ == actor@ && owner@ == sender@ ==> (r is Ok <==> version == proposed_version
            && policy_version == Some(proposed_policy_version)),
        proposed@ == actor@ && owner@ == sender@ ==> (r matches Err(e) ==> e == ErrorCode::Conflict),
{
    if !(str_eq(proposed, actor) && str_eq(owner, sender)) {
        return Err(ErrorCode::Forbidden);
    }
    let same_policy = match policy_version {
        Some(v) => v == proposed_policy_version,
        None => false,
    };
    if version == proposed_version && same_policy {
        Ok(())
    } else {
        Err(ErrorCode::Conflict)
    }
}

/// Who answers a merge request: the owner of whichever person the requester
/// does not own.
pub fn merge_recipient<'a>(actor: &str, source_owner: &'a str, target_owner: &'a str) -> (r: &'a str)
    ensures
        r@ == if source_owner@ == actor@ {
            target_owner@
        } else {
            source_owner@
        },
{
    if str_eq(source_owner, actor) {
        target_owner
    } else {
        source_owner
    }
}

/// A merge request is accepted only when its two people have two different
/// owners, the sender and the one who accepts.
pub open spec fn merge_owners_ok(source_owner: Seq<char>, target_owner: Seq<char>, sender: Seq<char>, actor: Seq<char>) -> bool {
    &&& source_owner != target_owner
    &&& sender != actor
    &&& (source_owner == sender || source_owner == actor)
    &&& (target_owner == sender || target_owner == actor)
}

/// Checks who owns the two people of an accepted merge request.
pub fn check_merge_owners(source_owner: &str, target_owner: &str, sender: &str, actor: &str) -> (r:
    Result<(), ErrorCode>)
    ensures
        r is Ok <==> merge_owners_ok(source_owner@, target_owner@, sender@, actor@),
        r matches Err(e) ==> e == ErrorCode::Forbidden,
{
    if !str_eq(source_owner, target_owner) && !str_eq(sender, actor) && (str_eq(source_owner, sender)
        || str_eq(source_owner, actor)) && (str_eq(target_owner, sender) || str_eq(
        target_owner,
        actor,
    )) {
        Ok(())
    } else {
        Err(ErrorCode::Forbidden)
    }
}

/// A merge applies to the preview the client saw (else `Conflict`); one
/// that needs the other owner's approval is requested, never applied
/// directly (`Forbidden`), and a request needs such an approval (else
/// `InvalidValue`).
pub fn check_merge(token: &str, preview_token: &str, requires_approval: bool, request: bool) -> (r:
    Result<(), ErrorCode>)
    ensures
        token@ != preview_token@ ==> r == Err::<(), ErrorCode>(ErrorCode::Conflict),
        token@ == preview_token@ && request ==> (r is Ok <==> requires_approval),
        token@ == preview_token@ && request && !requires_approval ==> r == Err::<(), ErrorCode>(
            ErrorCode::InvalidValue),
        token@ == preview_token@ && !request ==> (r is Ok <==> !requires_approval),
        token@ == preview_token@ && !request && requires_approval ==> r == Err::<(), ErrorCode>(
            ErrorCode::Forbidden),
{
    if !str_eq(token, preview_token) {
        return Err(ErrorCode::Conflict);
    }
    if request {
        if requires_approval {
            Ok(())
        } else {
            Err(ErrorCode::InvalidValue)
        }
    } else if requires_approval {
        Err(ErrorCode::Forbidden)
    } else {
        Ok(())
    }
}

/// A linked profile is renamed by its own account (else `Forbidden`) at the
/// version it saw (else `Conflict`).
pub fn check_rename(linked: Option<&str>, actor: &str, version: i64, expected: i64) -> (r: Result<
    (),
    ErrorCode,
>)
    ensures
        !(linked matches Some(a) && a@ == actor@) ==> r == Err::<(), ErrorCode>(
            ErrorCode::Forbidden),
        linked matches Some(a) && a@ == actor@ ==> (r is Ok <==> version == expected),
        linked matches Some(a) && a@ == actor@ ==> (r matches Err(e) ==> e == ErrorCode::Conflict),
{
    let own = match linked {
        Some(a) => str_eq(a, actor),
        None => false,
    };
    if !own {
        return Err(ErrorCode::Forbidden);
    }
    if version == expected {
        Ok(())
    } else {
        Err(ErrorCode::Conflict)
    }
}

/// A person is unlinked by its linked account or its owner (else
/// `Forbidden`), only while linked (else `Conflict`), at the version seen
/// (else `Conflict`).
pub fn check_unlink(linked: Option<&str>, owner: &str, actor: &str, version: i64, expected: i64) -> (r:
    Result<(), ErrorCode>)
    ensures
        !((linked matches Some(a) && a@ == actor@) || owner@ == actor@) ==> r == Err::<
            (),
            ErrorCode,
        >(ErrorCode::Forbidden),
        ((linked matches Some(a) && a@ == actor@) || owner@ == actor@) ==> (r is Ok <==> (linked
            is Some && version == expected)),
        ((linked matches Some(a) && a@ == actor@) || owner@ == actor@) ==> (r matches Err(e) ==> e
            == ErrorCode::Conflict),
{
    let own = match linked {
        Some(a) => str_eq(a, actor),
        None => false,
    };
    if !(own || str_eq(owner, actor)) {
        return Err(ErrorCode::Forbidden);
    }
    if linked.is_none() || version != expected {
        return Err(ErrorCode::Conflict);
    }
    Ok(())
}

/// Two people merge only when they are distinct and unarchived (else
/// `InvalidValue`) and the caller owns at least one of them (else
/// `Forbidden`); merging needs the other owner's approval unless the caller
/// owns both.
pub fn check_merge_pair(source: &str, target: &str, archived: bool, owns_source: bool, owns_target: bool) -> (r: Result<bool, ErrorCode>)
    ensures
        (source@ == target@ || archived) ==> r == Err::<bool, ErrorCode>(ErrorCode::InvalidValue),
        !(source@ == target@ || archived) && !(owns_source || owns_target) ==> r == Err::<
            bool,
            ErrorCode,
        >(ErrorCode::Forbidden),
        !(source@ == target@ || archived) && (owns_source || owns_target) ==> r == Ok::<
            bool,
            ErrorCode,
        >(!(owns_source && owns_target)),
{
    if str_eq(source, target) || archived {
        return Err(ErrorCode::InvalidValue);
    }
    if !(owns_source || owns_target) {
        return Err(ErrorCode::Forbidden);
    }
    Ok(!(owns_source && owns_target))
}

/// Two people merge only when at most one of them is linked to an account
/// (else `Conflict`), and then under that linked profile's own name (else
/// `Conflict`).
pub fn check_merge_links(links: usize, linked_name: Option<&str>, name: &str) -> (r: Result<(), ErrorCode>)
    ensures
        links > 1 ==> r == Err::<(), ErrorCode>(ErrorCode::Conflict),
        links <= 1 ==> (r is Ok <==> (linked_name matches Some(n) ==> n@ == name@)),
        links <= 1 ==> (r matches Err(e) ==> e == ErrorCode::Conflict),
{
    if links > 1 {
        return Err(ErrorCode::Conflict);
    }
    match linked_name {
        Some(n) => if str_eq(n, name) {
            Ok(())
        } else {
            Err(ErrorCode::Conflict)
        },
        None => Ok(()),
    }
}

/// Accounts in strictly increasing order.
pub open spec fn accounts_sorted(v: Seq<(String, bool)>) -> bool {
    forall|i: int, j: int| 0 <= i < j < v.len() ==> lex_lt(v[i].0@, v[j].0@)
}

/// An account occurs among some pairs.
pub open spec fn listed(v: Seq<(String, bool)>, a: Seq<char>) -> bool {
    exists|k: int| 0 <= k < v.len() && (#[trigger] v[k]).0@ == a
}

/// Some account saw the merged identity.
pub open spec fn seen_by(seen: Seq<(String, bool)>, a: Seq<char>) -> bool {
    listed(seen, a)
}

/// Some account could edit the merged identity.
pub open spec fn edited_by(seen: Seq<(String, bool)>, a: Seq<char>) -> bool {
    exists|k: int| 0 <= k < seen.len() && (#[trigger] seen[k]).0@ == a && seen[k].1
}

/// The grants a merged identity keeps: every account other than the owner
/// that could see either person before, each once, editing if it could edit
/// either, in order of account.
pub open spec fn identity_grants_of(seen: Seq<(String, bool)>, owner: Seq<char>, out: Seq<(String, bool)>) -> bool {
    &&& accounts_sorted(out)
    &&& forall|a: Seq<char>| #[trigger] listed(out, a) <==> (a != owner && seen_by(seen, a))
    &&& forall|k: int| 0 <= k < out.len() ==> (#[trigger] out[k]).1 == edited_by(seen, out[k].0@)
}

proof fn lemma_push_seen(prefix: Seq<(String, bool)>, x: (String, bool))
    ensures
        forall|a: Seq<char>| #[trigger] listed(prefix.push(x), a) == (listed(prefix, a) || x.0@ == a),
        forall|a: Seq<char>| #[trigger] edited_by(prefix.push(x), a) == (edited_by(prefix, a) || (x.0@
            == a && x.1)),
{
    let next = prefix.push(x);
    assert forall|a: Seq<char>| #[trigger] listed(next, a) == (listed(prefix, a) || x.0@ == a) by {
        if listed(next, a) {
            let k = choose|k: int| 0 <= k < next.len() && (#[trigger] next[k]).0@ == a;
            if k < prefix.len() {
                assert(prefix[k] == next[k]);
            }
        }
        if listed(prefix, a) {
            let k = choose|k: int| 0 <= k < prefix.len() && (#[trigger] prefix[k]).0@ == a;
            assert(next[k] == prefix[k]);
        }
        if x.0@ == a {
            assert(next[prefix.len() as int] == x);
        }
    }
    assert forall|a: Seq<char>| #[trigger] edited_by(next, a) == (edited_by(prefix, a) || (x.0@ == a
        && x.1)) by {
        if edited_by(next, a) {
            let k = choose|k: int| 0 <= k < next.len() && (#[trigger] next[k]).0@ == a && next[k].1;
            if k < prefix.len() {
                assert(prefix[k] == next[k]);
            }
        }
        if edited_by(prefix, a) {
            let k = choose|k: int| 0 <= k < prefix.len() && (#[trigger] prefix[k]).0@ == a && prefix[k].1;
            assert(next[k] == prefix[k]);
        }
        if x.0@ == a && x.1 {
            assert(next[prefix.len() as int] == x);
        }
    }
}

proof fn lemma_listed_insert(v: Seq<(String, bool)>, p: int, x: (String, bool))
    requires
        0 <= p <= v.len(),
    ensures
        forall|a: Seq<char>| #[trigger] listed(v.insert(p, x), a) == (listed(v, a) || x.0@ == a),
{
    let w = v.insert(p, x);
    assert forall|a: Seq<char>| #[trigger] listed(w, a) == (listed(v, a) || x.0@ == a) by {
        if listed(w, a) {
            let k = choose|k: int| 0 <= k < w.len() && (#[trigger] w[k]).0@ == a;
            if k < p {
                assert(v[k] == w[k]);
            } else if k > p {
                assert(v[k - 1] == w[k]);
            }
        }
        if listed(v, a) {
            let k = choose|k: int| 0 <= k < v.len() && (#[trigger] v[k]).0@ == a;
            if k < p {
                assert(w[k] == v[k]);
            } else {
                assert(w[k + 1] == v[k]);
            }
        }
        if x.0@ == a {
            assert(w[p] == x);
        }
    }
}

proof fn lemma_listed_update(v: Seq<(String, bool)>, p: int, x: (String, bool))
    requires
        0 <= p < v.len(),
        x.0@ == v[p].0@,
    ensures
        forall|a: Seq<char>| #[trigger] listed(v.update(p, x), a) == listed(v, a),
{
    let w = v.update(p, x);
    assert forall|a: Seq<char>| #[trigger] listed(w, a) == listed(v, a) by {
        if listed(w, a) {
            let k = choose|k: int| 0 <= k < w.len() && (#[trigger] w[k]).0@ == a;
            if k != p {
                assert(v[k] == w[k]);
            }
        }
        if listed(v, a) {
            let k = choose|k: int| 0 <= k < v.len() && (#[trigger] v[k]).0@ == a;
            if k != p {
                assert(w[k] == v[k]);
            } else {
                assert(w[p] == x);
            }
        }
    }
}

/// Builds the grants a merged identity keeps (see `identity_grants_of`);
/// `seen` holds each account's view of either person before the merge.
pub fn identity_grants(seen: &[(String, bool)], owner: &str) -> (out: Vec<(String, bool)>)
    ensures
        identity_grants_of(seen@, owner@, out@),
{
    let mut out: Vec<(String, bool)> = Vec::new();
    let mut i: usize = 0;
    assert(seen@.take(0) =~= Seq::<(String, bool)>::empty());
    while i < seen.len()
        invariant
            i <= seen@.len(),
            accounts_sorted(out@),
            forall|a: Seq<char>| #[trigger] listed(out@, a) <==> (a != owner@ && seen_by(seen@.take(i as int), a)),
            forall|k: int| 0 <= k < out@.len() ==> (#[trigger] out@[k]).1 == edited_by(
                seen@.take(i as int),
                out@[k].0@,
            ),
        decreases seen.len() - i,
    {
        let ghost prefix = seen@.take(i as int);
        let ghost next = seen@.take(i + 1);
        let ghost x = seen@[i as int];
        assert(next =~= prefix.push(x));
        proof {
            lemma_push_seen(prefix, x);
        }
        let account = &seen[i].0;
        let edit = seen[i].1;
        let ghost before = out@;
        if !str_eq(account.as_str(), owner) {
            let mut p: usize = 0;
            while p < out.len() && str_less(out[p].0.as_str(), account.as_str())
                invariant
                    p <= out@.len(),
                    forall|q: int| 0 <= q < p ==> lex_lt(#[trigger] out@[q].0@, account@),
                decreases out.len() - p,
            {
                p = p + 1;
            }
            if p < out.len() && str_eq(out[p].0.as_str(), account.as_str()) {
                let merged = out[p].1 || edit;
                let name = out[p].0.clone();
                out.set(p, (name, merged));
                proof {
                    lemma_listed_update(before, p as int, out@[p as int]);
                    assert(out@ == before.update(p as int, out@[p as int]));
                    assert forall|k: int| 0 <= k < out@.len() implies #[trigger] out@[k].0@ == before[k].0@ by {}
                    assert forall|k: int| 0 <= k < out@.len() implies (#[trigger] out@[k]).1 == edited_by(next, out@[k].0@) by {
                        if k != p {
                            assert(out@[k] == before[k]);
                        }
                    }
                }
            } else {
                proof {
                    if p < before.len() {
                        crate::text::lemma_lex_trichotomy(before[p as int].0@, account@);
                    }
                    crate::text::lemma_lex_irreflexive(account@);
                }
                out.insert(p, (account.clone(), edit));
                proof {
                    assert(out@ == before.insert(p as int, out@[p as int]));
                    lemma_listed_insert(before, p as int, out@[p as int]);
                    assert(accounts_sorted(out@)) by {
                        assert forall|a: int, b: int| 0 <= a < b < out@.len() implies lex_lt(out@[a].0@, out@[b].0@) by {
                            if a < p && b == p {
                            } else if a == p && b > p {
                                assert(out@[b] == before[b - 1]);
                                if b - 1 > p {
                                    crate::text::lemma_lex_transitive(account@, before[p as int].0@, before[b - 1].0@);
                                }
                            } else if a < p && b > p {
                                assert(out@[b] == before[b - 1]);
                            } else if a > p {
                                assert(out@[a] == before[a - 1] && out@[b] == before[b - 1]);
                            }
                        }
                    }
                    assert forall|q: int| 0 <= q < before.len() implies (#[trigger] before[q]).0@ != account@ by {
                        if q > p {
                            crate::text::lemma_lex_transitive(account@, before[p as int].0@, before[q].0@);
                        }
                    }
                    assert(!listed(before, account@));
                    assert(!seen_by(prefix, account@));
                    assert(!edited_by(prefix, account@)) by {
                        if edited_by(prefix, account@) {
                            let q = choose|q: int| 0 <= q < prefix.len() && (#[trigger] prefix[q]).0@ == account@ && prefix[q].1;
                            assert(listed(prefix, account@));
                        }
                    }
                    assert forall|k: int| 0 <= k < out@.len() implies (#[trigger] out@[k]).1 == edited_by(next, out@[k].0@) by {
                        if k < p {
                            assert(out@[k] == before[k]);
                            assert(listed(before, before[k].0@));
                        } else if k > p {
                            assert(out@[k] == before[k - 1]);
                            assert(listed(before, before[k - 1].0@));
                        }
                    }
                }
            }
        } else {
            proof {
                assert forall|k: int| 0 <= k < out@.len() implies (#[trigger] out@[k]).1 == edited_by(next, out@[k].0@) by {
                    assert(listed(out@, out@[k].0@));
                }
            }
        }
        i = i + 1;
    }
    assert(seen@.take(i as int) =~= seen@);
    out
}

} // verus!
