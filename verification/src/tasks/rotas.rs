//! Rotas: who is responsible for each occurrence of a shared task, taken in
//! turn. A rota names the responsible person; anyone may still help.
use vstd::prelude::*;
use crate::error::ErrorCode;
use crate::tasks::goals::Participation;
use crate::tasks::service::RotaAssignment;
use crate::text::{all_distinct, distinct_texts, str_eq};

verus! {

/// The most people one rota may name.
pub const MAX_ROTA: usize = 8;

/// Rotas apply to tasks anyone may help with.
pub fn check_rota_task(participation: Participation) -> (r: Result<(), ErrorCode>)
    ensures
        r is Ok <==> participation == Participation::Anyone,
        r matches Err(e) ==> e == ErrorCode::InvalidValue,
{
    if participation == Participation::Anyone {
        Ok(())
    } else {
        Err(ErrorCode::InvalidValue)
    }
}

/// A rota names at most eight people, each once.
pub fn check_rota_people(people: &[String]) -> (r: Result<(), ErrorCode>)
    ensures
        r is Ok <==> people@.len() <= MAX_ROTA && distinct_texts(
            people@.map_values(|p: String| p@),
        ),
        r matches Err(e) ==> e == ErrorCode::InvalidValue,
{
    if people.len() <= MAX_ROTA && all_distinct(people) {
        Ok(())
    } else {
        Err(ErrorCode::InvalidValue)
    }
}

/// A consent or a rota changes at the version the client saw; consenting
/// also needs an active enrolment (else `Conflict` either way).
pub fn check_consent(expected: i64, version: i64, accepted: bool, enrolled: bool) -> (r: Result<(), ErrorCode>)
    ensures
        r is Ok <==> expected == version && (accepted ==> enrolled),
        r matches Err(e) ==> e == ErrorCode::Conflict,
{
    if expected == version && (!accepted || enrolled) {
        Ok(())
    } else {
        Err(ErrorCode::Conflict)
    }
}

/// Whose turn an ordinal is: the participant at the ordinal's position,
/// counted round the rota.
pub open spec fn turn_of(len: nat, ordinal: int) -> int {
    ordinal % (len as int)
}

/// The position of the participant whose turn the rota's next ordinal is;
/// none for an empty rota. A stored ordinal must lie in `0..i64::MAX`.
pub fn rota_turn(len: usize, ordinal: i64) -> (r: Result<Option<usize>, ErrorCode>)
    ensures
        len == 0 ==> r == Ok::<Option<usize>, ErrorCode>(None),
        len > 0 && !(0 <= ordinal < i64::MAX) ==> r == Err::<Option<usize>, ErrorCode>(
            ErrorCode::InvalidValue,
        ),
        len > 0 && 0 <= ordinal < i64::MAX ==> (r matches Ok(Some(p)) && p == turn_of(
            len as nat,
            ordinal as int,
        ) && p < len),
{
    if len == 0 {
        return Ok(None);
    }
    if ordinal < 0 || ordinal == i64::MAX {
        return Err(ErrorCode::InvalidValue);
    }
    let p: u64 = (ordinal as u64) % (len as u64);
    Ok(Some(p as usize))
}

/// The assignment of a turn: the participant is responsible only if they
/// still consent and may still read the task.
pub fn assignment(revision: i64, ordinal: i64, participant: &String, accepted: bool, eligible: &[String]) -> (r: RotaAssignment)
    ensures
        r.revision == revision,
        r.ordinal == ordinal,
        r.account_id is Some <==> accepted && exists|i: int|
            0 <= i < eligible@.len() && eligible@[i]@ == participant@,
        r.account_id matches Some(a) ==> a@ == participant@,
{
    let mut found = false;
    let mut i: usize = 0;
    while i < eligible.len() && !found
        invariant
            i <= eligible@.len(),
            found == exists|k: int| 0 <= k < i && eligible@[k]@ == participant@,
        decreases eligible.len() - i,
    {
        if str_eq(eligible[i].as_str(), participant.as_str()) {
            found = true;
        }
        i = i + 1;
    }
    proof {
        if !found {
            assert forall|k: int| 0 <= k < eligible@.len() implies eligible@[k]@ != participant@ by {}
        }
    }
    RotaAssignment {
        revision,
        ordinal,
        account_id: if accepted && found {
            Some(participant.clone())
        } else {
            None
        },
    }
}

/// Whose turn the ordinal `i` places after `start` is.
pub open spec fn turn_after(len: nat, start: int, i: int) -> int {
    turn_of(len, start + i)
}

/// Turns go round: within any run of as many consecutive ordinals as the
/// rota has participants, each participant's turn comes exactly once.
pub proof fn law_rota_takes_turns(len: nat, start: int, position: int)
    requires
        len > 0,
        0 <= position < len,
    ensures
        exists|i: int| 0 <= i < len && #[trigger] turn_after(len, start, i) == position,
        forall|i: int, j: int|
            0 <= i < len && 0 <= j < len && #[trigger] turn_after(len, start, i) == position
                && #[trigger] turn_after(len, start, j) == position ==> i == j,
{
    let m = len as int;
    let q = start / m;
    let r = start % m;
    vstd::arithmetic::div_mod::lemma_fundamental_div_mod(start, m);
    assert(0 <= r < m) by {
        vstd::arithmetic::div_mod::lemma_mod_bound(start, m);
    }
    let i = if position >= r {
        position - r
    } else {
        position - r + m
    };
    assert(turn_after(len, start, i) == position) by {
        if position >= r {
            assert(start + i == m * q + position);
            vstd::arithmetic::div_mod::lemma_mod_multiples_vanish(q, position, m);
        } else {
            assert(start + i == m * (q + 1) + position) by (nonlinear_arith)
                requires
                    start == m * q + r,
                    i == position - r + m,
            ;
            vstd::arithmetic::div_mod::lemma_mod_multiples_vanish(q + 1, position, m);
        }
        vstd::arithmetic::div_mod::lemma_small_mod(position as nat, len);
    }
    assert forall|a: int, b: int|
        0 <= a < len && 0 <= b < len && #[trigger] turn_after(len, start, a) == position
            && #[trigger] turn_after(len, start, b) == position implies a == b by {
        vstd::arithmetic::div_mod::lemma_fundamental_div_mod(start + a, m);
        vstd::arithmetic::div_mod::lemma_fundamental_div_mod(start + b, m);
        let qa = (start + a) / m;
        let qb = (start + b) / m;
        assert(m * qa + position == start + a);
        assert(m * qb + position == start + b);
        assert(m * (qa - qb) == a - b) by (nonlinear_arith)
            requires
                m * qa + position == start + a,
                m * qb + position == start + b,
        ;
        if qa != qb {
            assert(a - b >= m || a - b <= -m) by (nonlinear_arith)
                requires
                    m * (qa - qb) == a - b,
                    qa != qb,
                    m > 0,
            ;
        }
    }
}

} // verus!
