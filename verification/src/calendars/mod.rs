//! Calendar input is evidence about task timing, never authority to delete
//! work.
use vstd::prelude::*;
use crate::text::chars_of;
use crate::text::string_from_chars;

pub mod anchors;
pub mod ics;
pub mod keyed;
pub mod reconcile;
pub mod refresh;
pub mod reminders;
pub mod service;

verus! {

/// The position of the first `c` in `s`, if any.
pub open spec fn first_index(s: Seq<char>, c: char) -> Option<int>
    decreases s.len(),
{
    if s.len() == 0 {
        None
    } else if s[0] == c {
        Some(0)
    } else {
        match first_index(s.drop_first(), c) {
            Some(k) => Some(k + 1),
            None => None,
        }
    }
}

/// The stable identity of a stored secret. A versioned ciphertext
/// `v1:<fingerprint>:<ciphertext>` is randomised, so only its keyed
/// fingerprint identifies it; any other secret is its own identity.
pub open spec fn secret_identity_of(secret: Seq<char>) -> Seq<char> {
    if secret.len() >= 3 && secret.take(3) == "v1:"@ && first_index(secret.skip(3), ':') is Some {
        secret.take(3 + first_index(secret.skip(3), ':')->Some_0)
    } else {
        secret
    }
}

/// The identity of a secret (see `secret_identity_of`).
pub fn secret_identity(secret: &str) -> (r: String)
    ensures
        r@ == secret_identity_of(secret@),
{
    proof {
        reveal_strlit("v1:");
    }
    let chars = chars_of(secret);
    if chars.len() >= 3 && chars[0] == 'v' && chars[1] == '1' && chars[2] == ':' {
        let ghost rest = secret@.skip(3);
        assert(secret@.take(3) =~= "v1:"@);
        let mut i: usize = 3;
        assert(rest.skip(0) =~= rest);
        while i < chars.len()
            invariant
                chars@ == secret@,
                3 <= i <= chars@.len(),
                rest == secret@.skip(3),
                secret@.len() >= 3,
                secret@.take(3) == "v1:"@,
                forall|k: int| 3 <= k < i ==> chars@[k] != ':',
                first_index(rest, ':') == match first_index(rest.skip(i - 3), ':') {
                    Some(k) => Some(k + (i - 3)),
                    None => None::<int>,
                },
            decreases chars.len() - i,
        {
            if chars[i] == ':' {
                proof {
                    assert(rest.skip(i - 3)[0] == ':');
                    assert(first_index(rest, ':') == Some((i - 3) as int));
                }
                let mut out: Vec<char> = Vec::new();
                let mut j: usize = 0;
                while j < i
                    invariant
                        j <= i <= chars@.len(),
                        out@ == chars@.take(j as int),
                    decreases i - j,
                {
                    out.push(chars[j]);
                    j = j + 1;
                    assert(out@ =~= chars@.take(j as int));
                }
                return string_from_chars(out.as_slice());
            }
            proof {
                let t = rest.skip(i - 3);
                assert(t.drop_first() =~= rest.skip(i - 2));
            }
            i = i + 1;
        }
        assert(rest.skip(i - 3).len() == 0);
    } else {
        if chars.len() >= 3 {
            assert(secret@.take(3) != "v1:"@) by {
                if secret@.take(3) == "v1:"@ {
                    assert(secret@.take(3)[0] == 'v' && secret@.take(3)[1] == '1' && secret@.take(3)[2] == ':');
                    assert(chars@[0] == 'v' && chars@[1] == '1' && chars@[2] == ':');
                }
            }
        }
    }
    string_from_chars(chars.as_slice())
}

/// Taking the identity of a secret twice gives the same identity: a
/// fingerprint is already its own identity.
pub proof fn law_secret_identity_idempotent(secret: Seq<char>)
    ensures
        secret_identity_of(secret_identity_of(secret)) == secret_identity_of(secret),
{
    reveal_strlit("v1:");
    let id = secret_identity_of(secret);
    if secret.len() >= 3 && secret.take(3) == "v1:"@ && first_index(secret.skip(3), ':') is Some {
        let k = first_index(secret.skip(3), ':')->Some_0;
        lemma_first_index(secret.skip(3), ':');
        assert(id.take(3) =~= secret.take(3));
        assert(id.skip(3) =~= secret.skip(3).take(k));
        lemma_no_index(secret.skip(3).take(k), ':');
    }
}

/// The first index is a position of the character, with none before it.
pub proof fn lemma_first_index(s: Seq<char>, c: char)
    ensures
        first_index(s, c) matches Some(k) ==> 0 <= k < s.len() && s[k] == c && forall|j: int|
            0 <= j < k ==> s[j] != c,
        first_index(s, c) is None ==> forall|j: int| 0 <= j < s.len() ==> s[j] != c,
    decreases s.len(),
{
    if s.len() > 0 {
        lemma_first_index(s.drop_first(), c);
        assert forall|j: int| 1 <= j < s.len() implies s[j] == s.drop_first()[j - 1] by {}
    }
}

/// A text without the character has no first index of it.
pub proof fn lemma_no_index(s: Seq<char>, c: char)
    requires
        forall|j: int| 0 <= j < s.len() ==> s[j] != c,
    ensures
        first_index(s, c) is None,
    decreases s.len(),
{
    if s.len() > 0 {
        lemma_no_index(s.drop_first(), c);
    }
}

/// Seconds since the Unix epoch on the system clock, `None` when the clock
/// is set before the epoch (`SystemTime::now().duration_since(UNIX_EPOCH)`,
/// whole seconds). The reading depends on the moment of the call.
#[verifier::external_body]
fn system_seconds() -> (r: Option<u64>) {
    std::time::SystemTime::now().duration_since(std::time::UNIX_EPOCH).ok().map(|d| d.as_secs())
}

/// A clock reading as Unix time: the whole seconds since the epoch, zero
/// for a clock set before the epoch; a reading beyond `i64::MAX` wraps, as
/// `as i64` does.
pub fn unix_seconds(reading: Option<u64>) -> (t: i64)
    ensures
        t == match reading {
            Some(s) => s as i64,
            None => 0i64,
        },
{
    match reading {
        Some(s) => s as i64,
        None => 0,
    }
}

/// The current Unix time in whole seconds (see `unix_seconds`). The reading
/// itself depends on the moment of the call.
pub fn unix_now() -> (t: i64) {
    unix_seconds(system_seconds())
}

/// A position of the character with none before it is the first index.
pub proof fn lemma_first_index_at(s: Seq<char>, c: char, k: int)
    requires
        0 <= k < s.len(),
        s[k] == c,
        forall|j: int| 0 <= j < k ==> s[j] != c,
    ensures
        first_index(s, c) == Some(k),
    decreases k,
{
    if k > 0 {
        lemma_first_index_at(s.drop_first(), c, k - 1);
    }
}

} // verus!
