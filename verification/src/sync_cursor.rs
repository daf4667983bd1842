//! Authenticated delta positions: a boundary and an expiry, signed for one
//! actor and device.
use vstd::prelude::*;
use crate::error::ErrorCode;
use crate::is_lower_hex;
use crate::tasks::decimal::{render_nat, render_nat_exec};
use crate::text::{byte_len, chars_of, is_digit, lemma_pieces_append, pieces, split_on, string_from_chars};

verus! {

/// The HMAC-SHA256 tag of a message's UTF-8 bytes under a key's UTF-8 bytes.
pub uninterp spec fn hmac_sha256(key: Seq<char>, message: Seq<char>) -> Seq<u8>;

/// `Hmac::<Sha256>::new_from_slice` on the key's bytes (which accepts every
/// key length), `update` with the message's bytes and `finalize`: the
/// 32-byte tag named `hmac_sha256`.
#[verifier::external_body]
fn hmac_tag(key: &str, message: &str) -> (r: Vec<u8>)
    ensures
        r@ == hmac_sha256(key@, message@),
        r@.len() == 32,
{
    let mut mac = <hmac::Hmac<sha2::Sha256> as hmac::Mac>::new_from_slice(key.as_bytes()).unwrap();
    hmac::Mac::update(&mut mac, message.as_bytes());
    hmac::Mac::finalize(mac).into_bytes().to_vec()
}

/// The same MAC, ended by `verify_slice`: true exactly when the given tag is
/// the 32-byte tag named `hmac_sha256`.
#[verifier::external_body]
fn hmac_check(key: &str, message: &str, tag: &[u8]) -> (r: bool)
    ensures
        r <==> tag@ == hmac_sha256(key@, message@),
{
    let mut mac = <hmac::Hmac<sha2::Sha256> as hmac::Mac>::new_from_slice(key.as_bytes()).unwrap();
    hmac::Mac::update(&mut mac, message.as_bytes());
    hmac::Mac::verify_slice(mac, tag).is_ok()
}

/// A random version-4 UUID (`Uuid::new_v4`) in its simple form, which
/// `Display` writes as 32 lower-case hexadecimal digits.
#[verifier::external_body]
fn random_simple_uuid() -> (r: String)
    ensures
        r@.len() == 32,
        forall|i: int| 0 <= i < 32 ==> is_lower_hex(#[trigger] r@[i]),
{
    uuid::Uuid::new_v4().simple().to_string()
}

/// A fresh signing key: 64 random lower-case hexadecimal digits.
pub fn new_key() -> (k: String)
    ensures
        k@.len() == 64,
        forall|i: int| 0 <= i < 64 ==> is_lower_hex(#[trigger] k@[i]),
{
    let a = random_simple_uuid();
    let b = random_simple_uuid();
    let mut v = chars_of(a.as_str());
    let w = chars_of(b.as_str());
    let ghost base = v@;
    let mut i: usize = 0;
    while i < w.len()
        invariant
            w@ == b@,
            base == a@,
            i <= w@.len(),
            v@ == base + w@.take(i as int),
        decreases w.len() - i,
    {
        v.push(w[i]);
        i = i + 1;
        assert(v@ =~= base + w@.take(i as int));
    }
    assert(w@.take(w@.len() as int) =~= w@);
    let k = string_from_chars(v.as_slice());
    assert forall|i: int| 0 <= i < 64 implies is_lower_hex(#[trigger] k@[i]) by {
        if i < 32 {
            assert(k@[i] == a@[i]);
        } else {
            assert(k@[i] == b@[i - 32]);
        }
    }
    k
}

/// The lower-case hexadecimal digit of a value below 16.
pub open spec fn hex_digit(v: int) -> char {
    if v < 10 {
        ((v + 48) as u32) as char
    } else {
        ((v + 87) as u32) as char
    }
}

/// A hexadecimal digit, in either case.
pub open spec fn is_hex(c: char) -> bool {
    ('0' <= c && c <= '9') || ('a' <= c && c <= 'f') || ('A' <= c && c <= 'F')
}

/// Every character is a hexadecimal digit.
pub open spec fn all_hex(s: Seq<char>) -> bool {
    forall|i: int| 0 <= i < s.len() ==> is_hex(#[trigger] s[i])
}

/// The value of a hexadecimal digit.
pub open spec fn hex_value(c: char) -> int {
    if '0' <= c && c <= '9' {
        c as int - 48
    } else if 'a' <= c && c <= 'f' {
        c as int - 87
    } else {
        c as int - 55
    }
}

/// The number a run of hexadecimal digits denotes.
pub open spec fn hex_number(s: Seq<char>) -> nat
    decreases s.len(),
{
    if s.len() == 0 {
        0
    } else {
        (hex_number(s.drop_last()) * 16 + hex_value(s.last())) as nat
    }
}

/// `16` to the power `w`.
pub open spec fn pow16(w: nat) -> nat
    decreases w,
{
    if w == 0 {
        1
    } else {
        16 * pow16((w - 1) as nat)
    }
}

/// The last `w` lower-case hexadecimal digits of `n`, zero padded.
pub open spec fn fixed_hex(n: nat, w: nat) -> Seq<char>
    decreases w,
{
    if w == 0 {
        Seq::<char>::empty()
    } else {
        fixed_hex(n / 16, (w - 1) as nat).push(hex_digit((n % 16) as int))
    }
}

/// Bytes as pairs of lower-case hexadecimal digits.
pub open spec fn hex_bytes(bytes: Seq<u8>) -> Seq<char>
    decreases bytes.len(),
{
    if bytes.len() == 0 {
        Seq::<char>::empty()
    } else {
        hex_bytes(bytes.drop_last()) + seq![
            hex_digit(bytes.last() as int / 16),
            hex_digit(bytes.last() as int % 16),
        ]
    }
}

/// Pairs of hexadecimal digits as bytes.
pub open spec fn byte_pairs(s: Seq<char>) -> Seq<u8>
    decreases s.len(),
{
    if s.len() < 2 {
        Seq::<u8>::empty()
    } else {
        byte_pairs(s.take(s.len() - 2)).push(
            (hex_value(s[s.len() - 2]) * 16 + hex_value(s[s.len() - 1])) as u8,
        )
    }
}

/// The signed part of a cursor.
pub open spec fn cursor_payload(boundary: nat, expiry: nat) -> Seq<char> {
    "d1."@ + fixed_hex(boundary, 16) + "."@ + fixed_hex(expiry, 16)
}

/// The message a cursor signs: a fixed label, the actor, the device's byte
/// length before the device (so that its punctuation cannot alter the
/// framing), and the payload, on separate lines.
pub open spec fn mac_message(
    actor: Seq<char>,
    device: Seq<char>,
    device_bytes: nat,
    payload: Seq<char>,
) -> Seq<char> {
    "atlas-delta-v1\n"@ + actor + "\n"@ + render_nat(device_bytes) + ":"@ + device + "\n"@
        + payload
}

/// A signed cursor, or why there is none: negative positions are invalid
/// values, and a key that is not 64 bytes long forces a resynchronisation.
pub open spec fn signed_cursor(
    key: Seq<char>,
    key_bytes: nat,
    actor: Seq<char>,
    device: Seq<char>,
    device_bytes: nat,
    boundary: int,
    expiry: int,
) -> Result<Seq<char>, ErrorCode> {
    if boundary < 0 || expiry < 0 {
        Err(ErrorCode::InvalidValue)
    } else if key_bytes != 64 {
        Err(ErrorCode::ResyncRequired)
    } else {
        let payload = cursor_payload(boundary as nat, expiry as nat);
        Ok(payload + "."@ + hex_bytes(
            hmac_sha256(key, mac_message(actor, device, device_bytes, payload)),
        ))
    }
}

/// The positions a cursor carries: four dot-separated pieces (`d1`, 16 and
/// 16 hexadecimal digits, and a 64-digit signature of the first three under
/// the key, for this actor and device), each position at most `i64::MAX`.
/// Anything else forces a resynchronisation.
pub open spec fn verified_cursor(
    key: Seq<char>,
    key_bytes: nat,
    actor: Seq<char>,
    device: Seq<char>,
    device_bytes: nat,
    token: Seq<char>,
) -> Result<(i64, i64), ErrorCode> {
    let p = pieces(token, '.');
    if !(p.len() == 4 && p[0] == "d1"@ && p[1].len() == 16 && p[2].len() == 16 && p[3].len() == 64
        && all_hex(p[1]) && all_hex(p[2]) && all_hex(p[3])) {
        Err(ErrorCode::ResyncRequired)
    } else if key_bytes != 64 {
        Err(ErrorCode::ResyncRequired)
    } else if byte_pairs(p[3]) != hmac_sha256(
        key,
        mac_message(actor, device, device_bytes, "d1."@ + p[1] + "."@ + p[2]),
    ) {
        Err(ErrorCode::ResyncRequired)
    } else if hex_number(p[1]) > i64::MAX || hex_number(p[2]) > i64::MAX {
        Err(ErrorCode::ResyncRequired)
    } else {
        Ok((hex_number(p[1]) as i64, hex_number(p[2]) as i64))
    }
}

/// The lower-case hexadecimal digit of a value below 16.
fn hex_char(v: u64) -> (c: char)
    requires
        v < 16,
    ensures
        c == hex_digit(v as int),
{
    let c = if v < 10 {
        ((v + 48) as u8) as char
    } else {
        ((v + 87) as u8) as char
    };
    c
}

/// The value of a hexadecimal digit.
fn hex_value_exec(c: char) -> (v: u64)
    requires
        is_hex(c),
    ensures
        v == hex_value(c),
        v < 16,
{
    if '0' <= c && c <= '9' {
        (c as u32 - 48) as u64
    } else if 'a' <= c && c <= 'f' {
        (c as u32 - 87) as u64
    } else {
        (c as u32 - 55) as u64
    }
}

fn is_hex_exec(c: char) -> (b: bool)
    ensures
        b == is_hex(c),
{
    ('0' <= c && c <= '9') || ('a' <= c && c <= 'f') || ('A' <= c && c <= 'F')
}

/// The last `w` hexadecimal digits of `n`.
fn fixed_hex_exec(n: u64, w: u32) -> (v: Vec<char>)
    ensures
        v@ == fixed_hex(n as nat, w as nat),
    decreases w,
{
    if w == 0 {
        Vec::new()
    } else {
        let mut v = fixed_hex_exec(n / 16, w - 1);
        v.push(hex_char(n % 16));
        v
    }
}

/// Appends `tail` to `out`.
fn append(out: &mut Vec<char>, tail: &[char])
    ensures
        final(out)@ == old(out)@ + tail@,
{
    let ghost base = out@;
    let mut i: usize = 0;
    while i < tail.len()
        invariant
            i <= tail@.len(),
            out@ == base + tail@.take(i as int),
        decreases tail.len() - i,
    {
        out.push(tail[i]);
        i = i + 1;
        assert(out@ =~= base + tail@.take(i as int));
    }
    assert(tail@.take(tail@.len() as int) =~= tail@);
}

/// Bytes as lower-case hexadecimal digit pairs.
pub fn hex_bytes_exec(bytes: &[u8]) -> (v: Vec<char>)
    ensures
        v@ == hex_bytes(bytes@),
{
    let mut v: Vec<char> = Vec::new();
    let mut i: usize = 0;
    while i < bytes.len()
        invariant
            i <= bytes@.len(),
            v@ == hex_bytes(bytes@.take(i as int)),
        decreases bytes.len() - i,
    {
        let b = bytes[i];
        v.push(hex_char((b / 16) as u64));
        v.push(hex_char((b % 16) as u64));
        proof {
            let t = bytes@.take(i as int + 1);
            assert(t.drop_last() =~= bytes@.take(i as int));
            assert(t.last() == b);
        }
        i = i + 1;
        assert(v@ =~= hex_bytes(bytes@.take(i as int)));
    }
    assert(bytes@.take(bytes@.len() as int) =~= bytes@);
    v
}

/// The message a cursor signs (see `mac_message`).
fn message(actor: &str, device: &str, payload: &[char]) -> (m: String)
    ensures
        m@ == mac_message(actor@, device@, byte_len(device@), payload@),
{
    let mut v: Vec<char> = Vec::new();
    let head: Vec<char> = vec!['a', 't', 'l', 'a', 's', '-', 'd', 'e', 'l', 't', 'a', '-', 'v', '1', '\n'];
    proof {
        reveal_strlit("atlas-delta-v1\n");
        reveal_strlit("\n");
        reveal_strlit(":");
    }
    assert(head@ =~= "atlas-delta-v1\n"@);
    append(&mut v, head.as_slice());
    assert(v@ =~= "atlas-delta-v1\n"@);
    append(&mut v, chars_of(actor).as_slice());
    assert(v@ =~= "atlas-delta-v1\n"@ + actor@);
    v.push('\n');
    assert(v@ =~= "atlas-delta-v1\n"@ + actor@ + "\n"@);
    let n = device.len();
    append(&mut v, render_nat_exec(n as u64).as_slice());
    assert(v@ =~= "atlas-delta-v1\n"@ + actor@ + "\n"@ + render_nat(byte_len(device@)));
    v.push(':');
    append(&mut v, chars_of(device).as_slice());
    v.push('\n');
    append(&mut v, payload);
    assert(v@ =~= mac_message(actor@, device@, byte_len(device@), payload@));
    string_from_chars(v.as_slice())
}

/// The signed part of a cursor (see `cursor_payload`).
fn payload_exec(boundary: u64, expiry: u64) -> (v: Vec<char>)
    ensures
        v@ == cursor_payload(boundary as nat, expiry as nat),
{
    let mut v: Vec<char> = vec!['d', '1', '.'];
    proof {
        reveal_strlit("d1.");
        reveal_strlit(".");
    }
    append(&mut v, fixed_hex_exec(boundary, 16).as_slice());
    v.push('.');
    append(&mut v, fixed_hex_exec(expiry, 16).as_slice());
    assert(v@ =~= cursor_payload(boundary as nat, expiry as nat));
    v
}

/// Signs a cursor for an actor and device (see `signed_cursor`).
pub fn sign(key: &str, actor: &str, device: &str, boundary: i64, expiry: i64) -> (r: Result<
    String,
    ErrorCode,
>)
    ensures
        match (
            signed_cursor(
                key@,
                byte_len(key@),
                actor@,
                device@,
                byte_len(device@),
                boundary as int,
                expiry as int,
            ),
            r,
        ) {
            (Ok(t), Ok(s)) => s@ == t,
            (Err(a), Err(b)) => a == b,
            _ => false,
        },
        r is Ok ==> hmac_sha256(
            key@,
            mac_message(actor@, device@, byte_len(device@), cursor_payload(boundary as nat, expiry as nat)),
        ).len() == 32,
{
    if boundary < 0 || expiry < 0 {
        return Err(ErrorCode::InvalidValue);
    }
    if key.len() != 64 {
        return Err(ErrorCode::ResyncRequired);
    }
    let payload = payload_exec(boundary as u64, expiry as u64);
    let m = message(actor, device, payload.as_slice());
    let tag = hmac_tag(key, m.as_str());
    let mut v = payload;
    v.push('.');
    append(&mut v, hex_bytes_exec(tag.as_slice()).as_slice());
    proof {
        reveal_strlit(".");
    }
    assert(v@ =~= cursor_payload(boundary as nat, expiry as nat) + "."@ + hex_bytes(tag@));
    Ok(string_from_chars(v.as_slice()))
}

/// The number 16 hexadecimal digits denote.
fn hex16_value(s: &[char]) -> (n: u64)
    requires
        s@.len() == 16,
        all_hex(s@),
    ensures
        n == hex_number(s@),
{
    let mut n: u64 = 0;
    let mut i: usize = 0;
    while i < 16
        invariant
            s@.len() == 16,
            all_hex(s@),
            i <= 16,
            n == hex_number(s@.take(i as int)),
            hex_number(s@.take(i as int)) < pow16(i as nat),
        decreases 16 - i,
    {
        let d = hex_value_exec(s[i]);
        proof {
            let t = s@.take(i as int + 1);
            assert(t.drop_last() =~= s@.take(i as int));
            assert(pow16(16) == 0x1_0000_0000_0000_0000) by {
                reveal_with_fuel(pow16, 17);
            }
            lemma_pow16_monotone(i as nat + 1, 16);
            assert(n * 16 + d < pow16(i as nat + 1)) by (nonlinear_arith)
                requires n < pow16(i as nat), d < 16, pow16(i as nat + 1) == 16 * pow16(i as nat);
        }
        n = n * 16 + d;
        i = i + 1;
    }
    assert(s@.take(16) =~= s@);
    n
}

/// Powers of 16 grow.
proof fn lemma_pow16_monotone(a: nat, b: nat)
    requires
        a <= b,
    ensures
        pow16(a) <= pow16(b),
    decreases b,
{
    if a < b {
        lemma_pow16_monotone(a, (b - 1) as nat);
    }
}

/// Decodes 64 hexadecimal digits to 32 bytes.
fn decode_bytes(s: &[char]) -> (v: Vec<u8>)
    requires
        s@.len() == 64,
        all_hex(s@),
    ensures
        v@ == byte_pairs(s@),
{
    let mut v: Vec<u8> = Vec::new();
    let mut i: usize = 0;
    while i < 32
        invariant
            s@.len() == 64,
            all_hex(s@),
            i <= 32,
            v@ == byte_pairs(s@.take(2 * i as int)),
        decreases 32 - i,
    {
        let hi = hex_value_exec(s[2 * i]);
        let lo = hex_value_exec(s[2 * i + 1]);
        v.push((hi * 16 + lo) as u8);
        proof {
            let t = s@.take(2 * i as int + 2);
            assert(t.take(t.len() - 2) =~= s@.take(2 * i as int));
            assert(t[t.len() - 2] == s@[2 * i as int]);
            assert(t[t.len() - 1] == s@[2 * i as int + 1]);
        }
        i = i + 1;
    }
    assert(s@.take(64) =~= s@);
    v
}

/// Every character is a hexadecimal digit.
fn all_hex_exec(s: &[char]) -> (b: bool)
    ensures
        b == all_hex(s@),
{
    let mut i: usize = 0;
    while i < s.len()
        invariant
            i <= s@.len(),
            forall|j: int| 0 <= j < i ==> is_hex(#[trigger] s@[j]),
        decreases s.len() - i,
    {
        if !is_hex_exec(s[i]) {
            return false;
        }
        i = i + 1;
    }
    true
}

/// Reads back the positions of a cursor signed for this actor and device
/// (see `verified_cursor`).
pub fn verify(key: &str, actor: &str, device: &str, token: &str) -> (r: Result<(i64, i64), ErrorCode>)
    ensures
        r == verified_cursor(
            key@,
            byte_len(key@),
            actor@,
            device@,
            byte_len(device@),
            token@,
        ),
{
    let chars = chars_of(token);
    let parts = split_on(chars.as_slice(), '.');
    proof {
        reveal_strlit("d1");
        reveal_strlit("d1.");
        reveal_strlit(".");
    }
    if parts.len() != 4 {
        return Err(ErrorCode::ResyncRequired);
    }
    let p0 = &parts[0];
    let p1 = &parts[1];
    let p2 = &parts[2];
    let p3 = &parts[3];
    let shape = p0.len() == 2 && p0[0] == 'd' && p0[1] == '1' && p1.len() == 16 && p2.len() == 16
        && p3.len() == 64;
    proof {
        assert(shape ==> p0@ =~= "d1"@);
        assert(p0@ == "d1"@ ==> p0@.len() == 2 && p0@[0] == 'd' && p0@[1] == '1');
    }
    if !shape || !all_hex_exec(p1.as_slice()) || !all_hex_exec(p2.as_slice()) || !all_hex_exec(
        p3.as_slice(),
    ) {
        return Err(ErrorCode::ResyncRequired);
    }
    if key.len() != 64 {
        return Err(ErrorCode::ResyncRequired);
    }
    let signature = decode_bytes(p3.as_slice());
    let mut payload: Vec<char> = vec!['d', '1', '.'];
    append(&mut payload, p1.as_slice());
    payload.push('.');
    append(&mut payload, p2.as_slice());
    assert(payload@ =~= "d1."@ + p1@ + "."@ + p2@);
    let m = message(actor, device, payload.as_slice());
    if !hmac_check(key, m.as_str(), signature.as_slice()) {
        return Err(ErrorCode::ResyncRequired);
    }
    let boundary = hex16_value(p1.as_slice());
    let expiry = hex16_value(p2.as_slice());
    if boundary > i64::MAX as u64 || expiry > i64::MAX as u64 {
        return Err(ErrorCode::ResyncRequired);
    }
    Ok((boundary as i64, expiry as i64))
}

/// Hexadecimal digits are never dots.
proof fn lemma_hex_digit(v: int)
    requires
        0 <= v < 16,
    ensures
        is_hex(hex_digit(v)),
        hex_digit(v) != '.',
        hex_value(hex_digit(v)) == v,
{
}

/// Fixed-width hexadecimal text: its length, digits, and value.
proof fn lemma_fixed_hex(n: nat, w: nat)
    ensures
        fixed_hex(n, w).len() == w,
        all_hex(fixed_hex(n, w)),
        forall|i: int| 0 <= i < w ==> #[trigger] fixed_hex(n, w)[i] != '.',
        hex_number(fixed_hex(n, w)) == n % pow16(w),
    decreases w,
{
    if w > 0 {
        lemma_fixed_hex(n / 16, (w - 1) as nat);
        lemma_hex_digit((n % 16) as int);
        let s = fixed_hex(n, w);
        assert(s.drop_last() =~= fixed_hex(n / 16, (w - 1) as nat));
        let p = pow16((w - 1) as nat);
        assert(p > 0) by {
            lemma_pow16_positive((w - 1) as nat);
        }
        let q = n / 16;
        let r0 = n % 16;
        let k = q / p;
        let m = q % p;
        vstd::arithmetic::div_mod::lemma_fundamental_div_mod(q as int, p as int);
        assert(0 <= m < p) by (nonlinear_arith)
            requires p > 0, m == q % p;
        assert(n == k * (16 * p) + (16 * m + r0)) by (nonlinear_arith)
            requires n == 16 * q + r0, q == p * k + m;
        vstd::arithmetic::div_mod::lemma_fundamental_div_mod_converse(n as int, (16 * p) as int, k as int, (16 * m + r0) as int);
    }
}

proof fn lemma_pow16_positive(w: nat)
    ensures
        pow16(w) > 0,
    decreases w,
{
    if w > 0 {
        lemma_pow16_positive((w - 1) as nat);
    }
}

/// Hexadecimal byte pairs: their length, digits, and the bytes they decode to.
proof fn lemma_hex_bytes(bytes: Seq<u8>)
    ensures
        hex_bytes(bytes).len() == 2 * bytes.len(),
        all_hex(hex_bytes(bytes)),
        forall|i: int| 0 <= i < hex_bytes(bytes).len() ==> #[trigger] hex_bytes(bytes)[i] != '.',
        byte_pairs(hex_bytes(bytes)) == bytes,
    decreases bytes.len(),
{
    if bytes.len() > 0 {
        let b = bytes.last();
        lemma_hex_bytes(bytes.drop_last());
        lemma_hex_digit(b as int / 16);
        lemma_hex_digit(b as int % 16);
        let s = hex_bytes(bytes);
        assert(s.take(s.len() - 2) =~= hex_bytes(bytes.drop_last()));
        assert(bytes.drop_last().push(b) =~= bytes);
    }
}

/// A cursor signed for a key, actor and device reads back, under the same
/// key, actor and device, as the boundary and expiry it was signed with.
/// (Every tag HMAC-SHA256 gives is 32 bytes long, as `hmac_tag` states.)
pub proof fn law_signed_cursor_verifies(
    key: Seq<char>,
    actor: Seq<char>,
    device: Seq<char>,
    device_bytes: nat,
    boundary: i64,
    expiry: i64,
)
    requires
        boundary >= 0,
        expiry >= 0,
        hmac_sha256(
            key,
            mac_message(actor, device, device_bytes, cursor_payload(boundary as nat, expiry as nat)),
        ).len() == 32,
    ensures
        signed_cursor(key, 64, actor, device, device_bytes, boundary as int, expiry as int) matches Ok(
            token,
        ) && verified_cursor(key, 64, actor, device, device_bytes, token) == Ok::<
            (i64, i64),
            ErrorCode,
        >((boundary, expiry)),
{
    reveal_strlit("d1.");
    reveal_strlit("d1");
    reveal_strlit(".");
    let b = boundary as nat;
    let e = expiry as nat;
    let payload = cursor_payload(b, e);
    let tag = hmac_sha256(key, mac_message(actor, device, device_bytes, payload));
    let h1 = fixed_hex(b, 16);
    let h2 = fixed_hex(e, 16);
    let sig = hex_bytes(tag);
    lemma_fixed_hex(b, 16);
    lemma_fixed_hex(e, 16);
    lemma_hex_bytes(tag);
    assert(pow16(16) == 0x1_0000_0000_0000_0000) by {
        reveal_with_fuel(pow16, 17);
    }
    let token = payload + "."@ + sig;
    let d1 = seq!['d', '1'];
    assert(pieces(d1, '.') == seq![d1]) by {
        lemma_pieces_append(Seq::<char>::empty(), '.', d1);
    }
    lemma_pieces_append(d1, '.', h1);
    assert(d1 + seq!['.'] + h1 + seq!['.'] + h2 =~= (d1 + seq!['.'] + h1) + seq!['.'] + h2);
    lemma_pieces_append(d1 + seq!['.'] + h1, '.', h2);
    assert(token =~= (d1 + seq!['.'] + h1 + seq!['.'] + h2) + seq!['.'] + sig);
    lemma_pieces_append(d1 + seq!['.'] + h1 + seq!['.'] + h2, '.', sig);
    let p = pieces(token, '.');
    assert(p =~= seq![d1, h1, h2, sig]);
    assert("d1."@ + p[1] + "."@ + p[2] =~= payload);
    assert(d1 =~= "d1"@);
    assert(signed_cursor(key, 64, actor, device, device_bytes, boundary as int, expiry as int) == Ok::<Seq<char>, ErrorCode>(token));
}


/// The UTF-8 encoding of joined texts is the joined encodings.
proof fn lemma_encode_concat(s: Seq<char>, t: Seq<char>)
    ensures
        vstd::utf8::encode_utf8(s + t) == vstd::utf8::encode_utf8(s) + vstd::utf8::encode_utf8(t),
    decreases s.len(),
{
    if s.len() == 0 {
        assert(s + t =~= t);
        assert(vstd::utf8::encode_utf8(s) =~= Seq::<u8>::empty());
        assert(Seq::<u8>::empty() + vstd::utf8::encode_utf8(t) =~= vstd::utf8::encode_utf8(t));
    } else {
        assert((s + t).drop_first() =~= s.drop_first() + t);
        assert((s + t)[0] == s[0]);
        lemma_encode_concat(s.drop_first(), t);
        let head = vstd::utf8::encode_scalar(s[0] as u32);
        assert(head + (vstd::utf8::encode_utf8(s.drop_first()) + vstd::utf8::encode_utf8(t)) =~= (
        head + vstd::utf8::encode_utf8(s.drop_first())) + vstd::utf8::encode_utf8(t));
    }
}

/// A text with characters has at least one byte.
proof fn lemma_encode_nonempty(s: Seq<char>)
    requires
        s.len() > 0,
    ensures
        vstd::utf8::encode_utf8(s).len() >= 1,
{
    assert(vstd::utf8::encode_scalar(s[0] as u32).len() >= 1);
}

/// The framing of the message a cursor signs is unambiguous: for actors
/// without line breaks, equal messages name the same actor, the same device
/// and the same payload, whatever punctuation the devices hold.
pub proof fn law_cursor_framing(
    a1: Seq<char>,
    d1: Seq<char>,
    p1: Seq<char>,
    a2: Seq<char>,
    d2: Seq<char>,
    p2: Seq<char>,
)
    requires
        !a1.contains('\n'),
        !a2.contains('\n'),
        vstd::utf8::encode_utf8(d1).len() <= usize::MAX,
        vstd::utf8::encode_utf8(d2).len() <= usize::MAX,
        mac_message(a1, d1, byte_len(d1), p1) == mac_message(a2, d2, byte_len(d2), p2),
    ensures
        a1 == a2,
        d1 == d2,
        p1 == p2,
{
    reveal_strlit("atlas-delta-v1\n");
    reveal_strlit("\n");
    reveal_strlit(":");
    let label = "atlas-delta-v1\n"@;
    let n1 = byte_len(d1);
    let n2 = byte_len(d2);
    let r1 = render_nat(n1);
    let r2 = render_nat(n2);
    crate::tasks::decimal::lemma_render_nat(n1);
    crate::tasks::decimal::lemma_render_nat(n2);
    let rest1 = r1 + ":"@ + d1 + "\n"@ + p1;
    let rest2 = r2 + ":"@ + d2 + "\n"@ + p2;
    let m1 = label + a1 + "\n"@ + rest1;
    let m2 = label + a2 + "\n"@ + rest2;
    assert(m1 =~= mac_message(a1, d1, n1, p1));
    assert(m2 =~= mac_message(a2, d2, n2, p2));
    // The actor ends at the first line break after the label.
    if a1.len() < a2.len() {
        let i: int = label.len() as int + a1.len();
        assert(m1[i] == '\n');
        assert(m2[i] == a2[a1.len() as int]);
        assert(a2.contains(a2[a1.len() as int]));
    }
    if a2.len() < a1.len() {
        let i: int = label.len() as int + a2.len();
        assert(m2[i] == '\n');
        assert(m1[i] == a1[a2.len() as int]);
        assert(a1.contains(a1[a2.len() as int]));
    }
    assert(a1.len() == a2.len());
    assert forall|i: int| 0 <= i < a1.len() implies a1[i] == a2[i] by {
        assert(m1[label.len() + i] == a1[i]);
        assert(m2[label.len() + i] == a2[i]);
    }
    assert(a1 =~= a2);
    let k: int = label.len() as int + a1.len() + 1;
    assert(m1.subrange(k as int, m1.len() as int) =~= rest1);
    assert(m2.subrange(k as int, m2.len() as int) =~= rest2);
    assert(rest1 == rest2);
    // The length prefix ends at the first colon.
    if r1.len() < r2.len() {
        assert(rest1[r1.len() as int] == ':');
        assert(rest2[r1.len() as int] == r2[r1.len() as int]);
        assert(is_digit(r2[r1.len() as int]));
    }
    if r2.len() < r1.len() {
        assert(rest2[r2.len() as int] == ':');
        assert(rest1[r2.len() as int] == r1[r2.len() as int]);
        assert(is_digit(r1[r2.len() as int]));
    }
    assert(r1.len() == r2.len());
    assert forall|i: int| 0 <= i < r1.len() implies r1[i] == r2[i] by {
        assert(rest1[i] == r1[i]);
        assert(rest2[i] == r2[i]);
    }
    assert(r1 =~= r2);
    assert(n1 == n2);
    let t1 = d1 + "\n"@ + p1;
    let t2 = d2 + "\n"@ + p2;
    assert(rest1.subrange(r1.len() as int + 1, rest1.len() as int) =~= t1);
    assert(rest2.subrange(r2.len() as int + 1, rest2.len() as int) =~= t2);
    assert(t1 == t2);
    // The device is the run of characters whose encoding is that long.
    if d1.len() < d2.len() {
        assert forall|i: int| 0 <= i < d1.len() implies d1[i] == d2[i] by {
            assert(t1[i] == d1[i]);
            assert(t2[i] == d2[i]);
        }
        assert(d2 =~= d1 + d2.skip(d1.len() as int));
        lemma_encode_concat(d1, d2.skip(d1.len() as int));
        lemma_encode_nonempty(d2.skip(d1.len() as int));
        assert(false);
    }
    if d2.len() < d1.len() {
        assert forall|i: int| 0 <= i < d2.len() implies d1[i] == d2[i] by {
            assert(t1[i] == d1[i]);
            assert(t2[i] == d2[i]);
        }
        assert(d1 =~= d2 + d1.skip(d2.len() as int));
        lemma_encode_concat(d2, d1.skip(d2.len() as int));
        lemma_encode_nonempty(d1.skip(d2.len() as int));
        assert(false);
    }
    assert forall|i: int| 0 <= i < d1.len() implies d1[i] == d2[i] by {
        assert(t1[i] == d1[i]);
        assert(t2[i] == d2[i]);
    }
    assert(d1 =~= d2);
    assert(t1.subrange(d1.len() as int + 1, t1.len() as int) =~= p1);
    assert(t2.subrange(d2.len() as int + 1, t2.len() as int) =~= p2);
}

} // verus!
