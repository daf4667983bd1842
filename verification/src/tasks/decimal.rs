//! Exact decimal amounts with at most six fractional digits, counted in
//! millionths ("units"). Arithmetic is checked integer arithmetic.
use vstd::prelude::*;
use crate::error::ErrorCode;
use crate::text::{
    all_digits, chars_of, digit_char, digit_value, digits_value, is_digit, is_digit_exec,
    lemma_pow10_positive, pow10, string_from_chars,
};

verus! {

/// The largest amount, in units, that any quantity may reach.
pub const MAX_UNITS: i128 = 1_000_000_000_000_000_000;

/// A decimal amount in its wire form, such as `"12.5"`.
#[derive(Clone, Debug)]
pub struct Decimal(pub String);

/// A decimal split at its point: the whole digits and the fraction digits.
/// A text with no point is all whole digits.
pub open spec fn decimal_split(t: Seq<char>) -> Option<(Seq<char>, Seq<char>)> {
    if all_digits(t) {
        Some((t, Seq::<char>::empty()))
    } else if exists|i: int|
        0 <= i < t.len() && t[i] == '.' && all_digits(t.take(i)) && all_digits(t.skip(i + 1)) {
        let i = choose|i: int|
            0 <= i < t.len() && t[i] == '.' && all_digits(t.take(i)) && all_digits(
                t.skip(i + 1),
            );
        Some((t.take(i), t.skip(i + 1)))
    } else {
        None
    }
}

/// The units a decimal text denotes, or `None` when the text is not a
/// canonical amount: 1 to 13 whole digits without a leading zero (but `0`),
/// an optional point followed by 1 to 6 digits, and at most 10^18 units.
pub open spec fn decimal_units(t: Seq<char>) -> Option<int> {
    match decimal_split(t) {
        Some((w, f)) => {
            if 1 <= w.len() <= 13 && (w =~= seq!['0'] || w[0] != '0') && f.len() <= 6 && (
            !all_digits(t) ==> f.len() >= 1) {
                let v = digits_value(w) * 1_000_000 + digits_value(f) * pow10(
                    (6 - f.len()) as nat,
                );
                if v <= MAX_UNITS {
                    Some(v)
                } else {
                    None
                }
            } else {
                None
            }
        },
        None => None,
    }
}

/// Decimal rendering of a natural number, most significant digit first.
pub open spec fn render_nat(n: nat) -> Seq<char>
    decreases n,
{
    if n < 10 {
        seq![digit_char(n as int)]
    } else {
        render_nat(n / 10).push(digit_char((n % 10) as int))
    }
}

/// The last `k` decimal digits of `f`, zero padded.
pub open spec fn fixed_digits(f: nat, k: nat) -> Seq<char>
    decreases k,
{
    if k == 0 {
        Seq::<char>::empty()
    } else {
        fixed_digits(f / 10, (k - 1) as nat).push(digit_char((f % 10) as int))
    }
}

/// `s` without its trailing zeros.
pub open spec fn trim_zeros(s: Seq<char>) -> Seq<char>
    decreases s.len(),
{
    if s.len() > 0 && s.last() == '0' {
        trim_zeros(s.drop_last())
    } else {
        s
    }
}

/// The canonical text of an amount of units: whole digits, then a point and
/// the significant fraction digits when the fraction is not zero.
pub open spec fn render_units(v: nat) -> Seq<char> {
    let w = render_nat(v / 1_000_000);
    let f = trim_zeros(fixed_digits(v % 1_000_000, 6));
    if f.len() == 0 {
        w
    } else {
        w + seq!['.'] + f
    }
}

impl Decimal {
    /// The units this amount denotes; `InvalidValue` unless the text is a
    /// canonical amount (see `decimal_units`).
    pub fn units(&self) -> (r: Result<i128, ErrorCode>)
        ensures
            match (decimal_units(self.0@), r) {
                (Some(v), Ok(x)) => x == v,
                (None, Err(e)) => e == ErrorCode::InvalidValue,
                _ => false,
            },
    {
        let t = chars_of(self.0.as_str());
        let ghost ts = t@;
        assert(ts == self.0@);
        if t.len() == 0 || t.len() > 21 {
            proof { lemma_units_length(ts); }
            return Err(ErrorCode::InvalidValue);
        }
        // Locate the first point.
        let mut dot: usize = 0;
        while dot < t.len() && t[dot] != '.'
            invariant
                t@ == ts,
                ts == self.0@,
                dot <= t.len(),
                forall|j: int| 0 <= j < dot ==> ts[j] != '.',
            decreases t.len() - dot,
        {
            dot = dot + 1;
        }
        let found = dot < t.len();
        let frac_start = if found { dot + 1 } else { t.len() };
        // Whole digits and their value.
        let mut whole: i128 = 0;
        let mut i: usize = 0;
        while i < dot
            invariant
                t@ == ts,
                ts == self.0@,
                dot <= t.len() <= 21,
                i <= dot,
                forall|j: int| 0 <= j < dot ==> ts[j] != '.',
                all_digits(ts.take(i as int)),
                whole == digits_value(ts.take(i as int)),
                0 <= whole < pow10(i as nat),
            decreases dot - i,
        {
            if !is_digit_exec(t[i]) {
                proof { lemma_units_bad_whole(ts, dot as int, i as int); }
                return Err(ErrorCode::InvalidValue);
            }
            proof {
                assert(ts.take(i + 1).drop_last() =~= ts.take(i as int));
                assert(all_digits(ts.take(i + 1))) by {
                    assert forall|j: int| 0 <= j < i + 1 implies is_digit(
                        #[trigger] ts.take(i + 1)[j],
                    ) by {
                        if j < i {
                            assert(ts.take(i + 1)[j] == ts.take(i as int)[j]);
                        }
                    }
                }
                lemma_pow10_positive(i as nat);
                assert(pow10((i + 1) as nat) == 10 * pow10(i as nat));
                assert(pow10(i as nat) <= pow10(21)) by { lemma_pow10_monotone(i as nat, 21); }
                reveal_pow10_21();
            }
            whole = whole * 10 + (t[i] as u32 - '0' as u32) as i128;
            i = i + 1;
        }
        // Fraction digits and their value.
        let mut frac: i128 = 0;
        let mut k: usize = frac_start;
        while k < t.len()
            invariant
                t@ == ts,
                ts == self.0@,
                frac_start <= k <= t.len() <= 21,
                dot <= t.len(),
                found == (dot < t.len()),
                found ==> ts[dot as int] == '.',
                frac_start == if found { dot + 1 } else { t.len() as int },
                forall|j: int| 0 <= j < dot ==> ts[j] != '.',
                all_digits(ts.subrange(frac_start as int, k as int)),
                frac == digits_value(ts.subrange(frac_start as int, k as int)),
                0 <= frac < pow10((k - frac_start) as nat),
            decreases t.len() - k,
        {
            if !is_digit_exec(t[k]) {
                proof { lemma_units_bad_fraction(ts, dot as int, k as int, found); }
                return Err(ErrorCode::InvalidValue);
            }
            proof {
                let a = ts.subrange(frac_start as int, k as int);
                let b = ts.subrange(frac_start as int, k + 1);
                assert(b.drop_last() =~= a);
                assert(all_digits(b)) by {
                    assert forall|j: int| 0 <= j < b.len() implies is_digit(#[trigger] b[j]) by {
                        if j < a.len() {
                            assert(b[j] == a[j]);
                        }
                    }
                }
                assert(pow10((k + 1 - frac_start) as nat) == 10 * pow10((k - frac_start) as nat));
                assert(pow10((k - frac_start) as nat) <= pow10(21)) by {
                    lemma_pow10_monotone((k - frac_start) as nat, 21);
                }
                reveal_pow10_21();
            }
            frac = frac * 10 + (t[k] as u32 - '0' as u32) as i128;
            k = k + 1;
        }
        let wlen = dot;
        let flen = t.len() - frac_start;
        proof {
            lemma_units_split(ts, dot as int, found);
            assert(ts.subrange(frac_start as int, ts.len() as int) =~= if found {
                ts.skip(dot + 1)
            } else {
                Seq::<char>::empty()
            });
        }
        if wlen == 0 || wlen > 13 {
            return Err(ErrorCode::InvalidValue);
        }
        if wlen > 1 && t[0] == '0' {
            proof {
                assert(!(ts.take(dot as int) =~= seq!['0']));
            }
            return Err(ErrorCode::InvalidValue);
        }
        if flen > 6 || (found && flen == 0) {
            return Err(ErrorCode::InvalidValue);
        }
        let scale: i128 = pow10_exec((6 - flen) as u32);
        proof {
            if wlen == 1 && ts[0] == '0' {
                assert(ts.take(dot as int) =~= seq!['0']);
            }
            lemma_pow10_values();
            lemma_pow10_monotone(wlen as nat, 13);
            lemma_pow10_monotone((k - frac_start) as nat, 6);
            lemma_pow10_monotone((6 - flen) as nat, 6);
            lemma_pow10_positive((6 - flen) as nat);
            assert(frac * scale <= 1_000_000 * 1_000_000) by (nonlinear_arith)
                requires 0 <= frac < 1_000_000, 0 < scale <= 1_000_000;
        }
        let value = whole * 1_000_000 + frac * scale;
        if value > MAX_UNITS {
            return Err(ErrorCode::InvalidValue);
        }
        Ok(value)
    }

    /// The canonical text of a non-negative amount of units.
    pub fn from_units(value: i128) -> (d: Decimal)
        requires
            0 <= value <= MAX_UNITS,
        ensures
            d.0@ == render_units(value as nat),
    {
        let whole = render_nat_exec((value / 1_000_000) as u64);
        let f = (value % 1_000_000) as u64;
        let mut digits = fixed_digits_exec(f, 6);
        while digits.len() > 0 && digits[digits.len() - 1] == '0'
            invariant
                trim_zeros(digits@) == trim_zeros(fixed_digits(f as nat, 6)),
            decreases digits.len(),
        {
            let ghost before = digits@;
            digits.pop();
            assert(digits@ =~= before.drop_last());
        }
        let mut out = whole;
        if digits.len() > 0 {
            out.push('.');
            let mut j: usize = 0;
            let ghost base = out@;
            while j < digits.len()
                invariant
                    j <= digits.len(),
                    out@ == base + digits@.take(j as int),
                decreases digits.len() - j,
            {
                out.push(digits[j]);
                j = j + 1;
                assert(out@ =~= base + digits@.take(j as int));
            }
            assert(digits@.take(digits.len() as int) =~= digits@);
        }
        Decimal(string_from_chars(out.as_slice()))
    }
}

/// Ten to the power `n`, for `n` up to 21.
pub fn pow10_exec(n: u32) -> (p: i128)
    requires
        n <= 21,
    ensures
        p == pow10(n as nat),
{
    let mut p: i128 = 1;
    let mut i: u32 = 0;
    while i < n
        invariant
            i <= n <= 21,
            p == pow10(i as nat),
        decreases n - i,
    {
        proof {
            lemma_pow10_monotone((i + 1) as nat, 21);
            reveal_pow10_21();
            assert(pow10((i + 1) as nat) == 10 * pow10(i as nat));
            assert(p * 10 <= 1_000_000_000_000_000_000_000);
            lemma_pow10_positive(i as nat);
        }
        p = p * 10;
        i = i + 1;
    }
    p
}

/// The digit character for a value below ten.
pub fn char_of_digit(d: u32) -> (c: char)
    requires
        d < 10,
    ensures
        c == digit_char(d as int),
{
    let c = if d == 0 { '0' } else if d == 1 { '1' } else if d == 2 { '2' } else if d == 3 { '3' }
    else if d == 4 { '4' } else if d == 5 { '5' } else if d == 6 { '6' } else if d == 7 { '7' }
    else if d == 8 { '8' } else { '9' };
    assert(c == digit_char(d as int));
    c
}

/// The last `k` decimal digits of `f`, zero padded.
pub fn fixed_digits_exec(f: u64, k: u32) -> (v: Vec<char>)
    ensures
        v@ == fixed_digits(f as nat, k as nat),
    decreases k,
{
    if k == 0 {
        Vec::new()
    } else {
        let mut v = fixed_digits_exec(f / 10, k - 1);
        v.push(char_of_digit((f % 10) as u32));
        v
    }
}

/// Decimal digits of `n`, most significant first.
pub fn render_nat_exec(n: u64) -> (v: Vec<char>)
    ensures
        v@ == render_nat(n as nat),
    decreases n,
{
    if n < 10 {
        let mut v = Vec::new();
        v.push(char_of_digit(n as u32));
        v
    } else {
        let mut v = render_nat_exec(n / 10);
        v.push(char_of_digit((n % 10) as u32));
        v
    }
}

pub proof fn reveal_pow10_21()
    ensures
        pow10(21) == 1_000_000_000_000_000_000_000,
{
    lemma_pow10_values();
}

/// The powers of ten that amounts use.
pub proof fn lemma_pow10_values()
    ensures
        pow10(0) == 1,
        pow10(1) == 10,
        pow10(2) == 100,
        pow10(3) == 1000,
        pow10(4) == 10_000,
        pow10(5) == 100_000,
        pow10(6) == 1_000_000,
        pow10(12) == 1_000_000_000_000,
        pow10(13) == 10_000_000_000_000,
        pow10(18) == 1_000_000_000_000_000_000,
        pow10(21) == 1_000_000_000_000_000_000_000,
{
    reveal_with_fuel(pow10, 22);
}

pub proof fn lemma_pow10_monotone(a: nat, b: nat)
    requires
        a <= b,
    ensures
        pow10(a) <= pow10(b),
    decreases b,
{
    if a < b {
        lemma_pow10_monotone(a, (b - 1) as nat);
        lemma_pow10_positive((b - 1) as nat);
    }
}

proof fn lemma_units_length(t: Seq<char>)
    requires
        t.len() == 0 || t.len() > 21,
    ensures
        decimal_units(t) is None,
{
    match decimal_split(t) {
        Some((w, f)) => {
            if all_digits(t) {
            } else {
                let i = choose|i: int|
                    0 <= i < t.len() && t[i] == '.' && all_digits(t.take(i)) && all_digits(
                        t.skip(i + 1),
                    );
                assert(t.len() == w.len() + 1 + f.len());
            }
        },
        None => {},
    }
}

/// The point found first splits the text exactly as `decimal_split` does.
proof fn lemma_units_split(t: Seq<char>, dot: int, found: bool)
    requires
        0 <= dot <= t.len(),
        found == (dot < t.len()),
        found ==> t[dot] == '.',
        forall|j: int| 0 <= j < dot ==> t[j] != '.',
        all_digits(t.take(dot)),
        all_digits(if found { t.skip(dot + 1) } else { Seq::<char>::empty() }),
    ensures
        decimal_split(t) == Some(
            (t.take(dot), if found { t.skip(dot + 1) } else { Seq::<char>::empty() }),
        ),
        all_digits(t) == !found,
{
    if found {
        assert(!is_digit(t[dot]));
        assert(!all_digits(t));
        let i = choose|i: int|
            0 <= i < t.len() && t[i] == '.' && all_digits(t.take(i)) && all_digits(t.skip(i + 1));
        if i < dot {
            assert(t[i] != '.');
        }
        if i > dot {
            assert(t.take(i)[dot] == '.');
        }
        assert(i == dot);
    } else {
        assert(t.take(dot) =~= t);
    }
}

/// A non-digit before the first point rules the text out.
proof fn lemma_units_bad_whole(t: Seq<char>, dot: int, i: int)
    requires
        0 <= i < dot <= t.len(),
        !is_digit(t[i]),
        forall|j: int| 0 <= j < dot ==> t[j] != '.',
    ensures
        decimal_units(t) is None,
{
    assert(!all_digits(t));
    if exists|k: int|
        0 <= k < t.len() && t[k] == '.' && all_digits(t.take(k)) && all_digits(t.skip(k + 1)) {
        let k = choose|k: int|
            0 <= k < t.len() && t[k] == '.' && all_digits(t.take(k)) && all_digits(t.skip(k + 1));
        assert(k >= dot);
        assert(t.take(k)[i] == t[i]);
    }
}

/// A non-digit after the first point rules the text out.
proof fn lemma_units_bad_fraction(t: Seq<char>, dot: int, k: int, found: bool)
    requires
        found,
        0 <= dot < k < t.len(),
        t[dot] == '.',
        !is_digit(t[k]),
        forall|j: int| 0 <= j < dot ==> t[j] != '.',
    ensures
        decimal_units(t) is None,
{
    assert(!all_digits(t)) by {
        assert(!is_digit(t[dot]));
    }
    if exists|m: int|
        0 <= m < t.len() && t[m] == '.' && all_digits(t.take(m)) && all_digits(t.skip(m + 1)) {
        let m = choose|m: int|
            0 <= m < t.len() && t[m] == '.' && all_digits(t.take(m)) && all_digits(t.skip(m + 1));
        if m < dot {
            assert(t[m] != '.');
        } else if m > dot {
            assert(t.take(m)[dot] == '.');
        } else {
            assert(t.skip(m + 1)[k - m - 1] == t[k]);
        }
    }
}

/// Zero-padded digits denote the number modulo the matching power of ten.
pub proof fn lemma_fixed_digits(f: nat, k: nat)
    ensures
        all_digits(fixed_digits(f, k)),
        fixed_digits(f, k).len() == k,
        digits_value(fixed_digits(f, k)) == f % (pow10(k) as nat),
    decreases k,
{
    lemma_pow10_positive(k);
    if k > 0 {
        let k1 = (k - 1) as nat;
        lemma_fixed_digits(f / 10, k1);
        let s = fixed_digits(f, k);
        let t = fixed_digits(f / 10, k1);
        assert(s.drop_last() =~= t);
        assert(all_digits(s)) by {
            assert forall|i: int| 0 <= i < s.len() implies is_digit(#[trigger] s[i]) by {
                if i < t.len() {
                    assert(s[i] == t[i]);
                }
            }
        }
        lemma_pow10_positive(k1);
        vstd::arithmetic::div_mod::lemma_mod_breakdown(f as int, 10, pow10(k1));
        assert(pow10(k) == 10 * pow10(k1));
    }
}

/// A digit character reads back as its value.
pub proof fn lemma_digit_char(d: int)
    requires
        0 <= d < 10,
    ensures
        is_digit(digit_char(d)),
        digit_value(digit_char(d)) == d,
        (digit_char(d) == '0') == (d == 0),
{
}

/// The rendering of a natural number is its canonical digit run.
pub proof fn lemma_render_nat(n: nat)
    ensures
        all_digits(render_nat(n)),
        render_nat(n).len() >= 1,
        digits_value(render_nat(n)) == n,
        n == 0 ==> render_nat(n) =~= seq!['0'],
        n >= 1 ==> render_nat(n)[0] != '0',
        forall|k: nat| n < #[trigger] pow10(k) && k >= 1 ==> render_nat(n).len() <= k,
    decreases n,
{
    vstd::arithmetic::div_mod::lemma_fundamental_div_mod(n as int, 10);
    lemma_digit_char((n % 10) as int);
    if n < 10 {
        lemma_digit_char(n as int);
        assert(render_nat(n).drop_last() =~= Seq::<char>::empty());
        assert(digits_value(render_nat(n)) == digits_value(Seq::<char>::empty()) * 10 + digit_value(render_nat(n).last()));
    }
    if n >= 10 {
        lemma_render_nat(n / 10);
        let s = render_nat(n);
        let t = render_nat(n / 10);
        assert(s.drop_last() =~= t);
        assert(s[0] == t[0]);
        assert(all_digits(s)) by {
            assert forall|i: int| 0 <= i < s.len() implies is_digit(#[trigger] s[i]) by {
                if i < t.len() {
                    assert(s[i] == t[i]);
                }
            }
        }
        assert forall|k: nat| n < #[trigger] pow10(k) && k >= 1 implies s.len() <= k by {
            if k == 1 {
                assert(pow10(1) == 10) by { lemma_pow10_values(); }
            } else {
                let k1 = (k - 1) as nat;
                assert(pow10(k) == 10 * pow10(k1));
                assert(n / 10 < pow10(k1));
                assert(t.len() <= k1);
            }
        }
    } else {
        assert forall|k: nat| n < #[trigger] pow10(k) && k >= 1 implies render_nat(n).len() <= k by {
        }
    }
}

/// Trimming trailing zeros keeps a prefix whose value, scaled back up, is
/// the value of the whole run.
pub proof fn lemma_trim_zeros(s: Seq<char>)
    requires
        all_digits(s),
    ensures
        trim_zeros(s).len() <= s.len(),
        trim_zeros(s) =~= s.take(trim_zeros(s).len() as int),
        all_digits(trim_zeros(s)),
        digits_value(s) == digits_value(trim_zeros(s)) * pow10(
            (s.len() - trim_zeros(s).len()) as nat,
        ),
    decreases s.len(),
{
    if s.len() > 0 && s.last() == '0' {
        let t = s.drop_last();
        assert(all_digits(t)) by {
            assert forall|i: int| 0 <= i < t.len() implies is_digit(#[trigger] t[i]) by {
                assert(t[i] == s[i]);
            }
        }
        lemma_trim_zeros(t);
        let r = trim_zeros(t);
        assert(trim_zeros(s) == r);
        assert(r =~= s.take(r.len() as int)) by {
            assert forall|i: int| 0 <= i < r.len() implies r[i] == s.take(r.len() as int)[i] by {
                assert(r[i] == t.take(r.len() as int)[i]);
            }
        }
        let e = (t.len() - r.len()) as nat;
        assert((s.len() - r.len()) as nat == e + 1);
        assert(pow10(e + 1) == 10 * pow10(e));
        assert(digits_value(s) == digits_value(t) * 10);
        assert(digits_value(r) * pow10(e) * 10 == digits_value(r) * (10 * pow10(e))) by (nonlinear_arith);
    } else {
        assert(s.take(s.len() as int) =~= s);
        assert(pow10(0) == 1);
    }
}

/// Rendering an amount and reading it back gives the same amount: the
/// canonical text of every representable amount is accepted and exact.
pub proof fn law_units_round_trip(v: nat)
    requires
        v <= MAX_UNITS,
    ensures
        decimal_units(render_units(v)) == Some(v as int),
{
    let n = v / 1_000_000;
    let f = v % 1_000_000;
    let w = render_nat(n);
    let six = fixed_digits(f, 6);
    let fr = trim_zeros(six);
    lemma_pow10_values();
    lemma_render_nat(n);
    lemma_fixed_digits(f, 6);
    lemma_trim_zeros(six);
    vstd::arithmetic::div_mod::lemma_fundamental_div_mod(v as int, 1_000_000);
    assert(n * 1_000_000 <= v);
    assert(n <= 1_000_000_000_000) by (nonlinear_arith)
        requires n * 1_000_000 <= v, v <= 1_000_000_000_000_000_000nat;
    assert(n < pow10(13));
    assert(w.len() <= 13);
    let e = (6 - fr.len()) as nat;
    vstd::arithmetic::div_mod::lemma_small_mod(f, 1_000_000);
    assert(digits_value(six) == f);
    assert(digits_value(fr) * pow10(e) == f);
    if fr.len() == 0 {
        assert(render_units(v) == w);
        assert(decimal_split(w) == Some((w, Seq::<char>::empty())));
        assert(digits_value(Seq::<char>::empty()) == 0);
        assert(f == 0);
        assert(v == n * 1_000_000 + f);
    } else {
        let t = render_units(v);
        assert(t =~= w + seq!['.'] + fr);
        let i = w.len() as int;
        assert(t.take(i) =~= w);
        assert(t.skip(i + 1) =~= fr);
        assert(t[i] == '.');
        assert(!all_digits(t)) by {
            assert(!is_digit(t[i]));
        }
        let j = choose|j: int|
            0 <= j < t.len() && t[j] == '.' && all_digits(t.take(j)) && all_digits(t.skip(j + 1));
        if j < i {
            assert(t[j] == w[j]);
            assert(is_digit(w[j]));
        }
        if j > i {
            assert(t.take(j)[i] == '.');
        }
        assert(j == i);
        assert(decimal_split(t) == Some((w, fr)));
        assert(v == n * 1_000_000 + f);
    }
}

/// Valid amounts are never negative.
pub proof fn lemma_units_nonneg(t: Seq<char>)
    ensures
        decimal_units(t) matches Some(v) ==> v >= 0,
{
    if let Some((w, f)) = decimal_split(t) {
        if all_digits(t) {
            crate::text::lemma_digits_value_bound(w);
        } else {
            let i = choose|i: int|
                0 <= i < t.len() && t[i] == '.' && all_digits(t.take(i)) && all_digits(t.skip(i + 1));
            crate::text::lemma_digits_value_bound(w);
            crate::text::lemma_digits_value_bound(f);
        }
        lemma_pow10_positive((6 - f.len()) as nat);
        if decimal_units(t) is Some {
            assert(digits_value(f) * pow10((6 - f.len()) as nat) >= 0) by (nonlinear_arith)
                requires digits_value(f) >= 0, pow10((6 - f.len()) as nat) >= 1;
        }
    }
}

} // verus!
