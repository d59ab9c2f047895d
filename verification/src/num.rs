//! Exact decimal numbers: sign, integer mantissa and a power-of-ten scale.
//! The evaluator parses, combines and prints numbers in this form; every
//! operation is specified exactly over the represented value.
use vstd::prelude::*;
use vstd::arithmetic::div_mod::{lemma_fundamental_div_mod, lemma_fundamental_div_mod_converse};
use crate::digits::{all_digits, dec_digits, digit_char, digits_val, is_digit, push_digits};
use crate::text::{contains_char, find_char, first_idx, lemma_first_idx, sub_chars};

verus! {

/// A decimal number: the value is `mant / 10^scale`, negated when `neg`.
#[derive(Clone, Copy)]
pub struct Dec {
    pub neg: bool,
    pub mant: u128,
    pub scale: u32,
}

/// The signed scaled numerator of a decimal.
pub open spec fn dnum(d: Dec) -> int {
    if d.neg {
        -(d.mant as int)
    } else {
        d.mant as int
    }
}

/// The value a decimal stands for, as a (numerator, scale) pair:
/// the number `v.0 / 10^v.1`.
pub open spec fn dval(d: Dec) -> (int, nat) {
    (dnum(d), d.scale as nat)
}

pub open spec fn pow10(k: nat) -> nat
    decreases k,
{
    if k == 0 {
        1
    } else {
        10 * pow10((k - 1) as nat)
    }
}

/// A freshly parsed number: at most fifteen significant digits, at most
/// fifteen of them fractional.
pub open spec fn wf_dec(d: Dec) -> bool {
    d.mant < pow10(15) && d.scale <= 15
}

pub proof fn lemma_pow10_pos(k: nat)
    ensures
        pow10(k) >= 1,
    decreases k,
{
    if k > 0 {
        lemma_pow10_pos((k - 1) as nat);
    }
}

pub proof fn lemma_pow10_add(a: nat, b: nat)
    ensures
        pow10(a + b) == pow10(a) * pow10(b),
    decreases a,
{
    if a == 0 {
        assert(pow10(b) == 1 * pow10(b));
    } else {
        lemma_pow10_add((a - 1) as nat, b);
        assert(pow10(a + b) == 10 * pow10((a - 1 + b) as nat));
        assert(10 * (pow10((a - 1) as nat) * pow10(b)) == (10 * pow10((a - 1) as nat)) * pow10(b))
            by (nonlinear_arith);
    }
}

pub proof fn lemma_pow10_le(a: nat, b: nat)
    requires
        a <= b,
    ensures
        pow10(a) <= pow10(b),
    decreases b,
{
    if a < b {
        lemma_pow10_le(a, (b - 1) as nat);
        lemma_pow10_pos((b - 1) as nat);
    }
}

/// Ground values of the powers of ten the bounds below lean on.
pub proof fn lemma_pow10_vals()
    ensures
        pow10(8) == 100000000,
        pow10(15) == 0x38d7ea4c68000,
        pow10(30) == pow10(15) * pow10(15),
        pow10(34) == pow10(30) * 10000,
        pow10(38) == pow10(30) * pow10(8),
        pow10(38) < u128::MAX,
{
    assert(pow10(8) == 100000000 && pow10(15) == 0x38d7ea4c68000) by {
        reveal_with_fuel(pow10, 16);
    }
    lemma_pow10_add(15, 15);
    lemma_pow10_add(30, 4);
    assert(pow10(4) == 10000) by {
        reveal_with_fuel(pow10, 5);
    }
    lemma_pow10_add(30, 8);
    assert(pow10(30) == 0x38d7ea4c68000 * 0x38d7ea4c68000);
}

/// `10^k` as a machine integer.
pub fn pow10_exec(k: u32) -> (r: u128)
    requires
        k <= 38,
    ensures
        r == pow10(k as nat),
{
    let mut r: u128 = 1;
    let mut i: u32 = 0;
    while i < k
        invariant
            0 <= i <= k <= 38,
            r == pow10(i as nat),
        decreases k - i,
    {
        proof {
            lemma_pow10_le(i as nat + 1, 38);
            lemma_pow10_vals();
        }
        r = r * 10;
        i = i + 1;
    }
    r
}

/// The value of concatenated digit strings.
pub proof fn lemma_digits_val_concat(a: Seq<char>, b: Seq<char>)
    ensures
        digits_val(a + b) == digits_val(a) * pow10(b.len()) + digits_val(b),
    decreases b.len(),
{
    if b.len() == 0 {
        assert(a + b =~= a);
        assert(digits_val(a) * 1 == digits_val(a));
    } else {
        lemma_digits_val_concat(a, b.drop_last());
        assert((a + b).drop_last() =~= a + b.drop_last());
        assert((a + b).last() == b.last());
        assert((digits_val(a) * pow10((b.len() - 1) as nat) + digits_val(b.drop_last())) * 10
            == digits_val(a) * (10 * pow10((b.len() - 1) as nat)) + digits_val(b.drop_last()) * 10)
            by (nonlinear_arith);
    }
}

/// The sum of two decimals, over (numerator, scale) values.
pub open spec fn add_spec(a: (int, nat), b: (int, nat)) -> (int, nat) {
    let s = if a.1 >= b.1 { a.1 } else { b.1 };
    (a.0 * pow10((s - a.1) as nat) + b.0 * pow10((s - b.1) as nat), s)
}

pub open spec fn mul_spec(a: (int, nat), b: (int, nat)) -> (int, nat) {
    (a.0 * b.0, a.1 + b.1)
}

pub open spec fn abs_int(n: int) -> nat {
    if n < 0 {
        (-n) as nat
    } else {
        n as nat
    }
}

/// The quotient of two decimals, truncated toward zero at eight
/// fractional digits.
pub open spec fn div_spec(a: (int, nat), b: (int, nat)) -> (int, nat)
    recommends
        b.0 != 0,
{
    let aa = abs_int(a.0) * pow10(b.1);
    let dd = abs_int(b.0) * pow10(a.1);
    let q = (aa * pow10(8)) / dd;
    (if (a.0 < 0) != (b.0 < 0) {
        -(q as int)
    } else {
        q as int
    }, 8)
}

/// Strict order on decimal values.
pub open spec fn lt_spec(a: (int, nat), b: (int, nat)) -> bool {
    a.0 * pow10(b.1) < b.0 * pow10(a.1)
}

/// Exact addition; the result keeps the finer of the two scales.
pub fn add_dec(a: &Dec, b: &Dec) -> (r: Dec)
    requires
        a.scale <= 38,
        b.scale <= 38,
        (a.mant as int) * pow10((max_nat(a.scale as nat, b.scale as nat) - a.scale) as nat)
            + (b.mant as int) * pow10((max_nat(a.scale as nat, b.scale as nat) - b.scale) as nat)
            <= u128::MAX,
    ensures
        dval(r) == add_spec(dval(*a), dval(*b)),
        r.scale == max_nat(a.scale as nat, b.scale as nat),
        r.mant == abs_int(add_spec(dval(*a), dval(*b)).0),
{
    let s: u32 = if a.scale >= b.scale { a.scale } else { b.scale };
    let fa = pow10_exec(s - a.scale);
    let fb = pow10_exec(s - b.scale);
    let am = a.mant * fa;
    let bm = b.mant * fb;
    proof {
        assert(dnum(*a) * pow10((s - a.scale) as nat) == (if a.neg { -(am as int) } else { am as int }))
            by (nonlinear_arith)
            requires
                am == a.mant * fa,
                fa == pow10((s - a.scale) as nat),
                dnum(*a) == (if a.neg { -(a.mant as int) } else { a.mant as int });
        assert(dnum(*b) * pow10((s - b.scale) as nat) == (if b.neg { -(bm as int) } else { bm as int }))
            by (nonlinear_arith)
            requires
                bm == b.mant * fb,
                fb == pow10((s - b.scale) as nat),
                dnum(*b) == (if b.neg { -(b.mant as int) } else { b.mant as int });
    }
    if a.neg == b.neg {
        Dec { neg: a.neg, mant: am + bm, scale: s }
    } else if am >= bm {
        Dec { neg: a.neg, mant: am - bm, scale: s }
    } else {
        Dec { neg: b.neg, mant: bm - am, scale: s }
    }
}

pub open spec fn max_nat(a: nat, b: nat) -> nat {
    if a >= b {
        a
    } else {
        b
    }
}

/// The same number with the opposite sign.
pub fn neg_dec(b: &Dec) -> (r: Dec)
    ensures
        dnum(r) == -dnum(*b),
        r.scale == b.scale,
        r.mant == b.mant,
{
    Dec { neg: !b.neg, mant: b.mant, scale: b.scale }
}

/// Exact multiplication.
pub fn mul_dec(a: &Dec, b: &Dec) -> (r: Dec)
    requires
        (a.mant as int) * (b.mant as int) <= u128::MAX,
        a.scale + b.scale <= u32::MAX,
    ensures
        dval(r) == mul_spec(dval(*a), dval(*b)),
        r.scale == a.scale + b.scale,
{
    let r = Dec { neg: a.neg != b.neg, mant: a.mant * b.mant, scale: a.scale + b.scale };
    proof {
        assert(dnum(r) == dnum(*a) * dnum(*b)) by (nonlinear_arith)
            requires
                r.mant == a.mant * b.mant,
                r.neg == (a.neg != b.neg),
                dnum(r) == if r.neg { -(r.mant as int) } else { r.mant as int },
                dnum(*a) == if a.neg { -(a.mant as int) } else { a.mant as int },
                dnum(*b) == if b.neg { -(b.mant as int) } else { b.mant as int };
    }
    r
}

/// Division truncated toward zero at eight fractional digits, by decimal
/// long division.
pub fn div_dec(a: &Dec, b: &Dec) -> (r: Dec)
    requires
        b.mant > 0,
        a.scale <= 15,
        b.scale <= 15,
        (a.mant as int) * pow10(b.scale as nat) <= pow10(34),
        (b.mant as int) * pow10(a.scale as nat) <= pow10(34),
        (a.mant as int) * pow10(b.scale as nat) <= ((b.mant as int) * pow10(a.scale as nat)) * pow10(30),
    ensures
        dval(r) == div_spec(dval(*a), dval(*b)),
        r.scale == 8,
{
    proof {
        lemma_pow10_vals();
        lemma_pow10_pos(a.scale as nat);
        lemma_pow10_pos(b.scale as nat);
    }
    let fa = pow10_exec(b.scale);
    let fb = pow10_exec(a.scale);
    let aa = a.mant * fa;
    let dd = b.mant * fb;
    proof {
        assert(dd >= 1) by (nonlinear_arith)
            requires dd == b.mant * fb, b.mant >= 1, fb >= 1;
    }
    let mut q: u128 = aa / dd;
    let mut rem: u128 = aa % dd;
    let mut k: u32 = 0;
    proof {
        lemma_fundamental_div_mod(aa as int, dd as int);
        assert(pow10(0) == 1);
        assert(q <= pow10(30)) by (nonlinear_arith)
            requires
                dd * q + rem == aa,
                aa <= dd * pow10(30),
                rem >= 0,
                dd >= 1;
    }
    while k < 8
        invariant
            0 <= k <= 8,
            dd >= 1,
            aa * pow10(k as nat) <= dd * pow10((30 + k) as nat),
            dd <= pow10(34),
            q == (aa * pow10(k as nat)) / (dd as int),
            rem == (aa * pow10(k as nat)) % (dd as int),
            q <= pow10((30 + k) as nat),
        decreases 8 - k,
    {
        proof {
            lemma_pow10_vals();
            lemma_pow10_le((30 + k) as nat, 37);
            lemma_pow10_le((30 + k + 1) as nat, 38);
            lemma_pow10_le(34, 37);
        }
        let d2 = (rem * 10) / dd;
        let r2 = (rem * 10) % dd;
        proof {
            let av = aa as int;
            let dv = dd as int;
            let p = pow10(k as nat) as int;
            lemma_fundamental_div_mod(av * p, dv);
            lemma_fundamental_div_mod(rem * 10, dv);
            assert(d2 <= 9) by (nonlinear_arith)
                requires
                    rem < dv,
                    dv >= 1,
                    d2 == (rem * 10) / dv,
                    rem * 10 == dv * d2 + r2,
                    0 <= r2 < dv;
            assert(av * p * 10 == dv * (q * 10 + d2) + r2) by (nonlinear_arith)
                requires
                    av * p == dv * q + rem,
                    rem * 10 == dv * d2 + r2;
            lemma_fundamental_div_mod_converse(av * p * 10, dv, q * 10 + d2, r2 as int);
            assert(av * pow10((k + 1) as nat) == av * p * 10) by (nonlinear_arith)
                requires pow10((k + 1) as nat) == 10 * p;
            assert(av * p * 10 <= dv * pow10((30 + k + 1) as nat)) by (nonlinear_arith)
                requires
                    av * p <= dv * pow10((30 + k) as nat),
                    pow10((30 + k + 1) as nat) == 10 * pow10((30 + k) as nat);
            assert(q * 10 + d2 <= pow10((30 + k + 1) as nat)) by (nonlinear_arith)
                requires
                    dv * (q * 10 + d2) + r2 == av * p * 10,
                    av * p * 10 <= dv * pow10((30 + k + 1) as nat),
                    r2 >= 0,
                    dv >= 1;
        }
        q = q * 10 + d2;
        rem = r2;
        k = k + 1;
    }
    let r = Dec { neg: a.neg != b.neg, mant: q, scale: 8 };
    proof {
        assert(abs_int(dnum(*a)) == a.mant && abs_int(dnum(*b)) == b.mant);
        assert((dnum(*a) < 0) == (a.neg && a.mant > 0));
        if a.mant == 0 {
            assert(aa == 0) by (nonlinear_arith)
                requires aa == a.mant * fa, a.mant == 0;
            assert(aa * pow10(8) == 0);
            lemma_fundamental_div_mod_converse(0, dd as int, 0, 0);
        }
        assert(dval(r) == div_spec(dval(*a), dval(*b))) by {
            let sa = div_spec(dval(*a), dval(*b));
            assert(sa.0 == if (dnum(*a) < 0) != (dnum(*b) < 0) {
                -(((aa * pow10(8)) / (dd as int)))
            } else {
                (aa * pow10(8)) / (dd as int)
            });
            if a.mant > 0 {
                assert((dnum(*a) < 0) == a.neg);
                assert((dnum(*b) < 0) == b.neg);
            } else {
                assert(q == 0);
                assert(dnum(r) == 0);
            }
        }
    }
    r
}

/// Strict comparison of decimal values.
pub fn lt_dec(a: &Dec, b: &Dec) -> (r: bool)
    requires
        wf_dec(*a),
        wf_dec(*b),
    ensures
        r == lt_spec(dval(*a), dval(*b)),
{
    proof {
        lemma_pow10_vals();
        lemma_pow10_le(a.scale as nat, 15);
        lemma_pow10_le(b.scale as nat, 15);
        lemma_pow10_pos(a.scale as nat);
        lemma_pow10_pos(b.scale as nat);
    }
    let fa = pow10_exec(b.scale);
    let fb = pow10_exec(a.scale);
    proof {
        assert(a.mant * fa < pow10(30)) by (nonlinear_arith)
            requires a.mant < pow10(15), fa <= pow10(15), pow10(30) == pow10(15) * pow10(15);
        assert(b.mant * fb < pow10(30)) by (nonlinear_arith)
            requires b.mant < pow10(15), fb <= pow10(15), pow10(30) == pow10(15) * pow10(15);
        lemma_pow10_le(30, 38);
    }
    let am = a.mant * fa;
    let bm = b.mant * fb;
    let aneg = a.neg && a.mant > 0;
    let bneg = b.neg && b.mant > 0;
    proof {
        assert(a.mant > 0 ==> am > 0) by (nonlinear_arith)
            requires am == a.mant * fa, fa >= 1;
        assert(b.mant > 0 ==> bm > 0) by (nonlinear_arith)
            requires bm == b.mant * fb, fb >= 1;
        assert(dnum(*a) * pow10(b.scale as nat) == if a.neg { -(am as int) } else { am as int })
            by (nonlinear_arith)
            requires
                am == a.mant * fa,
                fa == pow10(b.scale as nat),
                dnum(*a) == if a.neg { -(a.mant as int) } else { a.mant as int };
        assert(dnum(*b) * pow10(a.scale as nat) == if b.neg { -(bm as int) } else { bm as int })
            by (nonlinear_arith)
            requires
                bm == b.mant * fb,
                fb == pow10(a.scale as nat),
                dnum(*b) == if b.neg { -(b.mant as int) } else { b.mant as int };
    }
    if aneg {
        if bneg {
            bm < am
        } else {
            true
        }
    } else {
        if bneg {
            false
        } else {
            am < bm
        }
    }
}

/// The mantissa and fractional length of a digit body, split at the first
/// dot if one is present: the written form of a plain decimal literal.
pub open spec fn parse_body(s: Seq<char>) -> Option<(nat, nat)> {
    if contains_char(s, '.') {
        let i = first_idx(s, '.');
        let ip = s.subrange(0, i);
        let fp = s.subrange(i + 1, s.len() as int);
        if all_digits(ip) && all_digits(fp) && ip.len() + fp.len() >= 1 && ip.len() + fp.len()
            <= 15 {
            Some((digits_val(ip + fp), fp.len()))
        } else {
            None
        }
    } else {
        if all_digits(s) && 1 <= s.len() <= 15 {
            Some((digits_val(s), 0))
        } else {
            None
        }
    }
}

/// A numeric literal: an optional sign followed by a digit body of at most
/// fifteen digits, with at most one dot. The value is (numerator, scale).
/// Exponent forms (`1e5`) and longer digit runs are not numbers of this
/// model: the fifteen-digit cap is what keeps every sum, product and
/// aligned comparison exact within 128 bits.
pub open spec fn parse_dec(s: Seq<char>) -> Option<(int, nat)> {
    if s.len() == 0 {
        None
    } else if s[0] == '-' {
        match parse_body(s.subrange(1, s.len() as int)) {
            Some(p) => Some((-(p.0 as int), p.1)),
            None => None,
        }
    } else if s[0] == '+' {
        match parse_body(s.subrange(1, s.len() as int)) {
            Some(p) => Some((p.0 as int, p.1)),
            None => None,
        }
    } else {
        match parse_body(s) {
            Some(p) => Some((p.0 as int, p.1)),
            None => None,
        }
    }
}

pub fn is_digit_exec(c: char) -> (b: bool)
    ensures
        b == is_digit(c),
{
    let u = c as u32;
    48 <= u && u <= 57
}

/// Whether every character of `s[from..to]` is a digit.
fn all_digits_exec(s: &Vec<char>, from: usize, to: usize) -> (b: bool)
    requires
        from <= to <= s@.len(),
    ensures
        b == all_digits(s@.subrange(from as int, to as int)),
{
    let ghost sub = s@.subrange(from as int, to as int);
    let mut j: usize = from;
    while j < to
        invariant
            from <= j <= to <= s@.len(),
            sub == s@.subrange(from as int, to as int),
            forall|i: int| 0 <= i < j - from ==> is_digit(#[trigger] sub[i]),
        decreases to - j,
    {
        if !is_digit_exec(s[j]) {
            assert(sub[j - from] == s@[j as int]);
            return false;
        }
        assert(sub[j - from] == s@[j as int]);
        j = j + 1;
    }
    true
}

/// The value of the digit run `s[from..to]`.
fn digits_value(s: &Vec<char>, from: usize, to: usize) -> (m: u128)
    requires
        from <= to <= s@.len(),
        to - from <= 15,
        all_digits(s@.subrange(from as int, to as int)),
    ensures
        m == digits_val(s@.subrange(from as int, to as int)),
        m < pow10((to - from) as nat),
{
    let ghost sub = s@.subrange(from as int, to as int);
    let mut m: u128 = 0;
    let mut j: usize = from;
    proof {
        assert(s@.subrange(from as int, from as int) =~= Seq::<char>::empty());
    }
    while j < to
        invariant
            from <= j <= to <= s@.len(),
            to - from <= 15,
            all_digits(s@.subrange(from as int, to as int)),
            m == digits_val(s@.subrange(from as int, j as int)),
            m < pow10((j - from) as nat),
        decreases to - j,
    {
        proof {
            lemma_pow10_vals();
            lemma_pow10_le((j - from + 1) as nat, 15);
            let prev = s@.subrange(from as int, j as int);
            let next = s@.subrange(from as int, j + 1);
            assert(next.drop_last() =~= prev);
            assert(next.last() == s@[j as int]);
            assert(is_digit(s@[j as int])) by {
                assert(s@.subrange(from as int, to as int)[j - from] == s@[j as int]);
            }
        }
        let c = s[j];
        let d = (c as u32) - 48;
        m = m * 10 + d as u128;
        j = j + 1;
    }
    m
}

/// Reads a numeric literal; `None` exactly when the text is not one.
pub fn parse_dec_chars(s: &Vec<char>) -> (r: Option<Dec>)
    ensures
        match r {
            Some(d) => parse_dec(s@) == Some(dval(d)) && wf_dec(d),
            None => parse_dec(s@) is None,
        },
{
    proof {
        lemma_pow10_vals();
    }
    if s.len() == 0 {
        return None;
    }
    let c0 = s[0];
    let neg = c0 == '-';
    let signed = neg || c0 == '+';
    let i0: usize = if signed {
        1
    } else {
        0
    };
    let body = sub_chars(s, i0, s.len());
    let ghost bv = body@;
    proof {
        if i0 == 0 {
            assert(bv =~= s@);
        }
    }
    match find_char(&body, '.') {
        None => {
            if body.len() < 1 || body.len() > 15 {
                return None;
            }
            if !all_digits_exec(&body, 0, body.len()) {
                proof {
                    assert(bv.subrange(0, bv.len() as int) =~= bv);
                }
                return None;
            }
            proof {
                assert(bv.subrange(0, bv.len() as int) =~= bv);
            }
            let m = digits_value(&body, 0, body.len());
            proof {
                lemma_pow10_le(bv.len() as nat, 15);
            }
            Some(Dec { neg, mant: m, scale: 0 })
        },
        Some(p) => {
            proof {
                lemma_first_idx(bv, '.');
            }
            let ipn = p;
            let fpn = body.len() - p - 1;
            let ghost ip = bv.subrange(0, p as int);
            let ghost fp = bv.subrange(p + 1, bv.len() as int);
            if ipn + fpn < 1 || ipn + fpn > 15 {
                return None;
            }
            if !all_digits_exec(&body, 0, p) {
                return None;
            }
            if !all_digits_exec(&body, p + 1, body.len()) {
                return None;
            }
            let mi = digits_value(&body, 0, p);
            let mf = digits_value(&body, p + 1, body.len());
            let pf = pow10_exec(fpn as u32);
            proof {
                lemma_pow10_add(ipn as nat, fpn as nat);
                lemma_pow10_le((ipn + fpn) as nat, 15);
                assert(mi * pf + mf < pow10((ipn + fpn) as nat)) by (nonlinear_arith)
                    requires
                        mi < pow10(ipn as nat),
                        mf < pow10(fpn as nat),
                        pf == pow10(fpn as nat),
                        pow10((ipn + fpn) as nat) == pow10(ipn as nat) * pow10(fpn as nat);
                lemma_digits_val_concat(ip, fp);
            }
            let m = mi * pf + mf;
            Some(Dec { neg, mant: m, scale: fpn as u32 })
        },
    }
}

/// Dropping trailing fractional zeros.
pub open spec fn norm_spec(m: nat, s: nat) -> (nat, nat)
    decreases s,
{
    if s > 0 && m % 10 == 0 {
        norm_spec(m / 10, (s - 1) as nat)
    } else {
        (m, s)
    }
}

pub proof fn lemma_norm_zero(s: nat)
    ensures
        norm_spec(0, s).0 == 0,
    decreases s,
{
    if s > 0 {
        lemma_norm_zero((s - 1) as nat);
    }
}

/// Exactly `k` digits of `m`, low digits last, truncated above `10^k`.
pub open spec fn padded(m: nat, k: nat) -> Seq<char>
    decreases k,
{
    if k == 0 {
        Seq::empty()
    } else {
        padded(m / 10, (k - 1) as nat) + seq![digit_char(m % 10)]
    }
}

/// The canonical text of a decimal value: sign, integer digits, and the
/// fractional digits with trailing zeros removed; zero prints as `0`.
pub open spec fn fmt_spec(v: (int, nat)) -> Seq<char> {
    let n = norm_spec(abs_int(v.0), v.1);
    if n.0 == 0 {
        seq!['0']
    } else {
        let sign: Seq<char> = if v.0 < 0 {
            seq!['-']
        } else {
            Seq::empty()
        };
        sign + dec_digits(n.0 / pow10(n.1)) + (if n.1 == 0 {
            Seq::<char>::empty()
        } else {
            seq!['.'] + padded(n.0 % pow10(n.1), n.1)
        })
    }
}

/// Appends exactly `k` low decimal digits of `m`.
fn push_padded(m: u128, k: u32, out: &mut Vec<char>)
    ensures
        final(out)@ == old(out)@ + padded(m as nat, k as nat),
    decreases k,
{
    if k == 0 {
        assert(out@ =~= old(out)@ + padded(m as nat, 0));
    } else {
        push_padded(m / 10, k - 1, out);
        out.push((48 + (m % 10) as u8) as char);
        assert(out@ =~= old(out)@ + padded(m as nat, k as nat));
    }
}

/// Prints a decimal value in canonical form.
pub fn fmt_dec(d: &Dec) -> (r: Vec<char>)
    requires
        d.scale <= 38,
    ensures
        r@ == fmt_spec(dval(*d)),
{
    let mut m = d.mant;
    let mut sc = d.scale;
    while sc > 0 && m % 10 == 0
        invariant
            sc <= d.scale,
            norm_spec(d.mant as nat, d.scale as nat) == norm_spec(m as nat, sc as nat),
        decreases sc,
    {
        m = m / 10;
        sc = sc - 1;
    }
    proof {
        assert(norm_spec(m as nat, sc as nat) == (m as nat, sc as nat));
    }
    if m == 0 {
        let r = vec!['0'];
        assert(r@ =~= seq!['0']);
        return r;
    }
    let mut out: Vec<char> = Vec::new();
    if d.neg {
        out.push('-');
    }
    proof {
        if d.mant == 0 {
            lemma_norm_zero(d.scale as nat);
        }
        lemma_pow10_pos(sc as nat);
    }
    let p = pow10_exec(sc);
    push_digits(m / p, &mut out);
    if sc > 0 {
        out.push('.');
        push_padded(m % p, sc, &mut out);
    }
    proof {
        assert(out@ =~= fmt_spec(dval(*d)));
    }
    out
}

} // verus!
