//! The formula evaluator: first-match dispatch over function calls, a
//! single binary arithmetic step, numeric literals and quoted text.
//! `eval_spec` is the full specification; the executable functions are
//! proved to return exactly what it says.
use vstd::prelude::*;
use crate::digits::dec_digits;
use crate::num::{
    abs_int, add_dec, add_spec, dval, div_dec, div_spec, Dec, dnum, fmt_dec, fmt_spec,
    lemma_pow10_add, lemma_pow10_le, lemma_pow10_pos, lemma_pow10_vals, lt_dec, lt_spec,
    max_nat, mul_dec, mul_spec, neg_dec, parse_dec, parse_dec_chars, pow10, wf_dec,
};
use crate::text::{
    contains_char, find_char, lemma_split_count, lemma_trim_len, push_all, push_str_chars,
    split_char, split_chars, starts_with, starts_with_lit, str_to_chars, sub_chars, trim_chars,
    trim_spec, views,
};

verus! {

/// A function call whose text does not end in a closing parenthesis.
pub open spec fn missing_paren(f: Seq<char>) -> bool {
    f.len() == 0 || f.last() != ')'
}

/// The raw argument texts of `NAME(...)`: the inner text split on every
/// comma, at any depth.
pub open spec fn args_list(f: Seq<char>, plen: int) -> Seq<Seq<char>> {
    split_char(f.subrange(plen, f.len() - 1), ',')
}

/// The running sum of the arguments that parse as numbers; unparseable
/// arguments are skipped.
pub open spec fn sum_args(args: Seq<Seq<char>>) -> (int, nat)
    decreases args.len(),
{
    if args.len() == 0 {
        (0, 0)
    } else {
        let prev = sum_args(args.drop_last());
        match parse_dec(trim_spec(args.last())) {
            Some(v) => add_spec(prev, v),
            None => prev,
        }
    }
}

/// How many arguments parse as numbers.
pub open spec fn count_parsed(args: Seq<Seq<char>>) -> nat
    decreases args.len(),
{
    if args.len() == 0 {
        0
    } else {
        count_parsed(args.drop_last()) + (if parse_dec(trim_spec(args.last())) is Some {
            1nat
        } else {
            0nat
        })
    }
}

/// The largest parsed argument, earliest on ties; `None` when none parses.
pub open spec fn max_fold(args: Seq<Seq<char>>) -> Option<(int, nat)>
    decreases args.len(),
{
    if args.len() == 0 {
        None
    } else {
        let prev = max_fold(args.drop_last());
        match parse_dec(trim_spec(args.last())) {
            Some(v) => match prev {
                None => Some(v),
                Some(b) => if lt_spec(b, v) {
                    Some(v)
                } else {
                    Some(b)
                },
            },
            None => prev,
        }
    }
}

/// The smallest parsed argument, earliest on ties; `None` when none parses.
pub open spec fn min_fold(args: Seq<Seq<char>>) -> Option<(int, nat)>
    decreases args.len(),
{
    if args.len() == 0 {
        None
    } else {
        let prev = min_fold(args.drop_last());
        match parse_dec(trim_spec(args.last())) {
            Some(v) => match prev {
                None => Some(v),
                Some(b) => if lt_spec(v, b) {
                    Some(v)
                } else {
                    Some(b)
                },
            },
            None => prev,
        }
    }
}

/// Surrounding quotes are dropped when both are present.
pub open spec fn strip_quotes(s: Seq<char>) -> Seq<char> {
    if s.len() >= 2 && s[0] == '"' && s.last() == '"' {
        s.subrange(1, s.len() - 1)
    } else {
        s
    }
}

/// The minimal IF condition: one `>` or `<` comparison of two numbers, or
/// a bare number tested against zero; anything else is false.
pub open spec fn cond_value(c: Seq<char>) -> bool {
    if contains_char(c, '>') {
        let parts = split_char(c, '>');
        parts.len() == 2 && match (parse_dec(trim_spec(parts[0])), parse_dec(trim_spec(parts[1]))) {
            (Some(l), Some(r)) => lt_spec(r, l),
            _ => false,
        }
    } else if contains_char(c, '<') {
        let parts = split_char(c, '<');
        parts.len() == 2 && match (parse_dec(trim_spec(parts[0])), parse_dec(trim_spec(parts[1]))) {
            (Some(l), Some(r)) => lt_spec(l, r),
            _ => false,
        }
    } else {
        match parse_dec(c) {
            Some(v) => v.0 != 0,
            None => false,
        }
    }
}

/// IF: pick a branch by the condition; the branch text is returned as
/// literal text, never evaluated further.
pub open spec fn if_spec(args: Seq<Seq<char>>) -> Result<Seq<char>, Seq<char>> {
    if args.len() < 2 {
        Err("#VALUE!"@)
    } else {
        let cond = trim_spec(args[0]);
        let tv = trim_spec(args[1]);
        let fv = if args.len() >= 3 {
            trim_spec(args[2])
        } else {
            "FALSE"@
        };
        Ok(strip_quotes(if cond_value(cond) {
            tv
        } else {
            fv
        }))
    }
}

/// An arithmetic split on `c` applies: the operator occurs exactly once,
/// with text on both sides.
pub open spec fn arith_op(f: Seq<char>, c: char) -> bool {
    contains_char(f, c) && split_char(f, c).len() == 2 && split_char(f, c)[0].len() > 0
        && split_char(f, c)[1].len() > 0
}

/// The operator the arithmetic step uses, if any: `+`, then `-` (unless
/// the text begins with `-`), then `*`, then `/`.
pub open spec fn arith_pick(f: Seq<char>) -> Option<char> {
    if arith_op(f, '+') {
        Some('+')
    } else if !(f.len() > 0 && f[0] == '-') && arith_op(f, '-') {
        Some('-')
    } else if arith_op(f, '*') {
        Some('*')
    } else if arith_op(f, '/') {
        Some('/')
    } else {
        None
    }
}

/// One binary operation over the two parsed operands.
pub open spec fn op_apply(c: char, l: Option<(int, nat)>, r: Option<(int, nat)>) -> Result<
    (int, nat),
    Seq<char>,
> {
    if l is None || r is None {
        Err("Invalid number"@)
    } else {
        let lv = l.unwrap();
        let rv = r.unwrap();
        if c == '+' {
            Ok(add_spec(lv, rv))
        } else if c == '-' {
            Ok(add_spec(lv, (-rv.0, rv.1)))
        } else if c == '*' {
            Ok(mul_spec(lv, rv))
        } else if rv.0 == 0 {
            Err("#DIV/0!"@)
        } else {
            Ok(div_spec(lv, rv))
        }
    }
}

/// The arithmetic step: `None` when no operator pattern applies and the
/// dispatch falls through to literals.
pub open spec fn arith_spec(f: Seq<char>) -> Option<Result<(int, nat), Seq<char>>> {
    match arith_pick(f) {
        None => None,
        Some(c) => {
            let parts = split_char(f, c);
            Some(op_apply(c, parse_dec(trim_spec(parts[0])), parse_dec(trim_spec(parts[1]))))
        },
    }
}

/// What evaluating a formula yields: the value text, or an evaluation
/// error text. The leading `=` is dropped, the rest trimmed, and the
/// categories tried in order: known function, arithmetic, numeric
/// literal, quoted text.
pub open spec fn eval_spec(raw: Seq<char>) -> Result<Seq<char>, Seq<char>> {
    let f0 = if raw.len() > 0 && raw[0] == '=' {
        raw.subrange(1, raw.len() as int)
    } else {
        raw
    };
    let f = trim_spec(f0);
    if starts_with(f, "SUM("@) {
        if missing_paren(f) {
            Err("Missing closing parenthesis"@)
        } else {
            Ok(fmt_spec(sum_args(args_list(f, 4))))
        }
    } else if starts_with(f, "AVERAGE("@) {
        if missing_paren(f) {
            Err("Missing closing parenthesis"@)
        } else {
            let args = args_list(f, 8);
            if count_parsed(args) == 0 {
                Err("#DIV/0!"@)
            } else {
                Ok(fmt_spec(div_spec(sum_args(args), (count_parsed(args) as int, 0))))
            }
        }
    } else if starts_with(f, "IF("@) {
        if missing_paren(f) {
            Err("Missing closing parenthesis"@)
        } else {
            if_spec(args_list(f, 3))
        }
    } else if starts_with(f, "MAX("@) {
        if missing_paren(f) {
            Err("Missing closing parenthesis"@)
        } else {
            match max_fold(args_list(f, 4)) {
                None => Err("#VALUE!"@),
                Some(v) => Ok(fmt_spec(v)),
            }
        }
    } else if starts_with(f, "MIN("@) {
        if missing_paren(f) {
            Err("Missing closing parenthesis"@)
        } else {
            match min_fold(args_list(f, 4)) {
                None => Err("#VALUE!"@),
                Some(v) => Ok(fmt_spec(v)),
            }
        }
    } else if starts_with(f, "COUNT("@) {
        if missing_paren(f) {
            Err("Missing closing parenthesis"@)
        } else {
            Ok(dec_digits(count_parsed(args_list(f, 6))))
        }
    } else {
        match arith_spec(f) {
            Some(Ok(v)) => Ok(fmt_spec(v)),
            Some(Err(e)) => Err(e),
            None => match parse_dec(f) {
                Some(v) => Ok(fmt_spec(v)),
                None => if f.len() >= 2 && f[0] == '"' && f.last() == '"' {
                    Ok(f.subrange(1, f.len() - 1))
                } else {
                    Err("Unsupported formula: "@ + f)
                },
            },
        }
    }
}

/// The coarse classification tag of a formula text; not used for control
/// flow anywhere.
pub open spec fn classify_spec(raw: Seq<char>) -> Seq<char> {
    let f = trim_spec(raw);
    if starts_with(f, "SUM("@) || starts_with(f, "AVERAGE("@) || starts_with(f, "MAX("@)
        || starts_with(f, "MIN("@) || starts_with(f, "COUNT("@) {
        "aggregate"@
    } else if starts_with(f, "IF("@) {
        "logical"@
    } else if contains_char(f, '+') || contains_char(f, '-') || contains_char(f, '*')
        || contains_char(f, '/') {
        "arithmetic"@
    } else {
        "literal"@
    }
}

/// Splits out the argument texts of a function call.
fn extract_args(f: &Vec<char>, plen: usize) -> (r: Result<Vec<Vec<char>>, Vec<char>>)
    requires
        1 <= plen <= f@.len(),
        f@[plen - 1] == '(',
    ensures
        match r {
            Ok(parts) => !missing_paren(f@) && views(parts@) == args_list(f@, plen as int),
            Err(e) => missing_paren(f@) && e@ == "Missing closing parenthesis"@,
        },
{
    if f.len() == 0 || f[f.len() - 1] != ')' {
        return Err(str_to_chars("Missing closing parenthesis"));
    }
    let inner = sub_chars(f, plen, f.len() - 1);
    Ok(split_chars(&inner, ','))
}

/// Accumulator bounds for the running sum: one more well-formed operand
/// keeps the mantissa under `(n + 1) * 10^(15 + scale)`.
proof fn lemma_sum_step(acc: Dec, d: Dec, cnt: nat)
    requires
        acc.scale <= 15,
        wf_dec(d),
        acc.mant <= cnt * pow10((15 + acc.scale) as nat),
        cnt <= 9000,
    ensures
        (acc.mant as int) * pow10((max_nat(acc.scale as nat, d.scale as nat) - acc.scale) as nat)
            + (d.mant as int) * pow10(
            (max_nat(acc.scale as nat, d.scale as nat) - d.scale) as nat,
        ) <= (cnt + 1) * pow10((15 + max_nat(acc.scale as nat, d.scale as nat)) as nat),
        (cnt + 1) * pow10((15 + max_nat(acc.scale as nat, d.scale as nat)) as nat) <= u128::MAX,
        abs_int(
            dnum(acc) * pow10((max_nat(acc.scale as nat, d.scale as nat) - acc.scale) as nat)
                + dnum(d) * pow10((max_nat(acc.scale as nat, d.scale as nat) - d.scale) as nat),
        ) <= (cnt + 1) * pow10((15 + max_nat(acc.scale as nat, d.scale as nat)) as nat),
{
    let s = max_nat(acc.scale as nat, d.scale as nat);
    let fa = pow10((s - acc.scale) as nat);
    let fd = pow10((s - d.scale) as nat);
    lemma_pow10_vals();
    lemma_pow10_add((15 + acc.scale) as nat, (s - acc.scale) as nat);
    lemma_pow10_add(15, (s - d.scale) as nat);
    lemma_pow10_le((15 + s - d.scale) as nat, (15 + s) as nat);
    lemma_pow10_le((15 + s) as nat, 30);
    lemma_pow10_pos((s - acc.scale) as nat);
    lemma_pow10_pos((s - d.scale) as nat);
    assert(acc.mant * fa <= cnt * pow10((15 + s) as nat)) by (nonlinear_arith)
        requires
            acc.mant <= cnt * pow10((15 + acc.scale) as nat),
            fa >= 0,
            pow10((15 + s) as nat) == pow10((15 + acc.scale) as nat) * fa;
    assert(d.mant * fd <= pow10((15 + s) as nat)) by (nonlinear_arith)
        requires
            d.mant < pow10(15),
            fd >= 1,
            pow10((15 + s - d.scale) as nat) == pow10(15) * fd,
            pow10((15 + s - d.scale) as nat) <= pow10((15 + s) as nat);
    assert((cnt + 1) * pow10((15 + s) as nat) <= 9001 * pow10(30)) by (nonlinear_arith)
        requires
            cnt + 1 <= 9001,
            pow10((15 + s) as nat) <= pow10(30),
            pow10((15 + s) as nat) >= 0;
    assert(9001 * pow10(30) < pow10(34)) by (nonlinear_arith)
        requires pow10(34) == pow10(30) * 10000, pow10(30) >= 1;
    assert(abs_int(dnum(acc) * fa) == acc.mant * fa) by (nonlinear_arith)
        requires
            fa >= 0,
            dnum(acc) == (if acc.neg { -(acc.mant as int) } else { acc.mant as int });
    assert(abs_int(dnum(d) * fd) == d.mant * fd) by (nonlinear_arith)
        requires
            fd >= 0,
            dnum(d) == (if d.neg { -(d.mant as int) } else { d.mant as int });
    let p = pow10((15 + s) as nat);
    assert((cnt + 1) * p == cnt * p + p) by (nonlinear_arith);
    assert(abs_int(dnum(acc) * fa + dnum(d) * fd) <= abs_int(dnum(acc) * fa) + abs_int(
        dnum(d) * fd,
    ));
}

/// Sums the parseable arguments; also reports how many parsed, and keeps
/// the accumulator's bounds available to callers.
fn sum_of_args(args: &Vec<Vec<char>>) -> (r: (Dec, usize))
    requires
        args@.len() <= 9000,
    ensures
        dval(r.0) == sum_args(views(args@)),
        r.1 == count_parsed(views(args@)),
        r.0.scale <= 15,
        r.1 <= args@.len(),
        r.0.mant <= r.1 * pow10((15 + r.0.scale) as nat),
{
    let mut acc = Dec { neg: false, mant: 0, scale: 0 };
    let mut cnt: usize = 0;
    let mut i: usize = 0;
    proof {
        assert(views(args@).take(0) =~= Seq::<Seq<char>>::empty());
    }
    while i < args.len()
        invariant
            0 <= i <= args@.len() <= 9000,
            dval(acc) == sum_args(views(args@).take(i as int)),
            cnt == count_parsed(views(args@).take(i as int)),
            acc.scale <= 15,
            cnt <= i,
            acc.mant <= cnt * pow10((15 + acc.scale) as nat),
        decreases args@.len() - i,
    {
        let t = trim_chars(&args[i]);
        proof {
            assert(views(args@).take(i + 1).drop_last() =~= views(args@).take(i as int));
            assert(views(args@).take(i + 1).last() == args@[i as int]@);
        }
        match parse_dec_chars(&t) {
            Some(d) => {
                proof {
                    lemma_sum_step(acc, d, cnt as nat);
                }
                acc = add_dec(&acc, &d);
                cnt = cnt + 1;
            },
            None => {},
        }
        i = i + 1;
    }
    proof {
        assert(views(args@).take(args@.len() as int) =~= views(args@));
    }
    (acc, cnt)
}

/// SUM: the decimal text of the running sum; an empty or unparseable
/// argument list sums to zero.
pub fn eval_sum(args: &Vec<Vec<char>>) -> (r: Vec<char>)
    requires
        args@.len() <= 9000,
    ensures
        r@ == fmt_spec(sum_args(views(args@))),
{
    let (acc, _) = sum_of_args(args);
    fmt_dec(&acc)
}

/// AVERAGE: the mean of the parseable arguments, or the division-by-zero
/// code when none parses.
pub fn eval_average(args: &Vec<Vec<char>>) -> (r: Result<Vec<char>, Vec<char>>)
    requires
        args@.len() <= 9000,
    ensures
        match r {
            Ok(v) => count_parsed(views(args@)) != 0 && v@ == fmt_spec(
                div_spec(sum_args(views(args@)), (count_parsed(views(args@)) as int, 0)),
            ),
            Err(e) => count_parsed(views(args@)) == 0 && e@ == "#DIV/0!"@,
        },
{
    let (acc, cnt) = sum_of_args(args);
    if cnt == 0 {
        return Err(str_to_chars("#DIV/0!"));
    }
    let den = Dec { neg: false, mant: cnt as u128, scale: 0 };
    proof {
        lemma_pow10_vals();
        lemma_pow10_le((15 + acc.scale) as nat, 30);
        lemma_pow10_le(acc.scale as nat, 15);
        lemma_pow10_pos(acc.scale as nat);
        assert(cnt * pow10((15 + acc.scale) as nat) <= 10000 * pow10(30)) by (nonlinear_arith)
            requires
                cnt <= 9000,
                pow10((15 + acc.scale) as nat) <= pow10(30),
                pow10((15 + acc.scale) as nat) >= 0;
        assert(10000 * pow10(30) <= pow10(34)) by (nonlinear_arith)
            requires pow10(34) == pow10(30) * 10000, pow10(30) >= 0;
        assert(cnt * pow10(acc.scale as nat) <= 10000 * pow10(15)) by (nonlinear_arith)
            requires cnt <= 10000, pow10(acc.scale as nat) <= pow10(15), pow10(acc.scale as nat) >= 0;
        lemma_pow10_add(15, 15);
        lemma_pow10_add(30, 4);
        assert(10000 * pow10(15) <= pow10(34)) by (nonlinear_arith)
            requires pow10(34) == pow10(30) * 10000, pow10(30) >= pow10(15), pow10(15) >= 0;
        // the sum is at most the operand count times the largest operand
        lemma_pow10_add(acc.scale as nat, 15);
        assert(acc.mant <= (cnt * pow10(acc.scale as nat)) * pow10(30)) by (nonlinear_arith)
            requires
                acc.mant <= cnt * pow10((15 + acc.scale) as nat),
                pow10((15 + acc.scale) as nat) == pow10(acc.scale as nat) * pow10(15),
                pow10(15) <= pow10(30),
                cnt * pow10(acc.scale as nat) >= 0,
                pow10(acc.scale as nat) >= 0,
                cnt >= 0;
        assert(pow10(0) == 1);
    }
    let q = div_dec(&acc, &den);
    Ok(fmt_dec(&q))
}

/// COUNT: the number of numeric arguments, as decimal text.
pub fn eval_count(args: &Vec<Vec<char>>) -> (r: Vec<char>)
    requires
        args@.len() <= 9000,
    ensures
        r@ == dec_digits(count_parsed(views(args@))),
{
    let mut cnt: usize = 0;
    let mut i: usize = 0;
    proof {
        assert(views(args@).take(0) =~= Seq::<Seq<char>>::empty());
    }
    while i < args.len()
        invariant
            0 <= i <= args@.len() <= 9000,
            cnt == count_parsed(views(args@).take(i as int)),
            cnt <= i,
        decreases args@.len() - i,
    {
        let t = trim_chars(&args[i]);
        proof {
            assert(views(args@).take(i + 1).drop_last() =~= views(args@).take(i as int));
            assert(views(args@).take(i + 1).last() == args@[i as int]@);
        }
        if parse_dec_chars(&t).is_some() {
            cnt = cnt + 1;
        }
        i = i + 1;
    }
    proof {
        assert(views(args@).take(args@.len() as int) =~= views(args@));
    }
    let mut out: Vec<char> = Vec::new();
    crate::digits::push_digits(cnt as u128, &mut out);
    proof {
        assert(out@ =~= dec_digits(cnt as nat));
    }
    out
}

/// MAX and MIN share one body; `want_max` picks the direction.
fn eval_extreme(args: &Vec<Vec<char>>, want_max: bool) -> (r: Result<Vec<char>, Vec<char>>)
    ensures
        match r {
            Ok(v) => {
                let best = if want_max {
                    max_fold(views(args@))
                } else {
                    min_fold(views(args@))
                };
                best is Some && v@ == fmt_spec(best.unwrap())
            },
            Err(e) => (if want_max {
                max_fold(views(args@))
            } else {
                min_fold(views(args@))
            }) is None && e@ == "#VALUE!"@,
        },
{
    let mut best: Option<Dec> = None;
    let mut i: usize = 0;
    proof {
        assert(views(args@).take(0) =~= Seq::<Seq<char>>::empty());
    }
    while i < args.len()
        invariant
            0 <= i <= args@.len(),
            match best {
                None => (if want_max {
                    max_fold(views(args@).take(i as int))
                } else {
                    min_fold(views(args@).take(i as int))
                }) is None,
                Some(b) => (if want_max {
                    max_fold(views(args@).take(i as int))
                } else {
                    min_fold(views(args@).take(i as int))
                }) == Some(dval(b)) && wf_dec(b),
            },
        decreases args@.len() - i,
    {
        let t = trim_chars(&args[i]);
        proof {
            assert(views(args@).take(i + 1).drop_last() =~= views(args@).take(i as int));
            assert(views(args@).take(i + 1).last() == args@[i as int]@);
        }
        match parse_dec_chars(&t) {
            Some(d) => {
                match best {
                    None => {
                        best = Some(d);
                    },
                    Some(b) => {
                        let replace = if want_max {
                            lt_dec(&b, &d)
                        } else {
                            lt_dec(&d, &b)
                        };
                        if replace {
                            best = Some(d);
                        }
                    },
                }
            },
            None => {},
        }
        i = i + 1;
    }
    proof {
        assert(views(args@).take(args@.len() as int) =~= views(args@));
    }
    match best {
        Some(b) => Ok(fmt_dec(&b)),
        None => Err(str_to_chars("#VALUE!")),
    }
}

/// Whether the minimal condition of an IF holds.
fn cond_value_exec(c: &Vec<char>) -> (r: bool)
    ensures
        r == cond_value(c@),
{
    if find_char(c, '>').is_some() {
        let parts = split_chars(c, '>');
        if parts.len() != 2 {
            return false;
        }
        let lt = trim_chars(&parts[0]);
        let rt = trim_chars(&parts[1]);
        proof {
            assert(views(parts@)[0] == parts@[0]@);
            assert(views(parts@)[1] == parts@[1]@);
        }
        match (parse_dec_chars(&lt), parse_dec_chars(&rt)) {
            (Some(l), Some(r)) => lt_dec(&r, &l),
            _ => false,
        }
    } else if find_char(c, '<').is_some() {
        let parts = split_chars(c, '<');
        if parts.len() != 2 {
            return false;
        }
        let lt = trim_chars(&parts[0]);
        let rt = trim_chars(&parts[1]);
        proof {
            assert(views(parts@)[0] == parts@[0]@);
            assert(views(parts@)[1] == parts@[1]@);
        }
        match (parse_dec_chars(&lt), parse_dec_chars(&rt)) {
            (Some(l), Some(r)) => lt_dec(&l, &r),
            _ => false,
        }
    } else {
        match parse_dec_chars(c) {
            Some(d) => d.mant != 0,
            None => false,
        }
    }
}

/// Drops one pair of surrounding quotes.
fn strip_quotes_exec(s: &Vec<char>) -> (r: Vec<char>)
    ensures
        r@ == strip_quotes(s@),
{
    if s.len() >= 2 && s[0] == '"' && s[s.len() - 1] == '"' {
        sub_chars(s, 1, s.len() - 1)
    } else {
        let r = sub_chars(s, 0, s.len());
        assert(r@ =~= s@);
        r
    }
}

/// IF over the split argument texts.
pub fn eval_if(args: &Vec<Vec<char>>) -> (r: Result<Vec<char>, Vec<char>>)
    ensures
        match r {
            Ok(v) => if_spec(views(args@)) == Result::<Seq<char>, Seq<char>>::Ok(v@),
            Err(e) => if_spec(views(args@)) == Result::<Seq<char>, Seq<char>>::Err(e@),
        },
{
    if args.len() < 2 {
        return Err(str_to_chars("#VALUE!"));
    }
    let cond = trim_chars(&args[0]);
    let tv = trim_chars(&args[1]);
    let fv = if args.len() >= 3 {
        trim_chars(&args[2])
    } else {
        str_to_chars("FALSE")
    };
    proof {
        assert(views(args@)[0] == args@[0]@);
        assert(views(args@)[1] == args@[1]@);
        if args@.len() >= 3 {
            assert(views(args@)[2] == args@[2]@);
        }
    }
    let chosen = if cond_value_exec(&cond) {
        tv
    } else {
        fv
    };
    Ok(strip_quotes_exec(&chosen))
}

/// Checks one operator: present exactly once with text on both sides;
/// hands back the two parts.
fn find_gate(f: &Vec<char>, c: char) -> (r: Option<Vec<Vec<char>>>)
    ensures
        match r {
            Some(parts) => arith_op(f@, c) && views(parts@) == split_char(f@, c) && parts@.len()
                == 2,
            None => !arith_op(f@, c),
        },
{
    match find_char(f, c) {
        None => None,
        Some(_) => {
            let parts = split_chars(f, c);
            if parts.len() != 2 {
                return None;
            }
            let n0 = parts[0].len();
            let n1 = parts[1].len();
            proof {
                assert(views(parts@)[0] == parts@[0]@);
                assert(views(parts@)[1] == parts@[1]@);
            }
            if n0 == 0 || n1 == 0 {
                return None;
            }
            Some(parts)
        },
    }
}

/// Applies one operator to the two raw operand texts.
fn apply_op(a: &Vec<char>, b: &Vec<char>, c: char) -> (r: Result<Dec, Vec<char>>)
    requires
        c == '+' || c == '-' || c == '*' || c == '/',
    ensures
        match r {
            Ok(d) => op_apply(c, parse_dec(trim_spec(a@)), parse_dec(trim_spec(b@))) == Result::<
                (int, nat),
                Seq<char>,
            >::Ok(dval(d)) && d.scale <= 38,
            Err(e) => op_apply(c, parse_dec(trim_spec(a@)), parse_dec(trim_spec(b@))) == Result::<
                (int, nat),
                Seq<char>,
            >::Err(e@),
        },
{
    let ta = trim_chars(a);
    let tb = trim_chars(b);
    let pl = parse_dec_chars(&ta);
    let pr = parse_dec_chars(&tb);
    match (pl, pr) {
        (Some(l), Some(rv)) => {
            proof {
                lemma_pow10_vals();
            }
            if c == '+' || c == '-' {
                let r2 = if c == '-' {
                    neg_dec(&rv)
                } else {
                    rv
                };
                proof {
                    let s = max_nat(l.scale as nat, r2.scale as nat);
                    lemma_pow10_le((s - l.scale) as nat, 15);
                    lemma_pow10_le((s - r2.scale) as nat, 15);
                    lemma_pow10_add(15, 15);
                    assert(l.mant * pow10((s - l.scale) as nat) < pow10(30)) by (nonlinear_arith)
                        requires
                            l.mant < pow10(15),
                            pow10((s - l.scale) as nat) <= pow10(15),
                            pow10((s - l.scale) as nat) >= 0,
                            pow10(30) == pow10(15) * pow10(15);
                    assert(r2.mant * pow10((s - r2.scale) as nat) < pow10(30)) by (nonlinear_arith)
                        requires
                            r2.mant < pow10(15),
                            pow10((s - r2.scale) as nat) <= pow10(15),
                            pow10((s - r2.scale) as nat) >= 0,
                            pow10(30) == pow10(15) * pow10(15);
                    lemma_pow10_le(30, 34);
                }
                Ok(add_dec(&l, &r2))
            } else if c == '*' {
                proof {
                    lemma_pow10_add(15, 15);
                    assert(l.mant * rv.mant < pow10(30)) by (nonlinear_arith)
                        requires
                            l.mant < pow10(15),
                            rv.mant < pow10(15),
                            pow10(30) == pow10(15) * pow10(15);
                    lemma_pow10_le(30, 34);
                }
                Ok(mul_dec(&l, &rv))
            } else {
                if rv.mant == 0 {
                    return Err(str_to_chars("#DIV/0!"));
                }
                proof {
                    lemma_pow10_le(l.scale as nat, 15);
                    lemma_pow10_le(rv.scale as nat, 15);
                    lemma_pow10_pos(l.scale as nat);
                    lemma_pow10_pos(rv.scale as nat);
                    lemma_pow10_add(15, 15);
                    assert(l.mant * pow10(rv.scale as nat) < pow10(30)) by (nonlinear_arith)
                        requires
                            l.mant < pow10(15),
                            pow10(rv.scale as nat) <= pow10(15),
                            pow10(rv.scale as nat) >= 0,
                            pow10(30) == pow10(15) * pow10(15);
                    assert(rv.mant * pow10(l.scale as nat) < pow10(30)) by (nonlinear_arith)
                        requires
                            rv.mant < pow10(15),
                            pow10(l.scale as nat) <= pow10(15),
                            pow10(l.scale as nat) >= 0,
                            pow10(30) == pow10(15) * pow10(15);
                    lemma_pow10_le(30, 34);
                    assert(rv.mant * pow10(l.scale as nat) >= 1) by (nonlinear_arith)
                        requires rv.mant >= 1, pow10(l.scale as nat) >= 1;
                    assert(l.mant * pow10(rv.scale as nat) <= (rv.mant * pow10(l.scale as nat))
                        * pow10(30)) by (nonlinear_arith)
                        requires
                            l.mant * pow10(rv.scale as nat) < pow10(30),
                            rv.mant * pow10(l.scale as nat) >= 1;
                }
                Ok(div_dec(&l, &rv))
            }
        },
        _ => Err(str_to_chars("Invalid number")),
    }
}

/// The arithmetic step over the whole text.
fn arith_eval(f: &Vec<char>) -> (r: Option<Result<Dec, Vec<char>>>)
    ensures
        match r {
            None => arith_spec(f@) is None,
            Some(Ok(d)) => arith_spec(f@) == Some(
                Result::<(int, nat), Seq<char>>::Ok(dval(d)),
            ) && d.scale <= 38,
            Some(Err(e)) => arith_spec(f@) == Some(Result::<(int, nat), Seq<char>>::Err(e@)),
        },
{
    if let Some(parts) = find_gate(f, '+') {
        proof {
            assert(views(parts@)[0] == parts@[0]@);
            assert(views(parts@)[1] == parts@[1]@);
        }
        return Some(apply_op(&parts[0], &parts[1], '+'));
    }
    let leading_minus = f.len() > 0 && f[0] == '-';
    if !leading_minus {
        if let Some(parts) = find_gate(f, '-') {
            proof {
                assert(views(parts@)[0] == parts@[0]@);
                assert(views(parts@)[1] == parts@[1]@);
            }
            return Some(apply_op(&parts[0], &parts[1], '-'));
        }
    }
    if let Some(parts) = find_gate(f, '*') {
        proof {
            assert(views(parts@)[0] == parts@[0]@);
            assert(views(parts@)[1] == parts@[1]@);
        }
        return Some(apply_op(&parts[0], &parts[1], '*'));
    }
    if let Some(parts) = find_gate(f, '/') {
        proof {
            assert(views(parts@)[0] == parts@[0]@);
            assert(views(parts@)[1] == parts@[1]@);
        }
        return Some(apply_op(&parts[0], &parts[1], '/'));
    }
    None
}

/// Evaluates one formula text; exactly `eval_spec` of it.
pub fn parse_and_evaluate(raw: &Vec<char>) -> (r: Result<Vec<char>, Vec<char>>)
    requires
        raw@.len() <= 8192,
    ensures
        match r {
            Ok(v) => eval_spec(raw@) == Result::<Seq<char>, Seq<char>>::Ok(v@),
            Err(e) => eval_spec(raw@) == Result::<Seq<char>, Seq<char>>::Err(e@),
        },
{
    let f0 = if raw.len() > 0 && raw[0] == '=' {
        sub_chars(raw, 1, raw.len())
    } else {
        let c = sub_chars(raw, 0, raw.len());
        assert(c@ =~= raw@);
        c
    };
    let f = trim_chars(&f0);
    proof {
        lemma_trim_len(f0@);
    }
    if starts_with_lit(&f, "SUM(") {
        proof {
            reveal_strlit("SUM(");
            assert(f@.subrange(0, 4)[3] == '(');
        }
        match extract_args(&f, 4) {
            Err(e) => Err(e),
            Ok(args) => {
                proof {
                    lemma_split_count(f@.subrange(4, f@.len() - 1), ',');
                }
                Ok(eval_sum(&args))
            },
        }
    } else if starts_with_lit(&f, "AVERAGE(") {
        proof {
            reveal_strlit("AVERAGE(");
            assert(f@.subrange(0, 8)[7] == '(');
        }
        match extract_args(&f, 8) {
            Err(e) => Err(e),
            Ok(args) => {
                proof {
                    lemma_split_count(f@.subrange(8, f@.len() - 1), ',');
                }
                eval_average(&args)
            },
        }
    } else if starts_with_lit(&f, "IF(") {
        proof {
            reveal_strlit("IF(");
            assert(f@.subrange(0, 3)[2] == '(');
        }
        match extract_args(&f, 3) {
            Err(e) => Err(e),
            Ok(args) => eval_if(&args),
        }
    } else if starts_with_lit(&f, "MAX(") {
        proof {
            reveal_strlit("MAX(");
            assert(f@.subrange(0, 4)[3] == '(');
        }
        match extract_args(&f, 4) {
            Err(e) => Err(e),
            Ok(args) => eval_extreme(&args, true),
        }
    } else if starts_with_lit(&f, "MIN(") {
        proof {
            reveal_strlit("MIN(");
            assert(f@.subrange(0, 4)[3] == '(');
        }
        match extract_args(&f, 4) {
            Err(e) => Err(e),
            Ok(args) => eval_extreme(&args, false),
        }
    } else if starts_with_lit(&f, "COUNT(") {
        proof {
            reveal_strlit("COUNT(");
            assert(f@.subrange(0, 6)[5] == '(');
        }
        match extract_args(&f, 6) {
            Err(e) => Err(e),
            Ok(args) => {
                proof {
                    lemma_split_count(f@.subrange(6, f@.len() - 1), ',');
                }
                Ok(eval_count(&args))
            },
        }
    } else {
        match arith_eval(&f) {
            Some(Ok(d)) => Ok(fmt_dec(&d)),
            Some(Err(e)) => Err(e),
            None => {
                match parse_dec_chars(&f) {
                    Some(d) => Ok(fmt_dec(&d)),
                    None => {
                        if f.len() >= 2 && f[0] == '"' && f[f.len() - 1] == '"' {
                            Ok(sub_chars(&f, 1, f.len() - 1))
                        } else {
                            let mut m = str_to_chars("Unsupported formula: ");
                            push_all(&mut m, &f);
                            Err(m)
                        }
                    },
                }
            },
        }
    }
}

/// The classification tag of a formula text.
pub fn classify_formula(raw: &Vec<char>) -> (r: Vec<char>)
    ensures
        r@ == classify_spec(raw@),
{
    let f = trim_chars(raw);
    if starts_with_lit(&f, "SUM(") || starts_with_lit(&f, "AVERAGE(") || starts_with_lit(
        &f,
        "MAX(",
    ) || starts_with_lit(&f, "MIN(") || starts_with_lit(&f, "COUNT(") {
        str_to_chars("aggregate")
    } else if starts_with_lit(&f, "IF(") {
        str_to_chars("logical")
    } else if find_char(&f, '+').is_some() || find_char(&f, '-').is_some() || find_char(
        &f,
        '*',
    ).is_some() || find_char(&f, '/').is_some() {
        str_to_chars("arithmetic")
    } else {
        str_to_chars("literal")
    }
}

} // verus!
