//! Fixed-point decimal values in thousandths.
//!
//! Every statistic the bot reports is a decimal number rounded to three
//! decimal places. The rounding rule is round-half-away-from-zero: the
//! magnitude of `value * 1000` is rounded to the nearest integer, halves
//! rounding up, and the sign is applied afterwards.

use vstd::prelude::*;
use vstd::arithmetic::div_mod::*;
use vstd::arithmetic::mul::*;
use vstd::string::*;

verus! {

/// Largest magnitude, in thousandths, that a value may carry (10^15).
pub const MILLI_LIMIT: u64 = 1_000_000_000_000_000;

/// Bound on the integer part while digits are still being read (10^13).
/// Once the integer part alone reaches this, the rounded magnitude is
/// certain to exceed `MILLI_LIMIT`.
const INT_CAP: u64 = 10_000_000_000_000;

/// A decimal number with three decimal places, held as a sign and a
/// magnitude in thousandths. A value of zero is never negative.
#[derive(Clone, Copy, Debug, PartialEq, Eq, Structural)]
pub struct Dec3 {
    pub neg: bool,
    pub milli: u64,
}

impl Dec3 {
    /// Well-formed values stay within `MILLI_LIMIT` and give zero a
    /// positive sign.
    pub open spec fn wf(self) -> bool {
        self.milli <= MILLI_LIMIT && (self.milli == 0 ==> !self.neg)
    }
}

pub open spec fn is_digit_char(c: char) -> bool {
    '0' <= c && c <= '9'
}

pub open spec fn digit_value(c: char) -> int {
    c as int - '0' as int
}

/// The integer a string of decimal digits denotes.
pub open spec fn digits_value(s: Seq<char>) -> int
    decreases s.len(),
{
    if s.len() == 0 {
        0
    } else {
        digits_value(s.drop_last()) * 10 + digit_value(s.last())
    }
}

pub open spec fn all_digits(s: Seq<char>) -> bool {
    forall|i: int| 0 <= i < s.len() ==> is_digit_char(s[i])
}

pub open spec fn pow10(k: nat) -> int
    decreases k,
{
    if k == 0 {
        1
    } else {
        10 * pow10((k - 1) as nat)
    }
}

/// The digit at position `k`, counting from the left, reading absent
/// positions as zero.
pub open spec fn pad_digit(s: Seq<char>, k: int) -> int {
    if 0 <= k < s.len() {
        digit_value(s[k])
    } else {
        0
    }
}

/// The value of the first three digits, read as thousandths.
pub open spec fn frac3_value(s: Seq<char>) -> int {
    pad_digit(s, 0) * 100 + pad_digit(s, 1) * 10 + pad_digit(s, 2)
}

/// Whether the text opens with a minus sign.
pub open spec fn is_negative_literal(s: Seq<char>) -> bool {
    s.len() > 0 && s[0] == '-'
}

/// The text with a leading minus sign removed.
pub open spec fn sign_stripped(s: Seq<char>) -> Seq<char> {
    if is_negative_literal(s) {
        s.skip(1)
    } else {
        s
    }
}

/// Index of the first `'.'`, or the length if there is none.
pub open spec fn dot_pos(t: Seq<char>) -> int
    decreases t.len(),
{
    if t.len() == 0 {
        0
    } else if t[0] == '.' {
        0
    } else {
        1 + dot_pos(t.skip(1))
    }
}

/// The digits before the decimal point.
pub open spec fn int_part(s: Seq<char>) -> Seq<char> {
    let t = sign_stripped(s);
    t.take(dot_pos(t))
}

/// The digits after the decimal point, or empty if there is no point.
pub open spec fn frac_part(s: Seq<char>) -> Seq<char> {
    let t = sign_stripped(s);
    if dot_pos(t) < t.len() {
        t.skip(dot_pos(t) + 1)
    } else {
        Seq::empty()
    }
}

/// Decimal-number text: an optional minus sign, one or more digits, and
/// optionally a point followed by one or more digits.
pub open spec fn valid_number(s: Seq<char>) -> bool {
    let t = sign_stripped(s);
    &&& int_part(s).len() > 0
    &&& all_digits(int_part(s))
    &&& all_digits(frac_part(s))
    &&& (dot_pos(t) < t.len() ==> frac_part(s).len() > 0)
}

/// The numerator of the number's magnitude over `pow10(frac_len)`.
pub open spec fn mantissa(s: Seq<char>) -> int {
    digits_value(int_part(s) + frac_part(s))
}

pub open spec fn frac_len(s: Seq<char>) -> nat {
    frac_part(s).len()
}

/// `n / d` rounded to the nearest integer, halves rounding up
/// (for `n >= 0` and `d > 0`).
pub open spec fn round_half_up(n: int, d: int) -> int {
    (2 * n + d) / (2 * d)
}

/// The magnitude of the number rounded to three decimal places, in
/// thousandths: `round(value * 1000)` with halves rounded away from zero,
/// where `value = mantissa / 10^frac_len`.
pub open spec fn spec_milli(s: Seq<char>) -> int {
    round_half_up(mantissa(s) * 1000, pow10(frac_len(s)))
}

/// The decimal value a valid number text denotes, rounded to three
/// decimal places.
pub open spec fn spec_dec3(s: Seq<char>) -> Dec3 {
    Dec3 {
        neg: is_negative_literal(s) && spec_milli(s) != 0,
        milli: spec_milli(s) as u64,
    }
}

proof fn lemma_pow10_pos(k: nat)
    ensures
        pow10(k) >= 1,
    decreases k,
{
    if k > 0 {
        lemma_pow10_pos((k - 1) as nat);
    }
}

proof fn lemma_pow10_add(a: nat, b: nat)
    ensures
        pow10(a + b) == pow10(a) * pow10(b),
    decreases a,
{
    if a == 0 {
    } else {
        lemma_pow10_add((a - 1) as nat, b);
        assert((a + b - 1) as nat == (a - 1) as nat + b);
        assert(pow10(a + b) == 10 * (pow10((a - 1) as nat) * pow10(b)));
        lemma_mul_is_associative(10, pow10((a - 1) as nat), pow10(b));
    }
}

proof fn lemma_pow10_vals()
    ensures
        pow10(0) == 1,
        pow10(1) == 10,
        pow10(2) == 100,
        pow10(3) == 1000,
        pow10(4) == 10000,
{
    reveal_with_fuel(pow10, 5);
}

proof fn lemma_digits_value_bounds(s: Seq<char>)
    requires
        all_digits(s),
    ensures
        0 <= digits_value(s) < pow10(s.len()),
    decreases s.len(),
{
    if s.len() > 0 {
        lemma_digits_value_bounds(s.drop_last());
        assert(is_digit_char(s.last()));
        assert(0 <= digit_value(s.last()) <= 9);
    }
}

proof fn lemma_digits_value_concat(a: Seq<char>, b: Seq<char>)
    ensures
        digits_value(a + b) == digits_value(a) * pow10(b.len()) + digits_value(b),
    decreases b.len(),
{
    if b.len() == 0 {
        assert(a + b =~= a);
    } else {
        lemma_digits_value_concat(a, b.drop_last());
        assert((a + b).drop_last() =~= a + b.drop_last());
        assert((a + b).last() == b.last());
        assert(digits_value(a + b) == (digits_value(a) * pow10((b.len() - 1) as nat)
            + digits_value(b.drop_last())) * 10 + digit_value(b.last()));
        assert(pow10(b.len()) == 10 * pow10((b.len() - 1) as nat));
        assert(digits_value(a + b) == digits_value(a) * pow10(b.len()) + digits_value(b))
            by (nonlinear_arith)
            requires
                digits_value(a + b) == (digits_value(a) * pow10((b.len() - 1) as nat)
                    + digits_value(b.drop_last())) * 10 + digit_value(b.last()),
                digits_value(b) == digits_value(b.drop_last()) * 10 + digit_value(b.last()),
                pow10(b.len()) == 10 * pow10((b.len() - 1) as nat),
        ;
    }
}

proof fn lemma_digits_value_short(s: Seq<char>)
    requires
        s.len() <= 3,
    ensures
        s.len() == 1 ==> digits_value(s) == pad_digit(s, 0),
        s.len() == 2 ==> digits_value(s) == pad_digit(s, 0) * 10 + pad_digit(s, 1),
        s.len() == 3 ==> digits_value(s) == pad_digit(s, 0) * 100 + pad_digit(s, 1) * 10
            + pad_digit(s, 2),
    decreases s.len(),
{
    if s.len() == 0 {
    } else {
        let a = s.drop_last();
        lemma_digits_value_short(a);
        assert(digits_value(s) == digits_value(a) * 10 + digit_value(s.last()));
        if s.len() == 1 {
            assert(digits_value(a) == 0);
            assert(s.last() == s[0]);
        }
        if s.len() == 2 {
            assert(a[0] == s[0]);
            assert(s.last() == s[1]);
            assert(digits_value(a) == pad_digit(a, 0));
        }
        if s.len() == 3 {
            assert(a[0] == s[0]);
            assert(a[1] == s[1]);
            assert(s.last() == s[2]);
            assert(digits_value(a) == pad_digit(a, 0) * 10 + pad_digit(a, 1));
        }
    }
}

proof fn lemma_dot_pos_spec(t: Seq<char>)
    ensures
        0 <= dot_pos(t) <= t.len(),
        forall|i: int| 0 <= i < dot_pos(t) ==> t[i] != '.',
        dot_pos(t) < t.len() ==> t[dot_pos(t)] == '.',
    decreases t.len(),
{
    if t.len() == 0 {
    } else if t[0] == '.' {
    } else {
        lemma_dot_pos_spec(t.skip(1));
        assert forall|i: int| 0 <= i < dot_pos(t) implies t[i] != '.' by {
            if i >= 1 {
                assert(t.skip(1)[i - 1] == t[i]);
            }
        }
        if dot_pos(t) < t.len() {
            assert(t.skip(1)[dot_pos(t) - 1] == t[dot_pos(t)]);
        }
    }
}

proof fn lemma_dot_pos_at(t: Seq<char>, k: int)
    requires
        0 <= k <= t.len(),
        forall|i: int| 0 <= i < k ==> t[i] != '.',
        k < t.len() ==> t[k] == '.',
    ensures
        dot_pos(t) == k,
    decreases t.len(),
{
    if t.len() == 0 {
    } else if t[0] == '.' {
        if k > 0 {
            assert(t[0] != '.');
        }
    } else {
        assert(k >= 1) by {
            if k == 0 {
                assert(t[0] == '.');
            }
        }
        assert forall|i: int| 0 <= i < k - 1 implies t.skip(1)[i] != '.' by {
            assert(t.skip(1)[i] == t[i + 1]);
        }
        if k - 1 < t.skip(1).len() {
            assert(t.skip(1)[k - 1] == t[k]);
        }
        lemma_dot_pos_at(t.skip(1), k - 1);
    }
}

proof fn lemma_round_half_up_split(q: int, d: int, r: int)
    requires
        d > 0,
        0 <= r < d,
    ensures
        round_half_up(q * d + r, d) == q + if 2 * r >= d {
            1int
        } else {
            0int
        },
{
    let carry: int = if 2 * r >= d {
        1int
    } else {
        0int
    };
    let n = q * d + r;
    let rr = if 2 * r >= d {
        2 * r - d
    } else {
        2 * r + d
    };
    assert(2 * n + d == (q + carry) * (2 * d) + rr) by (nonlinear_arith)
        requires
            n == q * d + r,
            carry == if 2 * r >= d {
                1int
            } else {
                0int
            },
            rr == if 2 * r >= d {
                2 * r - d
            } else {
                2 * r + d
            },
    ;
    assert(0 <= rr < 2 * d);
    lemma_fundamental_div_mod_converse_div(2 * n + d, 2 * d, q + carry, rr);
}

/// The rounded magnitude is at least the integer part scaled to
/// thousandths.
proof fn lemma_milli_lower(s: Seq<char>)
    requires
        valid_number(s),
    ensures
        spec_milli(s) >= digits_value(int_part(s)) * 1000,
{
    let ip = int_part(s);
    let fp = frac_part(s);
    let i_val = digits_value(ip);
    let f = fp.len();
    let d = pow10(f);
    lemma_digits_value_concat(ip, fp);
    lemma_digits_value_bounds(ip);
    lemma_digits_value_bounds(fp);
    lemma_pow10_pos(f);
    let m = digits_value(ip + fp);
    assert(m * 1000 >= (i_val * 1000) * d) by (nonlinear_arith)
        requires
            m == i_val * d + digits_value(fp),
            digits_value(fp) >= 0,
            d >= 1,
            i_val >= 0,
    ;
    lemma_round_half_up_split(i_val * 1000, d, 0);
    lemma_div_is_ordered(2 * ((i_val * 1000) * d) + d, 2 * (m * 1000) + d, 2 * d);
}

/// How the rounded magnitude is computed from the digits: the integer
/// part in thousandths, plus the first three fractional digits, plus one
/// exactly when the fourth fractional digit is five or more.
proof fn lemma_milli_decomp(ip: Seq<char>, fp: Seq<char>)
    requires
        ip.len() > 0,
        all_digits(ip),
        all_digits(fp),
    ensures
        round_half_up(digits_value(ip + fp) * 1000, pow10(fp.len())) == digits_value(ip) * 1000
            + frac3_value(fp) + (if fp.len() >= 4 && digit_value(fp[3]) >= 5 {
            1int
        } else {
            0int
        }),
{
    let i_val = digits_value(ip);
    let f = fp.len();
    lemma_digits_value_concat(ip, fp);
    lemma_digits_value_bounds(ip);
    lemma_digits_value_bounds(fp);
    lemma_pow10_vals();
    let fv = digits_value(fp);
    let m = digits_value(ip + fp);
    if f == 0 {
        assert(frac3_value(fp) == 0);
        assert(m == i_val);
        lemma_round_half_up_split(i_val * 1000, 1, 0);
    } else if f <= 3 {
        let sc = pow10((3 - f) as nat);
        lemma_pow10_add(f, (3 - f) as nat);
        assert(pow10(f) * sc == 1000);
        lemma_pow10_pos(f);
        lemma_pow10_pos((3 - f) as nat);
        assert(m * 1000 == (i_val * 1000 + fv * sc) * pow10(f)) by (nonlinear_arith)
            requires
                m == i_val * pow10(f) + fv,
                pow10(f) * sc == 1000,
        ;
        lemma_round_half_up_split(i_val * 1000 + fv * sc, pow10(f), 0);
        lemma_digits_value_short(fp);
        if f == 1 {
            assert(sc == 100);
        } else if f == 2 {
            assert(sc == 10);
        } else {
            assert(sc == 1);
        }
    } else {
        let head = fp.take(3);
        let rest = fp.skip(3);
        assert(head + rest =~= fp);
        lemma_digits_value_concat(head, rest);
        let f3 = digits_value(head);
        let r_val = digits_value(rest);
        assert forall|i: int| 0 <= i < rest.len() implies is_digit_char(rest[i]) by {
            assert(rest[i] == fp[i + 3]);
        }
        assert(all_digits(head)) by {
            assert forall|i: int| 0 <= i < head.len() implies is_digit_char(head[i]) by {
                assert(head[i] == fp[i]);
            }
        }
        lemma_digits_value_bounds(rest);
        // the first three digits
        assert(f3 == frac3_value(fp)) by {
            lemma_digits_value_short(head);
            assert(head[0] == fp[0]);
            assert(head[1] == fp[1]);
            assert(head[2] == fp[2]);
        }
        // split the rest at its first digit
        let d4 = digit_value(fp[3]);
        let tail = rest.skip(1);
        assert(seq![fp[3]] + tail =~= rest);
        lemma_digits_value_concat(seq![fp[3]], tail);
        assert(digits_value(seq![fp[3]]) == d4) by {
            assert(seq![fp[3]].len() == 1);
            assert(digits_value(seq![fp[3]].drop_last()) == 0);
            assert(seq![fp[3]].last() == fp[3]);
        }
        assert forall|i: int| 0 <= i < tail.len() implies is_digit_char(tail[i]) by {
            assert(tail[i] == fp[i + 4]);
        }
        lemma_digits_value_bounds(tail);
        let r2 = digits_value(tail);
        let p4 = pow10((f - 4) as nat);
        lemma_pow10_pos((f - 4) as nat);
        lemma_pow10_add((f - 4) as nat, 4);
        lemma_pow10_add((f - 3) as nat, 3);
        assert(tail.len() == f - 4);
        assert(r_val == d4 * p4 + r2);
        assert(pow10(f) == p4 * 10000);
        assert(pow10(f) == pow10((f - 3) as nat) * 1000);
        assert(m * 1000 == (i_val * 1000 + f3) * pow10(f) + r_val * 1000) by (nonlinear_arith)
            requires
                m == i_val * pow10(f) + fv,
                fv == f3 * pow10((f - 3) as nat) + r_val,
                pow10(f) == pow10((f - 3) as nat) * 1000,
        ;
        assert(0 <= r_val * 1000 < pow10(f)) by (nonlinear_arith)
            requires
                0 <= r_val < pow10((f - 3) as nat),
                pow10(f) == pow10((f - 3) as nat) * 1000,
        ;
        lemma_round_half_up_split(i_val * 1000 + f3, pow10(f), r_val * 1000);
        if d4 >= 5 {
            assert(2 * (r_val * 1000) >= pow10(f)) by (nonlinear_arith)
                requires
                    r_val == d4 * p4 + r2,
                    r2 >= 0,
                    d4 >= 5,
                    pow10(f) == p4 * 10000,
                    p4 >= 1,
            ;
        } else {
            assert(2 * (r_val * 1000) < pow10(f)) by (nonlinear_arith)
                requires
                    r_val == d4 * p4 + r2,
                    0 <= r2 < p4,
                    0 <= d4 <= 4,
                    pow10(f) == p4 * 10000,
                    p4 >= 1,
            ;
        }
    }
}

/// A digit prefix of the integer part that already reaches `INT_CAP`
/// forces the rounded magnitude past `MILLI_LIMIT`.
proof fn lemma_prefix_too_big(s: Seq<char>, k: int)
    requires
        0 <= k <= sign_stripped(s).len(),
        all_digits(sign_stripped(s).take(k)),
        digits_value(sign_stripped(s).take(k)) >= INT_CAP,
    ensures
        valid_number(s) ==> spec_milli(s) > MILLI_LIMIT,
{
    let t = sign_stripped(s);
    let p = t.take(k);
    if valid_number(s) {
        lemma_dot_pos_spec(t);
        let dp = dot_pos(t);
        assert(dp >= k) by {
            if dp < k {
                assert(p[dp] == t[dp]);
                assert(is_digit_char(t[dp]));
            }
        }
        let ip = int_part(s);
        let suffix = t.subrange(k, dp);
        assert(ip =~= p + suffix);
        assert(all_digits(suffix)) by {
            assert forall|i: int| 0 <= i < suffix.len() implies is_digit_char(suffix[i]) by {
                assert(suffix[i] == ip[k + i]);
            }
        }
        lemma_digits_value_concat(p, suffix);
        lemma_digits_value_bounds(suffix);
        lemma_digits_value_bounds(p);
        lemma_pow10_pos(suffix.len());
        assert(digits_value(ip) >= digits_value(p)) by (nonlinear_arith)
            requires
                digits_value(ip) == digits_value(p) * pow10(suffix.len()) + digits_value(suffix),
                digits_value(suffix) >= 0,
                pow10(suffix.len()) >= 1,
                digits_value(p) >= 0,
        ;
        lemma_milli_lower(s);
    }
}

fn digit_of(c: char) -> (d: u64)
    requires
        is_digit_char(c),
    ensures
        d == digit_value(c),
        d <= 9,
{
    (c as u32 - 48) as u64
}

/// Reads decimal-number text (an optional minus sign, digits, and an
/// optional fractional part) into a `Dec3`, rounding to three decimal
/// places with halves away from zero. Returns `None` when the text is not
/// a decimal number or the rounded magnitude exceeds `MILLI_LIMIT`
/// thousandths.
pub fn parse_dec3(s: &str) -> (r: Option<Dec3>)
    ensures
        r is Some <==> valid_number(s@) && spec_milli(s@) <= MILLI_LIMIT,
        r is Some ==> r == Some(spec_dec3(s@)),
        r matches Some(d) ==> d.wf(),
{
    let n = s.unicode_len();
    let neg_lit = n > 0 && s.get_char(0) == '-';
    let i0: usize = if neg_lit {
        1
    } else {
        0
    };
    let ghost t = sign_stripped(s@);
    proof {
        assert(neg_lit == is_negative_literal(s@));
        assert(t =~= s@.skip(i0 as int));
    }
    let mut ival: u64 = 0;
    let mut i: usize = i0;
    while i < n && s.get_char(i) >= '0' && s.get_char(i) <= '9'
        invariant
            n == s@.len(),
            i0 <= i <= n,
            i0 == if neg_lit {
                1int
            } else {
                0int
            },
            neg_lit == is_negative_literal(s@),
            t == sign_stripped(s@),
            t == s@.skip(i0 as int),
            all_digits(t.take((i - i0) as int)),
            ival == digits_value(t.take((i - i0) as int)),
            ival < INT_CAP * 10,
        decreases n - i,
    {
        let c = s.get_char(i);
        proof {
            assert(c == t[(i - i0) as int]);
        }
        if ival >= INT_CAP {
            proof {
                lemma_prefix_too_big(s@, (i - i0) as int);
            }
            return None;
        }
        ival = ival * 10 + digit_of(c);
        proof {
            assert(t.take((i + 1 - i0) as int).drop_last() =~= t.take((i - i0) as int));
            assert(t.take((i + 1 - i0) as int).last() == t[(i - i0) as int]);
        }
        i += 1;
    }
    proof {
        lemma_dot_pos_spec(t);
    }
    if i == i0 {
        // no digit opens the integer part, so the text is not a number
        proof {
            if valid_number(s@) {
                if t.len() > 0 && dot_pos(t) > 0 {
                    assert(int_part(s@)[0] == t[0]);
                    assert(is_digit_char(t[0]));
                }
            }
        }
        return None;
    }
    if i == n {
        // digits only: no fractional part
        proof {
            assert(t.take((i - i0) as int) =~= t);
            assert forall|j: int| 0 <= j < t.len() implies t[j] != '.' by {
                assert(is_digit_char(t[j]));
            }
            lemma_dot_pos_at(t, t.len() as int);
            assert(int_part(s@) =~= t);
            assert(frac_part(s@) =~= Seq::<char>::empty());
            assert(valid_number(s@));
            assert(int_part(s@) + frac_part(s@) =~= t);
            lemma_milli_decomp(int_part(s@), frac_part(s@));
        }
        let milli = ival * 1000;
        if milli > MILLI_LIMIT {
            return None;
        }
        return Some(Dec3 { neg: neg_lit && milli > 0, milli });
    }
    let c = s.get_char(i);
    proof {
        assert(c == t[(i - i0) as int]);
    }
    if c != '.' {
        // a stray character where a point or digit had to stand
        proof {
            let k = (i - i0) as int;
            if valid_number(s@) {
                if dot_pos(t) > k {
                    assert(int_part(s@)[k] == t[k]);
                    assert(is_digit_char(t[k]));
                } else if dot_pos(t) < k {
                    assert(t.take(k)[dot_pos(t)] == t[dot_pos(t)]);
                    assert(is_digit_char(t[dot_pos(t)]));
                }
            }
        }
        return None;
    }
    let ghost dp = (i - i0) as int;
    proof {
        assert forall|j: int| 0 <= j < dp implies t[j] != '.' by {
            assert(t.take(dp)[j] == t[j]);
            assert(is_digit_char(t[j]));
        }
        lemma_dot_pos_at(t, dp);
        assert(int_part(s@) == t.take(dp));
    }
    let ghost ip = t.take(dp);
    i += 1;
    let fstart = i;
    let mut d1: u64 = 0;
    let mut d2: u64 = 0;
    let mut d3: u64 = 0;
    let mut d4: u64 = 0;
    while i < n && s.get_char(i) >= '0' && s.get_char(i) <= '9'
        invariant
            n == s@.len(),
            i0 + 1 <= fstart <= i <= n,
            i0 == if neg_lit {
                1int
            } else {
                0int
            },
            neg_lit == is_negative_literal(s@),
            t == sign_stripped(s@),
            t == s@.skip(i0 as int),
            dp == dot_pos(t),
            0 <= dp < t.len(),
            fstart == i0 + dp + 1,
            ip == int_part(s@),
            ip == t.take(dp),
            all_digits(ip),
            ip.len() > 0,
            ival == digits_value(ip),
            ival < INT_CAP * 10,
            all_digits(t.subrange(dp + 1, (i - i0) as int)),
            d1 == pad_digit(t.subrange(dp + 1, (i - i0) as int), 0),
            d2 == pad_digit(t.subrange(dp + 1, (i - i0) as int), 1),
            d3 == pad_digit(t.subrange(dp + 1, (i - i0) as int), 2),
            d4 == pad_digit(t.subrange(dp + 1, (i - i0) as int), 3),
        decreases n - i,
    {
        let c2 = s.get_char(i);
        proof {
            assert(c2 == t[(i - i0) as int]);
        }
        let dv = digit_of(c2);
        let k = i - fstart;
        if k == 0 {
            d1 = dv;
        } else if k == 1 {
            d2 = dv;
        } else if k == 2 {
            d3 = dv;
        } else if k == 3 {
            d4 = dv;
        }
        proof {
            assert(t.subrange(dp + 1, (i + 1 - i0) as int) =~= t.subrange(
                dp + 1,
                (i - i0) as int,
            ).push(t[(i - i0) as int]));
        }
        i += 1;
    }
    if i < n {
        // a non-digit inside the fractional part
        proof {
            let k = (i - i0) as int;
            assert(s@[i as int] == t[k]);
            if valid_number(s@) {
                assert(frac_part(s@)[k - (dp + 1)] == t[k]);
                assert(is_digit_char(t[k]));
            }
        }
        return None;
    }
    if i == fstart {
        // a point with no digits after it
        proof {
            if valid_number(s@) {
                assert(frac_part(s@).len() == 0);
            }
        }
        return None;
    }
    let ghost fp = t.skip(dp + 1);
    proof {
        assert(fp =~= t.subrange(dp + 1, (i - i0) as int));
        assert(frac_part(s@) == fp);
        assert(valid_number(s@));
        lemma_milli_decomp(ip, fp);
        assert(int_part(s@) + frac_part(s@) == ip + fp);
    }
    let frac3 = d1 * 100 + d2 * 10 + d3;
    let carry: u64 = if d4 >= 5 {
        1
    } else {
        0
    };
    let milli = ival * 1000 + frac3 + carry;
    proof {
        assert(milli == spec_milli(s@));
    }
    if milli > MILLI_LIMIT {
        return None;
    }
    Some(Dec3 { neg: neg_lit && milli > 0, milli })
}

pub open spec fn digit_char(d: int) -> char {
    if d == 0 {
        '0'
    } else if d == 1 {
        '1'
    } else if d == 2 {
        '2'
    } else if d == 3 {
        '3'
    } else if d == 4 {
        '4'
    } else if d == 5 {
        '5'
    } else if d == 6 {
        '6'
    } else if d == 7 {
        '7'
    } else if d == 8 {
        '8'
    } else {
        '9'
    }
}

/// The decimal digits of `n`, most significant first, no leading zeros.
pub open spec fn dec_digits(n: nat) -> Seq<char>
    decreases n,
{
    if n < 10 {
        seq![digit_char(n as int)]
    } else {
        dec_digits(n / 10) + seq![digit_char((n % 10) as int)]
    }
}

/// The fractional suffix for `r` thousandths (`0 <= r < 1000`): empty for
/// zero, otherwise a point and the three digits with trailing zeros
/// removed.
pub open spec fn frac_text(r: int) -> Seq<char> {
    if r == 0 {
        Seq::empty()
    } else if r % 100 == 0 {
        seq!['.', digit_char(r / 100)]
    } else if r % 10 == 0 {
        seq!['.', digit_char(r / 100), digit_char((r / 10) % 10)]
    } else {
        seq!['.', digit_char(r / 100), digit_char((r / 10) % 10), digit_char(r % 10)]
    }
}

impl Dec3 {
    /// The text of the value: an optional minus sign, the units, and the
    /// fractional digits with trailing zeros removed, as the platform's
    /// default decimal printing writes them.
    pub open spec fn spec_text(self) -> Seq<char> {
        let sign: Seq<char> = if self.neg && self.milli > 0 {
            seq!['-']
        } else {
            Seq::empty()
        };
        sign + dec_digits((self.milli / 1000) as nat) + frac_text((self.milli % 1000) as int)
    }

    /// Renders the value as text.
    pub fn to_text(&self) -> (r: String)
        ensures
            r@ == self.spec_text(),
    {
        let mut out = String::new();
        if self.neg && self.milli > 0 {
            proof {
                reveal_strlit("-");
                assert("-"@ =~= seq!['-']);
            }
            out.append("-");
        }
        let units = self.milli / 1000;
        let rem = self.milli % 1000;
        push_digits(&mut out, units);
        if rem > 0 {
            proof {
                reveal_strlit(".");
                assert("."@ =~= seq!['.']);
            }
            out.append(".");
            let h = rem / 100;
            let te = (rem / 10) % 10;
            let on = rem % 10;
            if rem % 100 == 0 {
                out.append(digit_str(h).as_str());
            } else if rem % 10 == 0 {
                out.append(digit_str(h).as_str());
                out.append(digit_str(te).as_str());
            } else {
                out.append(digit_str(h).as_str());
                out.append(digit_str(te).as_str());
                out.append(digit_str(on).as_str());
            }
        }
        proof {
            assert(out@ =~= self.spec_text());
        }
        out
    }
}

fn digit_str(d: u64) -> (r: String)
    requires
        d <= 9,
    ensures
        r@ == seq![digit_char(d as int)],
{
    proof {
        reveal_strlit("0");
        reveal_strlit("1");
        reveal_strlit("2");
        reveal_strlit("3");
        reveal_strlit("4");
        reveal_strlit("5");
        reveal_strlit("6");
        reveal_strlit("7");
        reveal_strlit("8");
        reveal_strlit("9");
    }
    if d == 0 {
        proof {
            assert("0"@ =~= seq!['0']);
        }
        String::from_str("0")
    } else if d == 1 {
        proof {
            assert("1"@ =~= seq!['1']);
        }
        String::from_str("1")
    } else if d == 2 {
        proof {
            assert("2"@ =~= seq!['2']);
        }
        String::from_str("2")
    } else if d == 3 {
        proof {
            assert("3"@ =~= seq!['3']);
        }
        String::from_str("3")
    } else if d == 4 {
        proof {
            assert("4"@ =~= seq!['4']);
        }
        String::from_str("4")
    } else if d == 5 {
        proof {
            assert("5"@ =~= seq!['5']);
        }
        String::from_str("5")
    } else if d == 6 {
        proof {
            assert("6"@ =~= seq!['6']);
        }
        String::from_str("6")
    } else if d == 7 {
        proof {
            assert("7"@ =~= seq!['7']);
        }
        String::from_str("7")
    } else if d == 8 {
        proof {
            assert("8"@ =~= seq!['8']);
        }
        String::from_str("8")
    } else {
        proof {
            assert("9"@ =~= seq!['9']);
        }
        String::from_str("9")
    }
}

/// Appends the decimal digits of `n` to `out`.
fn push_digits(out: &mut String, n: u64)
    ensures
        final(out)@ == old(out)@ + dec_digits(n as nat),
    decreases n,
{
    if n < 10 {
        let ds = digit_str(n);
        out.append(ds.as_str());
    } else {
        push_digits(out, n / 10);
        let ds = digit_str(n % 10);
        out.append(ds.as_str());
        proof {
            assert(old(out)@ + dec_digits((n / 10) as nat) + seq![digit_char((n % 10) as int)]
                =~= old(out)@ + dec_digits(n as nat));
        }
    }
}

} // verus!
