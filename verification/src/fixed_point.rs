//! Integer arithmetic behind approximations by dyadic fractions `a · 2^p`: shifting
//! with rounding, integer square roots, and the decimal text of a fixed-point value.

use crate::integers::{abs, big_bits, big_shl, big_shr, decimal, decimal_digits, Integer};
use vstd::arithmetic::power2::{lemma_pow2_adds, lemma_pow2_pos, lemma_pow2_strictly_increases, pow2};
use vstd::prelude::*;

verus! {

/// `v · 2^n`, rounded half up to an integer when `n` is negative.
pub open spec fn scaled(v: int, n: int) -> int {
    if n >= 0 {
        v * pow2(n as nat)
    } else {
        (v + pow2((-n - 1) as nat)) / (pow2((-n) as nat) as int)
    }
}

/// Shifts `v` by `n` bits: `v · 2^n`, with a right shift (negative `n`) rounding
/// half up.
pub fn scale(v: &Integer, n: i32) -> (r: Integer)
    requires
        n > i32::MIN,
    ensures
        r@ == scaled(v@, n as int),
{
    if n >= 0 {
        big_shl(v, n as u64)
    } else {
        let k: u64 = (0 - n) as u64;
        let one = Integer::from_i64(1);
        let half = big_shl(&one, k - 1);
        let adjusted = v.plus(&half);
        big_shr(&adjusted, k)
    }
}

/// `r` is the integer square root of `n`: `r^2 <= n < (r + 1)^2`.
pub open spec fn is_root(n: int, r: int) -> bool {
    &&& r >= 0
    &&& r * r <= n
    &&& n < (r + 1) * (r + 1)
}

/// A first guess `2^c` with `2c >= b` lies above the root of anything below `2^b`.
proof fn lemma_first_guess(n: int, b: nat, c: nat)
    requires
        n < pow2(b),
        b <= c + c,
    ensures
        n < (pow2(c) + 1) * (pow2(c) + 1),
{
    lemma_pow2_adds(c, c);
    if b < c + c {
        lemma_pow2_strictly_increases(b, c + c);
    }
    lemma_pow2_pos(c);
    let g = pow2(c) as int;
    assert(g * g < (g + 1) * (g + 1)) by (nonlinear_arith)
        requires
            g > 0,
    ;
}

/// A Newton step `next = (g + n / g) / 2` stays above the root: no `x > next` has
/// `x^2 <= n`, since `g (2x - g) <= x^2` would then exceed `g · (n / g + 1)`.
proof fn lemma_newton_step(n: int, g: int, q: int, next: int)
    requires
        n >= 1,
        g >= 1,
        g * q <= n,
        n < g * (q + 1),
        2 * next <= g + q,
        g + q < 2 * next + 2,
    ensures
        n < (next + 1) * (next + 1),
        next >= 1,
{
    let x = next + 1;
    if x * x <= n {
        assert(g * (2 * x - g) <= x * x) by (nonlinear_arith)
            requires
                g >= 1,
        ;
        assert(g * (2 * x - g) < g * (q + 1));
        assert(2 * x - g < q + 1) by (nonlinear_arith)
            requires
                g >= 1,
                g * (2 * x - g) < g * (q + 1),
        ;
    }
    assert(n < x * x);
    if next <= 0 {
        assert(q >= 0) by (nonlinear_arith)
            requires
                g >= 1,
                n >= 1,
                n < g * (q + 1),
        ;
        assert(next == 0);
        assert(x * x == 1);
    }
}

/// When the Newton step does not go down, the guess is at most the root.
proof fn lemma_newton_stop(n: int, g: int, q: int, next: int)
    requires
        g >= 1,
        g * q <= n,
        2 * next <= g + q,
        next >= g,
    ensures
        g * g <= n,
{
    assert(g <= q);
    assert(g * g <= g * q) by (nonlinear_arith)
        requires
            g >= 1,
            g <= q,
    ;
}

/// The integer square root of `n`, by Newton's method from a power of two above it;
/// zero when `n` is not positive.
pub fn isqrt(n: &Integer) -> (r: Integer)
    ensures
        n@ <= 0 ==> r@ == 0,
        n@ > 0 ==> is_root(n@, r@),
{
    let zero = Integer::from_i64(0);
    if !zero.less_than(n) {
        return zero;
    }
    let b = big_bits(n);
    let c = b / 2 + b % 2;
    let one = Integer::from_i64(1);
    let mut guess = big_shl(&one, c);
    proof {
        assert(abs(n@) == n@);
        lemma_first_guess(n@, b as nat, c as nat);
        lemma_pow2_pos(c as nat);
    }
    loop
        invariant
            n@ >= 1,
            guess@ >= 1,
            n@ < (guess@ + 1) * (guess@ + 1),
        decreases guess@,
    {
        let (q, _) = n.quot_rem(&guess);
        let sum = guess.plus(&q);
        let next = big_shr(&sum, 1);
        proof {
            assert(abs(n@) == n@ && abs(guess@) == guess@);
            let qq = abs(n@) / abs(guess@);
            assert(q@ == qq);
            vstd::arithmetic::div_mod::lemma_fundamental_div_mod(n@, guess@);
            vstd::arithmetic::div_mod::lemma_mod_bound(n@, guess@);
            assert(pow2(1) == 2) by {
                vstd::arithmetic::power2::lemma2_to64();
            }
            vstd::arithmetic::div_mod::lemma_fundamental_div_mod(sum@, 2);
            vstd::arithmetic::div_mod::lemma_mod_bound(sum@, 2);
            assert(guess@ * q@ <= n@);
            assert(n@ < guess@ * (q@ + 1)) by (nonlinear_arith)
                requires
                    n@ == guess@ * q@ + n@ % guess@,
                    n@ % guess@ < guess@,
            ;
            lemma_newton_step(n@, guess@, q@, next@);
        }
        if !next.less_than(&guess) {
            proof {
                lemma_newton_stop(n@, guess@, q@, next@);
            }
            return guess;
        }
        guess = next;
    }
}

/// `t`, with zeros in front to give it at least `d + 1` digits.
pub open spec fn padded(t: Seq<char>, d: nat) -> Seq<char> {
    if t.len() <= d {
        Seq::new((d + 1 - t.len()) as nat, |i: int| '0') + t
    } else {
        t
    }
}

/// `v / 10^d` in decimal, with `d` digits after the point: the digits of `|v|`,
/// padded so that at least one stands before the point, and a `-` in front when `v`
/// is negative. With `d == 0` there is no point.
pub open spec fn fixed_point(v: int, d: nat) -> Seq<char> {
    let t = decimal_digits(abs(v));
    let body = if d == 0 {
        t
    } else {
        let u = padded(t, d);
        u.subrange(0, u.len() - d) + seq!['.'] + u.subrange(u.len() - d, u.len() as int)
    };
    if v < 0 {
        seq!['-'] + body
    } else {
        body
    }
}

/// The decimal digits of a number are never empty.
proof fn lemma_digits_nonempty(n: nat)
    ensures
        decimal_digits(n).len() >= 1,
    decreases n,
{
    if n >= 10 {
        lemma_digits_nonempty(n / 10);
    }
}

/// The text of `value / 10^digits` with `digits` digits after the point.
pub fn fixed_point_text(value: &Integer, digits: u32) -> (r: String)
    ensures
        r@ == fixed_point(value@, digits as nat),
{
    let negative = value.is_negative();
    let magnitude = value.magnitude();
    let text = magnitude.to_string();
    let ghost t = decimal_digits(abs(value@));
    proof {
        assert(decimal(magnitude@) == t);
        lemma_digits_nonempty(abs(value@));
    }
    let mut out = String::new();
    if negative {
        out.append("-");
        proof {
            reveal_strlit("-");
        }
    }
    let ghost prefix = out@;
    let d = digits as usize;
    if d == 0 {
        out.append(text.as_str());
        return out;
    }
    let len = text.as_str().unicode_len();
    let mut digits_text = String::new();
    if len <= d {
        let count = (d - len) + 1;
        let mut i: usize = 0;
        while i < count
            invariant
                i <= count,
                digits_text@ == Seq::new(i as nat, |k: int| '0'),
            decreases count - i,
        {
            digits_text.append("0");
            proof {
                reveal_strlit("0");
                assert(digits_text@ =~= Seq::new((i + 1) as nat, |k: int| '0'));
            }
            i = i + 1;
        }
    }
    digits_text.append(text.as_str());
    let ghost u = padded(t, d as nat);
    assert(digits_text@ =~= u);
    let total = digits_text.as_str().unicode_len();
    out.append(digits_text.as_str().substring_char(0, total - d));
    out.append(".");
    proof {
        reveal_strlit(".");
    }
    out.append(digits_text.as_str().substring_char(total - d, total));
    assert(out@ =~= fixed_point(value@, digits as nat));
    out
}

} // verus!
