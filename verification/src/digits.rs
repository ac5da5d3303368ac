//! Windows of scalars: how wide they are, and the signed digits that they hold.
use crate::curve;
use crate::curve::BigInteger;
use crate::limbs;
use vstd::arithmetic::div_mod::*;
use vstd::arithmetic::mul::*;
use vstd::arithmetic::power2::*;
use vstd::prelude::*;

verus! {

/// The least exponent `e` with `x <= 2^e`.
pub open spec fn ceil_log2(x: nat) -> nat
    decreases x,
{
    if x <= 1 {
        0
    } else {
        ceil_log2((x + 1) / 2) + 1
    }
}

/// A power of two that is reached, while the one below is not, has the exponent [`ceil_log2`].
proof fn lemma_ceil_log2(x: nat, e: nat)
    requires
        x > 1,
        e > 0,
        pow2((e - 1) as nat) < x <= pow2(e),
    ensures
        ceil_log2(x) == e,
    decreases x,
{
    lemma2_to64();
    let y = (x + 1) / 2;
    lemma_pow2_unfold(e);
    if e > 1 {
        lemma_pow2_unfold((e - 1) as nat);
        lemma_pow2_pos((e - 2) as nat);
        lemma_ceil_log2(y, (e - 1) as nat);
    } else {
        assert(y == 1 && ceil_log2(1) == 0);
    }
}

/// A power of two that is reached bounds [`ceil_log2`].
pub proof fn lemma_ceil_log2_bound(x: nat, e: nat)
    requires
        x <= pow2(e),
    ensures
        ceil_log2(x) <= e,
    decreases e,
{
    lemma2_to64();
    if e > 0 {
        lemma_pow2_unfold(e);
        lemma_ceil_log2_bound((x + 1) / 2, (e - 1) as nat);
    }
}

/// Calls `ark_std::log2`, which gives the ceiling of the base-two logarithm, and zero of zero:
/// the result is the exponent of the least power of two that is at least `x`.
#[verifier::external_body]
fn log2(x: usize) -> (r: u32)
    ensures
        x <= 1 ==> r == 0,
        x > 1 ==> r > 0 && pow2((r - 1) as nat) < x <= pow2(r as nat),
{
    ark_std::log2(x)
}

/// The result of this function is only approximately `ln(a)`: the logarithm to base two, rounded
/// up, times 0.69, rounded down.
pub fn ln_without_floats(a: usize) -> (r: usize)
    ensures
        r == (ceil_log2(a as nat) * 69) / 100,
        ceil_log2(a as nat) <= 64,
{
    let l: u32 = log2(a);
    proof {
        lemma2_to64();
        if a > 1 {
            lemma_ceil_log2(a as nat, l as nat);
            if l > 65 {
                lemma_pow2_strictly_increases(64, (l - 1) as nat);
            }
        }
    }
    // log2(a) * ln(2)
    (l * 69 / 100) as usize
}

/// The number that signed digits of weight `2^(w * j)` stand for.
pub open spec fn digit_sum(d: Seq<i64>, w: nat, n: nat) -> int
    decreases n,
{
    if n == 0 {
        0
    } else {
        digit_sum(d, w, (n - 1) as nat) + d[n - 1] * pow2(w * (n - 1) as nat)
    }
}

/// Two vectors that agree on the first `n` digits stand for the same number.
pub proof fn lemma_digit_sum_agree(a: Seq<i64>, b: Seq<i64>, w: nat, n: nat)
    requires
        forall|j: int| 0 <= j < n ==> #[trigger] a[j] == b[j],
    ensures
        digit_sum(a, w, n) == digit_sum(b, w, n),
    decreases n,
{
    if n > 0 {
        lemma_digit_sum_agree(a, b, w, (n - 1) as nat);
    }
}

/// The number of windows of `w` bits that `num_bits` bits take.
pub open spec fn digits_count(num_bits: nat, w: nat) -> nat {
    (num_bits + w - 1) as nat / w
}

/// Signed digits in windows of `w` bits: all but the last are recentered to
/// `-2^(w-1) <= digit < 2^(w-1)`, and the last takes up the remaining carry.
pub open spec fn recentered(d: Seq<i64>, w: nat) -> bool {
    &&& forall|j: int|
        0 <= j < d.len() - 1 ==> -pow2((w - 1) as nat) <= #[trigger] d[j] < pow2((w - 1) as nat)
    &&& d.len() > 0 ==> 0 <= d.last() <= pow2(w)
}

/// The value of the scalar's window of `w` bits at bit `offset`.
fn window(scalar: &[u64], offset: usize, w: usize) -> (r: u64)
    requires
        1 <= w <= 62,
        offset < 64 * scalar@.len(),
    ensures
        r == (limbs::value(scalar@, 64, scalar@.len()) / pow2(offset as nat)) % pow2(w as nat),
{
    let len: usize = scalar.len();
    proof {
        lemma2_to64();
        lemma_pow2_pos(w as nat);
        lemma_pow2_strictly_increases(w as nat, 64);
        vstd::bits::lemma_u64_shl_is_mul(1, w as u64);
    }
    let radix: u64 = 1u64 << w;
    let window_mask: u64 = radix - 1;
    let u64_idx: usize = offset / 64;
    let bit_idx: usize = offset % 64;
    // Read the bits from the scalar
    let bit_buf: u64 = if bit_idx < 64 - w || u64_idx == len - 1 {
        // This window's bits are contained in a single u64,
        // or it's the last u64 anyway.
        scalar[u64_idx] >> bit_idx
    } else {
        // Combine the current u64's bits with the bits from the next u64
        (scalar[u64_idx] >> bit_idx) | (scalar[1 + u64_idx] << (64 - bit_idx))
    };
    proof {
        let y: u64 = if u64_idx + 1 < len { scalar[u64_idx + 1] } else { 0 };
        limbs::lemma_window(scalar[u64_idx as int], y, bit_idx as u64, w as nat);
        limbs::lemma_digit(scalar@, len as nat, u64_idx as nat, bit_idx as nat, w as nat);
        vstd::bits::lemma_u64_low_bits_mask_is_mod(bit_buf, w as nat);
    }
    bit_buf & window_mask
}

/// The signed digits of a scalar in windows of `w` bits, least significant first, that cover
/// `num_bits` bits of it.
pub fn make_digits<B: BigInteger>(a: &B, w: usize, num_bits: usize) -> (digits: Vec<i64>)
    requires
        1 <= w <= 62,
        1 <= num_bits <= 64 * a.words().len(),
    ensures
        digits@.len() == digits_count(num_bits as nat, w as nat),
        recentered(digits@, w as nat),
        digit_sum(digits@, w as nat, digits@.len()) == curve::integer(*a) % pow2(
            w as nat * digits@.len(),
        ),
{
    let scalar: &[u64] = a.as_words();
    let ghost v = curve::integer(*a);
    let ghost wn = w as nat;
    proof {
        lemma2_to64();
        lemma2_to64_rest();
        lemma_pow2_pos(wn);
        lemma_pow2_unfold(wn);
        lemma_pow2_pos((wn - 1) as nat);
        if w < 62 {
            lemma_pow2_strictly_increases(wn, 62);
        }
        vstd::bits::lemma_u64_shl_is_mul(1, w as u64);
        assert(wn * 0 == 0);
    }
    let radix: u64 = 1u64 << w;
    let count: usize = (num_bits - 1) / w + 1;
    let mut carry: u64 = 0;
    let mut digits: Vec<i64> = Vec::new();
    proof {
        lemma_fundamental_div_mod(num_bits - 1, w as int);
        lemma_mod_bound(num_bits - 1, w as int);
        limbs::lemma_div_multiples_vanish_quotient_add(num_bits - 1, 1, w as int);
        lemma_mul_is_commutative((num_bits - 1) / w as int, w as int);
    }
    for i in 0..count
        invariant
            1 <= w <= 62,
            wn == w,
            num_bits <= 64 * scalar@.len(),
            scalar@ == a.words(),
            v == limbs::value(scalar@, 64, scalar@.len()),
            (count - 1) * w < num_bits,
            radix == pow2(wn),
            radix > 0,
            radix == 2 * pow2((wn - 1) as nat),
            radix <= pow2(62),
            pow2(62) == 0x4000_0000_0000_0000,
            digits@.len() == i,
            forall|j: int|
                0 <= j < i && j < count - 1 ==> -pow2((wn - 1) as nat) <= #[trigger] digits@[j]
                    < pow2((wn - 1) as nat),
            i < count ==> carry <= 1 && digit_sum(digits@, wn, i as nat) + carry * pow2(
                wn * i as nat,
            ) == v % pow2(wn * i as nat),
            i == count ==> 0 <= digits@.last() <= pow2(wn) && digit_sum(digits@, wn, i as nat) == v
                % pow2(wn * i as nat),
    {
        assert(0 <= i * w <= (count - 1) * w) by (nonlinear_arith)
            requires
                0 <= i <= count - 1,
                w >= 0,
        ;
        let bits: u64 = window(scalar, i * w, w);
        proof {
            lemma_mod_bound((v / pow2((i * w) as nat)) as int, radix as int);
        }
        let coef: u64 = carry + bits;
        let ghost (carried, before) = (carry as int, digits@);
        // Recenter coefficients from [0,2^w) to [-2^w/2, 2^w/2)
        carry = (coef + radix / 2) >> w;
        proof {
            vstd::bits::lemma_u64_shr_is_div((coef + radix / 2) as u64, w as u64);
            if coef < radix / 2 {
                lemma_basic_div(coef + radix / 2, radix as int);
            } else {
                lemma_fundamental_div_mod_converse(
                    coef + radix / 2,
                    radix as int,
                    1,
                    coef - radix / 2,
                );
            }
            lemma_mul_basics(radix as int);
            vstd::bits::lemma_u64_shl_is_mul(carry, w as u64);
        }
        let digit: i64 = if i == count - 1 {
            coef as i64
        } else {
            coef as i64 - (carry << w) as i64
        };
        digits.push(digit);
        proof {
            let weight = pow2(wn * i as nat) as int;
            lemma_pow2_pos(wn * i as nat);
            limbs::lemma_weight_step(wn, i as nat);
            lemma_mod_breakdown(v as int, weight, radix as int);
            lemma_digit_sum_agree(before, digits@, wn, i as nat);
            lemma_mul_is_commutative(wn as int, i as int);
            let (b, r, c) = (bits as int, radix as int, carry as int);
            assert(b * weight == weight * b) by (nonlinear_arith);
            assert((carried + b) * weight == carried * weight + b * weight) by (nonlinear_arith);
            assert((carried + b - c * r) * weight + c * (weight * r) == carried * weight + b
                * weight) by (nonlinear_arith);
        }
    }
    digits
}

/// The logarithm, rounded up, is the exponent of the least power of two that reaches the number.
pub proof fn law_ceil_log2(x: nat)
    ensures
        x <= 1 ==> ceil_log2(x) == 0,
        x > 1 ==> ceil_log2(x) > 0 && pow2((ceil_log2(x) - 1) as nat) < x <= pow2(ceil_log2(x)),
    decreases x,
{
    lemma2_to64();
    if x > 1 {
        let y = (x + 1) / 2;
        law_ceil_log2(y);
        lemma_pow2_unfold(ceil_log2(x));
        if y > 1 {
            lemma_pow2_unfold(ceil_log2(y));
        }
    }
}

/// Digit `n` adds its multiple of `2^(w n)`.
pub proof fn law_digit_sum(d: Seq<i64>, w: nat, n: nat)
    ensures
        digit_sum(d, w, 0) == 0,
        digit_sum(d, w, n + 1) == digit_sum(d, w, n) + d[n as int] * pow2(w * n),
{
}

/// The windows cover all bits, and one fewer would not.
pub proof fn law_digits_count(num_bits: nat, w: nat)
    requires
        w > 0,
        num_bits > 0,
    ensures
        num_bits <= w * digits_count(num_bits, w) < num_bits + w,
{
    let n = (num_bits + w - 1) as int;
    lemma_fundamental_div_mod(n, w as int);
    lemma_mod_bound(n, w as int);
}

/// Digits are recentered when all but the last are in `-2^(w-1) .. 2^(w-1)`, and the last is not
/// negative and at most `2^w`.
pub proof fn law_recentered(d: Seq<i64>, w: nat)
    requires
        w > 0,
    ensures
        recentered(d, w) <==> {
            &&& forall|j: int|
                0 <= j < d.len() - 1 ==> -pow2((w - 1) as nat) <= #[trigger] d[j] < pow2(
                    (w - 1) as nat,
                )
            &&& d.len() > 0 ==> 0 <= d[d.len() - 1] <= pow2(w)
        },
{
}

} // verus!
