//! Lazy-carry field arithmetic in nine 29-bit limbs.
//!
//! With 29-bit limbs every product is < 2^58 and a u64 column absorbs all 18 products of a
//! multiplication WITHOUT propagating carries: the inner loop has no dependency chain. Hot kernels
//! convert whole arrays into this domain at their boundaries and convert back once done.
//!
//! Domain: an element x is represented by nine u64 limbs (< 2^29 each) encoding the integer
//! `x * 2^261` modulo p, kept under the LAZY BOUND `value < 2p` between operations; [`exit`]
//! performs the final reduction.
//!
//! Two API layers: the generic functions (`mont_mul::<T: MontConfig<4>>`) take the constants from
//! a configuration, and the `*_p` functions take a runtime [`Params`] so callers that only know
//! the modulus can still enter the domain; [`Params::from_modulus`] derives every constant from p
//! alone.
use crate::config::{BigInt, MontConfig};
use crate::limbs;
use crate::montgomery;
use vstd::arithmetic::div_mod::*;
use vstd::arithmetic::mul::*;
use vstd::arithmetic::power2::*;
use vstd::prelude::*;

verus! {

const W: u32 = 29;

const MASK: u64 = 0x1fff_ffff;

/// 9 * 29 = 261 bits: fits any 256-bit modulus with lazy headroom.
pub const LIMBS: usize = 9;

/// 256-bit little-endian u64 limbs -> nine 29-bit limbs.
pub fn split29(l: [u64; 4]) -> (out: [u64; LIMBS])
    ensures
        limbs::carried(out),
        limbs::value29(out) == limbs::value64(l),
{
    let mut out: [u64; LIMBS] = [0u64; LIMBS];
    let mut j: usize = 0;
    proof {
        lemma2_to64();
    }
    let ghost v = limbs::value64(l);
    while j < LIMBS
        invariant
            j <= 9,
            v == limbs::value64(l),
            pow2(29) == 0x2000_0000,
            forall|i: int|
                0 <= i < j ==> #[trigger] out[i] == (v / pow2(29 * i as nat)) % pow2(29),
        decreases 9 - j,
    {
        let bit: usize = 29 * j;
        let w: usize = bit / 64;
        let off: usize = bit % 64;
        let mut x: u64 = l[w] >> off;
        proof {
            let y: u64 = if w < 3 { l[w as int + 1] } else { 0 };
            limbs::lemma_window(l[w as int], y, off as u64, 29);
            limbs::lemma_digit(l@, 4, w as nat, off as nat, 29);
        }
        if off > 35 && w + 1 < 4 {
            x |= l[w + 1] << (64 - off);
        }
        proof {
            limbs::lemma_carry29(x);
        }
        out[j] = x & MASK;
        j += 1;
    }
    proof {
        limbs::lemma_digits_value(out@, 29, 9, v);
        limbs::lemma_value64_bound(l);
        lemma_pow2_strictly_increases(256, 261);
        lemma_small_mod(v, pow2(261));
        assert forall|i: int| 0 <= i < 9 implies #[trigger] out@[i] < pow2(29) by {
            assert(out[i] == (v / pow2(29 * i as nat)) % pow2(29));
        }
    }
    out
}

/// Nine 29-bit limbs (fully carried, value < 2^256) -> u64 limbs.
pub fn join29(l: [u64; LIMBS]) -> (out: [u64; 4])
    requires
        limbs::carried(l),
        limbs::value29(l) < pow2(256),
    ensures
        limbs::value64(out) == limbs::value29(l),
{
    let mut out: [u64; 4] = [0u64; 4];
    let mut j: usize = 0;
    proof {
        lemma2_to64();
        limbs::lemma_value_zero(out@, 64, 4);
    }
    while j < LIMBS
        invariant
            j <= 9,
            limbs::carried(l),
            limbs::value29(l) < pow2(256),
            limbs::value64(out) == limbs::value(l@, 29, j as nat),
            pow2(29) == 0x2000_0000,
        decreases 9 - j,
    {
        let bit: usize = 29 * j;
        let w: usize = bit / 64;
        let off: usize = bit % 64;
        let ghost old_out = out@;
        let ghost q = pow2(off as nat) as int;
        let ghost s = pow2(64 * w as nat) as int;
        proof {
            limbs::lemma_value_bound(l@, 29, j as nat);
            limbs::lemma_free_bits(out@, w as nat, off as nat);
            if j == 8 {
                limbs::lemma_limb_le(l@, 29, 9, 8);
                lemma_pow2_adds(232, 24);
                lemma_pow2_pos(232);
                let (x, e) = (l[8] as int, pow2(232) as int);
                assert(x < pow2(24)) by (nonlinear_arith)
                    requires
                        x * e < e * pow2(24),
                        e > 0,
                ;
            }
            limbs::lemma_place29(out[w as int], l[j as int], off as u64);
            lemma_pow2_adds(64 * w as nat, off as nat);
        }
        out[w] = out[w] | (l[j] << off);
        proof {
            limbs::lemma_value_update(old_out, 64, 4, w as nat, out[w as int]);
            assert(out@ == old_out.update(w as int, out[w as int]));
        }
        if off > 35 && w + 1 < 4 {
            let ghost mid_out = out@;
            let ghost hi = l[j as int] >> ((64 - off) as u64);
            proof {
                assert(0u64 | hi == hi) by (bit_vector);
            }
            out[w + 1] = out[w + 1] | (l[j] >> (64 - off));
            proof {
                assert(out@ == mid_out.update(w as int + 1, out[w as int + 1]));
                limbs::lemma_value_update(mid_out, 64, 4, (w + 1) as nat, hi);
                limbs::lemma_weight_step(64, w as nat);
                let d = mid_out[w as int] - old_out[w as int];
                lemma2_to64();
                assert(d * s + hi * (s * 0x1_0000_0000_0000_0000) == l[j as int] * (s * q))
                    by (nonlinear_arith)
                    requires
                        d + 0x1_0000_0000_0000_0000 * hi == l[j as int] * q,
                ;
            }
        } else {
            proof {
                let d = out[w as int] - old_out[w as int];
                assert(d * s == l[j as int] * (s * q)) by (nonlinear_arith)
                    requires
                        d == l[j as int] * q,
                ;
            }
        }
        j += 1;
    }
    out
}

/// Doubles a number held in nine 29-bit limbs; what does not fit in 261 bits is dropped.
fn double29(p: [u64; LIMBS]) -> (out: [u64; LIMBS])
    requires
        limbs::carried(p),
    ensures
        limbs::carried(out),
        limbs::value29(out) == (2 * limbs::value29(p)) % pow2(261),
{
    let mut out: [u64; LIMBS] = [0u64; LIMBS];
    let mut carry: u64 = 0;
    let mut j: usize = 0;
    proof {
        lemma2_to64();
        lemma_mul_basics(pow2(29 * 0) as int);
    }
    while j < LIMBS
        invariant
            j <= 9,
            carry <= 1,
            limbs::carried(p),
            pow2(29) == 0x2000_0000,
            forall|i: int| 0 <= i < j ==> #[trigger] out[i] < pow2(29),
            limbs::value(out@, 29, j as nat) + carry * pow2(29 * j as nat) == 2 * limbs::value(
                p@,
                29,
                j as nat,
            ),
        decreases 9 - j,
    {
        let ghost old_out = out@;
        let ghost old_carry = carry;
        let pj: u64 = p[j];
        assert(((pj << 1) | carry) == 2 * pj + carry) by (bit_vector)
            requires
                pj < 0x2000_0000,
                carry <= 1,
        ;
        let v: u64 = (pj << 1) | carry;
        proof {
            limbs::lemma_carry29(v);
        }
        out[j] = v & MASK;
        carry = v >> W;
        proof {
            limbs::lemma_value_agree(old_out, out@, 29, j as nat);
            limbs::lemma_weight_step(29, j as nat);
            let s = pow2(29 * j as nat) as int;
            assert((out[j as int] + 0x2000_0000 * carry) * s == (2 * pj + old_carry) * s);
            assert(out[j as int] * s + carry * (s * 0x2000_0000) == (out[j as int] + 0x2000_0000
                * carry) * s) by (nonlinear_arith);
            assert(2 * (pj * s) + old_carry * s == (2 * pj + old_carry) * s) by (nonlinear_arith);
        }
        j += 1;
    }
    proof {
        limbs::lemma_value_bound(out@, 29, 9);
        lemma_fundamental_div_mod_converse(
            (2 * limbs::value29(p)) as int,
            pow2(261) as int,
            carry as int,
            limbs::value29(out) as int,
        );
    }
    out
}

/// `p[0]^-1 mod 2^64`, negated (Newton iteration; p[0] odd).
fn neg_inv_pow2_64(p0: u64) -> (r: u64)
    requires
        p0 % 2 == 1,
    ensures
        (p0 * r + 1) % pow2(64) as int == 0,
{
    // Seed correct mod 2^3 for odd p0; each step doubles the precision.
    let mut inv: u64 = p0;
    let mut i: usize = 0;
    let ghost mut e: nat = 3;
    proof {
        lemma2_to64();
        let (q, t) = (p0 as int / 8, p0 as int % 8);
        assert(p0 == 8 * q + t);
        assert(p0 * p0 - 1 == 8 * (8 * q * q + 2 * q * t) + (t * t - 1)) by (nonlinear_arith)
            requires
                p0 == 8 * q + t,
        ;
        assert(t == 1 || t == 3 || t == 5 || t == 7);
        assert(t * t == 1 || t * t == 9 || t * t == 25 || t * t == 49) by (nonlinear_arith)
            requires
                t == 1 || t == 3 || t == 5 || t == 7,
        ;
        lemma_mod_multiples_vanish(8 * q * q + 2 * q * t, t * t - 1, 8);
    }
    while i < 5
        invariant
            i <= 5,
            i == 0 ==> e == 3,
            i == 1 ==> e == 6,
            i == 2 ==> e == 12,
            i == 3 ==> e == 24,
            i == 4 ==> e == 48,
            i == 5 ==> e == 64,
            (p0 * inv - 1) % pow2(e) as int == 0,
        decreases 5 - i,
    {
        let ghost inv0 = inv;
        inv = inv.wrapping_mul(2u64.wrapping_sub(p0.wrapping_mul(inv)));
        proof {
            let e2: nat = if e == 48 { 64 } else { 2 * e };
            lemma_newton_step(p0, inv0, inv, e, e2);
            e = e2;
        }
        i += 1;
    }
    proof {
        lemma2_to64();
    }
    let r: u64 = 0u64.wrapping_sub(inv);
    proof {
        let m = 0x1_0000_0000_0000_0000int;
        let k = (p0 * inv - 1) / m;
        lemma_fundamental_div_mod(p0 * inv - 1, m);
        if inv == 0 {
            lemma_mul_basics(p0 as int);
            assert(false);
        }
        assert(r == m - inv);
        assert(p0 * r + 1 == m * (p0 - k)) by (nonlinear_arith)
            requires
                r == m - inv,
                p0 * inv - 1 == m * k,
        ;
        lemma_mod_multiples_basic(p0 - k, m);
    }
    r
}

/// One Newton step `inv (2 - p inv)` doubles the number of correct low bits.
proof fn lemma_newton_step(p0: u64, inv: u64, next: u64, e: nat, e2: nat)
    requires
        e2 <= 2 * e,
        e2 <= 64,
        (p0 * inv - 1) % pow2(e) as int == 0,
        next == inv.wrapping_mul(2u64.wrapping_sub(p0.wrapping_mul(inv))),
    ensures
        (p0 * next - 1) % pow2(e2) as int == 0,
{
    lemma2_to64();
    let m = 0x1_0000_0000_0000_0000int;
    let y = p0 * inv;
    lemma_mul_nonnegative(p0 as int, inv as int);
    let a = p0.wrapping_mul(inv) as int;
    lemma_fundamental_div_mod(y, m);
    let ka = y / m;
    assert(y == m * ka + a);
    let b = 2u64.wrapping_sub(p0.wrapping_mul(inv)) as int;
    let kb: int = if a > 2 { 1 } else { 0 };
    assert(b == 2 - a + m * kb);
    let kc = (inv * b) / m;
    lemma_mul_nonnegative(inv as int, b);
    lemma_fundamental_div_mod(inv * b, m);
    assert(inv * b == m * kc + next);
    lemma_pow2_pos(e);
    let d = pow2(e) as int;
    let k = (y - 1) / d;
    lemma_fundamental_div_mod(y - 1, d);
    assert(y - 1 == d * k);
    // p next - 1 == -(y - 1)^2 + 2^64 t
    let t = y * (ka + kb) - p0 * kc;
    assert(p0 * next - 1 == m * t - (y - 1) * (y - 1)) by {
        assert(b == 2 - y + m * (ka + kb)) by (nonlinear_arith)
            requires
                b == 2 - a + m * kb,
                y == m * ka + a,
        ;
        let u = ka + kb;
        assert(p0 * (inv * b) == y * b) by (nonlinear_arith)
            requires
                y == p0 * inv,
        ;
        assert(y * b == y * 2 - y * y + m * (y * u)) by (nonlinear_arith)
            requires
                b == 2 - y + m * u,
        ;
        assert(p0 * (inv * b) == m * (p0 * kc) + p0 * next) by (nonlinear_arith)
            requires
                inv * b == m * kc + next,
        ;
        assert((y - 1) * (y - 1) == y * y - y * 2 + 1) by (nonlinear_arith);
        assert(m * (y * u - p0 * kc) == m * (y * u) - m * (p0 * kc)) by (nonlinear_arith);
    }
    // both terms are multiples of 2^e2
    let d2 = pow2(e2) as int;
    lemma_pow2_pos(e2);
    lemma_pow2_adds(e2, (64 - e2) as nat);
    lemma_pow2_adds(e, e);
    lemma_pow2_adds(e2, (2 * e - e2) as nat);
    let (f, g) = (pow2((64 - e2) as nat) as int, pow2((2 * e - e2) as nat) as int);
    assert((y - 1) * (y - 1) == (d * d) * (k * k)) by (nonlinear_arith)
        requires
            y - 1 == d * k,
    ;
    assert(m * t - (d * d) * (k * k) == (f * t - g * (k * k)) * d2) by (nonlinear_arith)
        requires
            m == d2 * f,
            d * d == d2 * g,
    ;
    lemma_mod_multiples_basic(f * t - g * (k * k), d2);
}

/// Whether `a >= b`.
fn geq4(a: &[u64; 4], b: &[u64; 4]) -> (r: bool)
    ensures
        r == (limbs::value64(*a) >= limbs::value64(*b)),
{
    let mut j: usize = 3;
    proof {
        lemma2_to64();
    }
    loop
        invariant
            j <= 3,
            pow2(64) == 0x1_0000_0000_0000_0000,
            forall|k: int| j < k < 4 ==> #[trigger] a[k] == b[k],
        decreases j,
    {
        if a[j] != b[j] {
            proof {
                if a[j as int] < b[j as int] {
                    limbs::lemma_value_less(a@, b@, 64, 4, j as nat);
                } else {
                    limbs::lemma_value_less(b@, a@, 64, 4, j as nat);
                }
            }
            return a[j] > b[j];
        }
        if j == 0 {
            proof {
                limbs::lemma_value_agree(a@, b@, 64, 4);
            }
            return true;
        }
        j -= 1;
    }
}

/// `a - b` modulo `2^256`.
fn sub4(a: &[u64; 4], b: &[u64; 4]) -> (out: [u64; 4])
    ensures
        limbs::value64(out) == (limbs::value64(*a) - limbs::value64(*b)) % pow2(256) as int,
{
    let mut out: [u64; 4] = [0u64; 4];
    let mut borrow: u64 = 0;
    let mut j: usize = 0;
    proof {
        lemma2_to64();
        lemma_mul_basics(pow2(64 * 0) as int);
    }
    while j < 4
        invariant
            j <= 4,
            borrow <= 1,
            pow2(64) == 0x1_0000_0000_0000_0000,
            limbs::value(out@, 64, j as nat) + limbs::value(b@, 64, j as nat) == limbs::value(
                a@,
                64,
                j as nat,
            ) + borrow * pow2(64 * j as nat),
        decreases 4 - j,
    {
        let ghost old_out = out@;
        let ghost old_borrow = borrow;
        let v: u64 = a[j].wrapping_sub(b[j]);
        let b1: bool = a[j] < b[j];
        let x: u64 = v.wrapping_sub(borrow);
        let b2: bool = v < borrow;
        out[j] = x;
        borrow = if b1 || b2 {
            1
        } else {
            0
        };
        proof {
            limbs::lemma_value_agree(old_out, out@, 64, j as nat);
            limbs::lemma_weight_step(64, j as nat);
            let s = pow2(64 * j as nat) as int;
            let m = 0x1_0000_0000_0000_0000int;
            assert(x + b[j as int] == a[j as int] + m * borrow - old_borrow);
            assert(x * s + b[j as int] * s == a[j as int] * s + borrow * (s * m) - old_borrow * s)
                by (nonlinear_arith)
                requires
                    x + b[j as int] == a[j as int] + m * borrow - old_borrow,
            ;
        }
        j += 1;
    }
    proof {
        limbs::lemma_value64_bound(out);
        lemma_pow2_pos(256);
        lemma_mul_unary_negation(borrow as int, pow2(256) as int);
        lemma_mul_is_commutative(-(borrow as int), pow2(256) as int);
        lemma_fundamental_div_mod_converse(
            limbs::value64(*a) - limbs::value64(*b),
            pow2(256) as int,
            -(borrow as int),
            limbs::value64(out) as int,
        );
    }
    out
}

/// `2x mod p` for `x < p < 2^255` (the doubling cannot overflow 256 bits).
fn double_mod4(x: &[u64; 4], p4: &[u64; 4]) -> (out: [u64; 4])
    requires
        limbs::value64(*x) < limbs::value64(*p4) < pow2(255),
    ensures
        limbs::value64(out) == (2 * limbs::value64(*x)) % limbs::value64(*p4),
{
    let mut out: [u64; 4] = [0u64; 4];
    let mut carry: u64 = 0;
    let mut j: usize = 0;
    proof {
        lemma2_to64();
        lemma_mul_basics(pow2(64 * 0) as int);
    }
    while j < 4
        invariant
            j <= 4,
            carry <= 1,
            pow2(64) == 0x1_0000_0000_0000_0000,
            limbs::value(out@, 64, j as nat) + carry * pow2(64 * j as nat) == 2 * limbs::value(
                x@,
                64,
                j as nat,
            ),
        decreases 4 - j,
    {
        let ghost old_out = out@;
        let ghost old_carry = carry;
        let xj: u64 = x[j];
        proof {
            assert(((xj << 1) | carry) + 0x1_0000_0000_0000_0000 * (xj >> 63) == 2 * xj + carry && (xj
                >> 63) <= 1) by (bit_vector)
                requires
                    carry <= 1,
            ;
        }
        out[j] = (xj << 1) | carry;
        carry = xj >> 63;
        proof {
            limbs::lemma_value_agree(old_out, out@, 64, j as nat);
            limbs::lemma_weight_step(64, j as nat);
            let s = pow2(64 * j as nat) as int;
            let m = 0x1_0000_0000_0000_0000int;
            assert(out[j as int] * s + carry * (s * m) == 2 * (xj * s) + old_carry * s)
                by (nonlinear_arith)
                requires
                    out[j as int] + m * carry == 2 * xj + old_carry,
            ;
        }
        j += 1;
    }
    let ghost v = limbs::value64(*x) as int;
    let ghost p = limbs::value64(*p4) as int;
    proof {
        lemma_pow2_adds(255, 1);
        lemma_pow2_pos(256);
        let s = pow2(256) as int;
        if carry >= 1 {
            assert(carry * s >= s) by (nonlinear_arith)
                requires
                    carry >= 1,
                    s >= 0,
            ;
        }
        lemma_mul_basics(s);
    }
    assert(limbs::value64(out) == 2 * v);
    if geq4(&out, p4) {
        out = sub4(&out, p4);
        proof {
            lemma_small_mod((2 * v - p) as nat, pow2(256));
            lemma_fundamental_div_mod_converse(2 * v, p, 1, 2 * v - p);
        }
    } else {
        proof {
            lemma_small_mod((2 * v) as nat, p as nat);
        }
    }
    out
}

/// `2^k mod p` by k modular doublings of 1.
fn pow2_mod4(k: u32, p4: &[u64; 4]) -> (x: [u64; 4])
    requires
        0 < limbs::value64(*p4) < pow2(255),
    ensures
        limbs::value64(x) == pow2(k as nat) % limbs::value64(*p4),
{
    let mut x: [u64; 4] = [1u64, 0, 0, 0];
    let ghost p = limbs::value64(*p4);
    proof {
        lemma2_to64();
        limbs::lemma_value_head(x@, 64, 4);
        limbs::lemma_value_zero(x@.skip(1), 64, 3);
        lemma_mul_basics(pow2(64) as int);
    }
    assert(limbs::value64(x) == 1);
    // only for p = 1 is 1 not already reduced
    if geq4(&x, p4) {
        x = sub4(&x, p4);
        proof {
            lemma_pow2_pos(256);
            lemma_small_mod(0, pow2(256));
        }
    } else {
        proof {
            lemma_small_mod(1, p);
        }
    }
    let mut i: u32 = 0;
    while i < k
        invariant
            i <= k,
            p == limbs::value64(*p4),
            0 < p < pow2(255),
            limbs::value64(x) == pow2(i as nat) % p,
        decreases k - i,
    {
        x = double_mod4(&x, p4);
        proof {
            lemma_pow2_unfold((i + 1) as nat);
            lemma_mul_mod_noop_right(2, pow2(i as nat) as int, p as int);
        }
        i += 1;
    }
    x
}

/// Every constant the domain operations need, derivable from the modulus
/// alone ([`Params::from_modulus`]), for callers that cannot name a
/// [`MontConfig`]. `r`/`two_r` are the representations of
/// 1 and 2 in standard Montgomery form: such callers compare them against
/// the representations of one and two to verify at runtime that a field's
/// internal representation really is `x * 2^256 mod p`.
#[derive(Clone, Copy, Debug, PartialEq, Eq)]
pub struct Params {
    /// The modulus in 29-bit limbs.
    pub p: [u64; LIMBS],
    /// Twice the modulus in 29-bit limbs (the lazy bound).
    pub two_p: [u64; LIMBS],
    /// `-p^{-1} mod 2^29`.
    pub inv: u64,
    /// `2^266 mod p` in 29-bit limbs: multiplying a 2^256 Montgomery
    /// representation by it in-domain maps `x*2^256` to `x*2^261`.
    pub entry: [u64; LIMBS],
    /// `2^256 mod p` in 29-bit limbs: multiplying in-domain maps
    /// `x*2^261` back to `x*2^256`.
    pub exit: [u64; LIMBS],
    /// `R = 2^256 mod p`, the standard Montgomery representation of 1.
    pub r: [u64; 4],
    /// `2R mod p`, the standard Montgomery representation of 2.
    pub two_r: [u64; 4],
}

/// The moduli that the domain can host: odd and below `2^255`.
pub open spec fn hosts(p: nat) -> bool {
    p % 2 == 1 && p < pow2(255)
}

/// Carried limbs under the lazy bound `2p`.
pub open spec fn is_lazy(p: nat, d: [u64; LIMBS]) -> bool {
    limbs::carried(d) && limbs::value29(d) < 2 * p
}

/// The sum of two numbers below `2p`, less `2p` where it reaches `2p`.
pub open spec fn lazy_sum(a: nat, b: nat, p: nat) -> nat {
    if a + b >= 2 * p {
        (a + b - 2 * p) as nat
    } else {
        a + b
    }
}

/// The difference of two numbers below `2p`, plus `2p` where it is negative.
pub open spec fn lazy_difference(a: nat, b: nat, p: nat) -> nat {
    if a >= b {
        (a - b) as nat
    } else {
        (a - b + 2 * p) as nat
    }
}

/// The field element, as a number below `p`, whose domain form is `d`: `d / 2^261` modulo `p`.
pub open spec fn element_of(p: nat, d: [u64; LIMBS]) -> nat {
    montgomery::unscale(limbs::value29(d), p, 261)
}

/// The field element, as a number below `p`, whose standard Montgomery form is `w`: `w / 2^256`
/// modulo `p`.
pub open spec fn residue_of(p: nat, w: [u64; 4]) -> nat {
    montgomery::unscale(limbs::value64(w), p, 256)
}

impl Params {
    /// The modulus.
    pub open spec fn modulus(&self) -> nat {
        limbs::value29(self.p)
    }

    /// The fields hold the constants of one modulus that the domain can host.
    pub open spec fn wf(&self) -> bool {
        let p = self.modulus();
        &&& hosts(p)
        &&& limbs::carried(self.p)
        &&& limbs::carried(self.two_p)
        &&& limbs::value29(self.two_p) == 2 * p
        &&& self.inv < pow2(29)
        &&& (p * self.inv + 1) % pow2(29) as int == 0
        &&& limbs::carried(self.entry)
        &&& limbs::value29(self.entry) == pow2(266) % p
        &&& limbs::carried(self.exit)
        &&& limbs::value29(self.exit) == pow2(256) % p
        &&& limbs::value64(self.r) == pow2(256) % p
        &&& limbs::value64(self.two_r) == pow2(257) % p
    }

    /// An element of the domain: carried limbs under the lazy bound `2p`.
    pub open spec fn lazy(&self, d: [u64; LIMBS]) -> bool {
        is_lazy(self.modulus(), d)
    }

    /// The field element whose domain form is `d`.
    pub open spec fn element(&self, d: [u64; LIMBS]) -> nat {
        element_of(self.modulus(), d)
    }

    /// The field element whose standard Montgomery form is `w`.
    pub open spec fn residue(&self, w: [u64; 4]) -> nat {
        residue_of(self.modulus(), w)
    }

    /// Derives the domain constants from a modulus given as little-endian
    /// u64 limbs. `None` when the modulus is even or >= 2^255 (the lazy
    /// bound `t < p/16 + p < 2p` needs that headroom).
    pub fn from_modulus(p4: [u64; 4]) -> (res: Option<Params>)
        ensures
            res is Some <==> hosts(limbs::value64(p4)),
            res is Some <==> p4[0] % 2 == 1 && p4[3] < 0x8000_0000_0000_0000,
            res matches Some(pr) ==> pr.wf() && pr.modulus() == limbs::value64(p4),
            res matches Some(pr) ==> {
                let p = limbs::value64(p4);
                &&& limbs::value29(pr.p) == p
                &&& limbs::value29(pr.two_p) == 2 * p
                &&& pr.inv < pow2(29) && (p * pr.inv + 1) % pow2(29) as int == 0
                &&& limbs::value29(pr.entry) == pow2(266) % p
                &&& limbs::value29(pr.exit) == pow2(256) % p
                &&& limbs::value64(pr.r) == pow2(256) % p
                &&& limbs::value64(pr.two_r) == (2 * limbs::value64(pr.r)) % p
            },
    {
        let ghost v = limbs::value64(p4);
        proof {
            lemma_hosts_words(p4);
        }
        if p4[0] & 1 == 0 || p4[3] >> 63 != 0 {
            return None;
        }
        let p: [u64; LIMBS] = split29(p4);
        let r: [u64; 4] = pow2_mod4(256, &p4);
        let two_p: [u64; LIMBS] = double29(p);
        let ninv: u64 = neg_inv_pow2_64(p4[0]);
        let inv: u64 = ninv & MASK;
        let entry: [u64; LIMBS] = split29(pow2_mod4(266, &p4));
        let exit: [u64; LIMBS] = split29(r);
        proof {
            lemma_mod_bound(pow2(256) as int, v as int);
        }
        let two_r: [u64; 4] = double_mod4(&r, &p4);
        proof {
            lemma2_to64();
            lemma_pow2_strictly_increases(256, 261);
            lemma_pow2_adds(255, 1);
            lemma_small_mod(2 * v, pow2(261));
            lemma_pow2_unfold(257);
            lemma_mul_mod_noop_right(2, pow2(256) as int, v as int);
            limbs::lemma_carry29(ninv);
            lemma_inv29(p4, ninv, inv);
        }
        Some(Params { p, two_p, inv, entry, exit, r, two_r })
    }
}

/// Parity and size of a four-word number can be read off its outer words.
proof fn lemma_hosts_words(p4: [u64; 4])
    ensures
        hosts(limbs::value64(p4)) <==> (p4[0] & 1 == 1 && p4[3] >> 63 == 0),
        p4[0] & 1 == 0 || p4[0] & 1 == 1,
        p4[0] & 1 == 1 <==> p4[0] % 2 == 1,
        p4[3] >> 63 == 0 <==> p4[3] < 0x8000_0000_0000_0000,
        hosts(limbs::value64(p4)) ==> limbs::value64(p4) > 0,
{
    lemma2_to64();
    let (p0, p3) = (p4[0], p4[3]);
    assert(p0 & 1 == p0 % 2) by (bit_vector);
    let v = limbs::value64(p4);
    limbs::lemma_value_head(p4@, 64, 4);
    let rest = limbs::value(p4@.skip(1), 64, 3);
    assert(v == p0 + 0x1_0000_0000_0000_0000 * rest);
    limbs::lemma_value_bound(p4@, 64, 3);
    let low = limbs::value(p4@, 64, 3) as int;
    lemma_pow2_adds(192, 63);
    lemma2_to64_rest();
    let s = pow2(192) as int;
    if p3 >> 63 == 0 {
        assert(p3 < 0x8000_0000_0000_0000) by (bit_vector)
            requires
                p3 >> 63 == 0,
        ;
        assert(low + p3 * s < s * 0x8000_0000_0000_0000) by (nonlinear_arith)
            requires
                0 <= low < s,
                p3 + 1 <= 0x8000_0000_0000_0000,
        ;
    } else {
        assert(p3 >= 0x8000_0000_0000_0000) by (bit_vector)
            requires
                p3 >> 63 != 0,
        ;
        assert(low + p3 * s >= s * 0x8000_0000_0000_0000) by (nonlinear_arith)
            requires
                low >= 0,
                s >= 0,
                p3 >= 0x8000_0000_0000_0000,
        ;
    }
}

/// The low 29 bits of the 64-bit Montgomery constant serve the whole modulus.
proof fn lemma_inv29(p4: [u64; 4], ninv: u64, inv: u64)
    requires
        (p4[0] * ninv + 1) % pow2(64) as int == 0,
        inv == ninv % 0x2000_0000,
    ensures
        (limbs::value64(p4) * inv + 1) % 0x2000_0000 == 0,
{
    lemma2_to64();
    let m = 0x2000_0000int;
    let p0 = p4[0] as int;
    limbs::lemma_value_head(p4@, 64, 4);
    let rest = limbs::value(p4@.skip(1), 64, 3) as int;
    let v = limbs::value64(p4) as int;
    let k = (p0 * ninv + 1) / 0x1_0000_0000_0000_0000;
    lemma_fundamental_div_mod(p0 * ninv + 1, 0x1_0000_0000_0000_0000);
    let q = ninv as int / m;
    assert(v * inv + 1 == m * (0x8_0000_0000 * k - p0 * q + 0x8_0000_0000 * (rest * inv)))
        by (nonlinear_arith)
        requires
            v == p0 + 0x1_0000_0000_0000_0000 * rest,
            ninv == m * q + inv,
            p0 * ninv + 1 == 0x1_0000_0000_0000_0000 * k,
            m == 0x2000_0000,
    ;
    lemma_mod_multiples_basic(0x8_0000_0000 * k - p0 * q + 0x8_0000_0000 * (rest * inv), m);
}

/// One full carry propagation (limbs restored to < 2^29).
pub(crate) fn carry_pass(t: &mut [u64; LIMBS])
    requires
        forall|j: int| 0 <= j < 9 ==> #[trigger] old(t)[j] <= u64::MAX - 0x8_0000_0000,
        limbs::value29(*old(t)) < pow2(261),
    ensures
        limbs::carried(*final(t)),
        limbs::value29(*final(t)) == limbs::value29(*old(t)),
{
    let mut carry: u64 = 0;
    let ghost t0 = t@;
    proof {
        lemma2_to64();
        lemma_mul_basics(pow2(29 * 0) as int);
    }
    for j in 0..LIMBS
        invariant
            pow2(29) == 0x2000_0000,
            carry < 0x8_0000_0000,
            t0 == old(t)@,
            forall|i: int| 0 <= i < 9 ==> #[trigger] t0[i] <= u64::MAX - 0x8_0000_0000,
            forall|i: int| j <= i < 9 ==> #[trigger] t[i] == t0[i],
            forall|i: int| 0 <= i < j ==> #[trigger] t[i] < 0x2000_0000,
            limbs::value(t@, 29, j as nat) + carry * pow2(29 * j as nat) == limbs::value(
                t0,
                29,
                j as nat,
            ),
    {
        let ghost before = t@;
        let ghost old_carry = carry;
        assert(t[j as int] == t0[j as int]);
        let v: u64 = t[j] + carry;
        proof {
            limbs::lemma_carry29(v);
        }
        t[j] = v & MASK;
        carry = v >> W;
        proof {
            limbs::lemma_value_agree(before, t@, 29, j as nat);
            limbs::lemma_weight_step(29, j as nat);
            let s = pow2(29 * j as nat) as int;
            assert(t[j as int] * s + carry * (s * 0x2000_0000) == t0[j as int] * s + old_carry * s)
                by (nonlinear_arith)
                requires
                    t[j as int] + 0x2000_0000 * carry == t0[j as int] + old_carry,
            ;
        }
    }
    proof {
        let s = pow2(261) as int;
        if carry >= 1 {
            assert(carry * s >= s) by (nonlinear_arith)
                requires
                    carry >= 1,
                    s >= 0,
            ;
        }
        lemma_mul_basics(s);
    }
}

/// Conditional single subtraction of `m` (used with 2p or p).
fn reduce_once(t: &mut [u64; LIMBS], m: &[u64; LIMBS])
    requires
        limbs::carried(*old(t)),
        limbs::carried(*m),
    ensures
        limbs::carried(*final(t)),
        limbs::value29(*final(t)) == if limbs::value29(*old(t)) >= limbs::value29(*m) {
            (limbs::value29(*old(t)) - limbs::value29(*m)) as nat
        } else {
            limbs::value29(*old(t))
        },
{
    let mut ge: bool = true;
    let mut i: usize = LIMBS;
    let ghost t0 = t@;
    proof {
        lemma2_to64();
    }
    while i > 0
        invariant_except_break
            ge,
            i == 0 ==> limbs::value(t0, 29, 9) == limbs::value29(*m),
        invariant
            i <= 9,
            t@ == t0,
            limbs::bounded(t0, 29),
            limbs::carried(*m),
            ge ==> forall|k: int| i <= k < 9 ==> #[trigger] t0[k] == m[k],
        ensures
            t@ == t0,
            ge ==> limbs::value(t0, 29, 9) >= limbs::value29(*m),
            !ge ==> limbs::value(t0, 29, 9) < limbs::value29(*m),
        decreases i,
    {
        let j: usize = i - 1;
        if t[j] != m[j] {
            ge = t[j] > m[j];
            proof {
                if t0[j as int] < m[j as int] {
                    limbs::lemma_value_less(t0, m@, 29, 9, j as nat);
                } else {
                    limbs::lemma_value_less(m@, t0, 29, 9, j as nat);
                }
            }
            break;
        }
        i = j;
        proof {
            if i == 0 {
                limbs::lemma_value_agree(t0, m@, 29, 9);
            }
        }
    }
    if ge {
        let mut borrow: i64 = 0;
        proof {
            lemma_mul_basics(pow2(29 * 0) as int);
        }
        for j in 0..LIMBS
            invariant
                pow2(29) == 0x2000_0000,
                -1 <= borrow <= 0,
                t0.len() == 9,
                limbs::bounded(t0, 29),
                limbs::carried(*m),
                forall|i: int| j <= i < 9 ==> #[trigger] t[i] == t0[i],
                forall|i: int| 0 <= i < j ==> #[trigger] t[i] < 0x2000_0000,
                limbs::value(t@, 29, j as nat) + borrow * pow2(29 * j as nat) == limbs::value(
                    t0,
                    29,
                    j as nat,
                ) - limbs::value(m@, 29, j as nat),
        {
            let ghost before = t@;
            let ghost old_borrow = borrow;
            assert(t[j as int] == t0[j as int] && t0[j as int] < pow2(29) && m[j as int] < pow2(29));
            let v: i64 = t[j] as i64 - m[j] as i64 + borrow;
            proof {
                limbs::lemma_borrow29(v);
            }
            t[j] = (v as u64) & MASK;
            borrow = v >> W;
            proof {
                limbs::lemma_value_agree(before, t@, 29, j as nat);
                limbs::lemma_weight_step(29, j as nat);
                let s = pow2(29 * j as nat) as int;
                assert(t[j as int] * s + borrow * (s * 0x2000_0000) == t0[j as int] * s - m[j as int] * s
                    + old_borrow * s) by (nonlinear_arith)
                    requires
                        t[j as int] + 0x2000_0000 * borrow == t0[j as int] - m[j as int] + old_borrow,
                ;
            }
        }
        proof {
            limbs::lemma_value_bound(t@, 29, 9);
            let s = pow2(261) as int;
            lemma_mul_basics(s);
            lemma_mul_unary_negation(1, s);
        }
    }
}

/// What one round may add to a column: two products of 29-bit limbs and one carry.
pub(crate) const ROUND: u64 = 0x0800_0010_0000_0000;

/// One round of the Montgomery product: adds `ai * b`, cancels the lowest limb with a multiple `m`
/// of the modulus and shifts down by one limb. Returns `m`.
///
/// Two mul-adds per column and NO carries: only the resolved column 0 hands an exact carry on.
#[inline(always)]
pub(crate) fn mont_round(pr: &Params, t: &mut [u64; LIMBS], ai: u64, b: &[u64; LIMBS]) -> (m: u64)
    requires
        pr.wf(),
        limbs::carried(*b),
        ai < pow2(29),
        forall|j: int| 0 <= j < 9 ==> #[trigger] old(t)[j] <= 8 * ROUND,
    ensures
        m < pow2(29),
        limbs::value29(*final(t)) * pow2(29) == limbs::value29(*old(t)) + ai * limbs::value29(*b) + m
            * pr.modulus(),
        forall|j: int| 0 <= j < 8 ==> #[trigger] final(t)[j] <= old(t)[j + 1] + ROUND,
        final(t)[8] == 0,
{
    let p: &[u64; LIMBS] = &pr.p;
    let inv: u64 = pr.inv;
    let ghost told = *t;
    proof {
        lemma2_to64();
        lemma_round_products(*b, ai);
        limbs::lemma_product29(ai, b[0]);
    }
    let t0: u64 = t[0] + ai * b[0];
    proof {
        limbs::lemma_carry29(t0);
        limbs::lemma_product29(t0 & MASK, inv);
    }
    let mm: u64 = (t0 & MASK) * inv;
    let m: u64 = mm & MASK;
    proof {
        limbs::lemma_carry29(mm);
        lemma_round_products(pr.p, m);
        limbs::lemma_product29(m, p[0]);
        lemma_low_limb(*pr);
        lemma_round_cancels(t0 as int, inv as int, p[0] as int, m as int);
    }
    let full: u64 = t0 + m * p[0];
    let c: u64 = full >> W;
    proof {
        limbs::lemma_carry29(full);
    }
    t[0] = t[1] + ai * b[1] + m * p[1] + c;
    t[1] = t[2] + ai * b[2] + m * p[2];
    t[2] = t[3] + ai * b[3] + m * p[3];
    t[3] = t[4] + ai * b[4] + m * p[4];
    t[4] = t[5] + ai * b[5] + m * p[5];
    t[5] = t[6] + ai * b[6] + m * p[6];
    t[6] = t[7] + ai * b[7] + m * p[7];
    t[7] = t[8] + ai * b[8] + m * p[8];
    t[8] = 0;
    proof {
        limbs::lemma_value29_sum(told);
        limbs::lemma_value29_sum(*t);
        limbs::lemma_value29_scaled(*b, ai);
        limbs::lemma_value29_scaled(pr.p, m);
    }
    m
}

/// Bounds on all products of a limb with a carried vector.
proof fn lemma_round_products(b: [u64; LIMBS], k: u64)
    requires
        limbs::carried(b),
        k < pow2(29),
    ensures
        forall|j: int| 0 <= j < 9 ==> 0 <= #[trigger] (k * b[j]) <= 0x3ff_ffff_c000_0001,
{
    lemma2_to64();
    assert forall|j: int| 0 <= j < 9 implies 0 <= #[trigger] (k * b[j])
        <= 0x3ff_ffff_c000_0001 by {
        assert(b@[j] < pow2(29));
        limbs::lemma_product29(k, b[j]);
    }
}

/// The lowest limb of the modulus inherits the inverse relation.
proof fn lemma_low_limb(pr: Params)
    requires
        pr.wf(),
    ensures
        (pr.p[0] * pr.inv + 1) % 0x2000_0000 == 0,
{
    lemma2_to64();
    limbs::lemma_value_head(pr.p@, 29, 9);
    let rest = limbs::value(pr.p@.skip(1), 29, 8) as int;
    let (p, p0, inv) = (pr.modulus() as int, pr.p[0] as int, pr.inv as int);
    assert(p * inv + 1 == 0x2000_0000 * (rest * inv) + (p0 * inv + 1)) by (nonlinear_arith)
        requires
            p == p0 + 0x2000_0000 * rest,
    ;
    lemma_mod_multiples_vanish(rest * inv, p0 * inv + 1, 0x2000_0000);
}

/// With `inv = -1/p0` modulo `2^29`, the multiple `m = t inv` of `p0` clears the low limb of `t`.
proof fn lemma_round_cancels(t: int, inv: int, p0: int, m: int)
    requires
        (p0 * inv + 1) % 0x2000_0000 == 0,
        m == ((t % 0x2000_0000) * inv) % 0x2000_0000,
    ensures
        (t + m * p0) % 0x2000_0000 == 0,
{
    let d = 0x2000_0000int;
    let l = t % d;
    let (q, k, g) = (t / d, (p0 * inv + 1) / d, (l * inv) / d);
    lemma_fundamental_div_mod(t, d);
    lemma_fundamental_div_mod(p0 * inv + 1, d);
    lemma_fundamental_div_mod(l * inv, d);
    assert(t + m * p0 == d * (q + l * k - g * p0)) by (nonlinear_arith)
        requires
            t == d * q + l,
            p0 * inv + 1 == d * k,
            l * inv == d * g + m,
    ;
    lemma_mod_multiples_basic(q + l * k - g * p0, d);
}

/// Operands under the lazy bound satisfy the product bound of [`mont_mul_p`].
pub proof fn lemma_lazy_product(pr: Params, a: [u64; LIMBS], b: [u64; LIMBS])
    requires
        pr.wf(),
        pr.lazy(a),
        pr.lazy(b),
    ensures
        limbs::value29(a) * limbs::value29(b) < pow2(261) * pr.modulus(),
{
    let (x, y, p) = (limbs::value29(a) as int, limbs::value29(b) as int, pr.modulus() as int);
    lemma_pow2_adds(255, 6);
    lemma2_to64();
    assert(x * y <= (2 * p) * (2 * p)) by (nonlinear_arith)
        requires
            0 <= x <= 2 * p,
            0 <= y <= 2 * p,
    ;
    assert((2 * p) * (2 * p) < pow2(261) * p) by (nonlinear_arith)
        requires
            0 < p < pow2(255),
            pow2(261) == pow2(255) * 64,
    ;
}

/// Montgomery product `a * b * 2^-261`, inputs and output < 2p.
///
/// With a, b < 2p: `t < 4p^2/2^261 + p < p/16 + p < 2p`, so the bound closes
/// ([`lemma_lazy_product`]); any operands with `a b < 2^261 p` are as good.
#[inline(always)]
pub fn mont_mul_p(pr: &Params, a: &[u64; LIMBS], b: &[u64; LIMBS]) -> (t: [u64; LIMBS])
    requires
        pr.wf(),
        limbs::carried(*a),
        limbs::carried(*b),
        limbs::value29(*a) * limbs::value29(*b) < pow2(261) * pr.modulus(),
    ensures
        pr.lazy(t),
        limbs::value29(t) == montgomery::redc(
            limbs::value29(*a) * limbs::value29(*b),
            pr.modulus(),
        ),
        pr.element(t) == (pr.element(*a) * pr.element(*b)) % pr.modulus(),
{
    let mut t: [u64; LIMBS] = [0u64; LIMBS];
    let ghost mut ms: nat = 0;
    proof {
        limbs::lemma_value_zero(t@, 29, 9);
        lemma2_to64();
        lemma_mul_basics(limbs::value29(*b) as int);
        lemma_mul_basics(pr.modulus() as int);
        lemma_mul_basics(pow2(29 * 0) as int);
        assert(limbs::value29(t) == 0 && limbs::value(a@, 29, 0) == 0);
        assert(after_rounds(*pr, *a, *b, t, 0, 0));
    }
    for i in 0..LIMBS
        invariant
            pr.wf(),
            after_rounds(*pr, *a, *b, t, i as nat, ms),
    {
        let ghost told = t;
        let m: u64 = mont_round(pr, &mut t, a[i], b);
        proof {
            lemma_round_total(*pr, *a, *b, told, t, i as nat, ms, m);
            ms = ms + (m as nat) * pow2(29 * i as nat);
        }
    }
    proof {
        lemma_rounds_done(*pr, *a, *b, t, ms);
    }
    carry_pass(&mut t);
    t
}

/// The state of a product after `i` rounds: the columns satisfy
/// `t 2^(29 i) = (a mod 2^(29 i)) b + ms p` and have absorbed `i` rounds.
pub(crate) open spec fn after_rounds(
    pr: Params,
    a: [u64; LIMBS],
    b: [u64; LIMBS],
    t: [u64; LIMBS],
    i: nat,
    ms: nat,
) -> bool {
    &&& limbs::carried(a)
    &&& limbs::carried(b)
    &&& i <= 9
    &&& forall|j: int| 0 <= j < 9 ==> #[trigger] t[j] <= i * ROUND
    &&& ms < pow2(29 * i)
    &&& limbs::value29(t) * pow2(29 * i) == limbs::value(a@, 29, i) * limbs::value29(b) + ms
        * pr.modulus()
}

/// One more round.
pub(crate) proof fn lemma_round_total(
    pr: Params,
    a: [u64; LIMBS],
    b: [u64; LIMBS],
    told: [u64; LIMBS],
    t: [u64; LIMBS],
    i: nat,
    ms: nat,
    m: u64,
)
    requires
        i < 9,
        after_rounds(pr, a, b, told, i, ms),
        m < pow2(29),
        limbs::value29(t) * pow2(29) == limbs::value29(told) + a[i as int] * limbs::value29(b) + m
            * pr.modulus(),
        forall|j: int| 0 <= j < 8 ==> #[trigger] t[j] <= told[j + 1] + ROUND,
        t[8] == 0,
    ensures
        after_rounds(pr, a, b, t, i + 1, ms + (m as nat) * pow2(29 * i)),
{
    assert forall|j: int| 0 <= j < 9 implies #[trigger] t[j] <= (i + 1) * ROUND by {
        if j < 8 {
            assert(told[j + 1] <= i * ROUND);
        }
    }
    limbs::lemma_weight_step(29, i);
    let (s, d) = (pow2(29 * i) as int, pow2(29) as int);
    let (t0, t1) = (limbs::value29(told) as int, limbs::value29(t) as int);
    let (alow, ai) = (limbs::value(a@, 29, i) as int, a[i as int] as int);
    let (bv, p) = (limbs::value29(b) as int, pr.modulus() as int);
    assert(ms + m * s < s * d) by (nonlinear_arith)
        requires
            0 <= ms < s,
            0 <= m,
            m + 1 <= d,
    ;
    assert(t1 * (s * d) == (t1 * d) * s) by (nonlinear_arith);
    assert((t0 + ai * bv + m * p) * s == t0 * s + (ai * s) * bv + (m * s) * p) by (nonlinear_arith);
    assert((alow + ai * s) * bv == alow * bv + (ai * s) * bv) by (nonlinear_arith);
    assert((ms + m * s) * p == ms * p + (m * s) * p) by (nonlinear_arith);
}

/// After nine rounds the columns hold the reduced product.
pub(crate) proof fn lemma_rounds_done(
    pr: Params,
    a: [u64; LIMBS],
    b: [u64; LIMBS],
    t: [u64; LIMBS],
    ms: nat,
)
    requires
        pr.wf(),
        after_rounds(pr, a, b, t, 9, ms),
        limbs::value29(a) * limbs::value29(b) < pow2(261) * pr.modulus(),
    ensures
        forall|j: int| 0 <= j < 9 ==> #[trigger] t[j] <= 0x7fff_ffff_ffff_ffff,
        limbs::value29(t) < pow2(261),
        limbs::value29(t) < 2 * pr.modulus(),
        limbs::value29(t) == montgomery::redc(
            limbs::value29(a) * limbs::value29(b),
            pr.modulus(),
        ),
        pr.element(t) == (pr.element(a) * pr.element(b)) % pr.modulus(),
{
    montgomery::lemma_redc(
        limbs::value29(a) * limbs::value29(b),
        pr.modulus(),
        ms,
        limbs::value29(t),
    );
    lemma_pow2_strictly_increases(256, 261);
    lemma_pow2_adds(255, 1);
    lemma2_to64();
    assert forall|j: int| 0 <= j < 9 implies #[trigger] t[j] <= 0x7fff_ffff_ffff_ffff by {
        assert(t[j] <= 9 * ROUND);
    }
    lemma_element_mul(limbs::value29(a), limbs::value29(b), limbs::value29(t), pr.modulus());
}

/// A reduced product stands for the product of the elements.
proof fn lemma_element_mul(a: nat, b: nat, t: nat, p: nat)
    requires
        p % 2 == 1,
        (t * pow2(261)) % p == (a * b) % p,
    ensures
        montgomery::unscale(t, p, 261) == (montgomery::unscale(a, p, 261) * montgomery::unscale(
            b,
            p,
            261,
        )) % p,
{
    let r = pow2(261);
    let (x, y) = (montgomery::unscale(a, p, 261), montgomery::unscale(b, p, 261));
    montgomery::lemma_unscale(a, p, 261);
    montgomery::lemma_unscale(b, p, 261);
    // (x y 2^261) 2^261 = a b = t 2^261, so x y 2^261 = t
    lemma_mul_mod_noop((x * r) as int, (y * r) as int, p as int);
    lemma_mul_mod_noop(a as int, b as int, p as int);
    assert((x * r) * (y * r) == (x * y * r) * r) by (nonlinear_arith);
    montgomery::lemma_cancel_pow2((x * y * r) as int, t as int, p as int, 261);
    montgomery::lemma_unscale_unique(t, p, 261, x * y);
}

/// Elements add with their forms.
proof fn lemma_element_add(a: nat, b: nat, t: nat, p: nat, k: nat)
    requires
        p % 2 == 1,
        t + k * p == a + b,
    ensures
        montgomery::unscale(t, p, 261) == (montgomery::unscale(a, p, 261) + montgomery::unscale(
            b,
            p,
            261,
        )) % p,
{
    let r = pow2(261);
    let (x, y) = (montgomery::unscale(a, p, 261), montgomery::unscale(b, p, 261));
    montgomery::lemma_unscale(a, p, 261);
    montgomery::lemma_unscale(b, p, 261);
    lemma_add_mod_noop((x * r) as int, (y * r) as int, p as int);
    lemma_add_mod_noop(a as int, b as int, p as int);
    lemma_mul_is_distributive_add_other_way(r as int, x as int, y as int);
    lemma_mod_multiples_vanish(k as int, t as int, p as int);
    lemma_mul_is_commutative(k as int, p as int);
    montgomery::lemma_unscale_unique(t, p, 261, x + y);
}

/// Elements subtract with their forms.
proof fn lemma_element_sub(a: nat, b: nat, t: nat, p: nat, k: int)
    requires
        p % 2 == 1,
        t + k * p == a - b,
    ensures
        montgomery::unscale(t, p, 261) == (montgomery::unscale(a, p, 261) - montgomery::unscale(
            b,
            p,
            261,
        )) % p as int,
{
    let r = pow2(261) as int;
    let pi = p as int;
    let (x, y) = (montgomery::unscale(a, p, 261) as int, montgomery::unscale(b, p, 261) as int);
    montgomery::lemma_unscale(a, p, 261);
    montgomery::lemma_unscale(b, p, 261);
    // work with the nonnegative x - y + p
    let z = x - y + pi;
    lemma_sub_mod_noop(x * r, y * r, pi);
    lemma_sub_mod_noop(a as int, b as int, pi);
    assert(z * r == pi * r + (x * r - y * r)) by (nonlinear_arith)
        requires
            z == x - y + pi,
    ;
    lemma_mod_multiples_vanish(r, x * r - y * r, pi);
    lemma_mod_multiples_vanish(k, t as int, pi);
    lemma_mul_is_commutative(k, pi);
    montgomery::lemma_unscale_unique(t, p, 261, z as nat);
    lemma_mod_add_multiples_vanish(x - y, pi);
}

/// `a + b` under the lazy bound (inputs < 2p, output < 2p).
#[inline(always)]
pub fn add_p(pr: &Params, a: &[u64; LIMBS], b: &[u64; LIMBS]) -> (t: [u64; LIMBS])
    requires
        pr.wf(),
        pr.lazy(*a),
        pr.lazy(*b),
    ensures
        pr.lazy(t),
        limbs::value29(t) == lazy_sum(limbs::value29(*a), limbs::value29(*b), pr.modulus()),
        pr.element(t) == (pr.element(*a) + pr.element(*b)) % pr.modulus(),
{
    let mut t: [u64; LIMBS] = [0u64; LIMBS];
    proof {
        lemma2_to64();
    }
    for j in 0..LIMBS
        invariant
            pow2(29) == 0x2000_0000,
            limbs::carried(*a),
            limbs::carried(*b),
            forall|i: int| 0 <= i < 9 ==> #[trigger] t[i] <= 0x4000_0000,
            limbs::value(t@, 29, j as nat) == limbs::value(a@, 29, j as nat) + limbs::value(
                b@,
                29,
                j as nat,
            ),
    {
        let ghost before = t@;
        assert(a@[j as int] < pow2(29) && b@[j as int] < pow2(29));
        t[j] = a[j] + b[j];
        proof {
            limbs::lemma_value_agree(before, t@, 29, j as nat);
            lemma_mul_is_distributive_add_other_way(
                pow2(29 * j as nat) as int,
                a[j as int] as int,
                b[j as int] as int,
            );
        }
    }
    proof {
        lemma_pow2_adds(255, 6);
        let sum = limbs::value29(*a) + limbs::value29(*b);
        if sum >= 2 * pr.modulus() {
            lemma_element_add(
                limbs::value29(*a),
                limbs::value29(*b),
                (sum - 2 * pr.modulus()) as nat,
                pr.modulus(),
                2,
            );
        } else {
            lemma_mul_basics(pr.modulus() as int);
            lemma_element_add(limbs::value29(*a), limbs::value29(*b), sum, pr.modulus(), 0);
        }
    }
    carry_pass(&mut t);
    reduce_once(&mut t, &pr.two_p);
    t
}

/// `a - b` under the lazy bound (inputs < 2p, output < 2p).
#[inline(always)]
pub fn sub_p(pr: &Params, a: &[u64; LIMBS], b: &[u64; LIMBS]) -> (t: [u64; LIMBS])
    requires
        pr.wf(),
        pr.lazy(*a),
        pr.lazy(*b),
    ensures
        pr.lazy(t),
        limbs::value29(t) == lazy_difference(limbs::value29(*a), limbs::value29(*b), pr.modulus()),
        pr.element(t) == (pr.element(*a) - pr.element(*b)) % pr.modulus() as int,
{
    // a + 2p - b, computed on signed columns: a borrow of -1 propagates.
    let mut t: [u64; LIMBS] = [0u64; LIMBS];
    let mut borrow: i64 = 0;
    proof {
        lemma2_to64();
        lemma_mul_basics(pow2(29 * 0) as int);
    }
    for j in 0..LIMBS
        invariant
            pow2(29) == 0x2000_0000,
            -1 <= borrow <= 1,
            limbs::carried(*a),
            limbs::carried(*b),
            limbs::carried(pr.two_p),
            forall|i: int| 0 <= i < j ==> #[trigger] t[i] < 0x2000_0000,
            limbs::value(t@, 29, j as nat) + borrow * pow2(29 * j as nat) == limbs::value(
                a@,
                29,
                j as nat,
            ) + limbs::value(pr.two_p@, 29, j as nat) - limbs::value(b@, 29, j as nat),
    {
        let ghost before = t@;
        let ghost old_borrow = borrow;
        assert(a@[j as int] < pow2(29) && b@[j as int] < pow2(29) && pr.two_p@[j as int] < pow2(29));
        let v: i64 = a[j] as i64 + pr.two_p[j] as i64 - b[j] as i64 + borrow;
        proof {
            limbs::lemma_borrow29(v);
        }
        t[j] = (v as u64) & MASK;
        borrow = v >> W;
        proof {
            limbs::lemma_value_agree(before, t@, 29, j as nat);
            limbs::lemma_weight_step(29, j as nat);
            let s = pow2(29 * j as nat) as int;
            let (x, y, z) = (a[j as int] as int, pr.two_p[j as int] as int, b[j as int] as int);
            assert(t[j as int] * s + borrow * (s * 0x2000_0000) == x * s + y * s - z * s + old_borrow
                * s) by (nonlinear_arith)
                requires
                    t[j as int] + 0x2000_0000 * borrow == x + y - z + old_borrow,
            ;
        }
    }
    proof {
        limbs::lemma_value_bound(t@, 29, 9);
        let s = pow2(261) as int;
        lemma_pow2_adds(255, 6);
        lemma_mul_basics(s);
        lemma_mul_unary_negation(1, s);
        let (x, y, p) = (limbs::value29(*a), limbs::value29(*b), pr.modulus());
        if x >= y {
            lemma_mul_basics(p as int);
            lemma_element_sub(x, y, (x - y) as nat, p, 0);
        } else {
            lemma_mul_unary_negation(2, p as int);
            lemma_element_sub(x, y, (x - y + 2 * p) as nat, p, -2);
        }
    }
    reduce_once(&mut t, &pr.two_p);
    t
}

/// Enters the domain from an internal Montgomery representation (< p).
#[inline(always)]
pub fn enter_p(pr: &Params, repr: &[u64; 4]) -> (d: [u64; LIMBS])
    requires
        pr.wf(),
    ensures
        pr.lazy(d),
        limbs::value29(d) == montgomery::redc(
            limbs::value64(*repr) * (pow2(266) % pr.modulus()),
            pr.modulus(),
        ),
        pr.element(d) == pr.residue(*repr),
{
    let x: [u64; LIMBS] = split29(*repr);
    let ghost p = pr.modulus();
    let ghost w = limbs::value64(*repr);
    proof {
        lemma_scaled_product(w, pow2(266) % p, p);
        lemma_mod_bound(pow2(266) as int, p as int);
        limbs::lemma_value64_bound(*repr);
    }
    let d: [u64; LIMBS] = mont_mul_p(pr, &x, &pr.entry);
    proof {
        lemma_entered(w, limbs::value29(d), p);
    }
    d
}

/// Leaves the domain back to the internal Montgomery representation,
/// fully reduced (< p).
#[inline(always)]
pub fn exit_p(pr: &Params, d: &[u64; LIMBS]) -> (w: [u64; 4])
    requires
        pr.wf(),
        limbs::carried(*d),
    ensures
        limbs::value64(w) < pr.modulus(),
        pr.residue(w) == pr.element(*d),
{
    // mont_mul by R (= 2^256 mod p) maps x*2^261 -> x*2^256.
    let ghost p = pr.modulus();
    let ghost v = limbs::value29(*d);
    proof {
        lemma_mod_bound(pow2(256) as int, p as int);
        limbs::lemma_value_bound(d@, 29, 9);
        lemma_scaled_product(v, pow2(256) % p, p);
    }
    let mut t: [u64; LIMBS] = mont_mul_p(pr, d, &pr.exit);
    let ghost t0 = limbs::value29(t);
    reduce_once(&mut t, &pr.two_p);
    reduce_once(&mut t, &pr.p);
    proof {
        lemma_pow2_strictly_increases(255, 256);
        let t1 = limbs::value29(t);
        let x = pr.element(*d);
        montgomery::lemma_unscale(v, p, 261);
        montgomery::lemma_redc_congruent(v * (pow2(256) % p), p);
        // t0 2^261 = v 2^256 = (x 2^256) 2^261
        lemma_mul_mod_noop_right(v as int, pow2(256) as int, p as int);
        lemma_mul_mod_noop_left((x * pow2(261)) as int, pow2(256) as int, p as int);
        lemma_mul_mod_noop_left(v as int, pow2(256) as int, p as int);
        assert((x * pow2(261)) * pow2(256) == (x * pow2(256)) * pow2(261)) by (nonlinear_arith);
        montgomery::lemma_cancel_pow2(t0 as int, (x * pow2(256)) as int, p as int, 261);
        assert(t1 % p == t0 % p) by {
            if t1 != t0 {
                lemma_mod_sub_multiples_vanish(t0 as int, p as int);
            }
        }
        montgomery::lemma_unscale_unique(t1, p, 256, x);
        lemma_small_mod(x, p);
    }
    join29(t)
}

/// Reducing `w 2^266` turns the form `w = u 2^256` of an element into its form `u 2^261`.
proof fn lemma_entered(w: nat, t: nat, p: nat)
    requires
        p % 2 == 1,
        t == montgomery::redc(w * (pow2(266) % p), p),
    ensures
        montgomery::unscale(t, p, 261) == montgomery::unscale(w, p, 256),
{
    // t 2^261 = w 2^266, so t = w 2^5 = u 2^261 for w = u 2^256
    let u = montgomery::unscale(w, p, 256);
    montgomery::lemma_unscale(w, p, 256);
    montgomery::lemma_redc_congruent(w * (pow2(266) % p), p);
    lemma_mul_mod_noop_right(w as int, pow2(266) as int, p as int);
    lemma_pow2_adds(261, 5);
    lemma_pow2_adds(256, 5);
    lemma2_to64();
    assert(w * pow2(266) == (w * 32) * pow2(261)) by (nonlinear_arith)
        requires
            pow2(266) == pow2(261) * 32,
    ;
    montgomery::lemma_cancel_pow2(t as int, (w * 32) as int, p as int, 261);
    lemma_mul_mod_noop_left((u * pow2(256)) as int, 32, p as int);
    lemma_mul_mod_noop_left(w as int, 32, p as int);
    assert((u * pow2(256)) * 32 == u * pow2(261)) by (nonlinear_arith)
        requires
            pow2(261) == pow2(256) * 32,
    ;
    montgomery::lemma_unscale_unique(t, p, 261, u);
    lemma_small_mod(u, p);
}

/// A factor below `2^261` and one below `p` satisfy the product bound.
proof fn lemma_scaled_product(v: nat, c: nat, p: nat)
    requires
        c < p,
    ensures
        v < pow2(261) ==> v * c < pow2(261) * p,
        v < pow2(256) ==> v * c < pow2(261) * p,
{
    lemma_pow2_strictly_increases(256, 261);
    if v < pow2(261) {
        assert(v * c < pow2(261) * p) by (nonlinear_arith)
            requires
                0 <= v < pow2(261),
                0 <= c < p,
        ;
    }
}

/// The modulus that a configuration names.
pub open spec fn modulus_of<T: MontConfig<4>>() -> nat {
    limbs::value64(T::MODULUS.0)
}

/// The modulus in 29-bit limbs.
pub fn modulus29<T: MontConfig<4>>() -> (r: [u64; LIMBS])
    ensures
        limbs::carried(r),
        limbs::value29(r) == modulus_of::<T>(),
        limbs::value29(r) == limbs::value64(T::MODULUS.0),
{
    let m: BigInt<4> = T::MODULUS;
    split29(m.0)
}

/// Twice the modulus in 29-bit limbs (the lazy bound).
pub fn two_modulus29<T: MontConfig<4>>() -> (r: [u64; LIMBS])
    ensures
        limbs::carried(r),
        limbs::value29(r) == 2 * modulus_of::<T>(),
        limbs::value29(r) == 2 * limbs::value64(T::MODULUS.0),
{
    proof {
        limbs::lemma_value64_bound(T::MODULUS.0);
        lemma_pow2_adds(256, 5);
        lemma2_to64();
        lemma_small_mod(2 * modulus_of::<T>(), pow2(261));
    }
    double29(modulus29::<T>())
}

/// `-p^{-1} mod 2^29` (truncation of the 64-bit Montgomery constant).
pub fn inv29<T: MontConfig<4>>() -> (r: u64)
    requires
        modulus_of::<T>() % 2 == 1,
    ensures
        r < pow2(29),
        (modulus_of::<T>() * r + 1) % pow2(29) as int == 0,
        (limbs::value64(T::MODULUS.0) * r + 1) % pow2(29) as int == 0,
{
    let m: BigInt<4> = T::MODULUS;
    proof {
        lemma2_to64();
        limbs::lemma_value_head(m.0@, 64, 4);
    }
    let ninv: u64 = neg_inv_pow2_64(m.0[0]);
    proof {
        limbs::lemma_carry29(ninv);
        lemma_inv29(m.0, ninv, ninv & MASK);
    }
    ninv & MASK
}

/// The [`Params`] of a `MontConfig` whose modulus the domain can host.
pub fn params<T: MontConfig<4>>() -> (pr: Params)
    requires
        hosts(modulus_of::<T>()),
    ensures
        pr.wf(),
        pr.modulus() == modulus_of::<T>(),
        pr.modulus() == limbs::value64(T::MODULUS.0),
{
    let m: BigInt<4> = T::MODULUS;
    Params::from_modulus(m.0).unwrap()
}

/// Generic-constant form of [`mont_mul_p`].
#[inline(always)]
pub fn mont_mul<T: MontConfig<4>>(a: &[u64; LIMBS], b: &[u64; LIMBS]) -> (t: [u64; LIMBS])
    requires
        hosts(modulus_of::<T>()),
        limbs::carried(*a),
        limbs::carried(*b),
        limbs::value29(*a) * limbs::value29(*b) < pow2(261) * modulus_of::<T>(),
    ensures
        is_lazy(modulus_of::<T>(), t),
        limbs::value29(t) == montgomery::redc(
            limbs::value29(*a) * limbs::value29(*b),
            modulus_of::<T>(),
        ),
        element_of(modulus_of::<T>(), t) == (element_of(modulus_of::<T>(), *a) * element_of(
            modulus_of::<T>(),
            *b,
        )) % modulus_of::<T>(),
{
    mont_mul_p(&params::<T>(), a, b)
}

/// Generic-constant form of [`add_p`].
#[inline(always)]
pub fn add<T: MontConfig<4>>(a: &[u64; LIMBS], b: &[u64; LIMBS]) -> (t: [u64; LIMBS])
    requires
        hosts(modulus_of::<T>()),
        is_lazy(modulus_of::<T>(), *a),
        is_lazy(modulus_of::<T>(), *b),
    ensures
        is_lazy(modulus_of::<T>(), t),
        limbs::value29(t) == lazy_sum(limbs::value29(*a), limbs::value29(*b), modulus_of::<T>()),
        element_of(modulus_of::<T>(), t) == (element_of(modulus_of::<T>(), *a) + element_of(
            modulus_of::<T>(),
            *b,
        )) % modulus_of::<T>(),
{
    add_p(&params::<T>(), a, b)
}

/// Generic-constant form of [`sub_p`].
#[inline(always)]
pub fn sub<T: MontConfig<4>>(a: &[u64; LIMBS], b: &[u64; LIMBS]) -> (t: [u64; LIMBS])
    requires
        hosts(modulus_of::<T>()),
        is_lazy(modulus_of::<T>(), *a),
        is_lazy(modulus_of::<T>(), *b),
    ensures
        is_lazy(modulus_of::<T>(), t),
        limbs::value29(t) == lazy_difference(
            limbs::value29(*a),
            limbs::value29(*b),
            modulus_of::<T>(),
        ),
        element_of(modulus_of::<T>(), t) == (element_of(modulus_of::<T>(), *a) - element_of(
            modulus_of::<T>(),
            *b,
        )) % modulus_of::<T>() as int,
{
    sub_p(&params::<T>(), a, b)
}

/// The entry multiplier `2^266 mod p` in domain limbs: entering multiplies
/// the internal (2^256) Montgomery representation by `2^266 / 2^261 = 2^5`,
/// i.e. maps `x*2^256` to `x*2^261`. Computed once per batch by the caller.
pub fn entry_constant<T: MontConfig<4>>() -> (x: [u64; LIMBS])
    requires
        modulus_of::<T>() > 0,
    ensures
        limbs::carried(x),
        limbs::value29(x) == pow2(266) % modulus_of::<T>(),
        limbs::value29(x) == pow2(266) % limbs::value64(T::MODULUS.0),
{
    let p: [u64; LIMBS] = modulus29::<T>();
    let ghost v = modulus_of::<T>();
    let mut x: [u64; LIMBS] = [1u64, 0, 0, 0, 0, 0, 0, 0, 0];
    proof {
        lemma2_to64();
        limbs::lemma_value64_bound(T::MODULUS.0);
        lemma_pow2_adds(256, 5);
        limbs::lemma_value_head(x@, 29, 9);
        limbs::lemma_value_zero(x@.skip(1), 29, 8);
        lemma_mul_basics(pow2(29) as int);
    }
    assert(limbs::value29(x) == 1);
    reduce_once(&mut x, &p);
    proof {
        if v > 1 {
            lemma_small_mod(1, v);
        }
    }
    for i in 0..266u32
        invariant
            limbs::carried(p),
            limbs::carried(x),
            limbs::value29(p) == v,
            0 < v < pow2(256),
            pow2(261) == pow2(256) * 32,
            limbs::value29(x) == pow2(i as nat) % v,
    {
        let ghost y = limbs::value29(x);
        x = double29(x);
        reduce_once(&mut x, &p);
        proof {
            lemma_mod_bound(pow2(i as nat) as int, v as int);
            lemma_small_mod(2 * y, pow2(261));
            lemma_pow2_unfold((i + 1) as nat);
            lemma_mul_mod_noop_right(2, pow2(i as nat) as int, v as int);
            if 2 * y >= v {
                lemma_fundamental_div_mod_converse(
                    (2 * y) as int,
                    v as int,
                    1,
                    2 * y - v,
                );
            } else {
                lemma_small_mod(2 * y, v);
            }
        }
    }
    x
}

/// Enters the domain from an internal Montgomery representation (< p), given the
/// [`entry_constant`].
#[inline(always)]
pub fn enter<T: MontConfig<4>>(repr: &BigInt<4>, entry: &[u64; LIMBS]) -> (d: [u64; LIMBS])
    requires
        hosts(modulus_of::<T>()),
        limbs::carried(*entry),
        limbs::value64(repr.0) * limbs::value29(*entry) < pow2(261) * modulus_of::<T>(),
    ensures
        is_lazy(modulus_of::<T>(), d),
        limbs::value29(d) == montgomery::redc(
            limbs::value64(repr.0) * limbs::value29(*entry),
            modulus_of::<T>(),
        ),
        limbs::value29(*entry) == pow2(266) % modulus_of::<T>() ==> element_of(
            modulus_of::<T>(),
            d,
        ) == residue_of(modulus_of::<T>(), repr.0),
{
    let x: [u64; LIMBS] = split29(repr.0);
    let d: [u64; LIMBS] = mont_mul::<T>(&x, entry);
    proof {
        if limbs::value29(*entry) == pow2(266) % modulus_of::<T>() {
            lemma_entered(limbs::value64(repr.0), limbs::value29(d), modulus_of::<T>());
        }
    }
    d
}

/// Leaves the domain back to the internal Montgomery representation,
/// fully reduced (< p).
#[inline(always)]
pub fn exit<T: MontConfig<4>>(d: &[u64; LIMBS]) -> (w: BigInt<4>)
    requires
        hosts(modulus_of::<T>()),
        limbs::carried(*d),
    ensures
        limbs::value64(w.0) < modulus_of::<T>(),
        residue_of(modulus_of::<T>(), w.0) == element_of(modulus_of::<T>(), *d),
{
    BigInt(exit_p(&params::<T>(), d))
}

/// The constants of a modulus are determined by it: whatever derives them derives the same ones.
pub proof fn law_params_determined(a: Params, b: Params)
    requires
        a.wf(),
        b.wf(),
        a.modulus() == b.modulus(),
    ensures
        a.p@ == b.p@,
        a.two_p@ == b.two_p@,
        a.inv == b.inv,
        a.entry@ == b.entry@,
        a.exit@ == b.exit@,
        a.r@ == b.r@,
        a.two_r@ == b.two_r@,
{
    limbs::lemma_unique29(a.p, b.p);
    limbs::lemma_unique29(a.two_p, b.two_p);
    limbs::lemma_unique29(a.entry, b.entry);
    limbs::lemma_unique29(a.exit, b.exit);
    limbs::lemma_unique64(a.r, b.r);
    limbs::lemma_unique64(a.two_r, b.two_r);
    lemma2_to64();
    let p = a.modulus() as int;
    let (i, j) = (a.inv as int, b.inv as int);
    let d = pow2(29) as int;
    lemma_sub_mod_noop(p * i + 1, p * j + 1, d);
    assert((p * i + 1) - (p * j + 1) == (i - j) * p) by (nonlinear_arith);
    montgomery::lemma_odd_factor(i - j, p, 29);
}

/// Splitting into limbs and joining again gives back the words.
pub proof fn law_join_split(l: [u64; 4], d: [u64; LIMBS], r: [u64; 4])
    requires
        limbs::value29(d) == limbs::value64(l),
        limbs::value64(r) == limbs::value29(d),
    ensures
        r@ == l@,
{
    limbs::lemma_unique64(r, l);
}

/// Reduced representations of one element are the same words.
pub proof fn law_representation_determined(p: nat, v: [u64; 4], w: [u64; 4])
    requires
        hosts(p),
        limbs::value64(v) < p,
        limbs::value64(w) < p,
        residue_of(p, v) == residue_of(p, w),
    ensures
        v@ == w@,
{
    let (x, y) = (limbs::value64(w), limbs::value64(v));
    montgomery::lemma_unscale(x, p, 256);
    montgomery::lemma_unscale(y, p, 256);
    lemma_small_mod(x, p);
    lemma_small_mod(y, p);
    limbs::lemma_unique64(v, w);
}

/// A reduced representation that enters the domain as `d` is what leaves it again: `v`, which is
/// reduced and stands for the element of `d`, is `w`.
pub proof fn law_round_trip(p: nat, w: [u64; 4], d: [u64; LIMBS], v: [u64; 4])
    requires
        hosts(p),
        limbs::value64(w) < p,
        element_of(p, d) == residue_of(p, w),
        limbs::value64(v) < p,
        residue_of(p, v) == element_of(p, d),
    ensures
        v@ == w@,
{
    law_representation_determined(p, v, w);
}

/// An operation with a fixed second operand `y`.
pub enum Step {
    /// `x * y`
    Mul,
    /// `x + y`
    Add,
    /// `x - y`
    Sub,
    /// `x * x`
    Square,
}

/// What a step gives in the field of the integers modulo `p`.
pub open spec fn field_step(p: nat, step: Step, x: int, y: int) -> int {
    match step {
        Step::Mul => (x * y) % p as int,
        Step::Add => (x + y) % p as int,
        Step::Sub => (x - y) % p as int,
        Step::Square => (x * x) % p as int,
    }
}

/// What the first `n` steps give in the field, starting from `x`.
pub open spec fn field_chain(p: nat, steps: Seq<Step>, x: int, y: int, n: nat) -> int
    decreases n,
{
    if n == 0 {
        x
    } else {
        field_step(p, steps[n - 1], field_chain(p, steps, x, y, (n - 1) as nat), y)
    }
}

/// The element of `next` is what the operation of the domain makes of the elements of `d` and
/// `dy`.
pub open spec fn domain_step(
    p: nat,
    step: Step,
    d: [u64; LIMBS],
    dy: [u64; LIMBS],
    next: [u64; LIMBS],
) -> bool {
    let (x, y) = (element_of(p, d), element_of(p, dy));
    match step {
        Step::Mul => element_of(p, next) == (x * y) % p,
        Step::Add => element_of(p, next) == (x + y) % p,
        Step::Sub => element_of(p, next) == (x - y) % p as int,
        Step::Square => element_of(p, next) == (x * x) % p,
    }
}

/// Mixed chains in the lazy domain agree with the field, and what leaves the domain after the
/// `n`-th step is the reduced representation of the field's result: `w`, if it stands for that.
pub proof fn law_chain(
    p: nat,
    steps: Seq<Step>,
    d: Seq<[u64; LIMBS]>,
    dy: [u64; LIMBS],
    n: nat,
    left: [u64; 4],
    w: [u64; 4],
)
    requires
        hosts(p),
        n <= steps.len(),
        d.len() == steps.len() + 1,
        forall|i: int| 0 <= i < n ==> domain_step(p, #[trigger] steps[i], d[i], dy, d[i + 1]),
        limbs::value64(left) < p,
        residue_of(p, left) == element_of(p, d[n as int]),
        limbs::value64(w) < p,
        residue_of(p, w) == field_chain(
            p,
            steps,
            element_of(p, d[0]) as int,
            element_of(p, dy) as int,
            n,
        ),
    ensures
        element_of(p, d[n as int]) == field_chain(
            p,
            steps,
            element_of(p, d[0]) as int,
            element_of(p, dy) as int,
            n,
        ),
        left@ == w@,
{
    lemma_chain(p, steps, d, dy, n);
    law_round_trip(p, w, d[n as int], left);
}

/// Steps in the domain follow steps in the field.
proof fn lemma_chain(
    p: nat,
    steps: Seq<Step>,
    d: Seq<[u64; LIMBS]>,
    dy: [u64; LIMBS],
    n: nat,
)
    requires
        n <= steps.len(),
        d.len() == steps.len() + 1,
        forall|i: int| 0 <= i < n ==> domain_step(p, #[trigger] steps[i], d[i], dy, d[i + 1]),
    ensures
        element_of(p, d[n as int]) == field_chain(
            p,
            steps,
            element_of(p, d[0]) as int,
            element_of(p, dy) as int,
            n,
        ),
    decreases n,
{
    if n > 0 {
        lemma_chain(p, steps, d, dy, (n - 1) as nat);
        assert(domain_step(p, steps[n - 1], d[n - 1], dy, d[n as int]));
    }
}

/// The domain hosts exactly the odd moduli below `2^255`.
pub proof fn law_hosts(p: nat)
    ensures
        hosts(p) <==> p % 2 == 1 && p < pow2(255),
{
}

/// A configuration works modulo the number of all four words of its modulus.
pub proof fn law_config_modulus<T: MontConfig<4>>()
    ensures
        modulus_of::<T>() == T::MODULUS.0[0] + T::MODULUS.0[1] * pow2(64) + T::MODULUS.0[2] * pow2(
            128,
        ) + T::MODULUS.0[3] * pow2(192),
{
    limbs::law_value64(T::MODULUS.0);
}

/// An element of the domain has limbs of 29 bits and a value below twice the modulus, which is
/// that of the limbs in `p`.
pub proof fn law_lazy(pr: Params, d: [u64; LIMBS])
    ensures
        pr.modulus() == limbs::value29(pr.p),
        pr.lazy(d) <==> is_lazy(limbs::value29(pr.p), d),
        pr.lazy(d) <==> {
            &&& forall|j: int| 0 <= j < 9 ==> #[trigger] d[j] < 0x2000_0000
            &&& limbs::value29(d) < 2 * limbs::value29(pr.p)
        },
{
    limbs::law_carried(d);
}

/// The element of a domain form is the residue that `2^261` scales to the form.
pub proof fn law_element(pr: Params, d: [u64; LIMBS])
    requires
        limbs::value29(pr.p) % 2 == 1,
    ensures
        pr.element(d) == element_of(limbs::value29(pr.p), d),
        pr.element(d) < limbs::value29(pr.p),
        (pr.element(d) * pow2(261)) % limbs::value29(pr.p) == limbs::value29(d) % limbs::value29(
            pr.p,
        ),
{
    montgomery::law_unscale(limbs::value29(d), limbs::value29(pr.p), 261);
}

/// The element of a standard Montgomery form is the residue that `2^256` scales to the form.
pub proof fn law_residue(pr: Params, w: [u64; 4])
    requires
        limbs::value29(pr.p) % 2 == 1,
    ensures
        pr.residue(w) == residue_of(limbs::value29(pr.p), w),
        pr.residue(w) < limbs::value29(pr.p),
        (pr.residue(w) * pow2(256)) % limbs::value29(pr.p) == limbs::value64(w) % limbs::value29(
            pr.p,
        ),
{
    montgomery::law_unscale(limbs::value64(w), limbs::value29(pr.p), 256);
}

/// Constants are well formed when they are those of one odd modulus below `2^255`: the limbs of
/// `p` and `2p`, the negated inverse of `p` modulo `2^29`, and the residues of `2^266`, `2^256`
/// (twice) and `2^257`.
pub proof fn law_well_formed(pr: Params)
    ensures
        pr.wf() <==> {
            let p = limbs::value29(pr.p);
            &&& p % 2 == 1 && p < pow2(255)
            &&& forall|j: int|
                #![trigger pr.p[j]]
                #![trigger pr.two_p[j]]
                #![trigger pr.entry[j]]
                #![trigger pr.exit[j]]
                0 <= j < 9 ==> pr.p[j] < 0x2000_0000 && pr.two_p[j] < 0x2000_0000 && pr.entry[j]
                    < 0x2000_0000 && pr.exit[j] < 0x2000_0000
            &&& limbs::value29(pr.two_p) == 2 * p
            &&& pr.inv < 0x2000_0000
            &&& (p * pr.inv + 1) % 0x2000_0000 == 0
            &&& limbs::value29(pr.entry) == pow2(266) % p
            &&& limbs::value29(pr.exit) == pow2(256) % p
            &&& limbs::value64(pr.r) == pow2(256) % p
            &&& limbs::value64(pr.two_r) == pow2(257) % p
        },
{
    lemma2_to64();
    limbs::law_carried(pr.p);
    limbs::law_carried(pr.two_p);
    limbs::law_carried(pr.entry);
    limbs::law_carried(pr.exit);
    if (forall|j: int|
        #![trigger pr.p[j]]
        #![trigger pr.two_p[j]]
        #![trigger pr.entry[j]]
        #![trigger pr.exit[j]]
        0 <= j < 9 ==> pr.p[j] < 0x2000_0000 && pr.two_p[j] < 0x2000_0000 && pr.entry[j]
            < 0x2000_0000 && pr.exit[j] < 0x2000_0000) {
        assert(forall|j: int| 0 <= j < 9 ==> #[trigger] pr.p[j] < 0x2000_0000);
        assert(forall|j: int| 0 <= j < 9 ==> #[trigger] pr.two_p[j] < 0x2000_0000);
        assert(forall|j: int| 0 <= j < 9 ==> #[trigger] pr.entry[j] < 0x2000_0000);
        assert(forall|j: int| 0 <= j < 9 ==> #[trigger] pr.exit[j] < 0x2000_0000);
    }
}

/// The constants `r` and `two_r` are the reduced standard Montgomery forms of one and two, the
/// second twice the first, and `entry` turns a standard form into a domain form and `exit` back.
pub proof fn law_constants(pr: Params)
    requires
        pr.wf(),
    ensures
        ({
            let p = limbs::value29(pr.p);
            &&& limbs::value64(pr.r) < p
            &&& limbs::value64(pr.two_r) < p
            &&& limbs::value64(pr.two_r) == (2 * limbs::value64(pr.r)) % p
            &&& pr.residue(pr.r) == 1nat % p
            &&& pr.residue(pr.two_r) == 2nat % p
            &&& limbs::value29(pr.exit) == limbs::value64(pr.r)
            &&& limbs::value29(pr.entry) == (1024 * limbs::value64(pr.r)) % p
        }),
{
    let p = pr.modulus();
    let pi = p as int;
    let s = pow2(256) as int;
    law_well_formed(pr);
    lemma2_to64();
    lemma_mod_bound(s, pi);
    lemma_pow2_unfold(257);
    lemma_mod_bound(2 * s, pi);
    lemma_mul_mod_noop_right(2, s, pi);
    lemma_pow2_adds(256, 10);
    lemma_mul_is_commutative(1024, s);
    lemma_mul_mod_noop_right(1024, s, pi);
    lemma_mul_basics(s);
    lemma_mod_twice(s, pi);
    lemma_mod_twice(2 * s, pi);
    montgomery::lemma_unscale_unique(limbs::value64(pr.r), p, 256, 1);
    montgomery::lemma_unscale_unique(limbs::value64(pr.two_r), p, 256, 2);
}

/// The lazy sum is the sum or the sum less `2p`, and the lazy difference the difference or the
/// difference plus `2p`, whichever is a number below `2p`.
pub proof fn law_lazy_operations(a: nat, b: nat, p: nat)
    requires
        a < 2 * p,
        b < 2 * p,
    ensures
        a + b < 2 * p ==> lazy_sum(a, b, p) == a + b,
        a + b >= 2 * p ==> lazy_sum(a, b, p) + 2 * p == a + b,
        b <= a ==> lazy_difference(a, b, p) + b == a,
        b > a ==> lazy_difference(a, b, p) + b == a + 2 * p,
{
}

/// The product of two domain forms times `2^261` is congruent to the product of the numbers.
pub proof fn law_product(p: nat, a: [u64; LIMBS], b: [u64; LIMBS], t: [u64; LIMBS])
    requires
        hosts(p),
        limbs::value29(t) == montgomery::redc(limbs::value29(a) * limbs::value29(b), p),
    ensures
        (limbs::value29(t) * pow2(261)) % p == (limbs::value29(a) * limbs::value29(b)) % p,
{
    montgomery::lemma_redc_congruent(limbs::value29(a) * limbs::value29(b), p);
}

/// Modulo any odd `p`, domain forms are limbs of 29 bits with a value below `2p`, and stand, as
/// standard Montgomery forms do, for the residue that the domain's power of two scales to them.
pub proof fn law_forms(p: nat, d: [u64; LIMBS], w: [u64; 4])
    ensures
        is_lazy(p, d) <==> {
            &&& forall|j: int| 0 <= j < 9 ==> #[trigger] d[j] < 0x2000_0000
            &&& limbs::value29(d) < 2 * p
        },
        p % 2 == 1 ==> element_of(p, d) < p,
        p % 2 == 1 ==> (element_of(p, d) * pow2(261)) % p == limbs::value29(d) % p,
        p % 2 == 1 ==> residue_of(p, w) < p,
        p % 2 == 1 ==> (residue_of(p, w) * pow2(256)) % p == limbs::value64(w) % p,
{
    limbs::law_carried(d);
    if p % 2 == 1 {
        montgomery::law_unscale(limbs::value29(d), p, 261);
        montgomery::law_unscale(limbs::value64(w), p, 256);
    }
}

/// Arithmetic in the domain, seen from the words that enter and leave it: `a` and `b` enter as `x`
/// and `y`, and the words that leave are the sum, the difference and the Montgomery product of
/// those that entered, modulo `p`.
pub proof fn law_words_arithmetic(
    p: nat,
    a: [u64; 4],
    b: [u64; 4],
    x: [u64; LIMBS],
    y: [u64; LIMBS],
    t: [u64; LIMBS],
    w: [u64; 4],
)
    requires
        hosts(p),
        element_of(p, x) == residue_of(p, a),
        element_of(p, y) == residue_of(p, b),
        limbs::value64(w) < p,
        residue_of(p, w) == element_of(p, t),
    ensures
        element_of(p, t) == (element_of(p, x) + element_of(p, y)) % p ==> limbs::value64(w) == (
        limbs::value64(a) + limbs::value64(b)) % p,
        element_of(p, t) == (element_of(p, x) - element_of(p, y)) % p as int ==> limbs::value64(w)
            == (limbs::value64(a) - limbs::value64(b)) % p as int,
        element_of(p, t) == (element_of(p, x) * element_of(p, y)) % p ==> (limbs::value64(w) * pow2(
            256,
        )) % p == (limbs::value64(a) * limbs::value64(b)) % p,
{
    let (pi, s) = (p as int, pow2(256) as int);
    let (u, v) = (residue_of(p, a) as int, residue_of(p, b) as int);
    let (m, n, k) = (
        limbs::value64(a) as int,
        limbs::value64(b) as int,
        limbs::value64(w) as int,
    );
    law_forms(p, x, a);
    law_forms(p, y, b);
    law_forms(p, t, w);
    lemma_small_mod(k as nat, p);
    let z = residue_of(p, w) as int;
    if z == (u + v) % pi {
        lemma_mul_mod_noop_left(u + v, s, pi);
        lemma_mul_is_distributive_add_other_way(s, u, v);
        lemma_add_mod_noop(u * s, v * s, pi);
        lemma_add_mod_noop(m, n, pi);
    }
    if z == (u - v) % pi {
        lemma_mul_mod_noop_left(u - v, s, pi);
        lemma_mul_is_distributive_sub_other_way(s, u, v);
        lemma_sub_mod_noop(u * s, v * s, pi);
        lemma_sub_mod_noop(m, n, pi);
    }
    if z == (u * v) % pi {
        lemma_mul_mod_noop_left(u * v, s, pi);
        assert((z * s) % pi == (u * v * s) % pi);
        lemma_mul_mod_noop_left(z * s, s, pi);
        lemma_mul_mod_noop_left((u * v) * s, s, pi);
        assert(((u * v) * s) * s == (u * s) * (v * s)) by (nonlinear_arith);
        lemma_mul_mod_noop_left(k, s, pi);
        lemma_mul_mod_noop(u * s, v * s, pi);
        lemma_mul_mod_noop(m, n, pi);
    }
}

} // verus!
