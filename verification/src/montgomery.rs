//! Montgomery reduction by `2^261` as a function on numbers.
use vstd::arithmetic::div_mod::*;
use vstd::arithmetic::mul::*;
use vstd::arithmetic::power2::*;
use vstd::prelude::*;

verus! {

/// `m` is a factor below `2^261` for which `t + m p` is divisible by `2^261`.
pub open spec fn cancels(t: nat, p: nat, m: nat) -> bool {
    m < pow2(261) && (t + m * p) % pow2(261) == 0
}

/// The factor that makes `t + m p` divisible by `2^261`; unique for odd `p`.
pub open spec fn redc_factor(t: nat, p: nat) -> nat {
    choose|m: nat| cancels(t, p, m)
}

/// The Montgomery reduction of `t`: `(t + m p) / 2^261` with the factor `m` that makes the division
/// exact.
pub open spec fn redc(t: nat, p: nat) -> nat {
    (t + redc_factor(t, p) * p) / pow2(261)
}

/// An odd factor does not contribute to divisibility by a power of two.
pub proof fn lemma_odd_factor(x: int, p: int, e: nat)
    requires
        p % 2 == 1,
        (x * p) % pow2(e) as int == 0,
    ensures
        x % pow2(e) as int == 0,
    decreases e,
{
    lemma_pow2_pos(e);
    lemma2_to64();
    if e > 0 {
        let h = (e - 1) as nat;
        lemma_pow2_unfold(e);
        lemma_pow2_pos(h);
        let d = pow2(h) as int;
        let k = (x * p) / (2 * d);
        lemma_fundamental_div_mod(x * p, 2 * d);
        let (a, b) = (x / 2, p / 2);
        let c = x % 2;
        assert(x == 2 * a + c && p == 2 * b + 1);
        assert(x * p == 2 * (2 * a * b + a + c * b) + c) by (nonlinear_arith)
            requires
                x == 2 * a + c,
                p == 2 * b + 1,
        ;
        assert((2 * d) * k == 2 * (d * k)) by (nonlinear_arith);
        assert(c == 0);
        assert(a * p == d * k) by (nonlinear_arith)
            requires
                x == 2 * a,
                x * p == (2 * d) * k,
        ;
        lemma_mod_multiples_basic(k, d);
        lemma_mul_is_commutative(k, d);
        lemma_odd_factor(a, p, h);
        lemma_fundamental_div_mod(a, d);
        let g = a / d;
        assert(x == (2 * d) * g) by (nonlinear_arith)
            requires
                x == 2 * a,
                a == d * g,
        ;
        lemma_mod_multiples_basic(g, 2 * d);
        lemma_mul_is_commutative(g, 2 * d);
    }
}

/// For odd `p` at most one factor makes `t + m p` divisible.
pub proof fn lemma_cancels_unique(t: nat, p: nat, m: nat, n: nat)
    requires
        p % 2 == 1,
        cancels(t, p, m),
        cancels(t, p, n),
    ensures
        m == n,
{
    let r = pow2(261) as int;
    lemma_pow2_pos(261);
    lemma_mod_equivalence((t + m * p) as int, (t + n * p) as int, r);
    assert((m - n) * p == (t + m * p) - (t + n * p)) by (nonlinear_arith);
    lemma_odd_factor(m - n, p as int, 261);
    let k = (m - n) / r;
    lemma_fundamental_div_mod(m - n, r);
    assert(k == 0) by (nonlinear_arith)
        requires
            m - n == r * k,
            -r < m - n < r,
            r > 0,
    ;
    lemma_mul_basics(r);
}

/// What a computed exact quotient `r = (t + m p) / 2^261` amounts to: it is the Montgomery
/// reduction of `t`, it is congruent to `t 2^-261`, and it is below `2p` when `t < 2^261 p`.
pub proof fn lemma_redc(t: nat, p: nat, m: nat, r: nat)
    requires
        p % 2 == 1,
        m < pow2(261),
        r * pow2(261) == t + m * p,
    ensures
        r == redc(t, p),
        (r * pow2(261)) % p == t % p,
        t < pow2(261) * p ==> r < 2 * p,
{
    let q = pow2(261);
    lemma_pow2_pos(261);
    lemma_mod_multiples_basic(r as int, q as int);
    assert(cancels(t, p, m));
    lemma_cancels_unique(t, p, m, redc_factor(t, p));
    lemma_div_by_multiple(r as int, q as int);
    lemma_mod_multiples_vanish(m as int, t as int, p as int);
    lemma_mul_is_commutative(m as int, p as int);
    if t < q * p {
        assert(r < 2 * p) by (nonlinear_arith)
            requires
                r * q == t + m * p,
                t < q * p,
                m < q,
                p > 0,
                q > 0,
        ;
    }
}

/// Powers of two can be cancelled from a congruence modulo an odd number.
pub proof fn lemma_cancel_pow2(x: int, y: int, p: int, e: nat)
    requires
        p > 0,
        p % 2 == 1,
        (x * pow2(e)) % p == (y * pow2(e)) % p,
    ensures
        x % p == y % p,
    decreases e,
{
    lemma2_to64();
    if e == 0 {
        lemma_mul_basics(x);
        lemma_mul_basics(y);
    } else {
        let h = (e - 1) as nat;
        lemma_pow2_unfold(e);
        let d = pow2(h) as int;
        let (a, b) = (x * d, y * d);
        assert(x * (2 * d) == 2 * a && y * (2 * d) == 2 * b) by (nonlinear_arith)
            requires
                a == x * d,
                b == y * d,
        ;
        lemma_mod_equivalence(2 * a, 2 * b, p);
        let k = (2 * a - 2 * b) / p;
        lemma_fundamental_div_mod(2 * a - 2 * b, p);
        let (c, g) = (k / 2, k % 2);
        let j = p / 2;
        assert(p * k == 2 * (p * c + j * g) + g) by (nonlinear_arith)
            requires
                k == 2 * c + g,
                p == 2 * j + 1,
        ;
        assert(g == 0);
        assert(a - b == p * c) by (nonlinear_arith)
            requires
                2 * a - 2 * b == p * k,
                k == 2 * c,
        ;
        lemma_mod_multiples_basic(c, p);
        lemma_mul_is_commutative(c, p);
        lemma_mod_equivalence(a, b, p);
        lemma_cancel_pow2(x, y, p, h);
    }
}

/// `v / 2^e` in the integers modulo an odd `p`: `v` halved `e` times, where halving is the product
/// with `(p + 1) / 2`.
pub open spec fn unscale(v: nat, p: nat, e: nat) -> nat
    decreases e,
{
    if e == 0 {
        v % p
    } else {
        (unscale(v, p, (e - 1) as nat) * ((p + 1) / 2)) % p
    }
}

/// Scaling back up gives the residue that was scaled down.
pub proof fn lemma_unscale(v: nat, p: nat, e: nat)
    requires
        p % 2 == 1,
    ensures
        unscale(v, p, e) < p,
        (unscale(v, p, e) * pow2(e)) % p == v % p,
    decreases e,
{
    lemma2_to64();
    if e == 0 {
        lemma_mul_basics(unscale(v, p, 0) as int);
        lemma_mod_twice(v as int, p as int);
    } else {
        let h = (e - 1) as nat;
        lemma_unscale(v, p, h);
        lemma_pow2_unfold(e);
        let u = unscale(v, p, h) as int;
        let w = (p + 1) / 2;
        let x = unscale(v, p, e) as int;
        let d = pow2(h) as int;
        let pi = p as int;
        lemma_mod_bound(u * w, pi);
        lemma_mul_mod_noop_left(u * w, 2 * d, pi);
        assert((u * w) * (2 * d) == pi * (u * d) + u * d) by (nonlinear_arith)
            requires
                2 * w == pi + 1,
        ;
        lemma_mod_multiples_vanish(u * d, u * d, pi);
    }
}

/// Only one residue scales up to `v`.
pub proof fn lemma_unscale_unique(v: nat, p: nat, e: nat, x: nat)
    requires
        p % 2 == 1,
        (x * pow2(e)) % p == v % p,
    ensures
        unscale(v, p, e) == x % p,
{
    lemma_unscale(v, p, e);
    lemma_cancel_pow2(unscale(v, p, e) as int, x as int, p as int, e);
    lemma_small_mod(unscale(v, p, e), p);
}

/// A factor that makes the division exact exists for every `t` when `p` is odd.
pub proof fn lemma_cancels_exists(t: nat, p: nat, e: nat) -> (m: nat)
    requires
        p % 2 == 1,
    ensures
        m < pow2(e),
        (t + m * p) % pow2(e) == 0,
    decreases e,
{
    lemma2_to64();
    if e == 0 {
        lemma_mul_basics(p as int);
        0
    } else {
        let h = (e - 1) as nat;
        let n = lemma_cancels_exists(t, p, h);
        lemma_pow2_unfold(e);
        lemma_pow2_pos(h);
        let d = pow2(h) as int;
        let q = (t + n * p) as int / d;
        lemma_fundamental_div_mod((t + n * p) as int, d);
        let b = p as int / 2;
        if q % 2 == 0 {
            assert(t + n * p == (2 * d) * (q / 2)) by (nonlinear_arith)
                requires
                    t + n * p == d * q,
                    q == 2 * (q / 2),
            ;
            lemma_mod_multiples_basic(q / 2, 2 * d);
            lemma_mul_is_commutative(q / 2, 2 * d);
            n
        } else {
            let m = (n + d) as nat;
            assert(t + m * p == (2 * d) * (q / 2 + b + 1)) by (nonlinear_arith)
                requires
                    t + n * p == d * q,
                    q == 2 * (q / 2) + 1,
                    p == 2 * b + 1,
                    m == n + d,
            ;
            lemma_mod_multiples_basic(q / 2 + b + 1, 2 * d);
            lemma_mul_is_commutative(q / 2 + b + 1, 2 * d);
            m
        }
    }
}

/// The Montgomery reduction of `t` is `t 2^-261` modulo `p`.
pub proof fn lemma_redc_congruent(t: nat, p: nat)
    requires
        p % 2 == 1,
    ensures
        (redc(t, p) * pow2(261)) % p == t % p,
{
    let m = lemma_cancels_exists(t, p, 261);
    assert(cancels(t, p, m));
    let f = redc_factor(t, p);
    lemma_pow2_pos(261);
    lemma_fundamental_div_mod((t + f * p) as int, pow2(261) as int);
    lemma_mul_is_commutative(redc(t, p) as int, pow2(261) as int);
    lemma_redc(t, p, f, redc(t, p));
}

/// The Montgomery reduction of `t` times `2^261` exceeds `t` by a multiple of `p` below `2^261 p`,
/// which only one number does.
pub proof fn law_redc(t: nat, p: nat, r: nat)
    requires
        p % 2 == 1,
    ensures
        t <= redc(t, p) * pow2(261) < t + pow2(261) * p,
        (redc(t, p) * pow2(261) - t) % p as int == 0,
        t <= r * pow2(261) < t + pow2(261) * p && (r * pow2(261) - t) % p as int == 0 ==> r == redc(
            t,
            p,
        ),
{
    let q = pow2(261) as int;
    let pi = p as int;
    let n = lemma_cancels_exists(t, p, 261);
    assert(cancels(t, p, n));
    let f = redc_factor(t, p) as int;
    assert(cancels(t, p, f as nat));
    lemma_pow2_pos(261);
    lemma_fundamental_div_mod(t + f * p, q);
    lemma_mul_is_commutative(redc(t, p) as int, q);
    assert(redc(t, p) * q == t + f * pi);
    lemma_mod_multiples_basic(f, pi);
    assert(0 <= f * pi < q * pi) by (nonlinear_arith)
        requires
            0 <= f < q,
            pi > 0,
    ;
    if t <= r * q < t + q * p && (r * q - t) % pi == 0 {
        let m = (r * q - t) / pi;
        lemma_fundamental_div_mod(r * q - t, pi);
        lemma_mul_is_commutative(pi, m);
        assert(0 <= m < q) by (nonlinear_arith)
            requires
                0 <= m * pi < q * pi,
                pi > 0,
        ;
        lemma_redc(t, p, m as nat, r);
    }
}

/// Dividing by `2^e` modulo `p` gives the residue whose product with `2^e` is congruent to `v`.
pub proof fn law_unscale(v: nat, p: nat, e: nat)
    requires
        p % 2 == 1,
    ensures
        unscale(v, p, e) < p,
        (unscale(v, p, e) * pow2(e)) % p == v % p,
{
    lemma_unscale(v, p, e);
}

} // verus!
