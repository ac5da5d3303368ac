//! What the butterfly networks of [`crate::radix2`] compute, taken as functions on residues.
use crate::lazy29;
use crate::lazy29::{Params, LIMBS};
use crate::limbs;
use crate::montgomery;
use crate::radix2;
use vstd::arithmetic::div_mod::*;
use vstd::arithmetic::mul::*;
use vstd::arithmetic::power::*;
use vstd::arithmetic::power2::*;
use vstd::prelude::*;

verus! {

/// Every member is multiplied by `c` modulo `p`.
pub open spec fn scaled(x: Seq<int>, c: int, p: int) -> Seq<int> {
    Seq::new(x.len(), |k: int| (c * x[k]) % p)
}

/// Powers of mutually inverse residues are mutually inverse.
proof fn lemma_inverse_powers(g: int, h: int, e: nat, p: int)
    requires
        p > 0,
        (g * h) % p == 1int % p,
    ensures
        (pow(g, e) * pow(h, e)) % p == 1int % p,
{
    lemma_pow_distributes(g, h, e);
    lemma_pow_mod_noop(g * h, e, p);
    lemma_pow_mod_noop(1, e, p);
    lemma1_pow(e);
}

/// The butterfly with root `h` undoes the scaled butterfly with the inverse root `g`, up to the
/// factor two.
proof fn lemma_butterfly_undone(a: int, b: int, c: int, ge: int, he: int, p: int)
    requires
        p > 0,
        (ge * he) % p == 1int % p,
    ensures
        ({
            let lo = (c * ((a + b) % p)) % p;
            let hi = (c * (((a - b) * ge) % p)) % p;
            (lo + hi * he) % p == ((2 * c) * a) % p && (lo - hi * he) % p == ((2 * c) * b) % p
        }),
{
    let lo = (c * ((a + b) % p)) % p;
    let hi = (c * (((a - b) * ge) % p)) % p;
    lemma_mul_mod_noop_right(c, a + b, p);
    lemma_mul_mod_noop_right(c, (a - b) * ge, p);
    let l = c * (a + b);
    let h = c * ((a - b) * ge);
    assert(lo == l % p && hi == h % p);
    // hi he == c (a - b) modulo p
    let d = c * (a - b);
    lemma_mul_mod_noop_left(h, he, p);
    assert(h * he == d * (ge * he)) by (nonlinear_arith)
        requires
            h == c * ((a - b) * ge),
            d == c * (a - b),
    ;
    lemma_mul_mod_noop_right(d, ge * he, p);
    lemma_mul_mod_noop_right(d, 1, p);
    lemma_mul_basics(d);
    let t = hi * he;
    assert(t % p == d % p);
    lemma_add_mod_noop(lo, t, p);
    lemma_add_mod_noop(l, d, p);
    lemma_mod_twice(l, p);
    lemma_sub_mod_noop(lo, t, p);
    lemma_sub_mod_noop(l, d, p);
    assert(l + d == (2 * c) * a && l - d == (2 * c) * b) by (nonlinear_arith)
        requires
            l == c * (a + b),
            d == c * (a - b),
    ;
}

/// One stage is undone by the opposite stage of the same gap with the inverse root.
proof fn lemma_stage_undone(x: Seq<int>, g: int, h: int, gap: int, c: int, p: int)
    requires
        p > 0,
        gap > 0,
        x.len() % (2 * gap) as nat == 0,
        (g * h) % p == 1int % p,
    ensures
        radix2::oi_stage(scaled(radix2::io_stage(x, g, gap, p), c, p), h, gap, p) == scaled(
            x,
            2 * c,
            p,
        ),
{
    let y = radix2::io_stage(x, g, gap, p);
    let z = scaled(y, c, p);
    let w = radix2::oi_stage(z, h, gap, p);
    let n = x.len() as int;
    let chunks = n / (2 * gap);
    assert forall|k: int| 0 <= k < n implies #[trigger] w[k] == ((2 * c) * x[k]) % p by {
        let m = 2 * gap;
        let j = k % m;
        let q = k / m;
        lemma_fundamental_div_mod(k, m);
        lemma_mod_bound(k, m);
        lemma_fundamental_div_mod(n, m);
        // the whole chunk lies inside
        assert(q < chunks) by (nonlinear_arith)
            requires
                k < n,
                k == m * q + j,
                n == m * chunks,
                0 <= j,
                m > 0,
        ;
        assert(m * (q + 1) <= m * chunks) by (nonlinear_arith)
            requires
                q + 1 <= chunks,
                m > 0,
        ;
        assert(m * (q + 1) == m * q + m) by (nonlinear_arith);
        assert(q >= 0) by {
            lemma_div_pos_is_pos(k, m);
        }
        assert(m * q >= 0) by (nonlinear_arith)
            requires
                m > 0,
                q >= 0,
        ;
        let i = if j < gap { j } else { j - gap };
        let (lo, hi) = (m * q + i, m * q + gap + i);
        lemma_fundamental_div_mod_converse(lo, m, q, i);
        lemma_fundamental_div_mod_converse(hi, m, q, gap + i);
        let e = (i * chunks) as nat;
        lemma_inverse_powers(g, h, e, p);
        lemma_butterfly_undone(x[lo], x[hi], c, pow(g, e), pow(h, e), p);
    }
    assert(w =~= scaled(x, 2 * c, p));
}

/// The butterfly of the second network with the inverse root undoes that of the first, up to the
/// factor two.
pub proof fn law_butterfly_undone(lo: int, hi: int, w: int, wi: int, p: int)
    requires
        p > 0,
        (w * wi) % p == 1int % p,
    ensures
        ({
            let (io, oi) = (radix2::Butterfly::InOut, radix2::Butterfly::OutIn);
            let l = radix2::low_result(io, lo, hi, w, p);
            let h = radix2::high_result(io, lo, hi, w, p);
            &&& radix2::low_result(oi, l, h, wi, p) == (2 * lo) % p
            &&& radix2::high_result(oi, l, h, wi, p) == (2 * hi) % p
        }),
{
    lemma_butterfly_undone(lo, hi, 1, w, wi, p);
    lemma_mod_twice(lo + hi, p);
    lemma_mod_twice((lo - hi) * w, p);
}

/// The same of domain forms: from `(lo0, hi0)` the first butterfly with root `w` makes
/// `(lo1, hi1)`, and from that the second with root `wi` makes `(lo2, hi2)`, where the product of
/// the roots is the form of one times `2^261`. The results are twice the operands.
pub proof fn law_butterfly_forms_undone(
    p: nat,
    w: [u64; LIMBS],
    wi: [u64; LIMBS],
    d0: ([u64; LIMBS], [u64; LIMBS]),
    d1: ([u64; LIMBS], [u64; LIMBS]),
    d2: ([u64; LIMBS], [u64; LIMBS]),
)
    requires
        lazy29::hosts(p),
        (limbs::value29(w) * limbs::value29(wi)) % p == pow2(522) % p,
        butterfly_applied(radix2::Butterfly::InOut, p, d0, w, d1),
        butterfly_applied(radix2::Butterfly::OutIn, p, d1, wi, d2),
    ensures
        limbs::value29(d2.0) % p == (2 * limbs::value29(d0.0)) % p,
        limbs::value29(d2.1) % p == (2 * limbs::value29(d0.1)) % p,
        lazy29::is_lazy(p, d2.0),
        lazy29::is_lazy(p, d2.1),
{
    let pi = p as int;
    let (x, y) = (lazy29::element_of(p, w) as int, lazy29::element_of(p, wi) as int);
    let s = pow2(261) as int;
    // the elements of the roots are inverse
    montgomery::lemma_unscale(limbs::value29(w), p, 261);
    montgomery::lemma_unscale(limbs::value29(wi), p, 261);
    lemma_mul_mod_noop(x * s, y * s, pi);
    lemma_mul_mod_noop(limbs::value29(w) as int, limbs::value29(wi) as int, pi);
    lemma_pow2_adds(261, 261);
    assert((x * s) * (y * s) == (x * y) * s * s) by (nonlinear_arith);
    lemma_mul_basics(s);
    lemma_mul_is_associative(x * y, s, s);
    lemma_mul_basics(s * s);
    montgomery::lemma_cancel_pow2((x * y) * s, s, pi, 261);
    lemma_mul_basics(x * y);
    montgomery::lemma_cancel_pow2(x * y, 1, pi, 261);
    law_butterfly_undone(
        lazy29::element_of(p, d0.0) as int,
        lazy29::element_of(p, d0.1) as int,
        x,
        y,
        pi,
    );
    lemma_form_doubled(p, d0.0, d2.0);
    lemma_form_doubled(p, d0.1, d2.1);
}

/// What a butterfly states of its operands and results.
pub open spec fn butterfly_applied(
    kind: radix2::Butterfly,
    p: nat,
    before: ([u64; LIMBS], [u64; LIMBS]),
    root: [u64; LIMBS],
    after: ([u64; LIMBS], [u64; LIMBS]),
) -> bool {
    let (lo, hi, w) = (
        lazy29::element_of(p, before.0) as int,
        lazy29::element_of(p, before.1) as int,
        lazy29::element_of(p, root) as int,
    );
    &&& lazy29::is_lazy(p, after.0)
    &&& lazy29::is_lazy(p, after.1)
    &&& lazy29::element_of(p, after.0) == radix2::low_result(kind, lo, hi, w, p as int)
    &&& lazy29::element_of(p, after.1) == radix2::high_result(kind, lo, hi, w, p as int)
}

/// A form whose element is doubled is doubled modulo `p`.
proof fn lemma_form_doubled(p: nat, d: [u64; LIMBS], e: [u64; LIMBS])
    requires
        lazy29::hosts(p),
        lazy29::element_of(p, e) == (2 * lazy29::element_of(p, d)) % p,
    ensures
        limbs::value29(e) % p == (2 * limbs::value29(d)) % p,
{
    let pi = p as int;
    let (x, s) = (lazy29::element_of(p, d) as int, pow2(261) as int);
    montgomery::lemma_unscale(limbs::value29(d), p, 261);
    montgomery::lemma_unscale(limbs::value29(e), p, 261);
    lemma_mul_mod_noop_left(2 * x, s, pi);
    lemma_mul_is_associative(2, x, s);
    lemma_mul_mod_noop_right(2, x * s, pi);
    lemma_mul_mod_noop_right(2, limbs::value29(d) as int, pi);
}

/// All members are residues modulo `p`.
pub open spec fn all_residues(x: Seq<int>, p: int) -> bool {
    forall|k: int| 0 <= k < x.len() ==> 0 <= #[trigger] x[k] < p
}

/// Unrolls both networks around the common stage `2^k`.
proof fn lemma_networks_undone(x: Seq<int>, g: int, h: int, e: nat, k: nat, p: int)
    requires
        p > 0,
        x.len() == pow2(e),
        k < e,
        (g * h) % p == 1int % p,
    ensures
        radix2::oi_network(radix2::io_network(x, g, pow2(k), p), h, 1, p) == radix2::oi_network(
            scaled(x, pow2(k + 1) as int, p),
            h,
            pow2(k + 1),
            p,
        ),
    decreases k,
{
    let gap = pow2(k);
    let y = radix2::io_stage(x, g, gap as int, p);
    lemma2_to64();
    lemma_pow2_pos(k);
    lemma_pow2_unfold(k + 1);
    lemma_pow2_adds(k + 1, (e - k - 1) as nat);
    lemma_mod_multiples_basic(pow2((e - k - 1) as nat) as int, (2 * gap) as int);
    lemma_mul_is_commutative(pow2((e - k - 1) as nat) as int, (2 * gap) as int);
    lemma_pow2_strictly_increases(k, e);
    if k == 0 {
        assert(radix2::io_network(x, g, 1, p) == radix2::io_network(y, g, 0, p));
        assert forall|i: int| 0 <= i < y.len() implies #[trigger] y[i] == (1 * y[i]) % p by {
            assert(0 <= y[i] < p) by {
                let j = i % 2;
                if j < 1 {
                    lemma_mod_bound(x[i] + x[i + 1], p);
                } else {
                    lemma_mod_bound(
                        (x[i - 1] - x[i]) * pow(g, ((j - 1) * (x.len() as int / 2)) as nat),
                        p,
                    );
                }
            }
            lemma_small_mod(y[i] as nat, p as nat);
        }
        assert(scaled(y, 1, p) =~= y);
        lemma_stage_undone(x, g, h, 1, 1, p);
    } else {
        let k1 = (k - 1) as nat;
        lemma_pow2_unfold(k);
        assert(gap / 2 == pow2(k1));
        lemma_networks_undone(y, g, h, e, k1, p);
        lemma_stage_undone(x, g, h, gap as int, gap as int, p);
    }
}

/// Running the out-of-order network with an inverse root on the output of the in-order network
/// gives the input back, multiplied by the length. The roots need not be roots of unity.
pub proof fn law_networks_inverse(x: Seq<int>, g: int, h: int, p: int)
    requires
        p > 0,
        radix2::power_of_two(x.len()),
        all_residues(x, p),
        (g * h) % p == 1int % p,
    ensures
        radix2::oi_network(radix2::io_network(x, g, x.len() / 2, p), h, 1, p) == scaled(
            x,
            x.len() as int,
            p,
        ),
{
    let e = choose|e: nat| x.len() == #[trigger] pow2(e);
    lemma2_to64();
    if e == 0 {
        assert forall|k: int| 0 <= k < x.len() implies #[trigger] x[k] == (1 * x[k]) % p by {
            lemma_small_mod(x[k] as nat, p as nat);
        }
        assert(x =~= scaled(x, 1, p));
    } else {
        lemma_pow2_unfold(e);
        lemma_networks_undone(x, g, h, e, (e - 1) as nat, p);
    }
}

/// Domain forms are determined limb for limb by their numbers, so that a stage, which fixes the
/// numbers, fixes the limbs.
pub proof fn law_forms_determined(pr: Params, d: Seq<[u64; LIMBS]>, e: Seq<[u64; LIMBS]>)
    requires
        radix2::all_lazy(pr, d),
        radix2::all_lazy(pr, e),
        radix2::forms(d) == radix2::forms(e),
    ensures
        d.len() == e.len(),
        forall|k: int| 0 <= k < d.len() ==> (#[trigger] d[k])@ == e[k]@,
{
    let (a, b) = (radix2::forms(d), radix2::forms(e));
    assert(a.len() == b.len());
    assert forall|k: int| 0 <= k < d.len() implies (#[trigger] d[k])@ == e[k]@ by {
        assert(a[k] == b[k]);
        assert(pr.lazy(d[k]) && pr.lazy(e[k]));
        limbs::lemma_unique29(d[k], e[k]);
    }
}

/// The output of a network is determined bit for bit: reduced vectors that stand for the same
/// field elements hold the same words.
pub proof fn law_output_determined(pr: Params, v: Seq<[u64; 4]>, w: Seq<[u64; 4]>)
    requires
        pr.wf(),
        radix2::all_reduced(pr, v),
        radix2::all_reduced(pr, w),
        radix2::residues(pr, v) == radix2::residues(pr, w),
    ensures
        v.len() == w.len(),
        forall|k: int| 0 <= k < v.len() ==> (#[trigger] v[k])@ == w[k]@,
{
    let (a, b) = (radix2::residues(pr, v), radix2::residues(pr, w));
    assert(a.len() == b.len());
    assert forall|k: int| 0 <= k < v.len() implies (#[trigger] v[k])@ == w[k]@ by {
        assert(a[k] == b[k]);
        assert(limbs::value64(w[k]) < pr.modulus());
        lazy29::law_representation_determined(pr.modulus(), v[k], w[k]);
    }
}

/// The partial sum `x[0] + x[1] g^k + ... + x[m-1] g^((m-1) k)` of a discrete Fourier transform.
pub open spec fn dft_sum(x: Seq<int>, g: int, k: nat, m: nat) -> int
    decreases m,
{
    if m == 0 {
        0
    } else {
        dft_sum(x, g, k, (m - 1) as nat) + x[m - 1] * pow(g, (m - 1) as nat * k)
    }
}

/// The number whose `e` binary digits are those of `k` in reverse.
pub open spec fn bit_reversed(k: nat, e: nat) -> nat
    decreases e,
{
    if e == 0 {
        0
    } else {
        (k % 2) * pow2((e - 1) as nat) + bit_reversed(k / 2, (e - 1) as nat)
    }
}

/// Reversing `e` digits stays below `2^e`.
proof fn lemma_bit_reversed_bound(k: nat, e: nat)
    ensures
        bit_reversed(k, e) < pow2(e),
    decreases e,
{
    lemma2_to64();
    if e > 0 {
        let h = (e - 1) as nat;
        lemma_bit_reversed_bound(k / 2, h);
        lemma_pow2_unfold(e);
        let s = pow2(h) as int;
        assert((k % 2) * s <= s) by (nonlinear_arith)
            requires
                0 <= k % 2 <= 1,
                s >= 0,
        ;
    }
}

/// A stage treats each block of a multiple of its chunk size like a vector of its own, with the
/// correspondingly higher power as root.
proof fn lemma_stage_block(
    kind: radix2::Butterfly,
    x: Seq<int>,
    g: int,
    gap: int,
    p: int,
    b: int,
    m: int,
    f: int,
    c: int,
)
    requires
        p > 0,
        gap > 0,
        m == (2 * gap) * f,
        x.len() == m * c,
        0 < m,
        exists|q: int| b == #[trigger] (m * q),
        0 <= b,
        b + m <= x.len(),
    ensures
        radix2::stage(kind, x, g, gap, p).subrange(b, b + m) == radix2::stage(
            kind,
            x.subrange(b, b + m),
            pow(g, c as nat),
            gap,
            p,
        ),
{
    let n = x.len() as int;
    let d = 2 * gap;
    let q = choose|q: int| b == #[trigger] (m * q);
    let sub = x.subrange(b, b + m);
    let full = radix2::stage(kind, x, g, gap, p);
    let part = radix2::stage(kind, sub, pow(g, c as nat), gap, p);
    assert(c > 0) by (nonlinear_arith)
        requires
            n == m * c,
            n > 0,
            m > 0,
    ;
    assert(f > 0) by (nonlinear_arith)
        requires
            m == d * f,
            m > 0,
            d > 0,
    ;
    assert(m * c == (f * c) * d) by (nonlinear_arith)
        requires
            m == d * f,
    ;
    lemma_div_by_multiple(f * c, d);
    lemma_mul_is_commutative(d, f);
    lemma_div_by_multiple(f, d);
    assert forall|i: int| 0 <= i < m implies #[trigger] full.subrange(b, b + m)[i] == part[i] by {
        let k = b + i;
        let (r, j) = (i / d, i % d);
        lemma_fundamental_div_mod(i, d);
        lemma_mod_bound(i, d);
        assert(k == (f * q + r) * d + j) by (nonlinear_arith)
            requires
                k == b + i,
                b == m * q,
                m == d * f,
                i == d * r + j,
        ;
        lemma_fundamental_div_mod_converse(k, d, f * q + r, j);
        lemma_div_pos_is_pos(i, d);
        assert(r < f) by (nonlinear_arith)
            requires
                i < m,
                i == d * r + j,
                m == d * f,
                0 <= j,
                d > 0,
        ;
        assert(d * r + d <= m && d * r >= 0) by (nonlinear_arith)
            requires
                m == d * f,
                0 <= r,
                r + 1 <= f,
                d > 0,
        ;
        let l = if j < gap { j } else { j - gap };
        assert(l * f >= 0) by (nonlinear_arith)
            requires
                l >= 0,
                f >= 0,
        ;
        lemma_pow_multiplies(g, c as nat, (l * f) as nat);
        assert(c * (l * f) == l * (f * c)) by (nonlinear_arith);
    }
    assert(full.subrange(b, b + m) =~= part);
}

/// The in-order network treats blocks like vectors of their own.
proof fn lemma_io_block(x: Seq<int>, g: int, t: int, p: int, b: int, m: int, u: nat, c: int)
    requires
        p > 0,
        -1 <= t,
        t + 1 <= u,
        m == pow2(u),
        x.len() == m * c,
        exists|q: int| b == #[trigger] (m * q),
        0 <= b,
        b + m <= x.len(),
    ensures
        ({
            let gap: nat = if t < 0 { 0 } else { pow2(t as nat) };
            radix2::io_network(x, g, gap, p).subrange(b, b + m) == radix2::io_network(
                x.subrange(b, b + m),
                pow(g, c as nat),
                gap,
                p,
            )
        }),
    decreases t + 1,
{
    if t >= 0 {
        let k = t as nat;
        let gap = pow2(k);
        lemma_pow2_pos(k);
        lemma_pow2_pos(u);
        lemma_pow2_unfold(k + 1);
        lemma_pow2_adds(k + 1, (u - k - 1) as nat);
        let y = radix2::io_stage(x, g, gap as int, p);
        lemma_stage_block(
            radix2::Butterfly::InOut,
            x,
            g,
            gap as int,
            p,
            b,
            m,
            pow2((u - k - 1) as nat) as int,
            c,
        );
        lemma2_to64();
        if k > 0 {
            lemma_pow2_unfold(k);
        }
        lemma_io_block(y, g, t - 1, p, b, m, u, c);
    }
}

/// The in-order network keeps the length.
proof fn lemma_io_len(x: Seq<int>, g: int, gap: nat, p: int)
    ensures
        radix2::io_network(x, g, gap, p).len() == x.len(),
    decreases gap,
{
    if gap > 0 {
        lemma_io_len(radix2::io_stage(x, g, gap as int, p), g, gap / 2, p);
    }
}

/// Powers of a residue congruent to `-1`.
proof fn lemma_minus_one_powers(r: int, k: nat, p: int)
    requires
        p > 0,
        r % p == (-1int) % p,
    ensures
        k % 2 == 0 ==> pow(r, k) % p == 1int % p,
        k % 2 == 1 ==> pow(r, k) % p == (-1int) % p,
{
    lemma_pow_mod_noop(r, k, p);
    lemma_pow_mod_noop(-1, k, p);
    let h = k / 2;
    lemma_pow_multiplies(-1, 2, h);
    lemma_square_is_pow2(-1);
    lemma1_pow(h);
    if k % 2 == 1 {
        lemma_pow_adds(-1, 2 * h, 1);
        lemma_pow1(-1);
    }
}

/// Folding the upper half of a transform onto the lower half: what the first stage leaves in one
/// half has the transform of that half's frequencies.
proof fn lemma_fold(x: Seq<int>, y: Seq<int>, g: int, half: nat, k: nat, m: nat, p: int)
    requires
        p > 0,
        x.len() == 2 * half,
        y.len() == half,
        m <= half,
        pow(g, half) % p == (-1int) % p,
        forall|j: int|
            0 <= j < half ==> #[trigger] y[j] % p == (if k % 2 == 0 {
                x[j] + x[j + half]
            } else {
                (x[j] - x[j + half]) * pow(g, j as nat)
            }) % p,
    ensures
        (dft_sum(x, g, k, m) + dft_sum(x, g, k, half + m) - dft_sum(x, g, k, half)) % p == dft_sum(
            y,
            pow(g, 2),
            k / 2,
            m,
        ) % p,
    decreases m,
{
    if m > 0 {
        let i = (m - 1) as nat;
        lemma_fold(x, y, g, half, k, i, p);
        let h = k / 2;
        let (a, b) = (x[i as int], x[i as int + half]);
        let w = pow(g, i * k);
        // g^((half + i) k) == g^(half k) g^(i k)
        assert((half + i) * k == half * k + i * k) by (nonlinear_arith);
        lemma_pow_adds(g, half * k, i * k);
        lemma_pow_multiplies(g, half, k);
        let r = pow(g, half * k);
        lemma_minus_one_powers(pow(g, half), k, p);
        let s: int = if k % 2 == 0 { 1 } else { -1 };
        assert(r % p == s % p);
        // the term of y
        lemma_pow_multiplies(g, 2, i * h);
        let v = pow(pow(g, 2), i * h);
        assert(2 * (i * h) + (if k % 2 == 0 { 0 } else { i as int }) == i * k) by (nonlinear_arith)
            requires
                k == 2 * h + k % 2,
                k % 2 == 0 || k % 2 == 1,
        ;
        if k % 2 == 1 {
            lemma_pow_adds(g, i, 2 * (i * h));
        }
        let c: int = if k % 2 == 0 { 1 } else { pow(g, i) };
        assert(w == c * v);
        let z = (a + s * b) * c;
        assert(z == (if k % 2 == 0 {
            a + b
        } else {
            (a - b) * pow(g, i)
        })) by {
            if k % 2 == 0 {
                lemma_mul_basics(a + b);
            }
        }
        assert(y[i as int] % p == z % p);
        // x terms: a w + b r w == (a + s b) w == z v == y v modulo p
        lemma_mod_equivalence(r, s, p);
        lemma_mod_equivalence(y[i as int], z, p);
        let (q1, q2) = ((r - s) / p, (y[i as int] - z) / p);
        lemma_fundamental_div_mod(r - s, p);
        lemma_fundamental_div_mod(y[i as int] - z, p);
        let lhs = a * w + b * (r * w);
        let rhs = y[i as int] * v;
        assert(z * v == (a + s * b) * w) by (nonlinear_arith)
            requires
                z == (a + s * b) * c,
                w == c * v,
        ;
        assert(r * w == s * w + (p * q1) * w) by (nonlinear_arith)
            requires
                r == s + p * q1,
        ;
        lemma_mul_is_distributive_add(b, s * w, (p * q1) * w);
        assert(b * (s * w) == s * b * w) by (nonlinear_arith);
        assert(b * ((p * q1) * w) == p * (b * q1 * w)) by (nonlinear_arith);
        assert(rhs == z * v + p * (q2 * v)) by (nonlinear_arith)
            requires
                rhs == y[i as int] * v,
                y[i as int] == z + p * q2,
        ;
        assert((a + s * b) * w == a * w + s * b * w) by (nonlinear_arith);
        assert(p * (b * q1 * w - q2 * v) == p * (b * q1 * w) - p * (q2 * v)) by (nonlinear_arith);
        assert(lhs - rhs == p * (b * q1 * w - q2 * v));
        lemma_mod_multiples_basic(b * q1 * w - q2 * v, p);
        lemma_mul_is_commutative(p, b * q1 * w - q2 * v);
        lemma_mod_equivalence(lhs, rhs, p);
        let (s0, t0) = (
            dft_sum(x, g, k, i) + dft_sum(x, g, k, half + i) - dft_sum(x, g, k, half),
            dft_sum(y, pow(g, 2), h, i),
        );
        lemma_add_mod_noop(s0, lhs, p);
        lemma_add_mod_noop(t0, rhs, p);
    }
}

/// With a root `g` for which `g^(n/2) = -1`, the in-order network computes the discrete Fourier
/// transform of its input: frequency `k` comes out at the bit-reversed position.
pub proof fn law_io_is_dft(x: Seq<int>, g: int, e: nat, k: nat, p: int)
    requires
        p > 0,
        x.len() == pow2(e),
        e > 0 ==> pow(g, pow2((e - 1) as nat)) % p == (-1int) % p,
        k < pow2(e),
    ensures
        bit_reversed(k, e) < pow2(e),
        radix2::io_network(x, g, x.len() / 2, p)[bit_reversed(k, e) as int] % p == dft_sum(
            x,
            g,
            k,
            x.len(),
        ) % p,
    decreases e,
{
    lemma2_to64();
    lemma_bit_reversed_bound(k, e);
    let n = pow2(e);
    if e == 0 {
        lemma_pow0(g);
        assert(dft_sum(x, g, k, 1) == dft_sum(x, g, k, 0) + x[0] * pow(g, 0nat * k));
        assert(0nat * k == 0) by (nonlinear_arith);
        lemma_mul_basics(x[0]);
    } else {
        let h = (e - 1) as nat;
        let half = pow2(h);
        lemma_pow2_unfold(e);
        lemma_pow2_pos(h);
        lemma_bit_reversed_bound(k / 2, h);
        let y = radix2::io_stage(x, g, half as int, p);
        let b = (k % 2) * half;
        assert(b == (if k % 2 == 0 {
            0
        } else {
            half
        })) by (nonlinear_arith)
            requires
                b == (k % 2) * half,
                k % 2 == 0 || k % 2 == 1,
        ;
        let yb = y.subrange(b as int, (b + half) as int);
        let chunks = x.len() as int / (2 * half as int);
        assert(chunks == 1) by {
            lemma_div_by_self(2 * half as int);
        }
        assert forall|j: int| 0 <= j < half implies #[trigger] yb[j] % p == (if k % 2 == 0 {
            x[j] + x[j + half]
        } else {
            (x[j] - x[j + half]) * pow(g, j as nat)
        }) % p by {
            let i = b + j;
            lemma_small_mod(i as nat, (2 * half) as nat);
            assert(yb[j] == y[i]);
            assert(j * chunks == j);
            if k % 2 == 0 {
                assert(y[i] == (x[j] + x[j + half]) % p);
                lemma_mod_twice(x[j] + x[j + half], p);
            } else {
                assert(y[i] == ((x[j] - x[j + half]) * pow(g, j as nat)) % p);
                lemma_mod_twice((x[j] - x[j + half]) * pow(g, j as nat), p);
            }
        }
        lemma_fold(x, yb, g, half, k, half, p);
        // the rest of the network works on the half that holds position bit_reversed(k)
        let t = h - 1;
        let gap: nat = if t < 0 { 0 } else { pow2(t as nat) };
        if t >= 0 {
            lemma_pow2_unfold(h);
            lemma_pow_multiplies(g, 2, gap);
        }
        assert(gap == half / 2);
        assert(b == half * (k % 2)) by (nonlinear_arith)
            requires
                b == (k % 2) * half,
        ;
        lemma_io_block(y, g, t, p, b as int, half as int, h, 2);
        law_io_is_dft(yb, pow(g, 2), h, k / 2, p);
        lemma_io_len(y, g, gap, p);
    }
}

/// The out-of-order network of a vector is the last stage applied to the networks of its halves.
proof fn lemma_oi_halves(z: Seq<int>, g: int, t: nat, h: nat, p: int)
    requires
        p > 0,
        t <= h,
        z.len() == 2 * pow2(h),
    ensures
        ({
            let half = pow2(h) as int;
            let low = radix2::oi_network(z.subrange(0, half), pow(g, 2), pow2(t), p);
            let high = radix2::oi_network(z.subrange(half, 2 * half), pow(g, 2), pow2(t), p);
            &&& low.len() == half
            &&& high.len() == half
            &&& radix2::oi_network(z, g, pow2(t), p) == radix2::oi_stage(low + high, g, half, p)
        }),
    decreases h - t,
{
    let half = pow2(h) as int;
    let gap = pow2(t);
    lemma_pow2_pos(h);
    lemma_pow2_pos(t);
    let (a, b) = (z.subrange(0, half), z.subrange(half, 2 * half));
    if t == h {
        assert(a + b =~= z);
        let y = radix2::oi_stage(z, g, half, p);
        assert(radix2::oi_network(z, g, gap, p) == radix2::oi_network(y, g, 2 * gap, p));
        assert(radix2::oi_network(y, g, 2 * gap, p) == y);
    } else {
        lemma_pow2_strictly_increases(t, h);
        lemma_pow2_unfold(t + 1);
        lemma_pow2_adds(t + 1, (h - t - 1) as nat);
        let f = pow2((h - t - 1) as nat) as int;
        let y = radix2::oi_stage(z, g, gap as int, p);
        assert(0 == half * 0 && half == half * 1);
        lemma_stage_block(radix2::Butterfly::OutIn, z, g, gap as int, p, 0, half, f, 2);
        lemma_stage_block(radix2::Butterfly::OutIn, z, g, gap as int, p, half, half, f, 2);
        lemma_oi_halves(y, g, t + 1, h, p);
    }
}

/// A transform splits into the transforms of the even and of the odd positions.
proof fn lemma_dft_split(x: Seq<int>, even: Seq<int>, odd: Seq<int>, g: int, k: nat, m: nat)
    requires
        forall|j: int| 0 <= j < m ==> #[trigger] even[j] == x[2 * j],
        forall|j: int| 0 <= j < m ==> #[trigger] odd[j] == x[2 * j + 1],
    ensures
        dft_sum(x, g, k, 2 * m) == dft_sum(even, pow(g, 2), k, m) + pow(g, k) * dft_sum(
            odd,
            pow(g, 2),
            k,
            m,
        ),
    decreases m,
{
    if m > 0 {
        let i = (m - 1) as nat;
        lemma_dft_split(x, even, odd, g, k, i);
        let (a, b) = (x[2 * i as int], x[2 * i as int + 1]);
        assert(even[i as int] == a && odd[i as int] == b);
        let w = pow(pow(g, 2), i * k);
        lemma_pow_multiplies(g, 2, i * k);
        assert((2 * i) * k == 2 * (i * k)) by (nonlinear_arith);
        assert((2 * i + 1) * k == k + 2 * (i * k)) by (nonlinear_arith);
        lemma_pow_adds(g, k, 2 * (i * k));
        assert(dft_sum(x, g, k, (2 * i + 1) as nat) == dft_sum(x, g, k, 2 * i) + a * w);
        assert(dft_sum(x, g, k, 2 * m) == dft_sum(x, g, k, (2 * i + 1) as nat) + b * (pow(g, k)
            * w));
        let (u, d) = (pow(g, k), dft_sum(odd, pow(g, 2), k, i));
        assert(b * (u * w) + u * d == u * (d + b * w)) by (nonlinear_arith);
    } else {
        lemma_mul_basics(pow(g, k));
    }
}

/// Frequencies that differ by a period of the root have congruent transforms.
proof fn lemma_dft_periodic(x: Seq<int>, g: int, k: nat, period: nat, m: nat, p: int)
    requires
        p > 0,
        pow(g, period) % p == 1int % p,
    ensures
        dft_sum(x, g, k + period, m) % p == dft_sum(x, g, k, m) % p,
    decreases m,
{
    if m > 0 {
        let i = (m - 1) as nat;
        lemma_dft_periodic(x, g, k, period, i, p);
        assert(i * (k + period) == i * k + period * i) by (nonlinear_arith);
        lemma_pow_adds(g, i * k, period * i);
        lemma_pow_multiplies(g, period, i);
        lemma_pow_mod_noop(pow(g, period), i, p);
        lemma_pow_mod_noop(1, i, p);
        lemma1_pow(i);
        let (a, w, r) = (x[i as int], pow(g, i * k), pow(g, period * i));
        lemma_mul_mod_noop_right(a * w, r, p);
        lemma_mul_mod_noop_right(a * w, 1, p);
        lemma_mul_basics(a * w);
        lemma_mul_is_associative(a, w, r);
        lemma_add_mod_noop(dft_sum(x, g, k + period, i), a * (w * r), p);
        lemma_add_mod_noop(dft_sum(x, g, k, i), a * w, p);
    }
}

/// With a root `g` for which `g^(n/2) = -1`, the out-of-order network computes the discrete
/// Fourier transform of a vector that it receives in bit-reversed order: frequency `k` comes out
/// at position `k`.
pub proof fn law_oi_is_dft(x: Seq<int>, z: Seq<int>, g: int, e: nat, k: nat, p: int)
    requires
        p > 0,
        x.len() == pow2(e),
        z.len() == pow2(e),
        forall|j: nat| j < pow2(e) ==> x[j as int] == z[#[trigger] bit_reversed(j, e) as int],
        e > 0 ==> pow(g, pow2((e - 1) as nat)) % p == (-1int) % p,
        k < pow2(e),
    ensures
        radix2::oi_network(z, g, 1, p)[k as int] % p == dft_sum(x, g, k, x.len()) % p,
    decreases e,
{
    lemma2_to64();
    if e == 0 {
        lemma_pow0(g);
        assert(dft_sum(x, g, k, 1) == dft_sum(x, g, k, 0) + x[0] * pow(g, 0nat * k));
        assert(0nat * k == 0) by (nonlinear_arith);
        lemma_mul_basics(x[0]);
        assert(bit_reversed(0, 0) == 0);
    } else {
        let h = (e - 1) as nat;
        let half = pow2(h);
        lemma_pow2_unfold(e);
        lemma_pow2_pos(h);
        let (a, b) = (z.subrange(0, half as int), z.subrange(half as int, 2 * half as int));
        let even = Seq::new(half, |j: int| x[2 * j]);
        let odd = Seq::new(half, |j: int| x[2 * j + 1]);
        let g2 = pow(g, 2);
        assert forall|j: nat| j < half implies even[j as int] == a[#[trigger] bit_reversed(
            j,
            h,
        ) as int] && odd[j as int] == b[bit_reversed(j, h) as int] by {
            lemma_bit_reversed_bound(j, h);
            assert(bit_reversed(2 * j, e) == 0 * half + bit_reversed(j, h));
            assert(bit_reversed(2 * j + 1, e) == 1 * half + bit_reversed(j, h));
        }
        if h > 0 {
            lemma_pow2_unfold(h);
            lemma_pow_multiplies(g, 2, pow2((h - 1) as nat));
        }
        let (low, high) = (
            radix2::oi_network(a, g2, 1, p),
            radix2::oi_network(b, g2, 1, p),
        );
        lemma_oi_halves(z, g, 0, h, p);
        let j: nat = if k < half { k } else { (k - half) as nat };
        law_oi_is_dft(even, a, g2, h, j, p);
        law_oi_is_dft(odd, b, g2, h, j, p);
        lemma_dft_split(x, even, odd, g, k, half);
        // the last stage at position k
        let chunks = x.len() as int / (2 * half as int);
        assert(chunks == 1) by {
            lemma_div_by_self(2 * half as int);
        }
        lemma_small_mod(k, 2 * half);
        assert(j * chunks == j);
        let w = low + high;
        let (c, d) = (w[j as int], w[(j + half) as int]);
        assert(c == low[j as int] && d == high[j as int]);
        let gj = pow(g, j);
        let s: int = if k < half { 1 } else { -1 };
        assert(w.len() == x.len());
        assert(s * (d * gj) == (if k < half {
            d * gj
        } else {
            -(d * gj)
        })) by (nonlinear_arith)
            requires
                s == (if k < half {
                    1int
                } else {
                    -1int
                }),
        ;
        assert(radix2::oi_stage(w, g, half as int, p)[k as int] == (c + s * (d * gj)) % p);
        lemma_mod_twice(c + s * (d * gj), p);
        // the same combination of the transforms of the halves
        if k >= half {
            lemma_pow_multiplies(g, 2, half);
            lemma_pow_multiplies(g, half, 2);
            lemma_minus_one_powers(pow(g, half), 2, p);
            lemma_mul_is_commutative(2, half as int);
            lemma_dft_periodic(even, g2, j, half, half, p);
            lemma_dft_periodic(odd, g2, j, half, half, p);
            lemma_pow_adds(g, j, half);
        }
        let (gh, gk) = (pow(g, half), pow(g, k));
        let (u, v) = (dft_sum(even, g2, k, half), dft_sum(odd, g2, k, half));
        assert(c % p == u % p && d % p == v % p);
        assert(gk % p == (s * gj) % p) by {
            if k >= half {
                lemma_mul_mod_noop_right(gj, gh, p);
                lemma_mul_mod_noop_right(gj, -1, p);
                lemma_mul_is_commutative(gj, -1);
            } else {
                lemma_mul_basics(gj);
            }
        }
        lemma_mul_mod_noop(gk, v, p);
        lemma_mul_mod_noop(s * gj, d, p);
        assert((s * gj) * d == s * (d * gj)) by (nonlinear_arith);
        lemma_add_mod_noop(u, gk * v, p);
        lemma_add_mod_noop(c, s * (d * gj), p);
    }
}

/// In every block of `block` positions, the first `kept` entries of `x`, and zero after them.
pub open spec fn padded(x: Seq<int>, block: int, kept: int) -> Seq<int> {
    Seq::new(
        x.len(),
        |k: int|
            if k % block < kept {
                x[k]
            } else {
                0
            },
    )
}

/// Every block of `block` positions holds copies of its first entry.
pub open spec fn copied(x: Seq<int>, block: int) -> bool {
    forall|k: int| 0 <= k < x.len() ==> #[trigger] x[k] == x[k - k % block]
}

/// Where position `k` stands in its block of `chunk * f` positions and in its chunk, and where the
/// other position of its butterfly stands.
proof fn lemma_butterfly_position(k: int, gap: int, f: int, r: int)
    requires
        gap > 0,
        f > 0,
        0 <= k < (2 * gap * f) * r,
    ensures
        ({
            let (chunk, block) = (2 * gap, 2 * gap * f);
            let (o, j) = (k % block, k % chunk);
            &&& 0 <= j <= o < block
            &&& o < chunk ==> o == j
            &&& j >= gap ==> 0 <= k - gap && (k - gap) % block == o - gap
            &&& j < gap ==> k + gap < block * r && (k + gap) % block == o + gap
        }),
{
    let (chunk, block) = (2 * gap, 2 * gap * f);
    assert(block > 0) by (nonlinear_arith)
        requires
            gap > 0,
            f > 0,
            block == 2 * gap * f,
    ;
    let (a, o) = (k / block, k % block);
    let (b, j) = (o / chunk, o % chunk);
    lemma_fundamental_div_mod(k, block);
    lemma_mod_bound(k, block);
    lemma_fundamental_div_mod(o, chunk);
    lemma_mod_bound(o, chunk);
    lemma_div_pos_is_pos(o, chunk);
    lemma_div_pos_is_pos(k, block);
    // k = block a + chunk b + j
    assert(k == (f * a + b) * chunk + j) by (nonlinear_arith)
        requires
            k == block * a + o,
            o == chunk * b + j,
            block == chunk * f,
    ;
    lemma_fundamental_div_mod_converse(k, chunk, f * a + b, j);
    assert(chunk * b >= 0) by (nonlinear_arith)
        requires
            chunk > 0,
            b >= 0,
    ;
    assert(b >= 1 ==> chunk * b >= chunk) by (nonlinear_arith)
        requires
            chunk > 0,
    ;
    // the chunk ends within the block, and the block within the vector
    assert(b < f) by (nonlinear_arith)
        requires
            chunk * b + j < chunk * f,
            0 <= j,
            chunk > 0,
    ;
    assert(chunk * b + chunk <= block) by (nonlinear_arith)
        requires
            b + 1 <= f,
            block == chunk * f,
            chunk > 0,
    ;
    assert(a < r) by (nonlinear_arith)
        requires
            block * a <= k,
            k < block * r,
            block > 0,
    ;
    assert(block * a + block <= block * r) by (nonlinear_arith)
        requires
            a + 1 <= r,
            block > 0,
    ;
    assert(block * a >= 0) by (nonlinear_arith)
        requires
            block > 0,
            a >= 0,
    ;
    if o < chunk {
        lemma_basic_div(o, chunk);
        lemma_small_mod(o as nat, chunk as nat);
    }
    lemma_mul_is_commutative(a, block);
    if j < gap {
        lemma_fundamental_div_mod_converse(k + gap, block, a, o + gap);
    } else {
        lemma_fundamental_div_mod_converse(k - gap, block, a, o - gap);
    }
}

/// A stage that meets zeros in the upper halves copies the lower halves.
proof fn lemma_stage_copies(x: Seq<int>, g: int, i: nat, t: nat, e: nat, p: int)
    requires
        p > 0,
        i < t <= e,
        x.len() == pow2(e),
        all_residues(x, p),
        copied(x, pow2(t) as int),
    ensures
        radix2::oi_stage(padded(x, pow2(t) as int, pow2(i) as int), g, pow2(i) as int, p) == padded(
            x,
            pow2(t) as int,
            pow2(i + 1) as int,
        ),
{
    let (block, gap) = (pow2(t) as int, pow2(i) as int);
    let chunk = 2 * gap;
    let y = padded(x, block, gap);
    let z = radix2::oi_stage(y, g, gap, p);
    let w = padded(x, block, chunk);
    lemma_pow2_pos(i);
    lemma_pow2_unfold(i + 1);
    lemma_pow2_adds(i + 1, (t - i - 1) as nat);
    lemma_pow2_adds(t, (e - t) as nat);
    let f = pow2((t - i - 1) as nat) as int;
    let r = pow2((e - t) as nat) as int;
    lemma_pow2_pos((t - i - 1) as nat);
    assert(block == 2 * gap * f);
    assert(x.len() == block * r);
    let chunks = x.len() as int / chunk;
    assert forall|k: int| 0 <= k < x.len() implies #[trigger] z[k] == w[k] by {
        lemma_butterfly_position(k, gap, f, r);
        let (o, j) = (k % block, k % chunk);
        assert(x[k] == x[k - o]);
        assert(0 <= x[k] < p);
        lemma_small_mod(x[k] as nat, p as nat);
        lemma_small_mod(0, p as nat);
        if j < gap {
            let root = pow(g, (j * chunks) as nat);
            assert(y[k + gap] == 0);
            assert(0 * root == 0);
            assert(z[k] == (y[k] + 0 * root) % p);
        } else {
            let root = pow(g, ((j - gap) * chunks) as nat);
            let m = k - gap;
            assert(x[m] == x[m - m % block]);
            assert(y[k] == 0);
            assert(0 * root == 0);
            assert(z[k] == (y[m] - 0 * root) % p);
        }
    }
    assert(z =~= w);
}

/// Starting late is right for copies: the network from gap `2^t` on, on blocks that hold copies of
/// their first entries, gives what the whole network gives on blocks that hold their first entry
/// and zeros.
pub proof fn law_oi_starts_late(x: Seq<int>, g: int, t: nat, e: nat, p: int)
    requires
        p > 0,
        t <= e,
        x.len() == pow2(e),
        all_residues(x, p),
        copied(x, pow2(t) as int),
    ensures
        radix2::oi_network(padded(x, pow2(t) as int, 1), g, 1, p) == radix2::oi_network(
            x,
            g,
            pow2(t),
            p,
        ),
{
    lemma2_to64();
    lemma_starts_late(x, g, 0, t, e, p);
}

/// The same from gap `2^i` on, with `2^i` copies in place.
proof fn lemma_starts_late(x: Seq<int>, g: int, i: nat, t: nat, e: nat, p: int)
    requires
        p > 0,
        i <= t <= e,
        x.len() == pow2(e),
        all_residues(x, p),
        copied(x, pow2(t) as int),
    ensures
        radix2::oi_network(padded(x, pow2(t) as int, pow2(i) as int), g, pow2(i), p)
            == radix2::oi_network(x, g, pow2(t), p),
    decreases t - i,
{
    lemma_pow2_pos(t);
    if i == t {
        assert(padded(x, pow2(t) as int, pow2(t) as int) =~= x);
    } else {
        lemma_pow2_pos(i);
        lemma_pow2_unfold(i + 1);
        lemma_pow2_strictly_increases(i, e);
        lemma_stage_copies(x, g, i, t, e, p);
        lemma_starts_late(x, g, i + 1, t, e, p);
    }
}

/// The stages of the in-order network run from the given gap down to one. From `x`, the stage of a
/// gap makes the `y` that holds, for every pair of positions `k` and `k + gap` of a chunk of
/// `2 gap` positions, their sum and their difference times `g` to the power of `k mod 2 gap` times
/// the number of chunks.
pub proof fn law_io_stages(x: Seq<int>, y: Seq<int>, g: int, gap: nat, p: int)
    requires
        p > 0,
        gap > 0,
        x.len() % (2 * gap) == 0,
        y.len() == x.len(),
        forall|k: int|
            #![trigger y[k]]
            0 <= k < x.len() && k % (2 * gap as int) < gap ==> y[k] == (x[k] + x[k + gap]) % p
                && y[k + gap] == ((x[k] - x[k + gap]) * pow(
                g,
                ((k % (2 * gap as int)) * (x.len() as int / (2 * gap as int))) as nat,
            )) % p,
    ensures
        radix2::io_network(x, g, 0, p) == x,
        radix2::io_network(x, g, gap, p) == radix2::io_network(y, g, gap / 2, p),
{
    let m = 2 * gap as int;
    let z = radix2::io_stage(x, g, gap as int, p);
    assert forall|k: int| 0 <= k < x.len() implies #[trigger] y[k] == z[k] by {
        lemma_pair_position(k, gap as int, x.len() as int);
        if k % m >= gap {
            let l = k - gap;
            assert(y[l] == (x[l] + x[l + gap]) % p);
            assert(y[l + gap] == z[k]);
        }
    }
    assert(y =~= z);
}

/// The stages of the out-of-order network run from the given gap up to half the length. From `x`,
/// the stage of a gap makes the `y` that holds, for every pair of positions `k` and `k + gap` of a
/// chunk of `2 gap` positions, the sum and the difference of the first entry and the second times
/// `g` to the power of `k mod 2 gap` times the number of chunks.
pub proof fn law_oi_stages(x: Seq<int>, y: Seq<int>, g: int, gap: nat, p: int)
    requires
        p > 0,
        gap > 0,
        x.len() % (2 * gap) == 0,
        y.len() == x.len(),
        forall|k: int|
            #![trigger y[k]]
            0 <= k < x.len() && k % (2 * gap as int) < gap ==> {
                let t = x[k + gap] * pow(
                    g,
                    ((k % (2 * gap as int)) * (x.len() as int / (2 * gap as int))) as nat,
                );
                y[k] == (x[k] + t) % p && y[k + gap] == (x[k] - t) % p
            },
    ensures
        gap >= x.len() ==> radix2::oi_network(x, g, gap, p) == x,
        gap < x.len() ==> radix2::oi_network(x, g, gap, p) == radix2::oi_network(y, g, 2 * gap, p),
{
    let m = 2 * gap as int;
    let z = radix2::oi_stage(x, g, gap as int, p);
    assert forall|k: int| 0 <= k < x.len() implies #[trigger] y[k] == z[k] by {
        lemma_pair_position(k, gap as int, x.len() as int);
        if k % m >= gap {
            let l = k - gap;
            let v = y[l];
            assert(y[l + gap] == z[k]);
        }
    }
    assert(y =~= z);
}

/// The other position of a pair lies in the same chunk, at the same place of the other half.
proof fn lemma_pair_position(k: int, gap: int, n: int)
    requires
        gap > 0,
        0 <= k < n,
        n % (2 * gap) == 0,
    ensures
        k % (2 * gap) < gap ==> k + gap < n,
        k % (2 * gap) >= gap ==> 0 <= k - gap && (k - gap) % (2 * gap) == k % (2 * gap) - gap,
{
    let m = 2 * gap;
    let (q, j) = (k / m, k % m);
    lemma_fundamental_div_mod(k, m);
    lemma_fundamental_div_mod(n, m);
    lemma_mod_bound(k, m);
    let c = n / m;
    if j < gap {
        assert(m * q + j + gap < m * c) by (nonlinear_arith)
            requires
                m * q + j < m * c,
                0 <= j < gap,
                m == 2 * gap,
        ;
    } else {
        assert(m * q >= 0) by (nonlinear_arith)
            requires
                m > 0,
                m * q + j >= 0,
                j < m,
        ;
        lemma_mul_is_commutative(m, q);
        lemma_fundamental_div_mod_converse(k - gap, m, q, j - gap);
    }
}

/// Butterflies, on residues: the sum and the difference times the root, or the sum and the
/// difference with the second operand times the root.
pub proof fn law_butterfly(lo: int, hi: int, root: int, p: int)
    ensures
        radix2::low_result(radix2::Butterfly::InOut, lo, hi, root, p) == (lo + hi) % p,
        radix2::high_result(radix2::Butterfly::InOut, lo, hi, root, p) == ((lo - hi) * root) % p,
        radix2::low_result(radix2::Butterfly::OutIn, lo, hi, root, p) == (lo + hi * root) % p,
        radix2::high_result(radix2::Butterfly::OutIn, lo, hi, root, p) == (lo - hi * root) % p,
{
}

/// Butterflies, on domain forms: sums and differences are lazy, and products are reduced by
/// `2^261`.
pub proof fn law_butterfly_form(lo: nat, hi: nat, root: nat, p: nat)
    requires
        p % 2 == 1,
        lo < 2 * p,
        hi < 2 * p,
    ensures
        ({
            let (io, oi) = (radix2::Butterfly::InOut, radix2::Butterfly::OutIn);
            let t = montgomery::redc(hi * root, p);
            let d = if hi <= lo {
                (lo - hi) as nat
            } else {
                (lo - hi + 2 * p) as nat
            };
            &&& radix2::low_form(io, lo, hi, root, p) == (if lo + hi < 2 * p {
                (lo + hi) as int
            } else {
                lo + hi - 2 * p
            })
            &&& radix2::high_form(io, lo, hi, root, p) == montgomery::redc(d * root, p)
            &&& t < 2 * p ==> radix2::low_form(oi, lo, hi, root, p) == (if lo + t < 2 * p {
                (lo + t) as int
            } else {
                lo + t - 2 * p
            })
            &&& t < 2 * p ==> radix2::high_form(oi, lo, hi, root, p) == (if t <= lo {
                lo - t
            } else {
                lo - t + 2 * p
            })
        }),
{
}

/// A stage with given roots applies its butterfly to positions `k` and `k + gap` of every chunk of
/// `2 gap` positions, with root number `(k mod 2 gap) * step`, on elements as on forms.
pub proof fn law_stage_with(
    kind: radix2::Butterfly,
    x: Seq<int>,
    roots: Seq<int>,
    f: Seq<nat>,
    root_forms: Seq<nat>,
    step: int,
    gap: int,
    p: nat,
    k: int,
)
    requires
        gap > 0,
        x.len() % (2 * gap as nat) == 0,
        f.len() == x.len(),
        0 <= k < x.len(),
        k % (2 * gap) < gap,
    ensures
        k + gap < x.len(),
        ({
            let y = radix2::stage_with(kind, x, roots, step, gap, p as int);
            let w = roots[(k % (2 * gap)) * step];
            &&& y.len() == x.len()
            &&& y[k] == radix2::low_result(kind, x[k], x[k + gap], w, p as int)
            &&& y[k + gap] == radix2::high_result(kind, x[k], x[k + gap], w, p as int)
        }),
        ({
            let y = radix2::stage_forms(kind, f, root_forms, step, gap, p);
            let w = root_forms[(k % (2 * gap)) * step];
            &&& y.len() == f.len()
            &&& y[k] == radix2::low_form(kind, f[k], f[k + gap], w, p)
            &&& y[k + gap] == radix2::high_form(kind, f[k], f[k + gap], w, p)
        }),
{
    let m = 2 * gap;
    lemma_pair_position(k, gap, x.len() as int);
    lemma_fundamental_div_mod(k, m);
    lemma_mod_bound(k, m);
    lemma_mul_is_commutative(m, k / m);
    lemma_fundamental_div_mod_converse(k + gap, m, k / m, k % m + gap);
}

/// Vectors are read member by member: the residues of words, the elements and the numbers of
/// domain forms.
pub proof fn law_members(pr: Params, w: Seq<[u64; 4]>, d: Seq<[u64; LIMBS]>)
    ensures
        radix2::residues(pr, w).len() == w.len(),
        forall|k: int|
            0 <= k < w.len() ==> #[trigger] radix2::residues(pr, w)[k] == pr.residue(w[k]),
        radix2::elements(pr, d).len() == d.len(),
        forall|k: int|
            0 <= k < d.len() ==> #[trigger] radix2::elements(pr, d)[k] == pr.element(d[k]),
        radix2::forms(d).len() == d.len(),
        forall|k: int|
            0 <= k < d.len() ==> #[trigger] radix2::forms(d)[k] == limbs::value29(d[k]),
        radix2::all_reduced(pr, w) <==> forall|k: int|
            0 <= k < w.len() ==> limbs::value64(#[trigger] w[k]) < limbs::value29(pr.p),
        radix2::all_lazy(pr, d) <==> forall|k: int|
            0 <= k < d.len() ==> pr.lazy(#[trigger] d[k]),
{
}

/// Powers of two are one and the doubles of powers of two; the domains are those of such sizes.
pub proof fn law_power_of_two(n: nat, domain: radix2::Radix2EvaluationDomain)
    ensures
        radix2::power_of_two(n) <==> exists|e: nat| n == #[trigger] pow2(e),
        radix2::power_of_two(1),
        !radix2::power_of_two(0),
        radix2::power_of_two(2 * n) <==> radix2::power_of_two(n),
        n > 1 && n % 2 == 1 ==> !radix2::power_of_two(n),
        domain.wf() <==> exists|e: nat| domain.size == #[trigger] pow2(e),
{
    lemma2_to64();
    assert(pow2(0) == 1);
    assert forall|e: nat| #[trigger] pow2(e) > 0 by {
        lemma_pow2_pos(e);
    }
    if radix2::power_of_two(n) {
        let e = choose|e: nat| n == #[trigger] pow2(e);
        lemma_pow2_unfold(e + 1);
        assert(2 * n == pow2(e + 1));
        if e > 0 {
            lemma_pow2_unfold(e);
        }
    }
    if radix2::power_of_two(2 * n) {
        let e = choose|e: nat| 2 * n == #[trigger] pow2(e);
        if e > 0 {
            lemma_pow2_unfold(e);
            assert(n == pow2((e - 1) as nat));
        }
    }
}

/// A transform adds `x[m] g^(m k)` for every position `m`.
pub proof fn law_dft_sum(x: Seq<int>, g: int, k: nat, m: nat)
    ensures
        dft_sum(x, g, k, 0) == 0,
        dft_sum(x, g, k, m + 1) == dft_sum(x, g, k, m) + x[m as int] * pow(g, m * k),
{
}

/// Binary digit `i` of the reversed number is digit `e - 1 - i` of the number.
pub proof fn law_bit_reversed(k: nat, e: nat, i: nat)
    requires
        i < e,
    ensures
        bit_reversed(k, e) < pow2(e),
        (bit_reversed(k, e) / pow2(i)) % 2 == (k / pow2((e - 1 - i) as nat)) % 2,
    decreases e,
{
    let h = (e - 1) as nat;
    let r = bit_reversed(k / 2, h);
    let b = (k % 2) as int;
    let s = pow2(h) as int;
    lemma2_to64();
    lemma_bit_reversed_bound(k, e);
    lemma_bit_reversed_bound(k / 2, h);
    lemma_pow2_pos(h);
    lemma_pow2_pos(i);
    if i == h {
        lemma_fundamental_div_mod_converse(b * s + r, s, b, r as int);
        assert(bit_reversed(k, e) / pow2(i) == b);
        assert(k / pow2(0) == k);
    } else {
        law_bit_reversed(k / 2, h, i);
        let q = pow2(i) as int;
        let c = (h - i - 1) as nat;
        lemma_pow2_adds(i, (c + 1) as nat);
        lemma_pow2_unfold((c + 1) as nat);
        let t = pow2(c) as int;
        assert(b * s + r == r + q * (2 * (b * t))) by (nonlinear_arith)
            requires
                s == q * (2 * t),
        ;
        limbs::lemma_div_multiples_vanish_quotient_add(r as int, 2 * (b * t), q);
        assert((r as int / q + 2 * (b * t)) % 2 == (r as int / q) % 2);
        lemma_pow2_pos(c);
        lemma_div_denominator(k as int, 2, t);
        assert(bit_reversed(k, e) as int / q == r as int / q + 2 * (b * t));
        assert(k / pow2((e - 1 - i) as nat) == (k / 2) / pow2((h - 1 - i) as nat));
    }
}

/// Domains of fewer than 128 elements are left to the arithmetic of the field.
pub proof fn law_minimum_size()
    ensures
        radix2::MIN_LAZY_FFT_SIZE == 128,
{
}

} // verus!
