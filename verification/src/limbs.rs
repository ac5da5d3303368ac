//! Little-endian limb vectors and the natural numbers they stand for.
use vstd::arithmetic::div_mod::*;
use vstd::arithmetic::mul::*;
use vstd::arithmetic::power2::*;
use vstd::prelude::*;

verus! {

/// The number that the first `n` limbs of `l` stand for when limb `j` has weight `2^(w * j)`.
pub open spec fn value(l: Seq<u64>, w: nat, n: nat) -> nat
    decreases n,
{
    if n == 0 {
        0
    } else {
        value(l, w, (n - 1) as nat) + (l[n - 1] as nat) * pow2(w * (n - 1) as nat)
    }
}

/// Every limb is below `2^w`.
pub open spec fn bounded(l: Seq<u64>, w: nat) -> bool {
    forall|j: int| 0 <= j < l.len() ==> #[trigger] l[j] < pow2(w)
}

/// The number held by nine limbs of weight `2^29`; the limbs may exceed 29 bits.
pub open spec fn value29(l: [u64; 9]) -> nat {
    value(l@, 29, 9)
}

/// Nine limbs in carried form: each below `2^29`.
pub open spec fn carried(l: [u64; 9]) -> bool {
    bounded(l@, 29)
}

/// The number held by four 64-bit words.
pub open spec fn value64(l: [u64; 4]) -> nat {
    value(l@, 64, 4)
}

/// Splitting an exponent turns into a product of weights.
pub proof fn lemma_weight_step(w: nat, n: nat)
    ensures
        pow2(w * (n + 1)) == pow2(w * n) * pow2(w),
{
    assert(w * (n + 1) == w * n + w) by (nonlinear_arith);
    lemma_pow2_adds(w * n, w);
}

/// Two vectors that agree on the first `n` limbs agree in value.
pub proof fn lemma_value_agree(a: Seq<u64>, b: Seq<u64>, w: nat, n: nat)
    requires
        forall|j: int| 0 <= j < n ==> #[trigger] a[j] == b[j],
    ensures
        value(a, w, n) == value(b, w, n),
    decreases n,
{
    if n > 0 {
        lemma_value_agree(a, b, w, (n - 1) as nat);
    }
}

/// Zero limbs have value zero.
pub proof fn lemma_value_zero(l: Seq<u64>, w: nat, n: nat)
    requires
        forall|j: int| 0 <= j < n ==> #[trigger] l[j] == 0,
    ensures
        value(l, w, n) == 0,
    decreases n,
{
    if n > 0 {
        lemma_value_zero(l, w, (n - 1) as nat);
        lemma_mul_basics(pow2(w * (n - 1) as nat) as int);
    }
}

/// Carried limbs stay below the next weight.
pub proof fn lemma_value_bound(l: Seq<u64>, w: nat, n: nat)
    requires
        forall|j: int| 0 <= j < n ==> #[trigger] l[j] < pow2(w),
    ensures
        value(l, w, n) < pow2(w * n),
    decreases n,
{
    if n == 0 {
        assert(w * 0 == 0) by (nonlinear_arith);
        lemma2_to64();
    } else {
        let m = (n - 1) as nat;
        lemma_value_bound(l, w, m);
        lemma_weight_step(w, m);
        let top = l[n - 1] as int;
        let s = pow2(w * m) as int;
        let b = pow2(w) as int;
        assert(value(l, w, m) < s);
        assert(top * s + s <= s * b) by (nonlinear_arith)
            requires
                top + 1 <= b,
                s >= 0,
        ;
    }
}

/// A single limb is at most the whole value divided by its weight.
pub proof fn lemma_limb_le(l: Seq<u64>, w: nat, n: nat, j: nat)
    requires
        j < n,
    ensures
        l[j as int] * pow2(w * j) <= value(l, w, n),
    decreases n,
{
    let m = (n - 1) as nat;
    lemma_pow2_pos(w * m);
    assert(l[n - 1] * pow2(w * m) >= 0) by (nonlinear_arith)
        requires
            l[n - 1] >= 0,
            pow2(w * m) >= 0,
    ;
    if j < m {
        lemma_limb_le(l, w, m, j);
    }
}

/// Carried limbs are determined by their value.
pub proof fn lemma_value_unique(a: Seq<u64>, b: Seq<u64>, w: nat, n: nat)
    requires
        forall|j: int| 0 <= j < n ==> #[trigger] a[j] < pow2(w),
        forall|j: int| 0 <= j < n ==> #[trigger] b[j] < pow2(w),
        value(a, w, n) == value(b, w, n),
    ensures
        forall|j: int| 0 <= j < n ==> #[trigger] a[j] == b[j],
    decreases n,
{
    if n > 0 {
        let m = (n - 1) as nat;
        lemma_value_bound(a, w, m);
        lemma_value_bound(b, w, m);
        let s = pow2(w * m) as int;
        let (x, y) = (a[n - 1] as int, b[n - 1] as int);
        let (u, v) = (value(a, w, m) as int, value(b, w, m) as int);
        assert(x == y) by (nonlinear_arith)
            requires
                0 <= u < s,
                0 <= v < s,
                u + x * s == v + y * s,
        ;
        lemma_value_unique(a, b, w, m);
    }
}

/// Carried nine-limb vectors of equal value are equal limb by limb.
pub proof fn lemma_unique29(a: [u64; 9], b: [u64; 9])
    requires
        carried(a),
        carried(b),
        value29(a) == value29(b),
    ensures
        a@ == b@,
{
    lemma_value_unique(a@, b@, 29, 9);
}

/// Four-word vectors of equal value are equal word by word.
pub proof fn lemma_unique64(a: [u64; 4], b: [u64; 4])
    requires
        value64(a) == value64(b),
    ensures
        a@ == b@,
{
    lemma2_to64();
    lemma_value_unique(a@, b@, 64, 4);
}

/// A four-word value fits in 256 bits.
pub proof fn lemma_value64_bound(a: [u64; 4])
    ensures
        value64(a) < pow2(256),
{
    lemma2_to64();
    lemma_value_bound(a@, 64, 4);
}

/// A value falls apart at limb `k` into a low part and a multiple of the weight of limb `k`.
pub proof fn lemma_value_split(l: Seq<u64>, w: nat, n: nat, k: nat)
    requires
        k <= n <= l.len(),
    ensures
        value(l, w, n) == value(l, w, k) + pow2(w * k) * value(l.skip(k as int), w, (n - k) as nat),
    decreases n,
{
    let hi = l.skip(k as int);
    if k == n {
        lemma_mul_basics(pow2(w * k) as int);
    } else {
        let m = (n - 1) as nat;
        lemma_value_split(l, w, m, k);
        let g = (m - k) as nat;
        assert(w * m == w * k + w * g) by (nonlinear_arith)
            requires
                m == k + g,
        ;
        lemma_pow2_adds(w * k, w * g);
        let t = l[n - 1] as int;
        assert(hi[g as int] == l[n - 1]);
        let (a, c, v) = (pow2(w * k) as int, pow2(w * g) as int, value(hi, w, g) as int);
        assert(t * (a * c) + a * v == a * (v + t * c)) by (nonlinear_arith);
    }
}

/// The lowest limb is the value modulo one weight, the others hold the quotient.
pub proof fn lemma_value_head(l: Seq<u64>, w: nat, n: nat)
    requires
        0 < n <= l.len(),
    ensures
        value(l, w, n) == l[0] + pow2(w) * value(l.skip(1), w, (n - 1) as nat),
{
    lemma_value_split(l, w, n, 1);
    assert(w * 1 == w && w * 0 == 0) by (nonlinear_arith);
    lemma2_to64();
    assert(value(l, w, 1) == value(l, w, 0) + (l[0] as nat) * pow2(w * 0));
    lemma_mul_basics(l[0] as int);
}

/// Limbs that are the base-`2^w` digits of `v` have value `v` modulo the weight above them.
pub proof fn lemma_digits_value(l: Seq<u64>, w: nat, n: nat, v: nat)
    requires
        forall|j: int| 0 <= j < n ==> #[trigger] l[j] == (v / pow2(w * j as nat)) % pow2(w),
    ensures
        value(l, w, n) == v % pow2(w * n),
    decreases n,
{
    if n == 0 {
        assert(w * 0 == 0) by (nonlinear_arith);
        lemma2_to64();
    } else {
        let m = (n - 1) as nat;
        lemma_digits_value(l, w, m, v);
        lemma_weight_step(w, m);
        lemma_pow2_pos(w * m);
        lemma_pow2_pos(w);
        lemma_mod_breakdown(v as int, pow2(w * m) as int, pow2(w) as int);
        assert(l[m as int] == (v / pow2(w * m)) % pow2(w));
        lemma_mul_is_commutative(pow2(w * m) as int, l[m as int] as int);
    }
}

/// Reading `w` bits at offset `off` of the 128-bit number `x + 2^64 y` from one or both words.
pub proof fn lemma_window(x: u64, y: u64, off: u64, w: nat)
    requires
        off < 64,
        w <= 64,
    ensures
        off + w <= 64 || y == 0 ==> (x >> off) as int % pow2(w) as int == ((x + pow2(64) * y)
            / pow2(off as nat) as int) % pow2(w) as int,
        off > 0 ==> ((x >> off) | (y << ((64 - off) as u64))) as int % pow2(w) as int == ((x + pow2(
            64,
        ) * y) / pow2(off as nat) as int) % pow2(w) as int,
{
    lemma2_to64();
    let k = (64 - off) as nat;
    let q = pow2(off as nat) as int;
    let r = pow2(w) as int;
    lemma_pow2_pos(off as nat);
    lemma_pow2_pos(w);
    let xh = x >> off;
    vstd::bits::lemma_u64_shr_is_div(x, off);
    lemma_pow2_adds(off as nat, k);
    let s = pow2(k) as int;
    // (x + 2^64 y) / 2^off == x / 2^off + 2^k y
    assert(pow2(64) * y == q * (s * y)) by (nonlinear_arith)
        requires
            pow2(64) == q * s,
    ;
    lemma_div_multiples_vanish_quotient_add(x as int, s * y, q);
    let z = (x + pow2(64) * y) / q;
    assert(z == xh + s * y);
    if off + w <= 64 {
        let g = (k - w) as nat;
        lemma_pow2_adds(w, g);
        assert(s * y == r * (pow2(g) * y)) by (nonlinear_arith)
            requires
                s == r * pow2(g),
        ;
        lemma_mod_multiples_vanish(pow2(g) * y, xh as int, r);
    }
    if y == 0 {
        lemma_mul_basics(s);
    }
    if off > 0 {
        let ku = (64 - off) as u64;
        vstd::bits::lemma_u64_pow2_no_overflow(off as nat);
        vstd::bits::lemma_u64_shl_is_mul(1, off);
        let m = vstd::bits::low_bits_mask(off as nat) as u64;
        vstd::bits::lemma_u64_low_bits_mask_is_mod(y, off as nat);
        let ym = y & m;
        assert(y << ku == ym << ku && xh | (y << ku) == xh + (ym << ku)) by (bit_vector)
            requires
                0 < off < 64,
                ku == 64 - off,
                m == (1u64 << off) - 1,
                ym == y & m,
                xh == x >> off,
        ;
        // the bits of y that the shift keeps
        let yq = y as int / q;
        lemma_fundamental_div_mod(y as int, q);
        lemma_mod_bound(y as int, q);
        assert(ym * s < q * s) by (nonlinear_arith)
            requires
                0 <= ym < q,
                s > 0,
        ;
        vstd::bits::lemma_u64_shl_is_mul(ym, ku);
        let g = (64 - w) as nat;
        lemma_pow2_adds(w, g);
        assert(s * y == r * (pow2(g) * yq) + ym * s) by (nonlinear_arith)
            requires
                y == q * yq + ym,
                q * s == r * pow2(g),
        ;
        lemma_mod_multiples_vanish(pow2(g) * yq, xh + ym * s, r);
    }
}

/// Adding a multiple of the divisor adds to the quotient.
pub proof fn lemma_div_multiples_vanish_quotient_add(a: int, b: int, d: int)
    requires
        d > 0,
    ensures
        (a + d * b) / d == a / d + b,
{
    lemma_fundamental_div_mod(a, d);
    lemma_mod_bound(a, d);
    assert(a + d * b == d * (a / d + b) + a % d) by (nonlinear_arith)
        requires
            a == d * (a / d) + a % d,
    ;
    lemma_fundamental_div_mod_converse(a + d * b, d, a / d + b, a % d);
}

/// The `b` bits of a number at bit `64 k + off` lie in words `k` and `k + 1`.
pub proof fn lemma_digit(l: Seq<u64>, n: nat, k: nat, off: nat, b: nat)
    requires
        k < n <= l.len(),
        off < 64,
        b <= 64,
    ensures
        (value(l, 64, n) / pow2(64 * k + off)) as int % pow2(b) as int == ((l[k as int] + pow2(64) * (
        if k + 1 < n {
            l[k as int + 1]
        } else {
            0
        })) / pow2(off) as int) % pow2(b) as int,
{
    lemma2_to64();
    let v = value(l, 64, n) as int;
    let rest = l.skip(k as int);
    let u = value(rest, 64, (n - k) as nat) as int;
    let y: u64 = if k + 1 < n { l[k as int + 1] } else { 0 };
    lemma_value_split(l, 64, n, k);
    lemma_value_bound(l, 64, k);
    let s = pow2(64 * k) as int;
    lemma_pow2_pos(64 * k);
    lemma_div_multiples_vanish_quotient_add(value(l, 64, k) as int, u, s);
    lemma_basic_div(value(l, 64, k) as int, s);
    assert(v / s == u);
    lemma_pow2_adds(64 * k, off);
    lemma_pow2_pos(off);
    let q = pow2(off) as int;
    lemma_div_denominator(v, s, q);
    assert(v / (s * q) == u / q);
    lemma_value_head(rest, 64, (n - k) as nat);
    let l1 = rest.skip(1);
    let m1 = (n - k - 1) as nat;
    let u1 = value(l1, 64, m1) as int;
    let u2: int = if k + 1 < n { value(l1.skip(1), 64, (m1 - 1) as nat) as int } else { 0 };
    if k + 1 < n {
        lemma_value_head(l1, 64, m1);
        assert(l1[0] == y);
    }
    assert(u1 == y + pow2(64) * u2);
    let x = l[k as int] as int + pow2(64) * y;
    let g = (128 - off - b) as nat;
    lemma_pow2_adds(64, 64);
    lemma_pow2_adds(off, b + g);
    lemma_pow2_adds(b, g);
    lemma_pow2_pos(b);
    let (h, r) = (pow2(g) as int, pow2(b) as int);
    assert(u == x + q * (r * (h * u2))) by (nonlinear_arith)
        requires
            u == l[k as int] + pow2(64) * u1,
            u1 == y + pow2(64) * u2,
            x == l[k as int] + pow2(64) * y,
            pow2(64) * pow2(64) == q * (r * h),
    ;
    lemma_div_multiples_vanish_quotient_add(x, r * (h * u2), q);
    lemma_mod_multiples_vanish(h * u2, x / q, r);
}

/// Replacing one limb changes the value by the difference at its weight.
pub proof fn lemma_value_update(l: Seq<u64>, w: nat, n: nat, k: nat, x: u64)
    requires
        k < n <= l.len(),
    ensures
        value(l.update(k as int, x), w, n) == value(l, w, n) + (x - l[k as int]) * pow2(w * k),
    decreases n,
{
    let m = (n - 1) as nat;
    let l2 = l.update(k as int, x);
    if k == m {
        lemma_value_agree(l, l2, w, m);
        let s = pow2(w * k) as int;
        assert(x * s - l[k as int] * s == (x - l[k as int]) * s) by (nonlinear_arith);
    } else {
        lemma_value_update(l, w, m, k, x);
    }
}

/// When a four-word value is below bit `64 w + off`, word `w` is below `2^off` and the words above
/// it are zero.
pub proof fn lemma_free_bits(l: Seq<u64>, w: nat, off: nat)
    requires
        l.len() == 4,
        w < 4,
        value(l, 64, 4) < pow2(64 * w + off),
        off < 64,
    ensures
        l[w as int] < pow2(off),
        forall|k: int| w < k < 4 ==> #[trigger] l[k] == 0,
{
    lemma_pow2_adds(64 * w, off);
    lemma_pow2_pos(64 * w);
    lemma_limb_le(l, 64, 4, w);
    let s = pow2(64 * w) as int;
    assert(l[w as int] < pow2(off)) by (nonlinear_arith)
        requires
            l[w as int] * s < s * pow2(off),
            s > 0,
    ;
    assert forall|k: int| w < k < 4 implies #[trigger] l[k] == 0 by {
        lemma_limb_le(l, 64, 4, k as nat);
        let e = pow2(64 * (k as nat)) as int;
        lemma_pow2_strictly_increases(64 * w + off, 64 * (k as nat));
        let x = l[k] as int;
        if x >= 1 {
            assert(x * e >= e) by (nonlinear_arith)
                requires
                    x >= 1,
                    e >= 0,
            ;
        }
    }
}

/// Placing a 29-bit limb at bit `off` of a word whose low `off` bits are in use, with the bits that
/// do not fit going to the next word.
pub proof fn lemma_place29(word: u64, limb: u64, off: u64)
    requires
        off < 64,
        word < pow2(off as nat),
        limb < pow2(29),
    ensures
        off <= 35 ==> (word | (limb << off)) == word + limb * pow2(off as nat),
        off <= 40 && limb < pow2(24) ==> (word | (limb << off)) == word + limb * pow2(off as nat),
        off > 35 ==> (word | (limb << off)) + pow2(64) * (limb >> ((64 - off) as u64)) == word + limb
            * pow2(off as nat),
{
    lemma2_to64();
    let q = pow2(off as nat) as int;
    assert(1u64 << off == pow2(off as nat)) by {
        vstd::bits::lemma_u64_pow2_no_overflow(off as nat);
        lemma_mul_basics(q);
        vstd::bits::lemma_u64_shl_is_mul(1, off);
    }
    if off <= 35 || (off <= 40 && limb < pow2(24)) {
        let top: nat = if off <= 35 { 35 } else { 40 };
        lemma2_to64_rest();
        assert(q <= pow2(top)) by {
            if off < top {
                lemma_pow2_strictly_increases(off as nat, top);
            }
        }
        let m: int = if off <= 35 { 0x1fff_ffff } else { 0xff_ffff };
        let e: int = if off <= 35 { 0x8_0000_0000 } else { 0x100_0000_0000 };
        assert(limb * q <= m * e) by (nonlinear_arith)
            requires
                0 <= limb <= m,
                0 <= q <= e,
        ;
        vstd::bits::lemma_u64_shl_is_mul(limb, off);
        assert(word | (limb << off) == word + (limb << off)) by (bit_vector)
            requires
                word < (1u64 << off),
                off < 64,
        ;
    }
    if off > 35 {
        let k = (64 - off) as u64;
        let hi = limb >> k;
        vstd::bits::lemma_u64_shr_is_div(limb, k);
        let s = pow2(k as nat) as int;
        lemma_pow2_pos(k as nat);
        lemma_fundamental_div_mod(limb as int, s);
        lemma_mod_bound(limb as int, s);
        let lo = (limb as int % s) as u64;
        lemma_pow2_adds(off as nat, k as nat);
        vstd::bits::lemma_u64_pow2_no_overflow(k as nat);
        assert(lo * q <= u64::MAX) by (nonlinear_arith)
            requires
                0 <= lo < s,
                q * s == 0x1_0000_0000_0000_0000,
                q > 0,
        ;
        vstd::bits::lemma_u64_shl_is_mul(lo, off);
        assert(hi * s <= u64::MAX) by (nonlinear_arith)
            requires
                limb == s * hi + lo,
                0 <= lo,
                limb <= u64::MAX,
        ;
        vstd::bits::lemma_u64_shl_is_mul(hi, k);
        lemma_mul_is_commutative(s, hi as int);
        assert(limb == (hi << k) + lo);
        assert(limb << off == lo << off) by (bit_vector)
            requires
                limb == (hi << k) + lo,
                k == 64 - off,
                35 < off < 64,
                hi == limb >> k,
        ;
        assert(word | (limb << off) == word + (limb << off)) by (bit_vector)
            requires
                word < (1u64 << off),
                off < 64,
        ;
        assert(lo * q + 0x1_0000_0000_0000_0000 * hi == limb * q) by (nonlinear_arith)
            requires
                limb == s * hi + lo,
                q * s == 0x1_0000_0000_0000_0000,
        ;
    }
}

/// The highest limb in which two carried vectors differ decides which value is larger.
pub proof fn lemma_value_less(a: Seq<u64>, b: Seq<u64>, w: nat, n: nat, j: nat)
    requires
        j < n,
        forall|k: int| 0 <= k < n ==> #[trigger] a[k] < pow2(w),
        forall|k: int| j < k < n ==> #[trigger] a[k] == b[k],
        a[j as int] < b[j as int],
    ensures
        value(a, w, n) < value(b, w, n),
    decreases n,
{
    let m = (n - 1) as nat;
    if j == m {
        lemma_value_bound(a, w, m);
        let s = pow2(w * m) as int;
        let (x, y) = (a[j as int] as int, b[j as int] as int);
        assert(x * s + s <= y * s) by (nonlinear_arith)
            requires
                x + 1 <= y,
                s >= 0,
        ;
    } else {
        lemma_value_less(a, b, w, m, j);
    }
}

/// Masking and shifting by 29 bits give remainder and quotient.
pub proof fn lemma_carry29(v: u64)
    ensures
        v & 0x1fff_ffff == v % 0x2000_0000,
        v >> 29 == v / 0x2000_0000,
        (v & 0x1fff_ffff) + 0x2000_0000 * (v >> 29) == v,
        (v & 0x1fff_ffff) < 0x2000_0000,
        v >> 29 < 0x8_0000_0000,
{
    assert(v & 0x1fff_ffff == v % 0x2000_0000 && v >> 29 == v / 0x2000_0000) by (bit_vector);
}

/// The weights of nine 29-bit limbs, written out.
pub proof fn lemma_weights29()
    ensures
        pow2(0) == 0x1,
        pow2(29) == 0x20000000,
        pow2(58) == 0x400000000000000,
        pow2(87) == 0x8000000000000000000000,
        pow2(116) == 0x100000000000000000000000000000,
        pow2(145) == 0x2000000000000000000000000000000000000,
        pow2(174) == 0x40000000000000000000000000000000000000000000,
        pow2(203) == 0x800000000000000000000000000000000000000000000000000,
        pow2(232) == 0x10000000000000000000000000000000000000000000000000000000000,
        pow2(261) == 0x200000000000000000000000000000000000000000000000000000000000000000,
{
    lemma2_to64();
    lemma_pow2_adds(29, 29);
    lemma_pow2_adds(58, 29);
    lemma_pow2_adds(87, 29);
    lemma_pow2_adds(116, 29);
    lemma_pow2_adds(145, 29);
    lemma_pow2_adds(174, 29);
    lemma_pow2_adds(203, 29);
    lemma_pow2_adds(232, 29);
}

/// The value of nine limbs as an explicit sum.
pub proof fn lemma_value29_sum(l: [u64; 9])
    ensures
        value29(l) == l[0] + 0x20000000 * l[1] + 0x400000000000000 * l[2] + 0x8000000000000000000000 * l[3] + 0x100000000000000000000000000000 * l[4] + 0x2000000000000000000000000000000000000 * l[5] + 0x40000000000000000000000000000000000000000000 * l[6] + 0x800000000000000000000000000000000000000000000000000 * l[7] + 0x10000000000000000000000000000000000000000000000000000000000 * l[8],
{
    lemma_weights29();
    assert(value(l@, 29, 1) == value(l@, 29, 0) + l[0] * 0x1);
    assert(value(l@, 29, 2) == value(l@, 29, 1) + l[1] * 0x20000000);
    assert(value(l@, 29, 3) == value(l@, 29, 2) + l[2] * 0x400000000000000);
    assert(value(l@, 29, 4) == value(l@, 29, 3) + l[3] * 0x8000000000000000000000);
    assert(value(l@, 29, 5) == value(l@, 29, 4) + l[4] * 0x100000000000000000000000000000);
    assert(value(l@, 29, 6) == value(l@, 29, 5) + l[5] * 0x2000000000000000000000000000000000000);
    assert(value(l@, 29, 7) == value(l@, 29, 6) + l[6] * 0x40000000000000000000000000000000000000000000);
    assert(value(l@, 29, 8) == value(l@, 29, 7) + l[7] * 0x800000000000000000000000000000000000000000000000000);
    assert(value(l@, 29, 9) == value(l@, 29, 8) + l[8] * 0x10000000000000000000000000000000000000000000000000000000000);
}

/// A multiple of nine limbs as an explicit sum.
pub proof fn lemma_value29_scaled(l: [u64; 9], k: u64)
    ensures
        k * value29(l) == k * l[0] + 0x20000000 * (k * l[1]) + 0x400000000000000 * (k * l[2]) + 0x8000000000000000000000 * (k * l[3]) + 0x100000000000000000000000000000 * (k * l[4]) + 0x2000000000000000000000000000000000000 * (k * l[5]) + 0x40000000000000000000000000000000000000000000 * (k * l[6]) + 0x800000000000000000000000000000000000000000000000000 * (k * l[7]) + 0x10000000000000000000000000000000000000000000000000000000000 * (k * l[8]),
{
    lemma_value29_sum(l);
    let v = value29(l) as int;
    let (l0, l1, l2, l3, l4, l5, l6, l7, l8) = (
        l[0] as int,
        l[1] as int,
        l[2] as int,
        l[3] as int,
        l[4] as int,
        l[5] as int,
        l[6] as int,
        l[7] as int,
        l[8] as int,
    );
    assert(k * v == k * l0 + 0x20000000 * (k * l1) + 0x400000000000000 * (k * l2) + 0x8000000000000000000000 * (k * l3) + 0x100000000000000000000000000000 * (k * l4) + 0x2000000000000000000000000000000000000 * (k * l5) + 0x40000000000000000000000000000000000000000000 * (k * l6) + 0x800000000000000000000000000000000000000000000000000 * (k * l7) + 0x10000000000000000000000000000000000000000000000000000000000 * (k * l8)) by (nonlinear_arith)
        requires
            v == l0 + 0x20000000 * l1 + 0x400000000000000 * l2 + 0x8000000000000000000000 * l3 + 0x100000000000000000000000000000 * l4 + 0x2000000000000000000000000000000000000 * l5 + 0x40000000000000000000000000000000000000000000 * l6 + 0x800000000000000000000000000000000000000000000000000 * l7 + 0x10000000000000000000000000000000000000000000000000000000000 * l8,
    ;
}

/// The product of two 29-bit limbs.
pub proof fn lemma_product29(x: u64, y: u64)
    requires
        x < 0x2000_0000,
        y < 0x2000_0000,
    ensures
        0 <= x * y <= 0x3ff_ffff_c000_0001,
{
    assert(0 <= x * y <= 0x1fff_ffff * 0x1fff_ffff) by (nonlinear_arith)
        requires
            0 <= x <= 0x1fff_ffff,
            0 <= y <= 0x1fff_ffff,
    ;
}

/// Masking and shifting a signed column by 29 bits give remainder and quotient, also below zero.
pub proof fn lemma_borrow29(v: i64)
    ensures
        ((v as u64) & 0x1fff_ffff) + 0x2000_0000 * (v >> 29) == v,
        ((v as u64) & 0x1fff_ffff) < 0x2000_0000,
        -0x2000_0000 <= v < 0 ==> v >> 29 == -1,
        0 <= v < 0x2000_0000 ==> v >> 29 == 0,
        0x2000_0000 <= v < 0x4000_0000 ==> v >> 29 == 1,
{
    assert(((v as u64) & 0x1fff_ffff) + 0x2000_0000 * (v >> 29) == v && ((v as u64) & 0x1fff_ffff)
        < 0x2000_0000) by (bit_vector);
}

/// Four words stand for `l[0] + l[1] 2^64 + l[2] 2^128 + l[3] 2^192`.
pub proof fn law_value64(l: [u64; 4])
    ensures
        value64(l) == l[0] + l[1] * pow2(64) + l[2] * pow2(128) + l[3] * pow2(192),
{
    reveal_with_fuel(value, 5);
    lemma2_to64();
    lemma_mul_basics(l[0] as int);
}

/// Nine limbs stand for `l[0] + l[1] 2^29 + ... + l[8] 2^232`, whether carried or not.
pub proof fn law_value29(l: [u64; 9])
    ensures
        value29(l) == l[0] + l[1] * pow2(29) + l[2] * pow2(58) + l[3] * pow2(87) + l[4] * pow2(116)
            + l[5] * pow2(145) + l[6] * pow2(174) + l[7] * pow2(203) + l[8] * pow2(232),
{
    reveal_with_fuel(value, 10);
    lemma2_to64();
    lemma_mul_basics(l[0] as int);
}

/// Limbs are carried when each has at most 29 bits.
pub proof fn law_carried(l: [u64; 9])
    ensures
        carried(l) <==> forall|j: int| 0 <= j < 9 ==> #[trigger] l[j] < 0x2000_0000,
{
    lemma2_to64();
    assert(forall|j: int| 0 <= j < 9 ==> l@[j] == #[trigger] l[j]);
    assert(forall|j: int| 0 <= j < 9 ==> #[trigger] l@[j] == l[j]);
}

/// Limb `j` is digit `j` of the value in base `2^w`, and there are no digits beyond the `n` limbs.
pub proof fn law_value_digit(l: Seq<u64>, w: nat, n: nat, j: nat)
    requires
        forall|i: int| 0 <= i < n ==> #[trigger] l[i] < pow2(w),
        j < n,
    ensures
        (value(l, w, n) / pow2(w * j)) % pow2(w) == l[j as int],
        value(l, w, n) < pow2(w * n),
    decreases n,
{
    let m = (n - 1) as nat;
    let (b, s) = (pow2(w) as int, pow2(w * j) as int);
    let top = l[n - 1] as int;
    let low = value(l, w, m) as int;
    lemma_pow2_pos(w);
    lemma_pow2_pos(w * j);
    lemma_value_bound(l, w, n);
    if j == m {
        lemma_value_bound(l, w, m);
        lemma_mul_is_commutative(top, s);
        lemma_fundamental_div_mod_converse(low + top * s, s, top, low);
        lemma_small_mod(top as nat, b as nat);
    } else {
        law_value_digit(l, w, m, j);
        let k = (m - j - 1) as nat;
        let q = pow2(w * k) as int;
        assert(w * m == w * (j + 1) + w * k) by (nonlinear_arith)
            requires
                m == j + 1 + k,
        ;
        lemma_pow2_adds(w * (j + 1), w * k);
        lemma_weight_step(w, j);
        assert(top * pow2(w * m) == s * ((top * q) * b)) by (nonlinear_arith)
            requires
                pow2(w * m) == (s * b) * q,
        ;
        lemma_div_multiples_vanish_quotient_add(low, (top * q) * b, s);
        lemma_mul_is_commutative(top * q, b);
        lemma_mod_multiples_vanish(top * q, low / s, b);
    }
}

} // verus!
