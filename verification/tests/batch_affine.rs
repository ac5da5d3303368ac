//! Multi-scalar multiplication against term-by-term sums.
use ark_ff::{AdditiveGroup, BigInteger, Field, Fp, MontBackend, PrimeField};
use lazy_field::batch_affine::msm_bigint_batch_affine;
use lazy_field::config::BigInt;
use lazy_field::curve::{Affine, PrimeField as _, Projective, SWCurveConfig};
use lazy_field::digits::{ln_without_floats, make_digits};
use lazy_field::field::batch_inversion;

/// Self-contained 255-bit field (bls12-381 Fr modulus).
struct TestField;

impl ark_ff::MontConfig<4> for TestField {
    const MODULUS: ark_ff::BigInt<4> = ark_ff::BigInt::new([
        0xFFFFFFFF00000001,
        0x53BDA402FFFE5BFE,
        0x3339D80809A1D805,
        0x73EDA753299D7D48,
    ]);
    const GENERATOR: Fp<MontBackend<Self, 4>, 4> =
        Fp::new_unchecked(ark_ff::BigInt::new([7, 0, 0, 0]));
    const TWO_ADIC_ROOT_OF_UNITY: Fp<MontBackend<Self, 4>, 4> =
        Fp::new_unchecked(ark_ff::BigInt::new([0, 0, 0, 0]));
}

type F = Fp<MontBackend<TestField, 4>, 4>;

/// The field as coordinates.
#[derive(Clone, Copy, Debug, PartialEq, Eq)]
struct Fe(F);

impl lazy_field::field::Field for Fe {
    const ZERO: Fe = Fe(<F as AdditiveGroup>::ZERO);
    const ONE: Fe = Fe(<F as Field>::ONE);

    fn valid(self) -> bool {
        self.0 .0 < <TestField as ark_ff::MontConfig<4>>::MODULUS
    }

    fn plus(self, other: Fe) -> Fe {
        Fe(self.0 + other.0)
    }

    fn negated(self) -> Fe {
        Fe(-self.0)
    }

    fn times(self, other: Fe) -> Fe {
        Fe(self.0 * other.0)
    }

    fn inverted(self) -> Fe {
        Fe(Field::inverse(&self.0).unwrap())
    }

    fn law_closed() {}

    fn law_plus_associative(_: Fe, _: Fe, _: Fe) {}

    fn law_plus_commutative(_: Fe, _: Fe) {}

    fn law_plus_zero(_: Fe) {}

    fn law_plus_negated(_: Fe) {}

    fn law_times_associative(_: Fe, _: Fe, _: Fe) {}

    fn law_times_commutative(_: Fe, _: Fe) {}

    fn law_times_one(_: Fe) {}

    fn law_distributive(_: Fe, _: Fe, _: Fe) {}

    fn law_inverted(_: Fe) {}

    fn law_nontrivial() {}

    fn add(&self, other: &Fe) -> Fe {
        Fe(self.0 + other.0)
    }

    fn sub(&self, other: &Fe) -> Fe {
        Fe(self.0 - other.0)
    }

    fn neg(&self) -> Fe {
        Fe(-self.0)
    }

    fn double(&self) -> Fe {
        Fe(AdditiveGroup::double(&self.0))
    }

    fn mul(&self, other: &Fe) -> Fe {
        Fe(self.0 * other.0)
    }

    fn square(&self) -> Fe {
        Fe(Field::square(&self.0))
    }

    fn inverse(&self) -> Option<Fe> {
        Field::inverse(&self.0).map(Fe)
    }

    fn is_zero(&self) -> bool {
        self.0 == <F as AdditiveGroup>::ZERO
    }

    fn equals(&self, other: &Fe) -> bool {
        self.0 == other.0
    }
}

/// Scalars of 255 bits.
struct Scalars;

impl lazy_field::curve::PrimeField for Scalars {
    type BigInt = BigInt<4>;
    const MODULUS_BIT_SIZE: u32 = 255;

    fn modulus() -> BigInt<4> {
        BigInt(F::MODULUS.0)
    }

    fn law_modulus() {}
}

/// Group law of y^2 = x^3 + 3 through the generator (1, 2): every point
/// below is produced by group operations from (1, 2).
struct TestCurve;

impl SWCurveConfig for TestCurve {
    type BaseField = Fe;
    type ScalarField = Scalars;
    const COEFF_A: Fe = Fe(<F as AdditiveGroup>::ZERO);

    fn law_coefficient() {}

    fn law_characteristic() {}
}

type A = Affine<TestCurve>;
type G = Projective<TestCurve>;

/// The coordinates of a point, `None` for the identity.
fn coordinates(g: &G) -> Option<(Fe, Fe)> {
    let a = g.into_affine();
    if a.is_zero() {
        None
    } else {
        Some((a.x, a.y))
    }
}

fn gen_points(n: usize) -> Vec<A> {
    let g = A::new_unchecked(Fe(F::from(1u64)), Fe(F::from(2u64)));
    let mut acc: G = G::from_affine(&g);
    (0..n)
        .map(|_| {
            let cur = acc;
            acc.double_in_place();
            acc.add_affine(&g);
            cur.into_affine()
        })
        .collect()
}

fn gen_scalars(n: usize) -> Vec<BigInt<4>> {
    let y = F::from(0x9e3779b97f4a7c15u64);
    let mut sc = F::from(3u64);
    (0..n)
        .map(|_| {
            sc.square_in_place();
            sc += y;
            BigInt(sc.into_bigint().0)
        })
        .collect()
}

fn scalar(v: u64) -> BigInt<4> {
    BigInt([v, 0, 0, 0])
}

/// The sum of the scaled points, bit by bit.
fn msm_bigint(bases: &[A], bigints: &[BigInt<4>]) -> G {
    let mut acc = G::zero();
    for bit in (0..256).rev() {
        acc.double_in_place();
        for (p, s) in bases.iter().zip(bigints) {
            if (s.0[bit / 64] >> (bit % 64)) & 1 == 1 {
                acc.add_affine(p);
            }
        }
    }
    acc
}

/// Random-ish points and scalars agree with the default MSM across
/// sizes spanning the small-size window choice and tree depths.
#[test]
fn batch_affine_matches_default() {
    for n in [1usize, 2, 5, 31, 32, 100, 1000] {
        let bases = gen_points(n);
        let bigints = gen_scalars(n);
        let want = coordinates(&msm_bigint(&bases, &bigints));
        let got = coordinates(&msm_bigint_batch_affine(&bases, &bigints));
        assert_eq!(got, want, "mismatch at n={n}");
    }
}

/// Adversarial bucket contents: repeated points (doublings all the
/// way up the tree), P and -P in the same bucket (identity mid-tree),
/// zero and unit scalars, identity bases, empty input.
#[test]
fn batch_affine_handles_degenerate_additions() {
    let pts = gen_points(4);
    let (p, q) = (pts[1], pts[2]);
    let s = gen_scalars(1)[0];

    let bases = vec![p; 64];
    let bigints = vec![s; 64];
    assert_eq!(
        coordinates(&msm_bigint_batch_affine(&bases, &bigints)),
        coordinates(&msm_bigint(&bases, &bigints)),
        "repeated point"
    );

    let bases = vec![p, p.neg(), q, p, A::zero(), q];
    let bigints = [
        s,
        s,
        gen_scalars(3)[2],
        BigInt(F::from(0u64).into_bigint().0),
        gen_scalars(2)[1],
        BigInt(F::from(1u64).into_bigint().0),
    ]
    .to_vec();
    assert_eq!(
        coordinates(&msm_bigint_batch_affine(&bases, &bigints)),
        coordinates(&msm_bigint(&bases, &bigints)),
        "mixed degenerate"
    );

    assert_eq!(
        coordinates(&msm_bigint_batch_affine::<TestCurve>(&[], &[])),
        coordinates(&G::zero()),
        "empty"
    );
}

/// The surplus of the longer input is left out.
#[test]
fn surplus_is_ignored() {
    let bases = gen_points(5);
    let bigints = gen_scalars(3);
    assert_eq!(
        coordinates(&msm_bigint_batch_affine(&bases, &bigints)),
        coordinates(&msm_bigint(&bases[..3], &bigints)),
    );
    assert_eq!(
        coordinates(&msm_bigint_batch_affine(&bases[..2], &bigints)),
        coordinates(&msm_bigint(&bases[..2], &bigints[..2])),
    );
    assert_eq!(coordinates(&msm_bigint_batch_affine(&bases, &[])), None);
}

/// Small scalars give small multiples: 5 P + 2 Q.
#[test]
fn small_multiples() {
    let pts = gen_points(2);
    let mut want = G::from_affine(&pts[0]);
    want.double_in_place();
    want.double_in_place();
    want.add_affine(&pts[0]);
    want.add_affine(&pts[1]);
    want.add_affine(&pts[1]);
    let got = msm_bigint_batch_affine(&pts, &[scalar(5), scalar(2)]);
    assert_eq!(coordinates(&got), coordinates(&want));
    let one = msm_bigint_batch_affine(&pts[..1], &[scalar(1)]);
    assert_eq!(coordinates(&one), Some((pts[0].x, pts[0].y)));
    assert_eq!(coordinates(&msm_bigint_batch_affine(&pts[..1], &[scalar(0)])), None);
}

/// The largest reduced scalar, one below the modulus.
#[test]
fn largest_scalar() {
    let bases = gen_points(40);
    let mut largest = Scalars::modulus();
    largest.0[0] -= 1;
    let bigints = vec![largest; 40];
    assert_eq!(
        coordinates(&msm_bigint_batch_affine(&bases, &bigints)),
        coordinates(&msm_bigint(&bases, &bigints)),
    );
}

/// Windows of three bits cover exactly 255 bits: the bit above is dropped.
#[test]
fn bits_above_the_windows_are_dropped() {
    let pts = gen_points(1);
    let high = BigInt([6, 0, 0, 1 << 63]);
    let got = msm_bigint_batch_affine(&pts, &[high]);
    let want = msm_bigint_batch_affine(&pts, &[scalar(6)]);
    assert_eq!(coordinates(&got), coordinates(&want));
}

/// The affine rule, written out over the field, against the projective formulas.
#[test]
fn projective_sums_follow_the_affine_rule() {
    fn rule(p: Option<(F, F)>, q: Option<(F, F)>) -> Option<(F, F)> {
        match (p, q) {
            (None, _) => q,
            (_, None) => p,
            (Some((x1, y1)), Some((x2, y2))) => {
                let slope = if x1 != x2 {
                    (y2 - y1) / (x2 - x1)
                } else if y1 == y2 && y1 != <F as AdditiveGroup>::ZERO {
                    (x1 * x1 * F::from(3u64)) / (y1 + y1)
                } else {
                    return None;
                };
                let x3 = slope * slope - x1 - x2;
                Some((x3, slope * (x1 - x3) - y1))
            }
        }
    }
    let pts = gen_points(5);
    let mut cases = vec![A::zero(), A::new_unchecked(Fe(F::from(9u64)), Fe(F::from(0u64)))];
    for p in &pts {
        cases.push(*p);
        cases.push(p.neg());
    }
    let plain = |a: &A| if a.is_zero() { None } else { Some((a.x.0, a.y.0)) };
    for p in &cases {
        for q in &cases {
            let want = rule(plain(p), plain(q));
            // operands with denominators other than one, where they have any
            let mut g = G::from_affine(p);
            let mut k = G::from_affine(q);
            if !p.is_zero() {
                let z = F::from(11u64);
                g = G { x: Fe(p.x.0 * z * z), y: Fe(p.y.0 * z * z * z), z: Fe(z) };
                k = if q.is_zero() { k } else { G { x: q.x, y: q.y, z: Fe(F::from(1u64)) } };
            }
            let mut swapped = k;
            swapped.add_assign(&g);
            g.add_assign(&k);
            assert_eq!(coordinates(&g).map(|(x, y)| (x.0, y.0)), want);
            assert_eq!(coordinates(&swapped), coordinates(&g));
        }
        let mut d = G::from_affine(p);
        d.double_in_place();
        assert_eq!(coordinates(&d).map(|(x, y)| (x.0, y.0)), rule(plain(p), plain(p)));
    }
}

/// Sums stay on the curve, and their bracketing does not matter, also where points coincide, are
/// reflections of each other, or lie on a line.
#[test]
fn sums_are_associative() {
    fn plus(p: &A, q: &A) -> A {
        let mut g = G::from_affine(p);
        g.add_affine(q);
        g.into_affine()
    }
    let pts = gen_points(3);
    let mut cases = vec![A::zero()];
    for p in &pts {
        cases.push(*p);
        cases.push(p.neg());
    }
    cases.push(plus(&pts[0], &pts[1]));
    cases.push(plus(&pts[0], &pts[1]).neg());
    cases.push(plus(&pts[0], &pts[0]));
    for p in &cases {
        for q in &cases {
            let r = plus(p, q);
            if !r.is_zero() {
                assert_eq!(r.y.0 * r.y.0, r.x.0 * r.x.0 * r.x.0 + F::from(3u64));
            }
            for z in &cases {
                let left = plus(&r, z);
                let right = plus(p, &plus(q, z));
                assert_eq!(
                    coordinates(&G::from_affine(&left)),
                    coordinates(&G::from_affine(&right)),
                );
            }
        }
    }
}

/// Twice (1, 2) on y^2 = x^3 + 3: slope 3/4, so x = 9/16 - 2.
#[test]
fn doubling_of_the_generator() {
    let mut g = G::from_affine(&A::new_unchecked(Fe(F::from(1u64)), Fe(F::from(2u64))));
    g.double_in_place();
    let (x, y) = coordinates(&g).unwrap();
    assert_eq!(x.0 * F::from(16u64), -F::from(23u64));
    // y = 3/4 (1 + 23/16) - 2 = -11/64
    assert_eq!(y.0 * F::from(64u64), -F::from(11u64));
}

/// Many inverses at once; zeros stay.
#[test]
fn batch_inversion_skips_zeros() {
    let mut v: Vec<Fe> = vec![Fe(F::from(0u64)), Fe(F::from(2u64)), Fe(F::from(0u64))];
    v.extend((3..20u64).map(|i| Fe(F::from(i))));
    let before = v.clone();
    batch_inversion(&mut v);
    for (a, b) in before.iter().zip(&v) {
        let want = Field::inverse(&a.0).unwrap_or(<F as AdditiveGroup>::ZERO);
        assert_eq!(b.0, want);
    }
    let mut none: Vec<Fe> = Vec::new();
    batch_inversion(&mut none);
    assert!(none.is_empty());
    let mut zeros = vec![Fe(F::from(0u64)); 3];
    batch_inversion(&mut zeros);
    assert_eq!(zeros, vec![Fe(F::from(0u64)); 3]);
}

/// The logarithm to base two is rounded up before it is scaled.
#[test]
fn approximate_logarithms() {
    assert_eq!(ln_without_floats(0), 0);
    assert_eq!(ln_without_floats(1), 0);
    assert_eq!(ln_without_floats(2), 0);
    assert_eq!(ln_without_floats(32), 3);
    assert_eq!(ln_without_floats(33), 4);
    assert_eq!(ln_without_floats(1000), 6);
    assert_eq!(ln_without_floats(1 << 20), 13);
}

/// Digits are recentered around zero, but for the last.
#[test]
fn signed_digits() {
    assert_eq!(make_digits(&BigInt([0b101_011_110, 0, 0, 0]), 3, 9), vec![-2, -4, 6]);
    assert_eq!(make_digits(&BigInt([7]), 3, 3), vec![7]);
    assert_eq!(make_digits(&BigInt([0b111_100]), 3, 6), vec![-4, 8]);
    // a window across two words
    assert_eq!(make_digits(&BigInt([1 << 63, 1]), 4, 68)[15..], [-8, 2]);
    assert_eq!(make_digits(&BigInt([3 << 62, 1]), 5, 70)[12..], [-4, 1]);
}

/// Digits weighted by their windows give back the scalar.
#[test]
fn signed_digits_recode_the_scalar() {
    for (n, s) in gen_scalars(20).iter().enumerate() {
        let w = 2 + n % 12;
        let digits = make_digits(s, w, 255);
        let last = digits.len() - 1;
        assert_eq!(digits.len(), (255 + w - 1) / w);
        let mut acc = F::from(0u64);
        for (i, d) in digits.iter().enumerate().rev() {
            for _ in 0..w {
                AdditiveGroup::double_in_place(&mut acc);
            }
            if *d < 0 {
                acc -= F::from(d.unsigned_abs());
            } else {
                acc += F::from(*d as u64);
            }
            if i < last {
                assert!(-(1i64 << (w - 1)) <= *d && *d < 1i64 << (w - 1));
            } else {
                assert!(0 <= *d && *d <= 1i64 << w);
            }
        }
        let value = ark_ff::BigInt::<4>::new(s.0);
        assert!(value.num_bits() <= 255);
        assert_eq!(acc, F::from_bigint(value).unwrap());
    }
}
