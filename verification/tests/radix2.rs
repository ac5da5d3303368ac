//! The butterfly networks against the same networks over the field.
use ark_ff::{AdditiveGroup, Field, Fp, MontBackend, One};
use lazy_field::config::{BigInt, MontConfig};
use lazy_field::lazy29::{params, Params};
use lazy_field::radix2::{detect, layout_fits, Radix2EvaluationDomain};

const MODULUS: [u64; 4] = [
    0xFFFFFFFF00000001,
    0x53BDA402FFFE5BFE,
    0x3339D80809A1D805,
    0x73EDA753299D7D48,
];

/// bls12-381 Fr (255-bit) with placeholder fft constants: the
/// differential tests below drive the helpers directly with an
/// arbitrary "generator", which exercises the identical butterfly
/// networks without needing a real root of unity.
struct NoCarry255;

impl ark_ff::MontConfig<4> for NoCarry255 {
    const MODULUS: ark_ff::BigInt<4> = ark_ff::BigInt::new(MODULUS);
    const GENERATOR: Fp<MontBackend<Self, 4>, 4> =
        Fp::new_unchecked(ark_ff::BigInt::new([7, 0, 0, 0]));
    const TWO_ADIC_ROOT_OF_UNITY: Fp<MontBackend<Self, 4>, 4> =
        Fp::new_unchecked(ark_ff::BigInt::new([0, 0, 0, 0]));
}

impl MontConfig<4> for NoCarry255 {
    const MODULUS: BigInt<4> = BigInt(MODULUS);
}

type F = Fp<MontBackend<NoCarry255, 4>, 4>;

fn detect_f() -> Option<Params> {
    let one = F::one();
    detect(
        core::mem::size_of::<F>(),
        core::mem::align_of::<F>(),
        core::mem::align_of::<u64>(),
        F::extension_degree(),
        F::characteristic(),
        &one.0 .0,
        &(one + one).0 .0,
    )
}

fn words(x: &[F]) -> Vec<[u64; 4]> {
    x.iter().map(|v| v.0 .0).collect()
}

fn varied_data(n: usize) -> Vec<F> {
    let y = F::from(0x9e3779b97f4a7c15u64);
    let mut x = F::one() + y;
    (0..n)
        .map(|_| {
            x.square_in_place();
            x += y;
            x
        })
        .collect()
}

fn powers(root: F, n: usize) -> Vec<F> {
    let mut v = Vec::new();
    let mut p = F::one();
    for _ in 0..n {
        v.push(p);
        p *= root;
    }
    v
}

/// The network from in-order input to out-of-order output over the field.
fn io_helper(x: &mut [F], root: F) {
    let n = x.len();
    let roots = powers(root, n / 2);
    let mut gap = n / 2;
    while gap > 0 {
        let chunks = n / (2 * gap);
        for c in 0..chunks {
            for j in 0..gap {
                let (lo, hi) = (2 * gap * c + j, 2 * gap * c + gap + j);
                let neg = x[lo] - x[hi];
                x[lo] = x[lo] + x[hi];
                x[hi] = neg * roots[j * chunks];
            }
        }
        gap /= 2;
    }
}

/// The network from out-of-order input to in-order output over the field.
fn oi_helper(x: &mut [F], root: F, start_gap: usize) {
    let n = x.len();
    let roots = powers(root, n / 2);
    let mut gap = start_gap;
    while gap < n {
        let chunks = n / (2 * gap);
        for c in 0..chunks {
            for j in 0..gap {
                let (lo, hi) = (2 * gap * c + j, 2 * gap * c + gap + j);
                let t = x[hi] * roots[j * chunks];
                x[hi] = x[lo] - t;
                x[lo] = x[lo] + t;
            }
        }
        gap *= 2;
    }
}

#[test]
fn detect_accepts_mont4_field() {
    let pr = detect_f().expect("4-limb Montgomery field must be accepted");
    assert_eq!(pr, params::<NoCarry255>());
}

/// Each of the conditions on layout and representation is needed.
#[test]
fn detect_refuses_other_fields() {
    let one = F::one().0 .0;
    let two = (F::one() + F::one()).0 .0;
    let ch = MODULUS;
    assert!(detect(32, 8, 8, 1, &ch, &one, &two).is_some());
    assert!(detect(40, 8, 8, 1, &ch, &one, &two).is_none());
    assert!(detect(32, 4, 8, 1, &ch, &one, &two).is_none());
    assert!(detect(32, 8, 8, 2, &ch, &one, &two).is_none());
    assert!(detect(32, 8, 8, 1, &ch[..3], &one, &two).is_none());
    assert!(detect(32, 8, 8, 1, &[0, 0, 0, 0, 0], &one, &two).is_none());
    assert!(detect(32, 8, 8, 1, &[4, 0, 0, 0], &one, &two).is_none());
    // plain representation instead of Montgomery form
    assert!(detect(32, 8, 8, 1, &ch, &[1, 0, 0, 0], &two).is_none());
    assert!(detect(32, 8, 8, 1, &ch, &one, &[2, 0, 0, 0]).is_none());
    assert!(layout_fits(32, 16, 8, 1));
    assert!(!layout_fits(32, 8, 8, 3));
}

/// The lazy helpers produce bit-for-bit the layouts of the generic
/// helpers, across sizes that exercise the root-compaction path, and for
/// `start_gap > 1` (degree-aware FFT).
#[test]
fn lazy_helpers_match_generic_helpers() {
    let g = F::from(0xc2b2ae3d27d4eb4fu64);
    let pr = detect_f().unwrap();
    for log_n in [7usize, 10, 12] {
        let n = 1 << log_n;
        let domain = Radix2EvaluationDomain { size: n as u64 };
        let data = varied_data(n);

        let mut want = data.clone();
        io_helper(&mut want, g);
        let mut got = words(&data);
        domain.io_helper_lazy(&mut got, &g.0 .0, &pr);
        assert_eq!(got, words(&want), "io mismatch at n={n}");

        for start_gap in [1usize, 8] {
            let mut want = data.clone();
            oi_helper(&mut want, g, start_gap);
            let mut got = words(&data);
            domain.oi_helper_lazy(&mut got, &g.0 .0, start_gap, &pr);
            assert_eq!(got, words(&want), "oi mismatch at n={n}, start_gap={start_gap}");
        }
    }
}

/// The smallest domains: nothing to do for one element, one butterfly for two.
#[test]
fn tiny_domains() {
    let pr = params::<NoCarry255>();
    let g = -F::one();
    let one = Radix2EvaluationDomain { size: 1 };
    let x = [F::from(5u64).0 .0];
    let mut v = x;
    one.io_helper_lazy(&mut v, &g.0 .0, &pr);
    assert_eq!(v, x);
    one.oi_helper_lazy(&mut v, &g.0 .0, 1, &pr);
    assert_eq!(v, x);

    let two = Radix2EvaluationDomain { size: 2 };
    let mut v = words(&[F::from(5u64), F::from(3u64)]);
    two.io_helper_lazy(&mut v, &g.0 .0, &pr);
    assert_eq!(v, words(&[F::from(8u64), F::from(2u64)]));
    // a gap of the length or more leaves everything as it is
    two.oi_helper_lazy(&mut v, &g.0 .0, 2, &pr);
    assert_eq!(v, words(&[F::from(8u64), F::from(2u64)]));
}

/// A slice shorter than the domain gives what a domain of its own size gives.
#[test]
fn shorter_than_the_domain() {
    let g = F::from(0xc2b2ae3d27d4eb4fu64);
    let pr = params::<NoCarry255>();
    let domain = Radix2EvaluationDomain { size: 2048 };
    for n in [0usize, 1, 2, 64, 512] {
        let data = varied_data(n);
        let mut want = data.clone();
        io_helper(&mut want, g);
        let mut got = words(&data);
        domain.io_helper_lazy(&mut got, &g.0 .0, &pr);
        assert_eq!(got, words(&want), "io mismatch at n={n}");

        let mut want = data.clone();
        oi_helper(&mut want, g, 1);
        let mut got = words(&data);
        domain.oi_helper_lazy(&mut got, &g.0 .0, 1, &pr);
        assert_eq!(got, words(&want), "oi mismatch at n={n}");
    }
}

/// The powers of the root, half as many as the domain has elements.
#[test]
fn roots_are_powers() {
    let pr = params::<NoCarry255>();
    let g = F::from(3u64);
    let roots = Radix2EvaluationDomain { size: 16 }.roots_of_unity(&g.0 .0, &pr);
    assert_eq!(roots, words(&powers(g, 8)));
}

/// A primitive root of unity of order `2^log_n`.
fn root_of_unity(log_n: u32) -> F {
    // 7 generates the multiplicative group, whose order has the factor 2^32
    let mut e = ark_ff::BigInt::<4>::new(MODULUS);
    e.0[0] -= 1;
    let mut exponent = [0u64; 4];
    for i in 0..4 {
        let high = if i < 3 { e.0[i + 1] } else { 0 };
        exponent[i] = (e.0[i] >> log_n) | (high << (64 - log_n));
    }
    F::from(7u64).pow(exponent)
}

/// With a root of unity the networks compute the discrete Fourier transform: in bit-reversed
/// order from in-order input, and in order from bit-reversed input.
#[test]
fn networks_compute_the_transform() {
    let log_n = 4;
    let n = 16usize;
    let g = root_of_unity(log_n);
    assert_eq!(g.pow([8u64]), -F::one());
    let pr = params::<NoCarry255>();
    let domain = Radix2EvaluationDomain { size: n as u64 };
    let x = varied_data(n);
    let transform: Vec<F> = (0..n)
        .map(|k| {
            let mut s = F::ZERO;
            for (j, v) in x.iter().enumerate() {
                s += *v * g.pow([(j * k) as u64]);
            }
            s
        })
        .collect();
    let reversed = |k: usize| k.reverse_bits() >> (usize::BITS - log_n);

    let mut v = words(&x);
    domain.io_helper_lazy(&mut v, &g.0 .0, &pr);
    for k in 0..n {
        assert_eq!(v[reversed(k)], transform[k].0 .0);
    }

    let mut z: Vec<F> = vec![F::ZERO; n];
    for j in 0..n {
        z[reversed(j)] = x[j];
    }
    let mut v = words(&z);
    domain.oi_helper_lazy(&mut v, &g.0 .0, 1, &pr);
    assert_eq!(v, words(&transform));
}

/// With the inverse root the second network undoes the first, up to the factor `n`.
#[test]
fn networks_are_inverse() {
    let pr = params::<NoCarry255>();
    let g = F::from(0xc2b2ae3d27d4eb4fu64);
    let h = g.inverse().unwrap();
    let n = 256usize;
    let domain = Radix2EvaluationDomain { size: n as u64 };
    let x = varied_data(n);
    let mut v = words(&x);
    domain.io_helper_lazy(&mut v, &g.0 .0, &pr);
    domain.oi_helper_lazy(&mut v, &h.0 .0, 1, &pr);
    let scaled: Vec<F> = x.iter().map(|a| *a * F::from(n as u64)).collect();
    assert_eq!(v, words(&scaled));
}

/// Starting at a later gap on copies gives what all stages give on zeros in their place.
#[test]
fn late_start_on_copies() {
    let pr = params::<NoCarry255>();
    let g = F::from(0xc2b2ae3d27d4eb4fu64);
    let (n, block) = (128usize, 8usize);
    let domain = Radix2EvaluationDomain { size: n as u64 };
    let firsts = varied_data(n / block);
    let copies: Vec<F> = (0..n).map(|k| firsts[k / block]).collect();
    let zeros: Vec<F> = (0..n)
        .map(|k| if k % block == 0 { firsts[k / block] } else { F::ZERO })
        .collect();
    let mut late = words(&copies);
    domain.oi_helper_lazy(&mut late, &g.0 .0, block, &pr);
    let mut whole = words(&zeros);
    domain.oi_helper_lazy(&mut whole, &g.0 .0, 1, &pr);
    assert_eq!(late, whole);
}
