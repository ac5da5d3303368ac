//! The lazy-carry domain against the field that it represents.
use ark_ff::{AdditiveGroup, Field, Fp, MontBackend};
use lazy_field::config::{BigInt, MontConfig};
use lazy_field::lazy29::{
    add, add_p, enter, enter_p, entry_constant, exit, exit_p, inv29, join29, modulus29, mont_mul,
    mont_mul_p, params, split29, sub, sub_p, two_modulus29, Params, LIMBS,
};
use lazy_field::neon29::mont_mul2;

/// bls12-381 Fr — 255-bit modulus.
const MODULUS: [u64; 4] = [
    0xFFFFFFFF00000001,
    0x53BDA402FFFE5BFE,
    0x3339D80809A1D805,
    0x73EDA753299D7D48,
];

struct NoCarry255;

impl ark_ff::MontConfig<4> for NoCarry255 {
    const MODULUS: ark_ff::BigInt<4> = ark_ff::BigInt::new(MODULUS);
    const GENERATOR: Fp<MontBackend<Self, 4>, 4> =
        Fp::new_unchecked(ark_ff::BigInt::new([7, 0, 0, 0]));
    const TWO_ADIC_ROOT_OF_UNITY: Fp<MontBackend<Self, 4>, 4> =
        Fp::new_unchecked(ark_ff::BigInt::new([0, 0, 0, 0]));
}

impl MontConfig<4> for NoCarry255 {
    const MODULUS: BigInt<4> = BigInt(MODULUS);
}

type F = Fp<MontBackend<NoCarry255, 4>, 4>;

fn enter_f(x: F) -> [u64; LIMBS] {
    enter::<NoCarry255>(&BigInt(x.0 .0), &entry_constant::<NoCarry255>())
}

fn exit_f(d: &[u64; LIMBS]) -> BigInt<4> {
    exit::<NoCarry255>(d)
}

/// Mixed mul/add/sub chains in the lazy domain agree with the field.
#[test]
fn lazy29_chain_matches_field() {
    let minus_one = -F::ONE;
    let mut mirror = F::from(3u64);
    let mut d = enter_f(mirror);
    let y = F::from(0x9e3779b97f4a7c15u64);
    let dy = enter_f(y);
    for step in 0..200 {
        match step % 4 {
            0 => {
                mirror *= y;
                d = mont_mul::<NoCarry255>(&d, &dy);
            }
            1 => {
                mirror += y;
                d = add::<NoCarry255>(&d, &dy);
            }
            2 => {
                mirror -= y;
                d = sub::<NoCarry255>(&d, &dy);
            }
            _ => {
                mirror.square_in_place();
                d = mont_mul::<NoCarry255>(&d, &d.clone());
            }
        }
        assert_eq!(exit_f(&d), BigInt(mirror.0 .0), "diverged at step {step}");
    }
    // Edge values round-trip too.
    for v in [F::ZERO, F::ONE, minus_one] {
        assert_eq!(exit_f(&enter_f(v)), BigInt(v.0 .0));
    }
}

/// The runtime-derived [`Params`] agree with the configuration's constants,
/// and the `*_p` functions agree with the field on mixed chains.
#[test]
fn params_match_config_and_field() {
    let r = <NoCarry255 as ark_ff::MontConfig<4>>::R.0;
    let pr = Params::from_modulus(<NoCarry255 as MontConfig<4>>::MODULUS.0).unwrap();
    assert_eq!(pr, params::<NoCarry255>());
    assert_eq!(pr.p, modulus29::<NoCarry255>());
    assert_eq!(pr.two_p, two_modulus29::<NoCarry255>());
    assert_eq!(pr.inv, inv29::<NoCarry255>());
    assert_eq!(pr.entry, entry_constant::<NoCarry255>());
    assert_eq!(pr.exit, split29(r));
    assert_eq!(pr.r, r);
    // r / two_r really are the representations of 1 and 2.
    assert_eq!(pr.r, F::ONE.0 .0);
    assert_eq!(pr.two_r, (F::ONE + F::ONE).0 .0);

    let mut mirror = F::from(5u64);
    let mut d = enter_p(&pr, &mirror.0 .0);
    let y = F::from(0xc2b2ae3d27d4eb4fu64);
    let dy = enter_p(&pr, &y.0 .0);
    for step in 0..200 {
        match step % 4 {
            0 => {
                mirror *= y;
                d = mont_mul_p(&pr, &d, &dy);
            }
            1 => {
                mirror += y;
                d = add_p(&pr, &d, &dy);
            }
            2 => {
                mirror -= y;
                d = sub_p(&pr, &d, &dy);
            }
            _ => {
                mirror.square_in_place();
                d = mont_mul_p(&pr, &d, &d.clone());
            }
        }
        assert_eq!(exit_p(&pr, &d), mirror.0 .0, "diverged at step {step}");
    }
    // An even or oversized modulus is refused.
    assert!(Params::from_modulus([2, 0, 0, 0]).is_none());
    assert!(Params::from_modulus([1, 0, 0, 1 << 63]).is_none());
}

/// The largest modulus that the domain hosts is odd and just below `2^255`.
#[test]
fn from_modulus_at_the_bounds() {
    let top = [u64::MAX, u64::MAX, u64::MAX, (1 << 63) - 1];
    let pr = Params::from_modulus(top).unwrap();
    // 2^256 = 2 (2^255 - 1) + 2
    assert_eq!(pr.r, [2, 0, 0, 0]);
    assert_eq!(pr.two_r, [4, 0, 0, 0]);
    assert_eq!(pr.inv, 1);
    assert!(Params::from_modulus([0, 0, 0, 0]).is_none());
    assert!(Params::from_modulus([u64::MAX, u64::MAX, u64::MAX, u64::MAX]).is_none());
    // every residue modulo one is zero
    let one = Params::from_modulus([1, 0, 0, 0]).unwrap();
    assert_eq!(one.r, [0, 0, 0, 0]);
    assert_eq!(one.entry, [0; LIMBS]);
    // small primes
    let seven = Params::from_modulus([7, 0, 0, 0]).unwrap();
    assert_eq!(seven.p, [7, 0, 0, 0, 0, 0, 0, 0, 0]);
    assert_eq!(seven.two_p, [14, 0, 0, 0, 0, 0, 0, 0, 0]);
    assert_eq!(seven.r, [2, 0, 0, 0]);
    assert_eq!(seven.two_r, [4, 0, 0, 0]);
    assert_eq!(seven.entry, [4, 0, 0, 0, 0, 0, 0, 0, 0]);
    assert_eq!((7 * seven.inv + 1) % (1 << 29), 0);
}

/// Limbs of 29 bits cut across the words.
#[test]
fn split_and_join() {
    let ones = [u64::MAX; 4];
    let limbs = split29(ones);
    assert_eq!(limbs[..8], [(1 << 29) - 1; 8]);
    assert_eq!(limbs[8], (1 << 24) - 1);
    assert_eq!(join29(limbs), ones);
    // bit 64 is bit 6 of limb 2, bit 29 is bit 0 of limb 1
    assert_eq!(split29([0, 1, 0, 0]), [0, 0, 64, 0, 0, 0, 0, 0, 0]);
    assert_eq!(split29([1 << 29, 0, 0, 0]), [0, 1, 0, 0, 0, 0, 0, 0, 0]);
    for w in [[1, 2, 3, 4], MODULUS, [0x0123456789abcdef; 4]] {
        assert_eq!(join29(split29(w)), w);
    }
}

/// Sums wrap at the lazy bound `2p`, not at `p`.
#[test]
fn lazy_sums_and_differences() {
    let pr = Params::from_modulus([7, 0, 0, 0]).unwrap();
    let limb = |v: u64| [v, 0, 0, 0, 0, 0, 0, 0, 0];
    assert_eq!(add_p(&pr, &limb(5), &limb(6)), limb(11));
    assert_eq!(add_p(&pr, &limb(9), &limb(6)), limb(1));
    assert_eq!(add_p(&pr, &limb(7), &limb(7)), limb(0));
    assert_eq!(sub_p(&pr, &limb(9), &limb(6)), limb(3));
    assert_eq!(sub_p(&pr, &limb(3), &limb(6)), limb(11));
    // 1 enters as 2^261 mod 7 = 1 and leaves as 2^256 mod 7 = 2
    assert_eq!(exit_p(&pr, &limb(1)), [2, 0, 0, 0]);
    assert_eq!(exit_p(&pr, &limb(8)), [2, 0, 0, 0]);
    assert_eq!(exit_p(&pr, &enter_p(&pr, &[2, 0, 0, 0])), [2, 0, 0, 0]);
}

/// Each lane of the two-lane product is the scalar product.
#[test]
fn lanes_match_scalar() {
    let pr = params::<NoCarry255>();
    let mut x = F::from(3u64);
    let mut y = F::from(0x9e3779b97f4a7c15u64);
    for _ in 0..50 {
        x = x * y + F::ONE;
        y.square_in_place();
        let a = [enter_p(&pr, &x.0 .0), enter_p(&pr, &y.0 .0)];
        let b = [enter_p(&pr, &y.0 .0), enter_p(&pr, &(x + y).0 .0)];
        let out = mont_mul2(&pr, &a, &b);
        assert_eq!(out[0], mont_mul_p(&pr, &a[0], &b[0]));
        assert_eq!(out[1], mont_mul_p(&pr, &a[1], &b[1]));
        assert_eq!(exit_p(&pr, &out[0]), (x * y).0 .0);
        assert_eq!(exit_p(&pr, &out[1]), (y * (x + y)).0 .0);
    }
}
