//! Points of curves in short Weierstrass form `y^2 = x^3 + a x + b`: affine and projective
//! representations, and the chord-and-tangent addition.
use crate::config::BigInt;
use crate::field;
use crate::field::Field;
use crate::limbs;
use vstd::arithmetic::power2::*;
use vstd::prelude::*;

verus! {

/// An unsigned integer given as little-endian 64-bit words.
pub trait BigInteger: Sized {
    /// The words, least significant first.
    spec fn words(&self) -> Seq<u64>;

    /// The words, least significant first.
    fn as_words(&self) -> (r: &[u64])
        ensures
            r@ == self.words(),
    ;

    /// All integers of the type have the same number of words.
    proof fn law_words(a: Self, b: Self)
        ensures
            a.words().len() == b.words().len(),
    ;
}

/// The number that the words stand for.
pub open spec fn integer<B: BigInteger>(b: B) -> nat {
    limbs::value(b.words(), 64, b.words().len())
}

impl<const N: usize> BigInteger for BigInt<N> {
    open spec fn words(&self) -> Seq<u64> {
        self.0@
    }

    fn as_words(&self) -> (r: &[u64]) {
        &self.0
    }

    proof fn law_words(a: Self, b: Self) {
    }
}

/// A prime field as far as scalars are concerned: the integers that represent its elements.
pub trait PrimeField {
    /// The integer type that holds a reduced element.
    type BigInt: BigInteger;

    /// The modulus.
    spec fn modulus() -> Self::BigInt;

    /// The number of bits of the modulus.
    const MODULUS_BIT_SIZE: u32;

    /// The modulus has that many bits: its top bit is the last of them.
    proof fn law_modulus()
        ensures
            1 <= Self::MODULUS_BIT_SIZE,
            pow2((Self::MODULUS_BIT_SIZE - 1) as nat) <= integer(Self::modulus()) < pow2(
                Self::MODULUS_BIT_SIZE as nat,
            ),
    ;
}

/// A curve in short Weierstrass form. The coefficient `b` takes no part in the addition of points.
pub trait SWCurveConfig: Sized {
    /// The field that the coordinates are from.
    type BaseField: Field;

    /// The field that the scalars are from.
    type ScalarField: PrimeField;

    /// The coefficient `a`.
    const COEFF_A: Self::BaseField;

    /// The coefficient is an element of the field.
    proof fn law_coefficient()
        ensures
            Self::COEFF_A.valid(),
    ;

    /// Short Weierstrass form supposes a characteristic other than two.
    proof fn law_characteristic()
        ensures
            Self::BaseField::ONE.plus(Self::BaseField::ONE) != Self::BaseField::ZERO,
    ;
}

/// A point: its affine coordinates, or `None` for the identity.
pub type Point<F> = Option<(F, F)>;

/// The coordinates, if any, are elements of the field.
pub open spec fn valid_point<F: Field>(p: Point<F>) -> bool {
    match p {
        None => true,
        Some((x, y)) => x.valid() && y.valid(),
    }
}

/// The third point on the line with the given slope, reflected: what addition yields from the
/// slope and the abscissas, where `(x1, y1)` lies on the line.
pub open spec fn on_line<F: Field>(slope: F, x1: F, y1: F, x3: F) -> (F, F) {
    (x3, field::minus(slope.times(field::minus(x1, x3)), y1))
}

/// The sum of two points by the chord-and-tangent rule.
pub open spec fn sum<P: SWCurveConfig>(
    p: Point<P::BaseField>,
    q: Point<P::BaseField>,
) -> Point<P::BaseField> {
    match (p, q) {
        (None, _) => q,
        (_, None) => p,
        (Some((x1, y1)), Some((x2, y2))) => {
            if x1 != x2 {
                let slope = field::minus(y2, y1).times(field::reciprocal(field::minus(x2, x1)));
                Some(on_line(slope, x1, y1, field::minus(field::minus(slope.times(slope), x1), x2)))
            } else if y1 == y2 && y1 != P::BaseField::ZERO {
                let xx = x1.times(x1);
                let slope = xx.plus(xx).plus(xx).plus(P::COEFF_A).times(
                    field::reciprocal(y1.plus(y1)),
                );
                Some(on_line(slope, x1, y1, field::minus(slope.times(slope), x1.plus(x1))))
            } else {
                None
            }
        },
    }
}

/// The reflected point.
pub open spec fn negative<F: Field>(p: Point<F>) -> Point<F> {
    match p {
        None => None,
        Some((x, y)) => Some((x, y.negated())),
    }
}

/// Sums and reflections of valid points are valid.
pub proof fn lemma_sum_valid<P: SWCurveConfig>(p: Point<P::BaseField>, q: Point<P::BaseField>)
    requires
        valid_point(p),
        valid_point(q),
    ensures
        valid_point(sum::<P>(p, q)),
        valid_point(negative(p)),
{
    P::BaseField::law_closed();
    P::law_coefficient();
    if let (Some((x1, y1)), Some((x2, y2))) = (p, q) {
        let d = if x1 != x2 { field::minus(x2, x1) } else { y1.plus(y1) };
        assert(d.valid());
        assert(field::reciprocal(d).valid());
    }
}

/// A point in affine coordinates. The coordinates of the identity mean nothing.
pub struct Affine<P: SWCurveConfig> {
    pub x: P::BaseField,
    pub y: P::BaseField,
    pub infinity: bool,
}

impl<P: SWCurveConfig> Copy for Affine<P> {

}

impl<P: SWCurveConfig> Clone for Affine<P> {
    fn clone(&self) -> (r: Self)
        ensures
            r == *self,
    {
        *self
    }
}

impl<P: SWCurveConfig> Affine<P> {
    /// The point that the coordinates stand for.
    pub open spec fn point(self) -> Point<P::BaseField> {
        if self.infinity {
            None
        } else {
            Some((self.x, self.y))
        }
    }

    /// The coordinates are elements of the field, where they mean anything.
    pub open spec fn valid(self) -> bool {
        valid_point(self.point())
    }

    /// The identity.
    pub fn zero() -> (r: Self)
        ensures
            r.point() is None,
            r.x == P::BaseField::ZERO,
            r.y == P::BaseField::ZERO,
            r.infinity,
    {
        Affine { x: P::BaseField::ZERO, y: P::BaseField::ZERO, infinity: true }
    }

    /// The point with the given coordinates, which are not held against any curve.
    pub fn new_unchecked(x: P::BaseField, y: P::BaseField) -> (r: Self)
        ensures
            r.point() == Some((x, y)),
            r.x == x,
            r.y == y,
            !r.infinity,
    {
        Affine { x, y, infinity: false }
    }

    /// Whether the point is the identity.
    pub fn is_zero(&self) -> (r: bool)
        ensures
            r == (self.point() is None),
            r == self.infinity,
    {
        self.infinity
    }

    /// The reflected point.
    pub fn neg(&self) -> (r: Self)
        requires
            self.valid(),
        ensures
            r.valid(),
            r.point() == negative(self.point()),
    {
        if self.infinity {
            *self
        } else {
            Affine::new_unchecked(self.x, self.y.neg())
        }
    }
}

/// A point in Jacobian coordinates: `(x / z^2, y / z^3)`, or the identity where `z` is zero.
pub struct Projective<P: SWCurveConfig> {
    pub x: P::BaseField,
    pub y: P::BaseField,
    pub z: P::BaseField,
}

impl<P: SWCurveConfig> Copy for Projective<P> {

}

impl<P: SWCurveConfig> Clone for Projective<P> {
    fn clone(&self) -> (r: Self)
        ensures
            r == *self,
    {
        *self
    }
}

impl<P: SWCurveConfig> Projective<P> {
    /// The point that the coordinates stand for.
    pub open spec fn point(self) -> Point<P::BaseField> {
        let q = self.z.times(self.z);
        if self.z == P::BaseField::ZERO {
            None
        } else {
            Some((self.x.times(q.inverted()), self.y.times(q.times(self.z).inverted())))
        }
    }

    /// The coordinates are elements of the field.
    pub open spec fn valid(self) -> bool {
        self.x.valid() && self.y.valid() && self.z.valid()
    }

    /// The identity.
    pub fn zero() -> (r: Self)
        ensures
            r.valid(),
            r.point() is None,
            r.x == P::BaseField::ONE,
            r.y == P::BaseField::ONE,
            r.z == P::BaseField::ZERO,
    {
        proof {
            P::BaseField::law_closed();
        }
        Projective { x: P::BaseField::ONE, y: P::BaseField::ONE, z: P::BaseField::ZERO }
    }

    /// Whether the point is the identity.
    pub fn is_zero(&self) -> (r: bool)
        requires
            self.valid(),
        ensures
            r == (self.point() is None),
            r == (self.z == P::BaseField::ZERO),
    {
        self.z.is_zero()
    }

    /// The point that affine coordinates stand for.
    pub fn from_affine(p: &Affine<P>) -> (r: Self)
        requires
            p.valid(),
        ensures
            r.valid(),
            r.point() == p.point(),
            !p.infinity ==> r.x == p.x && r.y == p.y && r.z == P::BaseField::ONE,
    {
        if p.is_zero() {
            return Self::zero();
        }
        let r = Projective { x: p.x, y: p.y, z: P::BaseField::ONE };
        proof {
            let one = P::BaseField::ONE;
            P::BaseField::law_closed();
            P::BaseField::law_nontrivial();
            P::BaseField::law_times_one(one);
            P::BaseField::law_times_one(p.x);
            P::BaseField::law_times_one(p.y);
            lemma_jacobian(r, p.x, p.y);
        }
        r
    }

    /// The same point in affine coordinates.
    pub fn into_affine(&self) -> (r: Affine<P>)
        requires
            self.valid(),
        ensures
            r.valid(),
            r.point() == self.point(),
            r.infinity ==> r.x == P::BaseField::ZERO && r.y == P::BaseField::ZERO,
    {
        if self.is_zero() {
            return Affine::zero();
        }
        let zz: P::BaseField = self.z.square();
        let zzz: P::BaseField = zz.mul(&self.z);
        proof {
            lemma_jacobian(*self, self.x, self.y);
        }
        let (i2, i3): (P::BaseField, P::BaseField) = (
            zz.inverse().unwrap(),
            zzz.inverse().unwrap(),
        );
        Affine::new_unchecked(self.x.mul(&i2), self.y.mul(&i3))
    }

    /// Adds the point to itself.
    pub fn double_in_place(&mut self)
        requires
            old(self).valid(),
        ensures
            final(self).valid(),
            final(self).point() == sum::<P>(old(self).point(), old(self).point()),
    {
        proof {
            P::law_coefficient();
        }
        let q: P::BaseField = self.z.square();
        let e: P::BaseField = self.y.double();
        let ee: P::BaseField = e.square();
        let s: P::BaseField = self.x.mul(&ee);
        let xx: P::BaseField = self.x.square();
        let m: P::BaseField = xx.double().add(&xx).add(&P::COEFF_A.mul(&q.square()));
        let x3: P::BaseField = m.square().sub(&s.double());
        let y3: P::BaseField = m.mul(&s.sub(&x3)).sub(&self.y.mul(&e).mul(&ee));
        let z3: P::BaseField = e.mul(&self.z);
        let r = Projective { x: x3, y: y3, z: z3 };
        proof {
            lemma_doubled(*self, r);
        }
        *self = r;
    }

    /// Adds a point.
    pub fn add_assign(&mut self, other: &Self)
        requires
            old(self).valid(),
            other.valid(),
        ensures
            final(self).valid(),
            final(self).point() == sum::<P>(old(self).point(), other.point()),
    {
        if self.is_zero() {
            *self = *other;
            return;
        }
        if other.is_zero() {
            return;
        }
        let q1: P::BaseField = self.z.square();
        let q2: P::BaseField = other.z.square();
        let u1: P::BaseField = self.x.mul(&q2);
        let u2: P::BaseField = other.x.mul(&q1);
        let s1: P::BaseField = self.y.mul(&q2.mul(&other.z));
        let s2: P::BaseField = other.y.mul(&q1.mul(&self.z));
        let w: P::BaseField = self.z.mul(&other.z);
        proof {
            lemma_common_scale(*self, *other);
        }
        if u1.equals(&u2) && s1.equals(&s2) {
            self.double_in_place();
            return;
        }
        let h: P::BaseField = u2.sub(&u1);
        let r: P::BaseField = s2.sub(&s1);
        let hh: P::BaseField = h.square();
        let hhh: P::BaseField = hh.mul(&h);
        let v: P::BaseField = u1.mul(&hh);
        let x3: P::BaseField = r.square().sub(&hhh).sub(&v.double());
        let y3: P::BaseField = r.mul(&v.sub(&x3)).sub(&s1.mul(&hhh));
        let z3: P::BaseField = h.mul(&w);
        let t = Projective { x: x3, y: y3, z: z3 };
        proof {
            let (x1, y1) = self.point()->0;
            let (x2, y2) = other.point()->0;
            P::BaseField::law_closed();
            lemma_point_valid(*self);
            lemma_point_valid(*other);
            lemma_sum_valid::<P>(self.point(), other.point());
            if x1 == x2 {
                field::lemma_minus_zero(u2, u1);
                field::lemma_times_zero(w);
            } else {
                lemma_chord(x1, y1, x2, y2, w);
                let (x, y) = sum::<P>(self.point(), other.point())->0;
                field::lemma_minus_zero(x2, x1);
                lemma_jacobian(t, x, y);
            }
        }
        *self = t;
    }

    /// Adds a point given by its affine coordinates.
    pub fn add_affine(&mut self, other: &Affine<P>)
        requires
            old(self).valid(),
            other.valid(),
        ensures
            final(self).valid(),
            final(self).point() == sum::<P>(old(self).point(), other.point()),
    {
        let other: Projective<P> = Projective::from_affine(other);
        self.add_assign(&other);
    }
}

/// Twice an element other than zero is not zero.
pub proof fn lemma_twice_nonzero<P: SWCurveConfig>(y: P::BaseField)
    requires
        y.valid(),
        y != P::BaseField::ZERO,
    ensures
        y.plus(y) != P::BaseField::ZERO,
{
    P::BaseField::law_closed();
    let one = P::BaseField::ONE;
    P::law_characteristic();
    P::BaseField::law_distributive(one, one, y);
    P::BaseField::law_times_commutative(one, y);
    P::BaseField::law_times_one(y);
    field::lemma_times_nonzero(one.plus(one), y);
}

/// The doubling formulas give the tangent sum.
proof fn lemma_doubled<P: SWCurveConfig>(g: Projective<P>, r: Projective<P>)
    requires
        g.valid(),
        r.valid(),
        ({
            let q = g.z.times(g.z);
            let e = g.y.plus(g.y);
            let ee = e.times(e);
            let s = g.x.times(ee);
            let xx = g.x.times(g.x);
            let m = xx.plus(xx).plus(xx).plus(P::COEFF_A.times(q.times(q)));
            &&& r.x == field::minus(m.times(m), s.plus(s))
            &&& r.y == field::minus(m.times(field::minus(s, r.x)), g.y.times(e).times(ee))
            &&& r.z == e.times(g.z)
        }),
    ensures
        r.point() == sum::<P>(g.point(), g.point()),
{
    P::BaseField::law_closed();
    P::law_coefficient();
    lemma_point_valid(g);
    lemma_sum_valid::<P>(g.point(), g.point());
    let zero = P::BaseField::ZERO;
    let e = g.y.plus(g.y);
    if g.z == zero {
        field::lemma_times_zero(e);
    } else {
        let (x, y) = g.point()->0;
        let c = g.z.times(g.z).times(g.z);
        lemma_jacobian(g, x, y);
        if y == zero {
            field::lemma_times_zero(c);
            P::BaseField::law_plus_zero(zero);
            field::lemma_times_zero(g.z);
        } else {
            lemma_twice_nonzero::<P>(y);
            lemma_tangent(P::COEFF_A, x, y, g.z);
            let (x3, y3) = sum::<P>(g.point(), g.point())->0;
            lemma_jacobian(r, x3, y3);
        }
    }
}

/// Two points brought to a common denominator.
proof fn lemma_common_scale<P: SWCurveConfig>(g: Projective<P>, k: Projective<P>)
    requires
        g.valid(),
        k.valid(),
        g.z != P::BaseField::ZERO,
        k.z != P::BaseField::ZERO,
    ensures
        ({
            let (x1, y1) = g.point()->0;
            let (x2, y2) = k.point()->0;
            let (q1, q2) = (g.z.times(g.z), k.z.times(k.z));
            let w = g.z.times(k.z);
            let w2 = w.times(w);
            let w3 = w2.times(w);
            let (u1, u2) = (g.x.times(q2), k.x.times(q1));
            let (s1, s2) = (g.y.times(q2.times(k.z)), k.y.times(q1.times(g.z)));
            &&& w != P::BaseField::ZERO
            &&& u1 == x1.times(w2)
            &&& u2 == x2.times(w2)
            &&& s1 == y1.times(w3)
            &&& s2 == y2.times(w3)
            &&& u1 == u2 <==> x1 == x2
            &&& s1 == s2 <==> y1 == y2
        }),
{
    P::BaseField::law_closed();
    lemma_point_valid(g);
    lemma_point_valid(k);
    let (x1, y1) = g.point()->0;
    let (x2, y2) = k.point()->0;
    let (q1, q2) = (g.z.times(g.z), k.z.times(k.z));
    let (c1, c2) = (q1.times(g.z), q2.times(k.z));
    let w = g.z.times(k.z);
    let w2 = w.times(w);
    let w3 = w2.times(w);
    lemma_jacobian(g, x1, y1);
    lemma_jacobian(k, x2, y2);
    field::lemma_times_nonzero(g.z, k.z);
    field::lemma_times_nonzero(w, w);
    field::lemma_times_nonzero(w2, w);
    // w^2 = z1^2 z2^2 and w^3 = z1^3 z2^3
    field::lemma_times_exchange(g.z, k.z, g.z, k.z);
    field::lemma_times_exchange(q1, q2, g.z, k.z);
    P::BaseField::law_times_associative(x1, q1, q2);
    lemma_move_factor(x2, q2, q1);
    P::BaseField::law_times_associative(y1, c1, c2);
    lemma_move_factor(y2, c2, c1);
    if x1.times(w2) == x2.times(w2) {
        field::lemma_times_cancel(x1, x2, w2);
    }
    if y1.times(w3) == y2.times(w3) {
        field::lemma_times_cancel(y1, y2, w3);
    }
}

/// Valid coordinates stand for a valid point.
pub proof fn lemma_point_valid<P: SWCurveConfig>(g: Projective<P>)
    requires
        g.valid(),
    ensures
        valid_point(g.point()),
{
    P::BaseField::law_closed();
    if g.z != P::BaseField::ZERO {
        field::lemma_times_nonzero(g.z, g.z);
        field::lemma_times_nonzero(g.z.times(g.z), g.z);
    }
}

/// The coordinates `(x, y)` in Jacobian form with denominator `z` are `(x z^2, y z^3)`.
proof fn lemma_jacobian<P: SWCurveConfig>(g: Projective<P>, x: P::BaseField, y: P::BaseField)
    requires
        g.valid(),
        x.valid(),
        y.valid(),
        g.z != P::BaseField::ZERO,
    ensures
        g.z.times(g.z) != P::BaseField::ZERO,
        g.z.times(g.z).times(g.z) != P::BaseField::ZERO,
        g.point() == Some((x, y)) <==> g.x == x.times(g.z.times(g.z)) && g.y == y.times(
            g.z.times(g.z).times(g.z),
        ),
{
    P::BaseField::law_closed();
    let q = g.z.times(g.z);
    let c = q.times(g.z);
    field::lemma_times_nonzero(g.z, g.z);
    field::lemma_times_nonzero(q, g.z);
    lemma_scaled(g.x, x, q);
    lemma_scaled(g.y, y, c);
}

/// Multiplying by `q` undoes multiplying by its inverse.
proof fn lemma_scaled<F: Field>(u: F, x: F, q: F)
    requires
        u.valid(),
        x.valid(),
        q.valid(),
        q != F::ZERO,
    ensures
        u.times(q.inverted()) == x <==> u == x.times(q),
{
    F::law_closed();
    F::law_inverted(q);
    F::law_times_commutative(q, q.inverted());
    F::law_times_associative(u, q.inverted(), q);
    F::law_times_associative(x, q, q.inverted());
    F::law_times_one(u);
    F::law_times_one(x);
}

/// The coordinates of a chord sum, in Jacobian form with denominator `d w^3`, from the scaled
/// coordinates `x w^2` and `y w^3` of the operands.
proof fn lemma_chord<F: Field>(x1: F, y1: F, x2: F, y2: F, w: F)
    requires
        x1.valid(),
        y1.valid(),
        x2.valid(),
        y2.valid(),
        w.valid(),
        x1 != x2,
        w != F::ZERO,
    ensures
        ({
            let w2 = w.times(w);
            let w3 = w2.times(w);
            let (u1, u2, s1, s2) = (x1.times(w2), x2.times(w2), y1.times(w3), y2.times(w3));
            let (h, r) = (field::minus(u2, u1), field::minus(s2, s1));
            let hh = h.times(h);
            let hhh = hh.times(h);
            let v = u1.times(hh);
            let x3 = field::minus(field::minus(r.times(r), hhh), v.plus(v));
            let y3 = field::minus(r.times(field::minus(v, x3)), s1.times(hhh));
            let z3 = h.times(w);
            let slope = field::minus(y2, y1).times(field::reciprocal(field::minus(x2, x1)));
            let x = field::minus(field::minus(slope.times(slope), x1), x2);
            let y = field::minus(slope.times(field::minus(x1, x)), y1);
            &&& z3 != F::ZERO
            &&& x3 == x.times(z3.times(z3))
            &&& y3 == y.times(z3.times(z3).times(z3))
        }),
{
    F::law_closed();
    let w2 = w.times(w);
    let w3 = w2.times(w);
    let (u1, u2, s1, s2) = (x1.times(w2), x2.times(w2), y1.times(w3), y2.times(w3));
    let (h, r) = (field::minus(u2, u1), field::minus(s2, s1));
    let hh = h.times(h);
    let hhh = hh.times(h);
    let v = u1.times(hh);
    let z3 = h.times(w);
    let q = z3.times(z3);
    let (d, n) = (field::minus(x2, x1), field::minus(y2, y1));
    let slope = n.times(d.inverted());
    let l = slope.times(slope);
    // the denominator: z3 = h w with h = d w^2
    field::lemma_minus_zero(x2, x1);
    field::lemma_distributive_minus(x2, x1, w2);
    F::law_times_associative(d, w2, w);
    field::lemma_times_nonzero(w, w);
    field::lemma_times_nonzero(w2, w);
    field::lemma_times_nonzero(d, w3);
    assert(z3 == d.times(w3));
    // the slope: r = n w^3 = slope z3
    field::lemma_distributive_minus(y2, y1, w3);
    F::law_inverted(d);
    F::law_times_commutative(d, d.inverted());
    F::law_times_associative(n, d.inverted(), d);
    F::law_times_one(n);
    F::law_times_associative(slope, d, w3);
    assert(r == slope.times(z3));
    field::lemma_times_exchange(slope, z3, slope, z3);
    assert(r.times(r) == l.times(q));
    // multiples of z3^2 = h^2 w^2
    field::lemma_times_exchange(h, w, h, w);
    assert(q == hh.times(w2));
    lemma_move_factor(d, w2, hh);
    F::law_times_commutative(hh, h);
    assert(hhh == d.times(q));
    lemma_move_factor(x1, w2, hh);
    assert(v == x1.times(q));
    // abscissa
    let x = field::minus(field::minus(l, x1), x2);
    F::law_distributive(x1, x1, q);
    field::lemma_distributive_minus(l, d, q);
    field::lemma_distributive_minus(field::minus(l, d), x1.plus(x1), q);
    lemma_chord_abscissa(l, x1, x2);
    let x3 = field::minus(field::minus(r.times(r), hhh), v.plus(v));
    assert(x3 == x.times(q));
    // ordinate
    field::lemma_distributive_minus(x1, x, q);
    let e = field::minus(x1, x);
    let zzz = q.times(z3);
    field::lemma_times_exchange(slope, z3, e, q);
    F::law_times_commutative(z3, q);
    assert(r.times(field::minus(v, x3)) == slope.times(e).times(zzz));
    field::lemma_times_exchange(y1, w3, d, q);
    F::law_times_associative(y1, d, w3.times(q));
    F::law_times_associative(d, w3, q);
    assert(s1.times(hhh) == y1.times(zzz));
    field::lemma_distributive_minus(slope.times(e), y1, zzz);
}

/// `(a b) c = a (c b)`.
proof fn lemma_move_factor<F: Field>(a: F, b: F, c: F)
    requires
        a.valid(),
        b.valid(),
        c.valid(),
    ensures
        a.times(b).times(c) == a.times(c.times(b)),
{
    F::law_closed();
    F::law_times_associative(a, b, c);
    F::law_times_commutative(b, c);
}

/// `l - (x2 - x1) - 2 x1 = l - x1 - x2`.
proof fn lemma_chord_abscissa<F: Field>(l: F, x1: F, x2: F)
    requires
        l.valid(),
        x1.valid(),
        x2.valid(),
    ensures
        field::minus(field::minus(l, field::minus(x2, x1)), x1.plus(x1)) == field::minus(
            field::minus(l, x1),
            x2,
        ),
{
    F::law_closed();
    let d = field::minus(x2, x1);
    field::lemma_minus_minus(l, d, x1.plus(x1));
    field::lemma_minus_minus(l, x1, x2);
    F::law_plus_associative(d, x1, x1);
    field::lemma_minus_plus(x2, x1);
    F::law_plus_commutative(x2, x1);
}

/// The coordinates of a tangent sum, in Jacobian form with denominator `2 y z^4`, from the
/// coordinates `x z^2` and `y z^3` of the operand.
proof fn lemma_tangent<F: Field>(a: F, x1: F, y1: F, z: F)
    requires
        a.valid(),
        x1.valid(),
        y1.valid(),
        z.valid(),
        y1.plus(y1) != F::ZERO,
        z != F::ZERO,
    ensures
        ({
            let q = z.times(z);
            let c = q.times(z);
            let (gx, gy) = (x1.times(q), y1.times(c));
            let e = gy.plus(gy);
            let ee = e.times(e);
            let s = gx.times(ee);
            let gxx = gx.times(gx);
            let m = gxx.plus(gxx).plus(gxx).plus(a.times(q.times(q)));
            let x3 = field::minus(m.times(m), s.plus(s));
            let y3 = field::minus(m.times(field::minus(s, x3)), gy.times(e).times(ee));
            let z3 = e.times(z);
            let xx = x1.times(x1);
            let slope = xx.plus(xx).plus(xx).plus(a).times(field::reciprocal(y1.plus(y1)));
            let x = field::minus(slope.times(slope), x1.plus(x1));
            let y = field::minus(slope.times(field::minus(x1, x)), y1);
            &&& z3 != F::ZERO
            &&& x3 == x.times(z3.times(z3))
            &&& y3 == y.times(z3.times(z3).times(z3))
        }),
{
    F::law_closed();
    let q = z.times(z);
    let c = q.times(z);
    let f = q.times(q);
    let (gx, gy) = (x1.times(q), y1.times(c));
    let e = gy.plus(gy);
    let ee = e.times(e);
    let s = gx.times(ee);
    let gxx = gx.times(gx);
    let m = gxx.plus(gxx).plus(gxx).plus(a.times(f));
    let z3 = e.times(z);
    let xx = x1.times(x1);
    let t = y1.plus(y1);
    let n = xx.plus(xx).plus(xx).plus(a);
    let slope = n.times(t.inverted());
    let l = slope.times(slope);
    let p = z3.times(z3);
    let zzz = p.times(z3);
    // the denominator: z3 = 2 y1 z^4
    F::law_distributive(y1, y1, c);
    F::law_times_associative(t, c, z);
    F::law_times_associative(q, z, z);
    field::lemma_times_nonzero(z, z);
    field::lemma_times_nonzero(q, q);
    field::lemma_times_nonzero(t, f);
    assert(z3 == t.times(f));
    // the slope: m = n z^4 = slope z3
    field::lemma_times_exchange(x1, q, x1, q);
    F::law_distributive(xx, xx, f);
    F::law_distributive(xx.plus(xx), xx, f);
    F::law_distributive(xx.plus(xx).plus(xx), a, f);
    assert(m == n.times(f));
    F::law_inverted(t);
    F::law_times_commutative(t, t.inverted());
    F::law_times_associative(n, t.inverted(), t);
    F::law_times_one(n);
    F::law_times_associative(slope, t, f);
    assert(m == slope.times(z3));
    field::lemma_times_exchange(slope, z3, slope, z3);
    assert(m.times(m) == l.times(p));
    // s = x1 z3^2, since z3^2 = e^2 z^2
    field::lemma_times_exchange(e, z, e, z);
    assert(p == ee.times(q));
    lemma_move_factor(x1, q, ee);
    assert(s == x1.times(p));
    // abscissa
    let x = field::minus(l, x1.plus(x1));
    F::law_distributive(x1, x1, p);
    field::lemma_distributive_minus(l, x1.plus(x1), p);
    let x3 = field::minus(m.times(m), s.plus(s));
    assert(x3 == x.times(p));
    // ordinate
    field::lemma_distributive_minus(x1, x, p);
    let k = field::minus(x1, x);
    field::lemma_times_exchange(slope, z3, k, p);
    F::law_times_commutative(z3, p);
    assert(m.times(field::minus(s, x3)) == slope.times(k).times(zzz));
    // (gy e) e^2 = y1 z3^3, since z3^3 = (e^2 z^2) (e z) = (e^2 e) z^3
    field::lemma_times_exchange(ee, q, e, z);
    assert(zzz == ee.times(e).times(c));
    F::law_times_associative(gy, e, ee);
    F::law_times_commutative(e, ee);
    lemma_move_factor(y1, c, ee.times(e));
    assert(gy.times(e).times(ee) == y1.times(zzz));
    field::lemma_distributive_minus(slope.times(k), y1, zzz);
}

/// An integer of `N` words has the words of its array, all of them and in their order: word `i`
/// is digit `i` of the number in base `2^64`, and the number has no other digits.
pub proof fn law_integer<const N: usize>(b: BigInt<N>, i: nat)
    requires
        i < N,
    ensures
        b.words() == b.0@,
        (integer(b) / pow2(64 * i)) % pow2(64) == b.0[i as int],
        integer(b) < pow2(64 * N as nat),
{
    lemma2_to64();
    limbs::law_value_digit(b.0@, 64, N as nat, i);
}

/// The same of every type of integers, for the words that it has.
pub proof fn law_integer_words<B: BigInteger>(b: B, i: nat)
    requires
        i < b.words().len(),
    ensures
        (integer(b) / pow2(64 * i)) % pow2(64) == b.words()[i as int],
        integer(b) < pow2(64 * b.words().len()),
{
    lemma2_to64();
    limbs::law_value_digit(b.words(), 64, b.words().len(), i);
}

/// Affine coordinates stand for themselves, unless they are marked as those of the identity, and
/// are valid when they mean nothing or are elements of the field.
pub proof fn law_affine_point<P: SWCurveConfig>(a: Affine<P>)
    ensures
        a.infinity ==> a.point() is None,
        !a.infinity ==> a.point() == Some((a.x, a.y)),
        a.valid() <==> a.infinity || a.x.valid() && a.y.valid(),
        valid_point(a.point()) <==> a.valid(),
{
}

/// Jacobian coordinates `(x, y, z)` stand for the point `(x', y')` with `x' z^2 = x` and
/// `y' z^3 = y`, or for the identity where `z` is zero.
pub proof fn law_projective_point<P: SWCurveConfig>(g: Projective<P>)
    ensures
        g.valid() <==> g.x.valid() && g.y.valid() && g.z.valid(),
        g.valid() && g.z == P::BaseField::ZERO ==> g.point() is None,
        g.valid() && g.z != P::BaseField::ZERO ==> {
            &&& g.point() matches Some((x, y))
            &&& x.valid() && y.valid()
            &&& x.times(g.z.times(g.z)) == g.x
            &&& y.times(g.z.times(g.z).times(g.z)) == g.y
        },
{
    if g.valid() && g.z != P::BaseField::ZERO {
        let q = g.z.times(g.z);
        P::BaseField::law_closed();
        field::lemma_times_nonzero(g.z, g.z);
        field::lemma_times_nonzero(q, g.z);
        let (x, y) = (g.x.times(q.inverted()), g.y.times(q.times(g.z).inverted()));
        lemma_jacobian(g, x, y);
    }
}

/// The identity is neutral, and reflection negates the ordinate.
pub proof fn law_identity_and_reflection<P: SWCurveConfig>(
    p: Point<P::BaseField>,
    x: P::BaseField,
    y: P::BaseField,
)
    ensures
        sum::<P>(None, p) == p,
        sum::<P>(p, None) == p,
        negative::<P::BaseField>(None) is None,
        negative(Some((x, y))) == Some((x, y.negated())),
{
}

/// Points with different abscissas add up on their chord: with the slope `s` of the chord, the
/// sum is `(s^2 - x1 - x2, s (x1 - x3) - y1)`.
pub proof fn law_chord<P: SWCurveConfig>(
    x1: P::BaseField,
    y1: P::BaseField,
    x2: P::BaseField,
    y2: P::BaseField,
    s: P::BaseField,
)
    requires
        x1.valid(),
        y1.valid(),
        x2.valid(),
        y2.valid(),
        s.valid(),
        x1 != x2,
        s.times(x2.plus(x1.negated())) == y2.plus(y1.negated()),
    ensures
        ({
            let x3 = s.times(s).plus(x1.negated()).plus(x2.negated());
            sum::<P>(Some((x1, y1)), Some((x2, y2))) == Some(
                (x3, s.times(x1.plus(x3.negated())).plus(y1.negated())),
            )
        }),
{
    let d = field::minus(x2, x1);
    P::BaseField::law_closed();
    field::lemma_minus_zero(x2, x1);
    P::BaseField::law_inverted(d);
    P::BaseField::law_times_associative(s, d, d.inverted());
    P::BaseField::law_times_one(s);
}

/// A point that is not of order two is doubled on its tangent: with the slope `s` of the tangent,
/// `s (y + y) = 3 x^2 + a`, twice the point is `(s^2 - (x + x), s (x - x3) - y)`.
pub proof fn law_tangent<P: SWCurveConfig>(x: P::BaseField, y: P::BaseField, s: P::BaseField)
    requires
        x.valid(),
        y.valid(),
        s.valid(),
        y != P::BaseField::ZERO,
        s.times(y.plus(y)) == x.times(x).plus(x.times(x)).plus(x.times(x)).plus(P::COEFF_A),
    ensures
        ({
            let x3 = s.times(s).plus(x.plus(x).negated());
            sum::<P>(Some((x, y)), Some((x, y))) == Some(
                (x3, s.times(x.plus(x3.negated())).plus(y.negated())),
            )
        }),
{
    let d = y.plus(y);
    P::BaseField::law_closed();
    lemma_twice_nonzero::<P>(y);
    P::BaseField::law_inverted(d);
    P::BaseField::law_times_associative(s, d, d.inverted());
    P::BaseField::law_times_one(s);
}

/// Points on a vertical line add up to the identity: those with the same abscissa and different
/// ordinates, and a point with ordinate zero and itself.
pub proof fn law_vertical<P: SWCurveConfig>(
    x: P::BaseField,
    y1: P::BaseField,
    y2: P::BaseField,
)
    requires
        y1 != y2 || y1 == P::BaseField::ZERO,
    ensures
        sum::<P>(Some((x, y1)), Some((x, y2))) is None,
{
}

} // verus!
