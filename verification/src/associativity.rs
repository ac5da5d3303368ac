//! The points of a nonsingular curve form a group under the chord-and-tangent rule.
//!
//! Three points of a line add up to the identity ([`aligned`]). For the associative law, two lines
//! that meet in `P + Q` and its reflection make, apart from the vertical line through both, a
//! conic `x^2 + p x + q = m y` through the points `P`, `Q`, `R` and the reflection of
//! `(P + Q) + R`. The other bracketing makes such a conic too. The two conics are the same, or else
//! their difference is a line through `P`, `Q` and `R`.
use crate::curve;
use crate::curve::{Point, SWCurveConfig};
use crate::field;
use crate::field::Field;
use crate::group;
use crate::identities;
use vstd::prelude::*;

verus! {

/// `x^3 + a x + b`.
pub open spec fn cubic<P: SWCurveConfig>(b: P::BaseField, x: P::BaseField) -> P::BaseField {
    x.times(x).times(x).plus(P::COEFF_A.times(x)).plus(b)
}

/// `3 x^2 + a`.
pub open spec fn derivative<P: SWCurveConfig>(x: P::BaseField) -> P::BaseField {
    x.times(x).plus(x.times(x)).plus(x.times(x)).plus(P::COEFF_A)
}

/// The point is the identity or satisfies `y^2 = x^3 + a x + b`.
pub open spec fn on_curve<P: SWCurveConfig>(b: P::BaseField, p: Point<P::BaseField>) -> bool {
    match p {
        None => true,
        Some((x, y)) => y.times(y) == cubic::<P>(b, x),
    }
}

/// The curve has no singular point: the cubic and its derivative have no common root.
pub open spec fn nonsingular<P: SWCurveConfig>(b: P::BaseField) -> bool {
    forall|x: P::BaseField|
        x.valid() && #[trigger] cubic::<P>(b, x) == P::BaseField::ZERO ==> derivative::<P>(x)
            != P::BaseField::ZERO
}

/// `4 a^3 + 27 b^2`, as four times `a^3` and three times the square of `3 b`.
pub open spec fn discriminant<P: SWCurveConfig>(b: P::BaseField) -> P::BaseField {
    let cube = P::COEFF_A.times(P::COEFF_A).times(P::COEFF_A);
    let square = b.plus(b).plus(b).times(b.plus(b).plus(b));
    cube.plus(cube).plus(cube).plus(cube).plus(square.plus(square).plus(square))
}

/// A curve whose discriminant is not zero has no singular point.
pub proof fn law_discriminant<P: SWCurveConfig>(b: P::BaseField)
    requires
        b.valid(),
        discriminant::<P>(b) != P::BaseField::ZERO,
    ensures
        nonsingular::<P>(b),
{
    let a = P::COEFF_A;
    P::BaseField::law_closed();
    P::law_coefficient();
    assert forall|x: P::BaseField|
        x.valid() && #[trigger] cubic::<P>(b, x) == P::BaseField::ZERO implies derivative::<P>(x)
        != P::BaseField::ZERO by {
        if derivative::<P>(x) == P::BaseField::ZERO {
            identities::lemma_singular_point(a, b, x);
            identities::lemma_square_of_product(a, x);
            identities::lemma_discriminant(
                a,
                b.plus(b).plus(b),
                x.times(x),
                a.times(a),
                a.times(x),
            );
        }
    }
}

/// The identity and the points with `y^2 = x^3 + a x + b`.
pub open spec fn curve_points<P: SWCurveConfig>(b: P::BaseField) -> Set<Point<P::BaseField>> {
    Set::new(|p: Point<P::BaseField>| curve::valid_point(p) && on_curve::<P>(b, p))
}

/// The line `y = s x + c` meets the curve in the points `p`, `q` and `t`, counted with
/// multiplicity: their abscissas are the roots of `x^3 + a x + b - (s x + c)^2`.
spec fn aligned<P: SWCurveConfig>(
    b: P::BaseField,
    s: P::BaseField,
    c: P::BaseField,
    p: (P::BaseField, P::BaseField),
    q: (P::BaseField, P::BaseField),
    t: (P::BaseField, P::BaseField),
) -> bool {
    let (x1, y1) = p;
    let (x2, y2) = q;
    let (x3, y3) = t;
    &&& b.valid() && s.valid() && c.valid()
    &&& x1.valid() && x2.valid() && x3.valid()
    &&& y1.valid() && y2.valid() && y3.valid()
    &&& y1 == s.times(x1).plus(c)
    &&& y2 == s.times(x2).plus(c)
    &&& y3 == s.times(x3).plus(c)
    &&& s.times(s) == x1.plus(x2).plus(x3)
    &&& field::minus(P::COEFF_A, s.times(c).plus(s.times(c))) == x1.times(x2).plus(
        x1.times(x3),
    ).plus(x2.times(x3))
    &&& field::minus(c.times(c), b) == x1.times(x2).times(x3)
}

/// The first two points of a line can be exchanged.
proof fn lemma_turned<P: SWCurveConfig>(
    b: P::BaseField,
    s: P::BaseField,
    c: P::BaseField,
    p: (P::BaseField, P::BaseField),
    q: (P::BaseField, P::BaseField),
    t: (P::BaseField, P::BaseField),
)
    requires
        aligned::<P>(b, s, c, p, q, t),
    ensures
        aligned::<P>(b, s, c, q, p, t),
{
    let (x1, y1) = p;
    let (x2, y2) = q;
    let (x3, y3) = t;
    identities::lemma_turn_sum(x1, x2, x3);
    identities::lemma_turn_products(x1, x2, x3);
    identities::lemma_turn_product(x1, x2, x3);
}

/// The last two points of a line can be exchanged.
proof fn lemma_swapped<P: SWCurveConfig>(
    b: P::BaseField,
    s: P::BaseField,
    c: P::BaseField,
    p: (P::BaseField, P::BaseField),
    q: (P::BaseField, P::BaseField),
    t: (P::BaseField, P::BaseField),
)
    requires
        aligned::<P>(b, s, c, p, q, t),
    ensures
        aligned::<P>(b, s, c, p, t, q),
{
    let (x1, y1) = p;
    let (x2, y2) = q;
    let (x3, y3) = t;
    identities::lemma_swap_sum(x1, x2, x3);
    identities::lemma_swap_products(x1, x2, x3);
    identities::lemma_swap_product(x1, x2, x3);
}

/// Reflected points lie on the reflected line.
proof fn lemma_reflected<P: SWCurveConfig>(
    b: P::BaseField,
    s: P::BaseField,
    c: P::BaseField,
    p: (P::BaseField, P::BaseField),
    q: (P::BaseField, P::BaseField),
    t: (P::BaseField, P::BaseField),
)
    requires
        aligned::<P>(b, s, c, p, q, t),
    ensures
        ({
            let (x1, y1) = p;
            let (x2, y2) = q;
            let (x3, y3) = t;
            aligned::<P>(
                b,
                s.negated(),
                c.negated(),
                (x1, y1.negated()),
                (x2, y2.negated()),
                (x3, y3.negated()),
            )
        }),
{
    let (x1, y1) = p;
    let (x2, y2) = q;
    let (x3, y3) = t;
    P::BaseField::law_closed();
    identities::lemma_reflected_line(s, c, x1, y1);
    identities::lemma_reflected_line(s, c, x2, y2);
    identities::lemma_reflected_line(s, c, x3, y3);
    identities::lemma_negated_product(s, s);
    identities::lemma_negated_product(s, c);
    identities::lemma_negated_product(c, c);
}

/// A quotient times its divisor.
proof fn lemma_divided<F: Field>(n: F, d: F)
    requires
        n.valid(),
        d.valid(),
        d != F::ZERO,
    ensures
        n.times(d.inverted()).times(d) == n,
        n.times(d).times(d.inverted()) == n,
{
    F::law_closed();
    F::law_inverted(d);
    F::law_times_commutative(d, d.inverted());
    F::law_times_associative(n, d.inverted(), d);
    F::law_times_associative(n, d, d.inverted());
    F::law_times_one(n);
}

/// Three points of a line add up to the identity: the sum of two is the reflection of the third.
proof fn lemma_aligned_sum<P: SWCurveConfig>(
    b: P::BaseField,
    s: P::BaseField,
    c: P::BaseField,
    p: (P::BaseField, P::BaseField),
    q: (P::BaseField, P::BaseField),
    t: (P::BaseField, P::BaseField),
)
    requires
        nonsingular::<P>(b),
        aligned::<P>(b, s, c, p, q, t),
        on_curve::<P>(b, Some(p)),
    ensures
        curve::sum::<P>(Some(p), Some(q)) == curve::negative(Some(t)),
{
    let (x1, y1) = p;
    let (x2, y2) = q;
    let (x3, y3) = t;
    P::BaseField::law_closed();
    P::law_coefficient();
    identities::lemma_third_ordinate(s, c, x1, y1, x3, y3);
    if x1 != x2 {
        let d = field::minus(x2, x1);
        field::lemma_minus_zero(x2, x1);
        identities::lemma_rise(s, c, x1, y1, x2, y2);
        lemma_divided(s, d);
        identities::lemma_chord_third(s, x1, x2, x3);
    } else {
        identities::lemma_touching_slope(P::COEFF_A, s, c, x1, x3, y1);
        let d = y1.plus(y1);
        if y1 == P::BaseField::ZERO {
            // a point of order two would be singular
            P::BaseField::law_plus_zero(y1);
            field::lemma_times_zero(s);
            field::lemma_times_zero(y1);
            assert(derivative::<P>(x1) == P::BaseField::ZERO);
            assert(cubic::<P>(b, x1) == P::BaseField::ZERO);
        } else {
            curve::lemma_twice_nonzero::<P>(y1);
            lemma_divided(s, d);
            identities::lemma_tangent_third(s, x1, x3);
        }
    }
}

/// The equation of the abscissas where a line meets the curve.
proof fn lemma_meets<P: SWCurveConfig>(
    b: P::BaseField,
    s: P::BaseField,
    c: P::BaseField,
    x: P::BaseField,
    y: P::BaseField,
)
    requires
        b.valid(),
        s.valid(),
        c.valid(),
        x.valid(),
        y.valid(),
        y == s.times(x).plus(c),
        y.times(y) == cubic::<P>(b, x),
    ensures
        x.times(x).times(x).plus(
            field::minus(P::COEFF_A, s.times(c).plus(s.times(c))).times(x),
        ) == s.times(s).times(x.times(x)).plus(field::minus(c.times(c), b)),
{
    P::BaseField::law_closed();
    P::law_coefficient();
    identities::lemma_square_of_line(s, c, x);
    identities::lemma_line_equation(
        P::COEFF_A,
        b,
        x.times(x).times(x),
        s.times(s).times(x.times(x)),
        s.times(c).plus(s.times(c)),
        c.times(c),
        x,
    );
}

/// Two different abscissas with `x^3 + k x = g x^2 + n`.
proof fn lemma_two_roots<F: Field>(k: F, n: F, g: F, x1: F, x2: F)
    requires
        k.valid(),
        n.valid(),
        g.valid(),
        x1.valid(),
        x2.valid(),
        x1 != x2,
        x1.times(x1).times(x1).plus(k.times(x1)) == g.times(x1.times(x1)).plus(n),
        x2.times(x2).times(x2).plus(k.times(x2)) == g.times(x2.times(x2)).plus(n),
    ensures
        x2.times(x2).plus(x2.times(x1)).plus(x1.times(x1)).plus(k) == g.times(x2.plus(x1)),
{
    F::law_closed();
    let d = x2.times(x2).plus(x2.times(x1)).plus(x1.times(x1));
    let e = field::minus(x2, x1);
    identities::lemma_cube_difference(x2, x1);
    identities::lemma_root_difference(
        d,
        x2.times(x2).times(x2),
        x1.times(x1).times(x1),
        g,
        k,
        n,
        x2.times(x2),
        x1.times(x1),
        x1,
        x2,
    );
    identities::lemma_difference_of_squares(x2, x1);
    F::law_times_associative(g, x2.plus(x1), e);
    field::lemma_minus_zero(x2, x1);
    field::lemma_times_cancel(d.plus(k), g.times(x2.plus(x1)), e);
}

/// The third point of a line through two points of the curve lies on the curve.
proof fn lemma_third_on_curve<P: SWCurveConfig>(
    b: P::BaseField,
    s: P::BaseField,
    c: P::BaseField,
    p: (P::BaseField, P::BaseField),
    q: (P::BaseField, P::BaseField),
    t: (P::BaseField, P::BaseField),
)
    requires
        aligned::<P>(b, s, c, p, q, t),
    ensures
        on_curve::<P>(b, Some(t)),
{
    let (x1, y1) = p;
    let (x2, y2) = q;
    let (x3, y3) = t;
    P::BaseField::law_closed();
    P::law_coefficient();
    identities::lemma_third_root(x1, x2, x3);
    identities::lemma_square_of_line(s, c, x3);
    identities::lemma_curve_equation(
        P::COEFF_A,
        b,
        x3.times(x3).times(x3),
        s.times(s).times(x3.times(x3)),
        s.times(c).plus(s.times(c)),
        c.times(c),
        x3,
    );
}

/// The line through two points of the curve that are not reflections of each other.
proof fn lemma_line<P: SWCurveConfig>(
    b: P::BaseField,
    p: (P::BaseField, P::BaseField),
    q: (P::BaseField, P::BaseField),
    t: (P::BaseField, P::BaseField),
) -> (r: (P::BaseField, P::BaseField))
    requires
        b.valid(),
        curve::valid_point(Some(p)),
        curve::valid_point(Some(q)),
        on_curve::<P>(b, Some(p)),
        on_curve::<P>(b, Some(q)),
        curve::negative(curve::sum::<P>(Some(p), Some(q))) == Some(t),
    ensures
        aligned::<P>(b, r.0, r.1, p, q, t),
{
    let (x1, y1) = p;
    let (x2, y2) = q;
    let (x3, y3) = t;
    let a = P::COEFF_A;
    P::BaseField::law_closed();
    P::law_coefficient();
    if x1 != x2 {
        let d = field::minus(x2, x1);
        field::lemma_minus_zero(x2, x1);
        let s = field::minus(y2, y1).times(d.inverted());
        let c = field::minus(y1, s.times(x1));
        lemma_divided(field::minus(y2, y1), d);
        identities::lemma_intercept(s, x1, y1);
        identities::lemma_second_on_line(s, c, x1, y1, x2, y2);
        identities::lemma_third_on_line(s, c, x1, y1, x3);
        identities::lemma_chord_roots(s, x1, x2, x3);
        let k = field::minus(a, s.times(c).plus(s.times(c)));
        let n = field::minus(c.times(c), b);
        lemma_meets::<P>(b, s, c, x1, y1);
        lemma_meets::<P>(b, s, c, x2, y2);
        lemma_two_roots(k, n, s.times(s), x1, x2);
        identities::lemma_chord_products(k, x1, x2, x3);
        identities::lemma_constant_term(n, x1, x2, x3);
        (s, c)
    } else {
        let d = y1.plus(y1);
        curve::lemma_twice_nonzero::<P>(y1);
        let s = derivative::<P>(x1).times(d.inverted());
        let c = field::minus(y1, s.times(x1));
        lemma_divided(derivative::<P>(x1), d);
        identities::lemma_intercept(s, x1, y1);
        identities::lemma_third_on_line(s, c, x1, y1, x3);
        identities::lemma_tangent_roots(s, x1, x3);
        identities::lemma_tangent_products(a, s, c, x1, y1, x3);
        lemma_meets::<P>(b, s, c, x1, y1);
        identities::lemma_constant_term(field::minus(c.times(c), b), x1, x1, x3);
        (s, c)
    }
}

/// The reflection of a point of the curve lies on the curve.
proof fn lemma_negative_on_curve<P: SWCurveConfig>(b: P::BaseField, p: Point<P::BaseField>)
    requires
        curve::valid_point(p),
        on_curve::<P>(b, p),
    ensures
        curve::valid_point(curve::negative(p)),
        on_curve::<P>(b, curve::negative(p)),
{
    P::BaseField::law_closed();
    match p {
        None => {},
        Some((x, y)) => {
            identities::lemma_negated_product(y, y);
        },
    }
}

/// The sum of two points of the curve lies on the curve.
proof fn lemma_sum_on_curve<P: SWCurveConfig>(
    b: P::BaseField,
    p: Point<P::BaseField>,
    q: Point<P::BaseField>,
)
    requires
        b.valid(),
        curve::valid_point(p),
        curve::valid_point(q),
        on_curve::<P>(b, p),
        on_curve::<P>(b, q),
    ensures
        curve::valid_point(curve::sum::<P>(p, q)),
        on_curve::<P>(b, curve::sum::<P>(p, q)),
{
    let r = curve::sum::<P>(p, q);
    curve::lemma_sum_valid::<P>(p, q);
    match (p, q, curve::negative(r)) {
        (Some(p1), Some(q1), Some(t)) => {
            let (s, c) = lemma_line::<P>(b, p1, q1, t);
            lemma_third_on_curve::<P>(b, s, c, p1, q1, t);
            group::lemma_negative_twice(r);
            P::BaseField::law_closed();
            lemma_negative_on_curve::<P>(b, Some(t));
        },
        _ => {},
    }
}

/// Points of the curve with the same abscissa are equal or reflections of each other.
proof fn lemma_same_abscissa<P: SWCurveConfig>(
    b: P::BaseField,
    p: (P::BaseField, P::BaseField),
    q: (P::BaseField, P::BaseField),
)
    requires
        curve::valid_point(Some(p)),
        curve::valid_point(Some(q)),
        on_curve::<P>(b, Some(p)),
        on_curve::<P>(b, Some(q)),
        p.0 == q.0,
    ensures
        p == q || Some(q) == curve::negative(Some(p)),
{
    let (x1, y1) = p;
    let (x2, y2) = q;
    P::BaseField::law_closed();
    identities::lemma_difference_of_squares(y1, y2);
    field::lemma_minus_zero(y1.times(y1), y2.times(y2));
    field::lemma_minus_zero(y1, y2);
    if y1 != y2 {
        if y1.plus(y2) != P::BaseField::ZERO {
            field::lemma_times_nonzero(y1.plus(y2), field::minus(y1, y2));
        }
        P::BaseField::law_plus_negated(y1);
        P::BaseField::law_plus_commutative(y1, y2);
        P::BaseField::law_plus_commutative(y1, y1.negated());
        field::lemma_plus_cancel(y2, y1.negated(), y1);
    }
}

/// Two points of the curve with no affine sum are reflections of each other.
proof fn lemma_no_sum<P: SWCurveConfig>(
    b: P::BaseField,
    p: (P::BaseField, P::BaseField),
    q: (P::BaseField, P::BaseField),
)
    requires
        curve::valid_point(Some(p)),
        curve::valid_point(Some(q)),
        on_curve::<P>(b, Some(p)),
        on_curve::<P>(b, Some(q)),
        curve::sum::<P>(Some(p), Some(q)) is None,
    ensures
        Some(q) == curve::negative(Some(p)),
{
    let (x1, y1) = p;
    let (x2, y2) = q;
    P::BaseField::law_closed();
    lemma_same_abscissa::<P>(b, p, q);
    if p == q {
        P::BaseField::law_plus_zero(y1);
        P::BaseField::law_plus_negated(y1);
        P::BaseField::law_plus_commutative(P::BaseField::ZERO, P::BaseField::ZERO.negated());
        P::BaseField::law_plus_zero(P::BaseField::ZERO.negated());
    }
}

/// Adding the reflection of a point undoes adding the point.
proof fn lemma_sum_undone<P: SWCurveConfig>(
    b: P::BaseField,
    p: Point<P::BaseField>,
    q: Point<P::BaseField>,
)
    requires
        b.valid(),
        nonsingular::<P>(b),
        curve::valid_point(p),
        curve::valid_point(q),
        on_curve::<P>(b, p),
        on_curve::<P>(b, q),
    ensures
        curve::sum::<P>(curve::sum::<P>(p, q), curve::negative(q)) == p,
{
    let r = curve::sum::<P>(p, q);
    P::BaseField::law_closed();
    curve::lemma_sum_valid::<P>(p, q);
    group::lemma_negative_twice(p);
    group::lemma_negative_twice(r);
    match (p, q) {
        (None, _) => {
            group::law_sum_negative::<P>(q);
        },
        (_, None) => {},
        (Some(p1), Some(q1)) => {
            match r {
                None => {
                    lemma_no_sum::<P>(b, p1, q1);
                },
                Some((x3, y3)) => {
                    let (x1, y1) = p1;
                    let (x2, y2) = q1;
                    let t = (x3, y3.negated());
                    let (s, c) = lemma_line::<P>(b, p1, q1, t);
                    // the reflected line holds -p, -q and p + q
                    lemma_reflected::<P>(b, s, c, p1, q1, t);
                    let s1 = s.negated();
                    let c1 = c.negated();
                    field::lemma_negated_twice(y3);
                    let p2 = (x1, y1.negated());
                    let q2 = (x2, y2.negated());
                    let r2 = (x3, y3);
                    assert(aligned::<P>(b, s1, c1, p2, q2, r2));
                    lemma_swapped::<P>(b, s1, c1, p2, q2, r2);
                    lemma_turned::<P>(b, s1, c1, p2, r2, q2);
                    lemma_swapped::<P>(b, s1, c1, r2, p2, q2);
                    lemma_sum_on_curve::<P>(b, p, q);
                    lemma_aligned_sum::<P>(b, s1, c1, r2, q2, p2);
                },
            }
        },
    }
}

/// `x^2 + p x + q - m y`.
spec fn conic<F: Field>(p: F, q: F, m: F, x: F, y: F) -> F {
    field::minus(x.times(x).plus(p.times(x)).plus(q), m.times(y))
}

/// The middle coefficient of the conic that lines of slopes `m1` and `m2` make, which meet in a
/// point of abscissa `u` and its reflection.
spec fn conic_middle<F: Field>(u: F, m1: F, m2: F) -> F {
    u.plus(m1.times(m2))
}

/// The constant coefficient of that conic, for a meeting point `(u, w)`.
spec fn conic_constant<P: SWCurveConfig>(
    u: P::BaseField,
    w: P::BaseField,
    m1: P::BaseField,
    m2: P::BaseField,
) -> P::BaseField {
    field::minus(
        u.times(u).plus(P::COEFF_A).plus(field::minus(m1, m2).times(w)),
        m1.times(m2).times(u),
    )
}

/// The conic of the lines of slopes `m1` through `(u, -w)` and `m2` through `(u, w)`, at a point.
spec fn conic_at<P: SWCurveConfig>(
    r: (P::BaseField, P::BaseField),
    m1: P::BaseField,
    m2: P::BaseField,
    z: (P::BaseField, P::BaseField),
) -> P::BaseField {
    let (u, w) = r;
    let (x, y) = z;
    conic(conic_middle(u, m1, m2), conic_constant::<P>(u, w, m1, m2), m1.plus(m2), x, y)
}

/// `x^2 + x u + u^2 + a`.
spec fn quotient<P: SWCurveConfig>(x: P::BaseField, u: P::BaseField) -> P::BaseField {
    x.times(x).plus(x.times(u)).plus(u.times(u)).plus(P::COEFF_A)
}

/// The difference of the squared ordinates of two points of the curve.
proof fn lemma_squares<P: SWCurveConfig>(
    b: P::BaseField,
    x: P::BaseField,
    y: P::BaseField,
    u: P::BaseField,
    w: P::BaseField,
)
    requires
        b.valid(),
        x.valid(),
        y.valid(),
        u.valid(),
        w.valid(),
        on_curve::<P>(b, Some((x, y))),
        on_curve::<P>(b, Some((u, w))),
    ensures
        y.plus(w).times(field::minus(y, w)) == quotient::<P>(x, u).times(field::minus(x, u)),
{
    P::BaseField::law_closed();
    P::law_coefficient();
    identities::lemma_difference_of_squares(y, w);
    identities::lemma_cube_difference(x, u);
    identities::lemma_curve_difference(
        P::COEFF_A,
        b,
        x.times(x).times(x),
        u.times(u).times(u),
        x.times(x).plus(x.times(u)).plus(u.times(u)),
        x,
        u,
    );
    P::BaseField::law_times_commutative(field::minus(x, u), quotient::<P>(x, u));
}

/// The conic vanishes at the points of its first line, the one through `(u, -w)`.
proof fn lemma_conic_on_first<P: SWCurveConfig>(
    b: P::BaseField,
    m1: P::BaseField,
    c1: P::BaseField,
    m2: P::BaseField,
    r: (P::BaseField, P::BaseField),
    z: (P::BaseField, P::BaseField),
    z2: (P::BaseField, P::BaseField),
)
    requires
        m2.valid(),
        curve::valid_point(Some(r)),
        on_curve::<P>(b, Some(r)),
        on_curve::<P>(b, Some(z)),
        aligned::<P>(b, m1, c1, z, z2, (r.0, r.1.negated())),
    ensures
        conic_at::<P>(r, m1, m2, z) == P::BaseField::ZERO,
{
    let (u, w) = r;
    let (x, y) = z;
    let (x2, y2) = z2;
    let a = P::COEFF_A;
    P::BaseField::law_closed();
    P::law_coefficient();
    if x != u {
        let d = field::minus(x, u);
        let f = field::minus(y, w);
        let k = quotient::<P>(x, u);
        identities::lemma_line_below(m1, c1, u, w, x, y);
        lemma_squares::<P>(b, x, y, u, w);
        identities::lemma_move_last(m1, d, f);
        field::lemma_minus_zero(x, u);
        field::lemma_times_cancel(k, m1.times(f), d);
        identities::lemma_conic_form(a, m1.times(m2), u, w, m1, m2, x, y);
        identities::lemma_first_line(d, f, k, m1, m2);
        field::lemma_minus_zero(k, m1.times(f));
    } else {
        lemma_swapped::<P>(b, m1, c1, z, z2, (u, w.negated()));
        identities::lemma_touching_slope(a, m1, c1, x, x2, y);
        field::lemma_negated_twice(w);
        identities::lemma_conic_below(a, u, w, m1, m2, y);
        field::lemma_minus_zero(derivative::<P>(u), m1.times(y.plus(y)));
    }
}

/// The conic vanishes at the points of its second line, the one through `(u, w)`.
proof fn lemma_conic_on_second<P: SWCurveConfig>(
    b: P::BaseField,
    m1: P::BaseField,
    m2: P::BaseField,
    c2: P::BaseField,
    r: (P::BaseField, P::BaseField),
    z: (P::BaseField, P::BaseField),
    z2: (P::BaseField, P::BaseField),
)
    requires
        m1.valid(),
        on_curve::<P>(b, Some(r)),
        on_curve::<P>(b, Some(z)),
        aligned::<P>(b, m2, c2, r, z, z2),
    ensures
        conic_at::<P>(r, m1, m2, z) == P::BaseField::ZERO,
{
    let (u, w) = r;
    let (x, y) = z;
    let (x2, y2) = z2;
    let a = P::COEFF_A;
    P::BaseField::law_closed();
    P::law_coefficient();
    if x != u {
        let d = field::minus(x, u);
        let e = y.plus(w);
        let k = quotient::<P>(x, u);
        identities::lemma_line_above(m2, c2, u, w, x, y);
        lemma_squares::<P>(b, x, y, u, w);
        P::BaseField::law_times_commutative(e, m2.times(d));
        identities::lemma_move_last(m2, d, e);
        field::lemma_minus_zero(x, u);
        field::lemma_times_cancel(k, m2.times(e), d);
        identities::lemma_conic_form(a, m1.times(m2), u, w, m1, m2, x, y);
        identities::lemma_second_line(d, e, k, m1, m2);
        field::lemma_minus_zero(k, m2.times(e));
    } else {
        identities::lemma_touching_slope(a, m2, c2, u, x2, w);
        identities::lemma_conic_above(a, u, w, m1, m2);
        field::lemma_minus_zero(derivative::<P>(u), m2.times(w.plus(w)));
    }
}

/// Where both lines pass through a point, the conic has there the slope of the curve.
proof fn lemma_conic_touches<P: SWCurveConfig>(
    b: P::BaseField,
    m1: P::BaseField,
    c1: P::BaseField,
    m2: P::BaseField,
    c2: P::BaseField,
    s: P::BaseField,
    r: (P::BaseField, P::BaseField),
    z: (P::BaseField, P::BaseField),
)
    requires
        b.valid(),
        m1.valid(),
        c1.valid(),
        m2.valid(),
        c2.valid(),
        s.valid(),
        curve::valid_point(Some(r)),
        curve::valid_point(Some(z)),
        on_curve::<P>(b, Some(r)),
        on_curve::<P>(b, Some(z)),
        r.0 != z.0,
        z.1 == m1.times(z.0).plus(c1),
        r.1.negated() == m1.times(r.0).plus(c1),
        z.1 == m2.times(z.0).plus(c2),
        r.1 == m2.times(r.0).plus(c2),
        derivative::<P>(z.0) == s.times(z.1.plus(z.1)),
    ensures
        z.0.plus(z.0).plus(conic_middle(r.0, m1, m2)) == m1.plus(m2).times(s),
{
    let (u, w) = r;
    let (x, y) = z;
    let d = field::minus(x, u);
    let k = quotient::<P>(x, u);
    P::BaseField::law_closed();
    P::law_coefficient();
    field::lemma_minus_zero(x, u);
    identities::lemma_line_below(m1, c1, u, w, x, y);
    identities::lemma_line_above(m2, c2, u, w, x, y);
    lemma_squares::<P>(b, x, y, u, w);
    identities::lemma_touch_product(m1, m2, d);
    field::lemma_times_cancel(m1.times(m2).times(d), k, d);
    identities::lemma_touch_left(x, u, m1.times(m2), d);
    identities::lemma_touch_sum(P::COEFF_A, x, u);
    identities::lemma_touch_right(m1, m2, s, d);
    identities::lemma_twice(y, w);
    field::lemma_times_cancel(
        x.plus(x).plus(conic_middle(u, m1, m2)),
        m1.plus(m2).times(s),
        d,
    );
}

/// A point of the curve on a line is one of the three points where the line meets the curve, here
/// one whose abscissa is not that of the first.
proof fn lemma_other_root<P: SWCurveConfig>(
    b: P::BaseField,
    s: P::BaseField,
    c: P::BaseField,
    p: (P::BaseField, P::BaseField),
    q: (P::BaseField, P::BaseField),
    t: (P::BaseField, P::BaseField),
    z: (P::BaseField, P::BaseField),
)
    requires
        aligned::<P>(b, s, c, p, q, t),
        curve::valid_point(Some(z)),
        on_curve::<P>(b, Some(p)),
        on_curve::<P>(b, Some(z)),
        z.1 == s.times(z.0).plus(c),
        z.0 != p.0,
    ensures
        z == q || z == t,
{
    let (x1, y1) = p;
    let (x2, y2) = q;
    let (x3, y3) = t;
    let (x, y) = z;
    P::BaseField::law_closed();
    P::law_coefficient();
    let k = field::minus(P::COEFF_A, s.times(c).plus(s.times(c)));
    let n = field::minus(c.times(c), b);
    lemma_meets::<P>(b, s, c, x1, y1);
    lemma_meets::<P>(b, s, c, x, y);
    lemma_two_roots(k, n, s.times(s), x1, x);
    identities::lemma_other_roots(x1, x2, x3, x);
    field::lemma_minus_zero(x, x2);
    field::lemma_minus_zero(x, x3);
    if x != x2 && x != x3 {
        field::lemma_times_nonzero(field::minus(x, x2), field::minus(x, x3));
    }
}

/// Two conics through `p`, `q` and `z`, where `z` is not on the line of `p` and `q`, are the same.
/// Where `p` and `q` coincide, both conics touch that line.
proof fn lemma_same_conic<P: SWCurveConfig>(
    b: P::BaseField,
    s: P::BaseField,
    c: P::BaseField,
    p: (P::BaseField, P::BaseField),
    q: (P::BaseField, P::BaseField),
    z: (P::BaseField, P::BaseField),
    t: (P::BaseField, P::BaseField),
    p1: P::BaseField,
    q1: P::BaseField,
    m1: P::BaseField,
    p2: P::BaseField,
    q2: P::BaseField,
    m2: P::BaseField,
)
    requires
        p1.valid(),
        q1.valid(),
        m1.valid(),
        p2.valid(),
        q2.valid(),
        m2.valid(),
        curve::valid_point(Some(z)),
        on_curve::<P>(b, Some(p)),
        on_curve::<P>(b, Some(z)),
        aligned::<P>(b, s, c, p, q, t),
        z.0 != p.0,
        z != q,
        z != t,
        conic(p1, q1, m1, p.0, p.1) == conic(p2, q2, m2, p.0, p.1),
        conic(p1, q1, m1, q.0, q.1) == conic(p2, q2, m2, q.0, q.1),
        conic(p1, q1, m1, z.0, z.1) == conic(p2, q2, m2, z.0, z.1),
        p.0 == q.0 ==> p.0.plus(p.0).plus(p1) == m1.times(s),
        p.0 == q.0 ==> p.0.plus(p.0).plus(p2) == m2.times(s),
    ensures
        p1 == p2,
        q1 == q2,
        m1 == m2,
{
    let (x1, y1) = p;
    let (x2, y2) = q;
    let (x3, y3) = z;
    P::BaseField::law_closed();
    let al = field::minus(p1, p2);
    let be = field::minus(q1, q2);
    let ga = field::minus(m1, m2);
    identities::lemma_conics_meet(p1, q1, m1, p2, q2, m2, x1, y1);
    identities::lemma_conics_meet(p1, q1, m1, p2, q2, m2, x2, y2);
    identities::lemma_conics_meet(p1, q1, m1, p2, q2, m2, x3, y3);
    if x1 != x2 {
        identities::lemma_common_slope(s, c, al, be, ga, x1, x2);
        field::lemma_minus_zero(x1, x2);
        field::lemma_times_cancel(al, ga.times(s), field::minus(x1, x2));
    } else {
        identities::lemma_common_tangent(s, x1, p1, m1, p2, m2);
    }
    assert(al == ga.times(s));
    field::lemma_minus_zero(p1, p2);
    field::lemma_minus_zero(q1, q2);
    field::lemma_minus_zero(m1, m2);
    if ga != P::BaseField::ZERO {
        identities::lemma_joins_line(s, c, be, ga, x1, x3, y3);
        field::lemma_times_cancel(y3, s.times(x3).plus(c), ga);
        lemma_other_root::<P>(b, s, c, p, q, t, z);
    }
    field::lemma_times_zero(s);
    field::lemma_times_zero(x1);
    field::lemma_times_zero(y1);
    P::BaseField::law_plus_commutative(P::BaseField::ZERO, be);
    P::BaseField::law_plus_zero(be);
}

/// The associative law where no two of the points that occur are reflections of each other and the
/// abscissa of `z` is neither that of `p` nor that of `q`.
proof fn lemma_associative_apart<P: SWCurveConfig>(
    b: P::BaseField,
    p: (P::BaseField, P::BaseField),
    q: (P::BaseField, P::BaseField),
    z: (P::BaseField, P::BaseField),
    r: (P::BaseField, P::BaseField),
    v: (P::BaseField, P::BaseField),
)
    requires
        b.valid(),
        curve::valid_point(Some(p)),
        curve::valid_point(Some(q)),
        curve::valid_point(Some(z)),
        on_curve::<P>(b, Some(p)),
        on_curve::<P>(b, Some(q)),
        on_curve::<P>(b, Some(z)),
        curve::sum::<P>(Some(p), Some(q)) == Some(r),
        curve::sum::<P>(Some(q), Some(z)) == Some(v),
        curve::sum::<P>(Some(r), Some(z)) is Some,
        curve::sum::<P>(Some(v), Some(p)) is Some,
        Some(z) != curve::negative(Some(r)),
        Some(p) != curve::negative(Some(v)),
        p.0 != z.0,
        q.0 != z.0,
    ensures
        curve::sum::<P>(Some(r), Some(z)) == curve::sum::<P>(Some(v), Some(p)),
{
    let (xp, yp) = p;
    let (xq, yq) = q;
    let (xz, yz) = z;
    let (u, w) = r;
    let (v0, v1) = v;
    P::BaseField::law_closed();
    P::law_coefficient();
    lemma_sum_on_curve::<P>(b, Some(p), Some(q));
    lemma_sum_on_curve::<P>(b, Some(q), Some(z));
    lemma_sum_on_curve::<P>(b, Some(r), Some(z));
    lemma_sum_on_curve::<P>(b, Some(v), Some(p));
    let f = curve::negative(curve::sum::<P>(Some(r), Some(z)))->0;
    let g = curve::negative(curve::sum::<P>(Some(v), Some(p)))->0;
    lemma_negative_on_curve::<P>(b, curve::sum::<P>(Some(r), Some(z)));
    lemma_negative_on_curve::<P>(b, curve::sum::<P>(Some(v), Some(p)));
    let nr = (u, w.negated());
    let nv = (v0, v1.negated());
    let (s1, c1) = lemma_line::<P>(b, p, q, nr);
    let (s2, c2) = lemma_line::<P>(b, r, z, f);
    let (t1, d1) = lemma_line::<P>(b, q, z, nv);
    let (t2, d2) = lemma_line::<P>(b, v, p, g);
    // the conic of the first bracketing
    lemma_turned::<P>(b, s1, c1, p, q, nr);
    lemma_swapped::<P>(b, s2, c2, r, z, f);
    lemma_conic_on_first::<P>(b, s1, c1, s2, r, p, q);
    lemma_conic_on_first::<P>(b, s1, c1, s2, r, q, p);
    lemma_conic_on_second::<P>(b, s1, s2, c2, r, z, f);
    lemma_conic_on_second::<P>(b, s1, s2, c2, r, f, z);
    // the conic of the second bracketing
    lemma_turned::<P>(b, t1, d1, q, z, nv);
    lemma_swapped::<P>(b, t2, d2, v, p, g);
    lemma_conic_on_first::<P>(b, t1, d1, t2, v, q, z);
    lemma_conic_on_first::<P>(b, t1, d1, t2, v, z, q);
    lemma_conic_on_second::<P>(b, t1, t2, d2, v, p, g);
    lemma_conic_on_second::<P>(b, t1, t2, d2, v, g, p);
    if xp == xq {
        identities::lemma_conic_tangent(u, s1, s2, xp);
        identities::lemma_touching_slope(P::COEFF_A, s1, c1, xp, u, yp);
        if v0 == xp {
            lemma_same_abscissa::<P>(b, v, p);
        }
        lemma_conic_touches::<P>(b, t1, d1, t2, d2, s1, v, p);
    }
    let pp = conic_middle(u, s1, s2);
    let qq = conic_constant::<P>(u, w, s1, s2);
    let mm = s1.plus(s2);
    lemma_same_conic::<P>(
        b,
        s1,
        c1,
        p,
        q,
        z,
        nr,
        pp,
        qq,
        mm,
        conic_middle(v0, t1, t2),
        conic_constant::<P>(v0, v1, t1, t2),
        t1.plus(t2),
    );
    // the fourth point of the conic
    let (xf, yf) = f;
    let (xg, yg) = g;
    identities::lemma_conic_sum(u, s1, s2, xp, xq, xz, xf);
    identities::lemma_conic_sum(v0, t1, t2, xq, xz, xp, xg);
    identities::lemma_fourth_point(pp, mm.times(mm), xp, xq, xz, xf, xg);
    if mm == P::BaseField::ZERO {
        identities::lemma_flat_conic(pp, qq, mm, xp, yp, xz, yz);
        field::lemma_times_zero(field::minus(yp, yz));
        field::lemma_minus_zero(xp, xz);
        if xp.plus(xz).plus(pp) != P::BaseField::ZERO {
            field::lemma_times_nonzero(xp.plus(xz).plus(pp), field::minus(xp, xz));
        }
        identities::lemma_flat_points(u, s1, s2, xp, xq, xz);
    }
    identities::lemma_fourth_ordinate(pp, qq, mm, xf, yf, yg);
    field::lemma_times_cancel(yf, yg, mm);
    assert(f == g);
    group::lemma_negative_twice(curve::sum::<P>(Some(r), Some(z)));
    group::lemma_negative_twice(curve::sum::<P>(Some(v), Some(p)));
}

/// The associative law where `z` is neither `p` nor `q` nor a reflection of one, and `q` is not the
/// reflection of `p`.
proof fn lemma_associative_distinct<P: SWCurveConfig>(
    b: P::BaseField,
    p: (P::BaseField, P::BaseField),
    q: (P::BaseField, P::BaseField),
    z: (P::BaseField, P::BaseField),
)
    requires
        b.valid(),
        nonsingular::<P>(b),
        curve::valid_point(Some(p)),
        curve::valid_point(Some(q)),
        curve::valid_point(Some(z)),
        on_curve::<P>(b, Some(p)),
        on_curve::<P>(b, Some(q)),
        on_curve::<P>(b, Some(z)),
        z != p,
        z != q,
        Some(z) != curve::negative(Some(p)),
        Some(z) != curve::negative(Some(q)),
        Some(q) != curve::negative(Some(p)),
    ensures
        curve::sum::<P>(curve::sum::<P>(Some(p), Some(q)), Some(z)) == curve::sum::<P>(
            Some(p),
            curve::sum::<P>(Some(q), Some(z)),
        ),
{
    P::BaseField::law_closed();
    let r1 = curve::sum::<P>(Some(p), Some(q));
    let v1 = curve::sum::<P>(Some(q), Some(z));
    lemma_sum_on_curve::<P>(b, Some(p), Some(q));
    lemma_sum_on_curve::<P>(b, Some(q), Some(z));
    group::lemma_negative_twice(Some(p));
    group::lemma_negative_twice(Some(z));
    group::law_sum_negative::<P>(Some(p));
    group::law_sum_negative::<P>(Some(z));
    match (r1, v1) {
        (Some(r), Some(v)) => {
            if Some(r) == curve::negative(Some(z)) {
                // p, q and z lie on a line
                let (s, c) = lemma_line::<P>(b, p, q, z);
                lemma_turned::<P>(b, s, c, p, q, z);
                lemma_swapped::<P>(b, s, c, q, p, z);
                lemma_aligned_sum::<P>(b, s, c, q, z, p);
                group::law_sum_commutative::<P>(r1, Some(z));
            } else if Some(v) == curve::negative(Some(p)) {
                let (s, c) = lemma_line::<P>(b, q, z, p);
                lemma_swapped::<P>(b, s, c, q, z, p);
                lemma_turned::<P>(b, s, c, q, p, z);
                lemma_aligned_sum::<P>(b, s, c, p, q, z);
            } else {
                group::lemma_negative_twice(r1);
                group::lemma_negative_twice(v1);
                if p.0 == z.0 {
                    lemma_same_abscissa::<P>(b, p, z);
                }
                if q.0 == z.0 {
                    lemma_same_abscissa::<P>(b, q, z);
                }
                if curve::sum::<P>(r1, Some(z)) is None {
                    lemma_no_sum::<P>(b, r, z);
                }
                if curve::sum::<P>(v1, Some(p)) is None {
                    lemma_no_sum::<P>(b, v, p);
                }
                lemma_associative_apart::<P>(b, p, q, z, r, v);
                group::law_sum_commutative::<P>(v1, Some(p));
            }
        },
        (None, _) => {
            lemma_no_sum::<P>(b, p, q);
        },
        (_, None) => {
            lemma_no_sum::<P>(b, q, z);
        },
    }
}

/// The chord-and-tangent rule is associative on the points of a nonsingular curve.
pub proof fn law_sum_associative<P: SWCurveConfig>(
    b: P::BaseField,
    p: Point<P::BaseField>,
    q: Point<P::BaseField>,
    z: Point<P::BaseField>,
)
    requires
        b.valid(),
        nonsingular::<P>(b),
        curve_points::<P>(b).contains(p),
        curve_points::<P>(b).contains(q),
        curve_points::<P>(b).contains(z),
    ensures
        curve::sum::<P>(curve::sum::<P>(p, q), z) == curve::sum::<P>(
            p,
            curve::sum::<P>(q, z),
        ),
{
    P::BaseField::law_closed();
    let r = curve::sum::<P>(p, q);
    let v = curve::sum::<P>(q, z);
    if p is Some && q is Some && z is Some {
        lemma_sum_on_curve::<P>(b, p, q);
        lemma_sum_on_curve::<P>(b, q, z);
        lemma_negative_on_curve::<P>(b, p);
        group::lemma_negative_twice(p);
        group::lemma_negative_twice(q);
        group::lemma_negative_twice(z);
        group::law_sum_commutative::<P>(p, q);
        group::law_sum_commutative::<P>(q, z);
        group::law_sum_commutative::<P>(p, v);
        if z == p {
        } else if q == curve::negative(p) {
            lemma_sum_undone::<P>(b, z, q);
            group::law_sum_negative::<P>(p);
        } else if z == curve::negative(q) {
            lemma_sum_undone::<P>(b, p, q);
            group::law_sum_negative::<P>(q);
        } else if z == curve::negative(p) {
            lemma_sum_undone::<P>(b, q, p);
            lemma_sum_undone::<P>(b, q, z);
        } else if q == z {
            lemma_associative_distinct::<P>(b, z->0, q->0, p->0);
            group::law_sum_commutative::<P>(r, z);
        } else {
            lemma_associative_distinct::<P>(b, p->0, q->0, z->0);
        }
    }
}

/// The points of a nonsingular curve form a group.
pub proof fn law_curve_group<P: SWCurveConfig>(b: P::BaseField)
    requires
        b.valid(),
        nonsingular::<P>(b),
    ensures
        group::is_group::<P>(curve_points::<P>(b)),
{
    let s = curve_points::<P>(b);
    reveal(group::is_group);
    assert forall|p: Point<P::BaseField>| #[trigger] s.contains(p) implies s.contains(
        curve::negative(p),
    ) by {
        lemma_negative_on_curve::<P>(b, p);
    }
    assert forall|p: Point<P::BaseField>, q: Point<P::BaseField>|
        s.contains(p) && s.contains(q) implies s.contains(#[trigger] curve::sum::<P>(p, q)) by {
        lemma_sum_on_curve::<P>(b, p, q);
    }
    assert forall|p: Point<P::BaseField>, q: Point<P::BaseField>, z: Point<P::BaseField>|
        s.contains(p) && s.contains(q) && s.contains(z) implies #[trigger] curve::sum::<P>(
        curve::sum::<P>(p, q),
        z,
    ) == curve::sum::<P>(p, curve::sum::<P>(q, z)) by {
        law_sum_associative::<P>(b, p, q, z);
    }
}

/// The curve of `b` holds the identity and the points of the field with `y^2 = x^3 + a x + b`, and
/// no others.
pub proof fn law_curve_points<P: SWCurveConfig>(b: P::BaseField, x: P::BaseField, y: P::BaseField)
    ensures
        on_curve::<P>(b, None),
        on_curve::<P>(b, Some((x, y))) <==> y.times(y) == x.times(x).times(x).plus(
            P::COEFF_A.times(x),
        ).plus(b),
        curve_points::<P>(b).contains(None),
        curve_points::<P>(b).contains(Some((x, y))) <==> {
            &&& x.valid() && y.valid()
            &&& y.times(y) == x.times(x).times(x).plus(P::COEFF_A.times(x)).plus(b)
        },
{
}

/// A curve is nonsingular when `x^3 + a x + b` and `3 x^2 + a` are zero at no common element, for
/// which it is enough that `4 a^3 + 3 (3 b)^2` is not zero.
pub proof fn law_nonsingular<P: SWCurveConfig>(b: P::BaseField)
    requires
        b.valid(),
    ensures
        nonsingular::<P>(b) <==> forall|x: P::BaseField|
            #![trigger x.valid()]
            x.valid() && x.times(x).times(x).plus(P::COEFF_A.times(x)).plus(b)
                == P::BaseField::ZERO ==> x.times(x).plus(x.times(x)).plus(x.times(x)).plus(
                P::COEFF_A,
            ) != P::BaseField::ZERO,
        ({
            let a = P::COEFF_A;
            let c = a.times(a).times(a);
            let d = b.plus(b).plus(b).times(b.plus(b).plus(b));
            c.plus(c).plus(c).plus(c).plus(d.plus(d).plus(d)) != P::BaseField::ZERO
        }) ==> nonsingular::<P>(b),
{
    if discriminant::<P>(b) != P::BaseField::ZERO {
        law_discriminant::<P>(b);
    }
    if (forall|x: P::BaseField|
        #![trigger x.valid()]
        x.valid() && x.times(x).times(x).plus(P::COEFF_A.times(x)).plus(b) == P::BaseField::ZERO
            ==> x.times(x).plus(x.times(x)).plus(x.times(x)).plus(P::COEFF_A)
            != P::BaseField::ZERO) {
        assert(nonsingular::<P>(b));
    }
    if nonsingular::<P>(b) {
        assert forall|x: P::BaseField|
            #![trigger x.valid()]
            x.valid() && x.times(x).times(x).plus(P::COEFF_A.times(x)).plus(b)
                == P::BaseField::ZERO implies x.times(x).plus(x.times(x)).plus(x.times(x)).plus(
            P::COEFF_A,
        ) != P::BaseField::ZERO by {
            assert(cubic::<P>(b, x) == P::BaseField::ZERO);
        }
    }
}

} // verus!
