//! Sums and multiples of points, where the addition of points is that of an abelian group.
//!
//! The chord-and-tangent rule makes the points of a nonsingular curve an abelian group
//! ([`law_curve_group`](crate::associativity::law_curve_group)). The laws here hold on every set of
//! points that is closed under the rule and on which it is associative.
use crate::curve;
use crate::curve::{Point, SWCurveConfig};
use crate::field;
use crate::field::Field;
use vstd::prelude::*;

verus! {

/// A set of valid points that holds the identity, is closed under addition and negation, and on which
/// addition is associative. That addition is commutative and that negation inverts holds of all
/// points ([`law_sum_commutative`], [`law_sum_negative`]).
#[verifier::opaque]
pub open spec fn is_group<P: SWCurveConfig>(s: Set<Point<P::BaseField>>) -> bool {
    &&& s.contains(None)
    &&& forall|p: Point<P::BaseField>| #[trigger] s.contains(p) ==> curve::valid_point(p)
    &&& forall|p: Point<P::BaseField>|
        s.contains(p) ==> #[trigger] s.contains(curve::negative(p))
    &&& forall|p: Point<P::BaseField>, q: Point<P::BaseField>|
        s.contains(p) && s.contains(q) ==> s.contains(#[trigger] curve::sum::<P>(p, q))
    &&& forall|p: Point<P::BaseField>, q: Point<P::BaseField>, r: Point<P::BaseField>|
        s.contains(p) && s.contains(q) && s.contains(r) ==> #[trigger] curve::sum::<P>(
            curve::sum::<P>(p, q),
            r,
        ) == curve::sum::<P>(p, curve::sum::<P>(q, r))
}

/// The sum of a sequence of points, from the left.
pub open spec fn total<P: SWCurveConfig>(t: Seq<Point<P::BaseField>>) -> Point<P::BaseField>
    decreases t.len(),
{
    if t.len() == 0 {
        None
    } else {
        curve::sum::<P>(total::<P>(t.drop_last()), t.last())
    }
}

/// The point added to the identity `n` times.
pub open spec fn multiple<P: SWCurveConfig>(n: nat, p: Point<P::BaseField>) -> Point<P::BaseField>
    decreases n,
{
    if n == 0 {
        None
    } else {
        curve::sum::<P>(multiple::<P>((n - 1) as nat, p), p)
    }
}

/// The multiple of a point by an integer.
pub open spec fn scaled<P: SWCurveConfig>(k: int, p: Point<P::BaseField>) -> Point<P::BaseField> {
    if k >= 0 {
        multiple::<P>(k as nat, p)
    } else {
        multiple::<P>((-k) as nat, curve::negative(p))
    }
}

/// Every member of the sequence is in the set.
pub open spec fn all_in<F: Field>(t: Seq<Point<F>>, s: Set<Point<F>>) -> bool {
    forall|i: int| 0 <= i < t.len() ==> s.contains(#[trigger] t[i])
}

/// The group is closed.
pub proof fn lemma_closed<P: SWCurveConfig>(
    s: Set<Point<P::BaseField>>,
    p: Point<P::BaseField>,
    q: Point<P::BaseField>,
)
    requires
        is_group::<P>(s),
        s.contains(p),
        s.contains(q),
    ensures
        s.contains(None),
        s.contains(curve::negative(p)),
        s.contains(curve::sum::<P>(p, q)),
        curve::valid_point(p),
        curve::valid_point(q),
{
    reveal(is_group);
}

/// Addition in the group is associative.
pub proof fn lemma_associative<P: SWCurveConfig>(
    s: Set<Point<P::BaseField>>,
    p: Point<P::BaseField>,
    q: Point<P::BaseField>,
    r: Point<P::BaseField>,
)
    requires
        is_group::<P>(s),
        s.contains(p),
        s.contains(q),
        s.contains(r),
    ensures
        curve::sum::<P>(curve::sum::<P>(p, q), r) == curve::sum::<P>(p, curve::sum::<P>(q, r)),
{
    reveal(is_group);
}

/// The chord-and-tangent rule does not depend on the order of the points.
pub proof fn law_sum_commutative<P: SWCurveConfig>(
    p: Point<P::BaseField>,
    q: Point<P::BaseField>,
)
    requires
        curve::valid_point(p),
        curve::valid_point(q),
    ensures
        curve::sum::<P>(p, q) == curve::sum::<P>(q, p),
{
    P::BaseField::law_closed();
    if let (Some((x1, y1)), Some((x2, y2))) = (p, q) {
        if x1 != x2 {
            let (d, n) = (field::minus(x2, x1), field::minus(y2, y1));
            let slope = n.times(d.inverted());
            let l = slope.times(slope);
            // the slope is the same either way
            field::lemma_minus_negated(x2, x1);
            field::lemma_minus_negated(y2, y1);
            field::lemma_minus_zero(x2, x1);
            field::lemma_quotient_negated(n, d);
            // so is the abscissa
            field::lemma_minus_minus(l, x1, x2);
            field::lemma_minus_minus(l, x2, x1);
            P::BaseField::law_plus_commutative(x1, x2);
            // and both points lie on the line
            let x3 = field::minus(field::minus(l, x1), x2);
            P::BaseField::law_inverted(d);
            P::BaseField::law_times_commutative(d, d.inverted());
            P::BaseField::law_times_associative(n, d.inverted(), d);
            P::BaseField::law_times_one(n);
            assert(slope.times(d) == n);
            lemma_on_line(slope, x1, y1, x2, y2, x3);
        }
    }
}

/// Two points of a line give the same ordinate at `x3`.
proof fn lemma_on_line<F: Field>(slope: F, x1: F, y1: F, x2: F, y2: F, x3: F)
    requires
        slope.valid(),
        x1.valid(),
        y1.valid(),
        x2.valid(),
        y2.valid(),
        x3.valid(),
        slope.times(field::minus(x2, x1)) == field::minus(y2, y1),
    ensures
        curve::on_line(slope, x1, y1, x3) == curve::on_line(slope, x2, y2, x3),
{
    F::law_closed();
    let (e1, e2) = (field::minus(x1, x3), field::minus(x2, x3));
    let d = field::minus(x2, x1);
    // e2 = d + e1
    field::lemma_minus_plus(x2, x1);
    field::lemma_minus_plus(x1, x3);
    field::lemma_minus_plus(x2, x3);
    F::law_plus_associative(d, e1, x3);
    field::lemma_plus_cancel(d.plus(e1), e2, x3);
    // slope e2 = (y2 - y1) + slope e1
    F::law_times_commutative(slope, e2);
    F::law_times_commutative(slope, d);
    F::law_times_commutative(slope, e1);
    F::law_distributive(d, e1, slope);
    let (s1, s2) = (slope.times(e1), slope.times(e2));
    let n = field::minus(y2, y1);
    assert(s2 == n.plus(s1));
    // s2 - y2 = s1 - y1
    let (r1, r2) = (field::minus(s1, y1), field::minus(s2, y2));
    field::lemma_minus_plus(s1, y1);
    field::lemma_minus_plus(s2, y2);
    field::lemma_minus_plus(y2, y1);
    F::law_plus_commutative(n, s1);
    F::law_plus_associative(r1, y1, n);
    F::law_plus_commutative(y1, n);
    field::lemma_plus_cancel(r1, r2, y2);
}

/// A point and its reflection add up to the identity.
pub proof fn law_sum_negative<P: SWCurveConfig>(p: Point<P::BaseField>)
    requires
        curve::valid_point(p),
    ensures
        curve::sum::<P>(p, curve::negative(p)) is None,
        curve::sum::<P>(curve::negative(p), p) is None,
{
    P::BaseField::law_closed();
    if let Some((x, y)) = p {
        if y == y.negated() {
            P::BaseField::law_plus_negated(y);
            if y != P::BaseField::ZERO {
                curve::lemma_twice_nonzero::<P>(y);
            }
        }
    }
}

/// Reflecting twice changes nothing.
pub proof fn lemma_negative_twice<F: Field>(p: Point<F>)
    requires
        curve::valid_point(p),
    ensures
        curve::negative(curve::negative(p)) == p,
{
    F::law_closed();
    if let Some((x, y)) = p {
        field::lemma_negated_twice(y);
    }
}

/// The middle terms of a sum of sums can be exchanged.
pub proof fn lemma_exchange<P: SWCurveConfig>(
    s: Set<Point<P::BaseField>>,
    a: Point<P::BaseField>,
    b: Point<P::BaseField>,
    c: Point<P::BaseField>,
    d: Point<P::BaseField>,
)
    requires
        is_group::<P>(s),
        s.contains(a),
        s.contains(b),
        s.contains(c),
        s.contains(d),
    ensures
        curve::sum::<P>(curve::sum::<P>(a, b), curve::sum::<P>(c, d)) == curve::sum::<P>(
            curve::sum::<P>(a, c),
            curve::sum::<P>(b, d),
        ),
{
    lemma_closed::<P>(s, c, d);
    lemma_closed::<P>(s, b, d);
    lemma_associative::<P>(s, a, b, curve::sum::<P>(c, d));
    lemma_associative::<P>(s, b, c, d);
    lemma_closed::<P>(s, b, c);
    law_sum_commutative::<P>(b, c);
    lemma_associative::<P>(s, c, b, d);
    lemma_associative::<P>(s, a, c, curve::sum::<P>(b, d));
}

/// Multiples stay in the group.
pub proof fn lemma_multiple_in<P: SWCurveConfig>(
    s: Set<Point<P::BaseField>>,
    n: nat,
    p: Point<P::BaseField>,
)
    requires
        is_group::<P>(s),
        s.contains(p),
    ensures
        s.contains(multiple::<P>(n, p)),
    decreases n,
{
    lemma_closed::<P>(s, p, p);
    if n > 0 {
        lemma_multiple_in::<P>(s, (n - 1) as nat, p);
        lemma_closed::<P>(s, multiple::<P>((n - 1) as nat, p), p);
    }
}

/// The sum of multiples of a point is the multiple by the sum.
pub proof fn lemma_multiple_adds<P: SWCurveConfig>(
    s: Set<Point<P::BaseField>>,
    m: nat,
    n: nat,
    p: Point<P::BaseField>,
)
    requires
        is_group::<P>(s),
        s.contains(p),
    ensures
        curve::sum::<P>(multiple::<P>(m, p), multiple::<P>(n, p)) == multiple::<P>(m + n, p),
    decreases n,
{
    lemma_multiple_in::<P>(s, m, p);
    if n > 0 {
        let h = (n - 1) as nat;
        lemma_multiple_in::<P>(s, h, p);
        lemma_multiple_adds::<P>(s, m, h, p);
        lemma_associative::<P>(s, multiple::<P>(m, p), multiple::<P>(h, p), p);
        assert((m + n - 1) as nat == m + h);
    }
}

/// The multiple of a sum is the sum of the multiples.
pub proof fn lemma_multiple_of_sum<P: SWCurveConfig>(
    s: Set<Point<P::BaseField>>,
    n: nat,
    p: Point<P::BaseField>,
    q: Point<P::BaseField>,
)
    requires
        is_group::<P>(s),
        s.contains(p),
        s.contains(q),
    ensures
        multiple::<P>(n, curve::sum::<P>(p, q)) == curve::sum::<P>(
            multiple::<P>(n, p),
            multiple::<P>(n, q),
        ),
    decreases n,
{
    if n > 0 {
        let h = (n - 1) as nat;
        lemma_multiple_of_sum::<P>(s, h, p, q);
        lemma_multiple_in::<P>(s, h, p);
        lemma_multiple_in::<P>(s, h, q);
        lemma_exchange::<P>(s, multiple::<P>(h, p), multiple::<P>(h, q), p, q);
    }
}

/// The multiple of a multiple is the multiple by the product.
pub proof fn lemma_multiple_multiple<P: SWCurveConfig>(
    s: Set<Point<P::BaseField>>,
    m: nat,
    n: nat,
    p: Point<P::BaseField>,
)
    requires
        is_group::<P>(s),
        s.contains(p),
    ensures
        multiple::<P>(m, multiple::<P>(n, p)) == multiple::<P>(m * n, p),
    decreases m,
{
    if m == 0 {
        assert(0 * n == 0) by (nonlinear_arith);
    } else {
        let h = (m - 1) as nat;
        lemma_multiple_multiple::<P>(s, h, n, p);
        lemma_multiple_adds::<P>(s, h * n, n, p);
        assert(m * n == h * n + n) by (nonlinear_arith)
            requires
                m == h + 1,
        ;
    }
}

/// Multiples of the identity are the identity.
pub proof fn lemma_multiple_of_identity<P: SWCurveConfig>(n: nat)
    ensures
        multiple::<P>(n, None) is None,
    decreases n,
{
    if n > 0 {
        lemma_multiple_of_identity::<P>((n - 1) as nat);
    }
}

/// Adding multiples of the reflection takes multiples away.
proof fn lemma_multiple_taken<P: SWCurveConfig>(
    s: Set<Point<P::BaseField>>,
    m: nat,
    n: nat,
    p: Point<P::BaseField>,
)
    requires
        is_group::<P>(s),
        s.contains(p),
        n <= m,
    ensures
        curve::sum::<P>(multiple::<P>(m, p), multiple::<P>(n, curve::negative(p))) == multiple::<P>(
            (m - n) as nat,
            p,
        ),
{
    let q = curve::negative(p);
    let r = (m - n) as nat;
    lemma_closed::<P>(s, p, p);
    lemma_multiple_adds::<P>(s, r, n, p);
    lemma_multiple_of_sum::<P>(s, n, p, q);
    law_sum_negative::<P>(p);
    lemma_multiple_of_identity::<P>(n);
    lemma_multiple_in::<P>(s, r, p);
    lemma_multiple_in::<P>(s, n, p);
    lemma_multiple_in::<P>(s, n, q);
    lemma_associative::<P>(
        s,
        multiple::<P>(r, p),
        multiple::<P>(n, p),
        multiple::<P>(n, q),
    );
}

/// Integer multiples stay in the group.
pub proof fn lemma_scaled_in<P: SWCurveConfig>(
    s: Set<Point<P::BaseField>>,
    k: int,
    p: Point<P::BaseField>,
)
    requires
        is_group::<P>(s),
        s.contains(p),
    ensures
        s.contains(scaled::<P>(k, p)),
{
    lemma_closed::<P>(s, p, p);
    if k >= 0 {
        lemma_multiple_in::<P>(s, k as nat, p);
    } else {
        lemma_multiple_in::<P>(s, (-k) as nat, curve::negative(p));
    }
}

/// The sum of integer multiples of a point is the multiple by the sum.
pub proof fn lemma_scaled_adds<P: SWCurveConfig>(
    s: Set<Point<P::BaseField>>,
    j: int,
    k: int,
    p: Point<P::BaseField>,
)
    requires
        is_group::<P>(s),
        s.contains(p),
    ensures
        curve::sum::<P>(scaled::<P>(j, p), scaled::<P>(k, p)) == scaled::<P>(j + k, p),
{
    let q = curve::negative(p);
    lemma_closed::<P>(s, p, p);
    lemma_negative_twice(p);
    lemma_scaled_in::<P>(s, j, p);
    lemma_scaled_in::<P>(s, k, p);
    lemma_closed::<P>(s, scaled::<P>(j, p), scaled::<P>(k, p));
    law_sum_commutative::<P>(scaled::<P>(j, p), scaled::<P>(k, p));
    if j >= 0 && k >= 0 {
        lemma_multiple_adds::<P>(s, j as nat, k as nat, p);
    } else if j < 0 && k < 0 {
        lemma_multiple_adds::<P>(s, (-j) as nat, (-k) as nat, q);
        assert((-j) as nat + (-k) as nat == (-(j + k)) as nat);
    } else {
        let (m, n): (nat, nat) = if j >= 0 {
            (j as nat, (-k) as nat)
        } else {
            (k as nat, (-j) as nat)
        };
        if m >= n {
            lemma_multiple_taken::<P>(s, m, n, p);
        } else {
            lemma_multiple_taken::<P>(s, n, m, q);
        }
    }
}

/// The multiple of an integer multiple is the multiple by the product.
pub proof fn lemma_multiple_scaled<P: SWCurveConfig>(
    s: Set<Point<P::BaseField>>,
    m: nat,
    k: int,
    p: Point<P::BaseField>,
)
    requires
        is_group::<P>(s),
        s.contains(p),
    ensures
        multiple::<P>(m, scaled::<P>(k, p)) == scaled::<P>(m * k, p),
{
    if k >= 0 {
        lemma_multiple_multiple::<P>(s, m, k as nat, p);
        assert(m * k >= 0) by (nonlinear_arith)
            requires
                m >= 0,
                k >= 0,
        ;
    } else {
        let n = (-k) as nat;
        lemma_closed::<P>(s, p, p);
        lemma_multiple_multiple::<P>(s, m, n, curve::negative(p));
        assert(m * k == -(m * n)) by (nonlinear_arith)
            requires
                n == -k,
        ;
        assert(m * n >= 0) by (nonlinear_arith)
            requires
                m >= 0,
                n >= 0,
        ;
        if m * k == 0 {
            assert(multiple::<P>(0, p) is None && multiple::<P>(0, curve::negative(p)) is None);
        }
    }
}

/// Sums stay in the group.
pub proof fn lemma_total_in<P: SWCurveConfig>(
    s: Set<Point<P::BaseField>>,
    t: Seq<Point<P::BaseField>>,
)
    requires
        is_group::<P>(s),
        all_in(t, s),
    ensures
        s.contains(total::<P>(t)),
    decreases t.len(),
{
    if t.len() > 0 {
        assert forall|i: int| 0 <= i < t.drop_last().len() implies s.contains(
            #[trigger] t.drop_last()[i],
        ) by {
            assert(s.contains(t[i]));
        }
        assert(s.contains(t[t.len() - 1]));
        lemma_total_in::<P>(s, t.drop_last());
        lemma_closed::<P>(s, total::<P>(t.drop_last()), t.last());
    } else {
        reveal(is_group);
    }
}

/// Multiples count additions: none gives the identity, one more adds the point once more, and a
/// negative multiple is that of the reflected point.
pub proof fn law_scaled<P: SWCurveConfig>(k: int, p: Point<P::BaseField>)
    ensures
        scaled::<P>(0, p) is None,
        k >= 0 ==> scaled::<P>(k + 1, p) == curve::sum::<P>(scaled::<P>(k, p), p),
        k >= 0 ==> scaled::<P>(-k, p) == scaled::<P>(k, curve::negative(p)),
        k >= 0 ==> multiple::<P>(k as nat, p) == scaled::<P>(k, p),
{
    if k == 0 {
        assert(multiple::<P>(0, curve::negative(p)) is None);
    }
}

/// A set is a group when it holds the identity and only valid points, holds reflections and sums,
/// and sums in it are associative.
pub proof fn law_group<P: SWCurveConfig>(s: Set<Point<P::BaseField>>)
    ensures
        is_group::<P>(s) <==> {
            &&& s.contains(None)
            &&& forall|p: Point<P::BaseField>| #[trigger] s.contains(p) ==> curve::valid_point(p)
            &&& forall|p: Point<P::BaseField>|
                s.contains(p) ==> #[trigger] s.contains(curve::negative(p))
            &&& forall|p: Point<P::BaseField>, q: Point<P::BaseField>|
                s.contains(p) && s.contains(q) ==> s.contains(#[trigger] curve::sum::<P>(p, q))
            &&& forall|p: Point<P::BaseField>, q: Point<P::BaseField>, r: Point<P::BaseField>|
                s.contains(p) && s.contains(q) && s.contains(r) ==> #[trigger] curve::sum::<P>(
                    curve::sum::<P>(p, q),
                    r,
                ) == curve::sum::<P>(p, curve::sum::<P>(q, r))
        },
{
    reveal(is_group);
}

/// A sequence is in a set when each of its members is.
pub proof fn law_all_in<F: Field>(t: Seq<Point<F>>, s: Set<Point<F>>)
    ensures
        all_in(t, s) <==> forall|i: int| 0 <= i < t.len() ==> s.contains(#[trigger] t[i]),
{
}

} // verus!
