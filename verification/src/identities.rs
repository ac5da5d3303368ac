//! Polynomial identities that the addition of points rests on.
use crate::field;
use crate::field::Field;
use crate::ring;
use crate::ring::Equation;
use vstd::prelude::*;

verus! {

/// Where a line meets the curve twice, it has the slope of the tangent.
pub proof fn lemma_touching_slope<F: Field>(a: F, s: F, c: F, x: F, t: F, y: F)
    requires
        a.valid(),
        s.valid(),
        c.valid(),
        x.valid(),
        t.valid(),
        y.valid(),
        s.times(s) == x.plus(x).plus(t),
        field::minus(a, s.times(c).plus(s.times(c))) == x.times(x).plus(x.times(t)).plus(x.times(t)),
        y == s.times(x).plus(c),
    ensures
        x.times(x).plus(x.times(x)).plus(x.times(x)).plus(a) == s.times(y.plus(y)),
{
    broadcast use ring::group_evaluation;

    let v = seq![a, s, c, x, t, y];
    let (e_a, e_s, e_c, e_x, e_t, e_y) = (
        ring::var(0),
        ring::var(1),
        ring::var(2),
        ring::var(3),
        ring::var(4),
        ring::var(5),
    );
    let l = ring::plus(
        ring::plus(
            ring::plus(ring::times(e_x, e_x), ring::times(e_x, e_x)),
            ring::times(e_x, e_x),
        ),
        e_a,
    );
    let r = ring::times(e_s, ring::plus(e_y, e_y));
    let h = seq![
        Equation {
            left: ring::times(e_s, e_s),
            right: ring::plus(ring::plus(e_x, e_x), e_t),
            factor: ring::times(ring::times(ring::constant(-1), ring::constant(2)), e_x),
        },
        Equation {
            left: ring::minus(e_a, ring::plus(ring::times(e_s, e_c), ring::times(e_s, e_c))),
            right: ring::plus(
                ring::plus(ring::times(e_x, e_x), ring::times(e_x, e_t)),
                ring::times(e_x, e_t),
            ),
            factor: ring::constant(1),
        },
        Equation {
            left: e_y,
            right: ring::plus(ring::times(e_s, e_x), e_c),
            factor: ring::times(ring::times(ring::constant(-1), ring::constant(2)), e_s),
        },
    ];
    reveal_with_fuel(ring::slack, 4);
    assert forall|z: Seq<int>| z.len() == v.len() implies #[trigger] ring::number(l, z)
        == ring::number(r, z) + ring::number(ring::slack(h, h.len()), z) by {
        let (a, s, c, x, t, y) = (z[0], z[1], z[2], z[3], z[4], z[5]);
        assert(((((x * x) + (x * x)) + (x * x)) + a)
            == (s * (y + y))
            + (((-1) * (2)) * x) * ((s * s) - ((x + x) + t))
            + (1) * ((a - ((s * c) + (s * c))) - (((x * x) + (x * t)) + (x * t)))
            + (((-1) * (2)) * s) * (y - ((s * x) + c))) by (nonlinear_arith);
    }
    ring::law_consequence(l, r, h, v);
}

/// The rise between two points of a line.
pub proof fn lemma_rise<F: Field>(s: F, c: F, x1: F, y1: F, x2: F, y2: F)
    requires
        s.valid(),
        c.valid(),
        x1.valid(),
        y1.valid(),
        x2.valid(),
        y2.valid(),
        y1 == s.times(x1).plus(c),
        y2 == s.times(x2).plus(c),
    ensures
        field::minus(y2, y1) == s.times(field::minus(x2, x1)),
{
    broadcast use ring::group_evaluation;

    let v = seq![s, c, x1, y1, x2, y2];
    let (e_s, e_c, e_x1, e_y1, e_x2, e_y2) = (
        ring::var(0),
        ring::var(1),
        ring::var(2),
        ring::var(3),
        ring::var(4),
        ring::var(5),
    );
    let l = ring::minus(e_y2, e_y1);
    let r = ring::times(e_s, ring::minus(e_x2, e_x1));
    let h = seq![
        Equation {
            left: e_y1,
            right: ring::plus(ring::times(e_s, e_x1), e_c),
            factor: ring::constant(-1),
        },
        Equation {
            left: e_y2,
            right: ring::plus(ring::times(e_s, e_x2), e_c),
            factor: ring::constant(1),
        },
    ];
    reveal_with_fuel(ring::slack, 3);
    assert forall|z: Seq<int>| z.len() == v.len() implies #[trigger] ring::number(l, z)
        == ring::number(r, z) + ring::number(ring::slack(h, h.len()), z) by {
        let (s, c, x1, y1, x2, y2) = (z[0], z[1], z[2], z[3], z[4], z[5]);
        assert((y2 - y1)
            == (s * (x2 - x1))
            + (-1) * (y1 - ((s * x1) + c))
            + (1) * (y2 - ((s * x2) + c))) by (nonlinear_arith);
    }
    ring::law_consequence(l, r, h, v);
}

/// The abscissa of the third point of a chord.
pub proof fn lemma_chord_third<F: Field>(s: F, x1: F, x2: F, t: F)
    requires
        s.valid(),
        x1.valid(),
        x2.valid(),
        t.valid(),
        s.times(s) == x1.plus(x2).plus(t),
    ensures
        field::minus(field::minus(s.times(s), x1), x2) == t,
{
    broadcast use ring::group_evaluation;

    let v = seq![s, x1, x2, t];
    let (e_s, e_x1, e_x2, e_t) = (
        ring::var(0),
        ring::var(1),
        ring::var(2),
        ring::var(3),
    );
    let l = ring::minus(ring::minus(ring::times(e_s, e_s), e_x1), e_x2);
    let r = e_t;
    let h = seq![
        Equation {
            left: ring::times(e_s, e_s),
            right: ring::plus(ring::plus(e_x1, e_x2), e_t),
            factor: ring::constant(1),
        },
    ];
    reveal_with_fuel(ring::slack, 2);
    assert forall|z: Seq<int>| z.len() == v.len() implies #[trigger] ring::number(l, z)
        == ring::number(r, z) + ring::number(ring::slack(h, h.len()), z) by {
        let (s, x1, x2, t) = (z[0], z[1], z[2], z[3]);
        assert((((s * s) - x1) - x2)
            == t
            + (1) * ((s * s) - ((x1 + x2) + t))) by (nonlinear_arith);
    }
    ring::law_consequence(l, r, h, v);
}

/// The abscissa of the third point of a tangent.
pub proof fn lemma_tangent_third<F: Field>(s: F, x: F, t: F)
    requires
        s.valid(),
        x.valid(),
        t.valid(),
        s.times(s) == x.plus(x).plus(t),
    ensures
        field::minus(s.times(s), x.plus(x)) == t,
{
    broadcast use ring::group_evaluation;

    let v = seq![s, x, t];
    let (e_s, e_x, e_t) = (
        ring::var(0),
        ring::var(1),
        ring::var(2),
    );
    let l = ring::minus(ring::times(e_s, e_s), ring::plus(e_x, e_x));
    let r = e_t;
    let h = seq![
        Equation {
            left: ring::times(e_s, e_s),
            right: ring::plus(ring::plus(e_x, e_x), e_t),
            factor: ring::constant(1),
        },
    ];
    reveal_with_fuel(ring::slack, 2);
    assert forall|z: Seq<int>| z.len() == v.len() implies #[trigger] ring::number(l, z)
        == ring::number(r, z) + ring::number(ring::slack(h, h.len()), z) by {
        let (s, x, t) = (z[0], z[1], z[2]);
        assert(((s * s) - (x + x)) == t + (1) * ((s * s) - ((x + x) + t))) by (nonlinear_arith);
    }
    ring::law_consequence(l, r, h, v);
}

/// The reflected ordinate of the third point of a line.
pub proof fn lemma_third_ordinate<F: Field>(s: F, c: F, x1: F, y1: F, t: F, yt: F)
    requires
        s.valid(),
        c.valid(),
        x1.valid(),
        y1.valid(),
        t.valid(),
        yt.valid(),
        y1 == s.times(x1).plus(c),
        yt == s.times(t).plus(c),
    ensures
        field::minus(s.times(field::minus(x1, t)), y1) == yt.negated(),
{
    broadcast use ring::group_evaluation;

    let v = seq![s, c, x1, y1, t, yt];
    let (e_s, e_c, e_x1, e_y1, e_t, e_yt) = (
        ring::var(0),
        ring::var(1),
        ring::var(2),
        ring::var(3),
        ring::var(4),
        ring::var(5),
    );
    let l = ring::minus(ring::times(e_s, ring::minus(e_x1, e_t)), e_y1);
    let r = ring::negated(e_yt);
    let h = seq![
        Equation {
            left: e_y1,
            right: ring::plus(ring::times(e_s, e_x1), e_c),
            factor: ring::constant(-1),
        },
        Equation {
            left: e_yt,
            right: ring::plus(ring::times(e_s, e_t), e_c),
            factor: ring::constant(1),
        },
    ];
    reveal_with_fuel(ring::slack, 3);
    assert forall|z: Seq<int>| z.len() == v.len() implies #[trigger] ring::number(l, z)
        == ring::number(r, z) + ring::number(ring::slack(h, h.len()), z) by {
        let (s, c, x1, y1, t, yt) = (z[0], z[1], z[2], z[3], z[4], z[5]);
        assert(((s * (x1 - t)) - y1)
            == (-yt)
            + (-1) * (y1 - ((s * x1) + c))
            + (1) * (yt - ((s * t) + c))) by (nonlinear_arith);
    }
    ring::law_consequence(l, r, h, v);
}

/// The line of slope `s` through a point.
pub proof fn lemma_intercept<F: Field>(s: F, x1: F, y1: F)
    requires
        s.valid(),
        x1.valid(),
        y1.valid(),
    ensures
        y1 == s.times(x1).plus(field::minus(y1, s.times(x1))),
{
    broadcast use ring::group_evaluation;

    let v = seq![s, x1, y1];
    let (e_s, e_x1, e_y1) = (
        ring::var(0),
        ring::var(1),
        ring::var(2),
    );
    let l = e_y1;
    let r = ring::plus(ring::times(e_s, e_x1), ring::minus(e_y1, ring::times(e_s, e_x1)));
    assert forall|z: Seq<int>| z.len() == v.len() implies #[trigger] ring::number(l, z)
        == ring::number(r, z) by {
        let (s, x1, y1) = (z[0], z[1], z[2]);
        assert(y1 == ((s * x1) + (y1 - (s * x1)))) by (nonlinear_arith);
    }
    ring::law_identity(l, r, v);
}

/// The second point lies on the line of the chord.
pub proof fn lemma_second_on_line<F: Field>(s: F, c: F, x1: F, y1: F, x2: F, y2: F)
    requires
        s.valid(),
        c.valid(),
        x1.valid(),
        y1.valid(),
        x2.valid(),
        y2.valid(),
        s.times(field::minus(x2, x1)) == field::minus(y2, y1),
        c == field::minus(y1, s.times(x1)),
    ensures
        y2 == s.times(x2).plus(c),
{
    broadcast use ring::group_evaluation;

    let v = seq![s, c, x1, y1, x2, y2];
    let (e_s, e_c, e_x1, e_y1, e_x2, e_y2) = (
        ring::var(0),
        ring::var(1),
        ring::var(2),
        ring::var(3),
        ring::var(4),
        ring::var(5),
    );
    let l = e_y2;
    let r = ring::plus(ring::times(e_s, e_x2), e_c);
    let h = seq![
        Equation {
            left: ring::times(e_s, ring::minus(e_x2, e_x1)),
            right: ring::minus(e_y2, e_y1),
            factor: ring::constant(-1),
        },
        Equation {
            left: e_c,
            right: ring::minus(e_y1, ring::times(e_s, e_x1)),
            factor: ring::constant(-1),
        },
    ];
    reveal_with_fuel(ring::slack, 3);
    assert forall|z: Seq<int>| z.len() == v.len() implies #[trigger] ring::number(l, z)
        == ring::number(r, z) + ring::number(ring::slack(h, h.len()), z) by {
        let (s, c, x1, y1, x2, y2) = (z[0], z[1], z[2], z[3], z[4], z[5]);
        assert(y2
            == ((s * x2) + c)
            + (-1) * ((s * (x2 - x1)) - (y2 - y1))
            + (-1) * (c - (y1 - (s * x1)))) by (nonlinear_arith);
    }
    ring::law_consequence(l, r, h, v);
}

/// The third point lies on the line.
pub proof fn lemma_third_on_line<F: Field>(s: F, c: F, x1: F, y1: F, t: F)
    requires
        s.valid(),
        c.valid(),
        x1.valid(),
        y1.valid(),
        t.valid(),
        c == field::minus(y1, s.times(x1)),
    ensures
        field::minus(s.times(field::minus(x1, t)), y1).negated() == s.times(t).plus(c),
{
    broadcast use ring::group_evaluation;

    let v = seq![s, c, x1, y1, t];
    let (e_s, e_c, e_x1, e_y1, e_t) = (
        ring::var(0),
        ring::var(1),
        ring::var(2),
        ring::var(3),
        ring::var(4),
    );
    let l = ring::negated(ring::minus(ring::times(e_s, ring::minus(e_x1, e_t)), e_y1));
    let r = ring::plus(ring::times(e_s, e_t), e_c);
    let h = seq![
        Equation {
            left: e_c,
            right: ring::minus(e_y1, ring::times(e_s, e_x1)),
            factor: ring::constant(-1),
        },
    ];
    reveal_with_fuel(ring::slack, 2);
    assert forall|z: Seq<int>| z.len() == v.len() implies #[trigger] ring::number(l, z)
        == ring::number(r, z) + ring::number(ring::slack(h, h.len()), z) by {
        let (s, c, x1, y1, t) = (z[0], z[1], z[2], z[3], z[4]);
        assert((-((s * (x1 - t)) - y1))
            == ((s * t) + c)
            + (-1) * (c - (y1 - (s * x1)))) by (nonlinear_arith);
    }
    ring::law_consequence(l, r, h, v);
}

/// The abscissas on a chord add up to the square of the slope.
pub proof fn lemma_chord_roots<F: Field>(s: F, x1: F, x2: F, t: F)
    requires
        s.valid(),
        x1.valid(),
        x2.valid(),
        t.valid(),
        t == field::minus(field::minus(s.times(s), x1), x2),
    ensures
        s.times(s) == x1.plus(x2).plus(t),
{
    broadcast use ring::group_evaluation;

    let v = seq![s, x1, x2, t];
    let (e_s, e_x1, e_x2, e_t) = (
        ring::var(0),
        ring::var(1),
        ring::var(2),
        ring::var(3),
    );
    let l = ring::times(e_s, e_s);
    let r = ring::plus(ring::plus(e_x1, e_x2), e_t);
    let h = seq![
        Equation {
            left: e_t,
            right: ring::minus(ring::minus(ring::times(e_s, e_s), e_x1), e_x2),
            factor: ring::constant(-1),
        },
    ];
    reveal_with_fuel(ring::slack, 2);
    assert forall|z: Seq<int>| z.len() == v.len() implies #[trigger] ring::number(l, z)
        == ring::number(r, z) + ring::number(ring::slack(h, h.len()), z) by {
        let (s, x1, x2, t) = (z[0], z[1], z[2], z[3]);
        assert((s * s)
            == ((x1 + x2) + t)
            + (-1) * (t - (((s * s) - x1) - x2))) by (nonlinear_arith);
    }
    ring::law_consequence(l, r, h, v);
}

/// The abscissas on a tangent add up to the square of the slope.
pub proof fn lemma_tangent_roots<F: Field>(s: F, x: F, t: F)
    requires
        s.valid(),
        x.valid(),
        t.valid(),
        t == field::minus(s.times(s), x.plus(x)),
    ensures
        s.times(s) == x.plus(x).plus(t),
{
    broadcast use ring::group_evaluation;

    let v = seq![s, x, t];
    let (e_s, e_x, e_t) = (
        ring::var(0),
        ring::var(1),
        ring::var(2),
    );
    let l = ring::times(e_s, e_s);
    let r = ring::plus(ring::plus(e_x, e_x), e_t);
    let h = seq![
        Equation {
            left: e_t,
            right: ring::minus(ring::times(e_s, e_s), ring::plus(e_x, e_x)),
            factor: ring::constant(-1),
        },
    ];
    reveal_with_fuel(ring::slack, 2);
    assert forall|z: Seq<int>| z.len() == v.len() implies #[trigger] ring::number(l, z)
        == ring::number(r, z) + ring::number(ring::slack(h, h.len()), z) by {
        let (s, x, t) = (z[0], z[1], z[2]);
        assert((s * s) == ((x + x) + t) + (-1) * (t - ((s * s) - (x + x)))) by (nonlinear_arith);
    }
    ring::law_consequence(l, r, h, v);
}

/// The square of the ordinate on a line.
pub proof fn lemma_square_of_line<F: Field>(s: F, c: F, x: F)
    requires
        s.valid(),
        c.valid(),
        x.valid(),
    ensures
        s.times(x).plus(c).times(s.times(x).plus(c)) == s.times(s).times(x.times(x)).plus(s.times(c).plus(s.times(c)).times(x)).plus(c.times(c)),
{
    broadcast use ring::group_evaluation;

    let v = seq![s, c, x];
    let (e_s, e_c, e_x) = (
        ring::var(0),
        ring::var(1),
        ring::var(2),
    );
    let l = ring::times(
        ring::plus(ring::times(e_s, e_x), e_c),
        ring::plus(ring::times(e_s, e_x), e_c),
    );
    let r = ring::plus(
        ring::plus(
            ring::times(ring::times(e_s, e_s), ring::times(e_x, e_x)),
            ring::times(ring::plus(ring::times(e_s, e_c), ring::times(e_s, e_c)), e_x),
        ),
        ring::times(e_c, e_c),
    );
    assert forall|z: Seq<int>| z.len() == v.len() implies #[trigger] ring::number(l, z)
        == ring::number(r, z) by {
        let (s, c, x) = (z[0], z[1], z[2]);
        assert((((s * x) + c) * ((s * x) + c))
            == ((((s * s) * (x * x)) + (((s * c) + (s * c)) * x)) + (c * c))) by (nonlinear_arith);
    }
    ring::law_identity(l, r, v);
}

/// The equation of the abscissas where a line meets the curve.
pub proof fn lemma_line_equation<F: Field>(a: F, b: F, d: F, e: F, f: F, g: F, x: F)
    requires
        a.valid(),
        b.valid(),
        d.valid(),
        e.valid(),
        f.valid(),
        g.valid(),
        x.valid(),
        e.plus(f.times(x)).plus(g) == d.plus(a.times(x)).plus(b),
    ensures
        d.plus(field::minus(a, f).times(x)) == e.plus(field::minus(g, b)),
{
    broadcast use ring::group_evaluation;

    let v = seq![a, b, d, e, f, g, x];
    let (e_a, e_b, e_d, e_e, e_f, e_g, e_x) = (
        ring::var(0),
        ring::var(1),
        ring::var(2),
        ring::var(3),
        ring::var(4),
        ring::var(5),
        ring::var(6),
    );
    let l = ring::plus(e_d, ring::times(ring::minus(e_a, e_f), e_x));
    let r = ring::plus(e_e, ring::minus(e_g, e_b));
    let h = seq![
        Equation {
            left: ring::plus(ring::plus(e_e, ring::times(e_f, e_x)), e_g),
            right: ring::plus(ring::plus(e_d, ring::times(e_a, e_x)), e_b),
            factor: ring::constant(-1),
        },
    ];
    reveal_with_fuel(ring::slack, 2);
    assert forall|z: Seq<int>| z.len() == v.len() implies #[trigger] ring::number(l, z)
        == ring::number(r, z) + ring::number(ring::slack(h, h.len()), z) by {
        let (a, b, d, e, f, g, x) = (z[0], z[1], z[2], z[3], z[4], z[5], z[6]);
        assert((d + ((a - f) * x))
            == (e + (g - b))
            + (-1) * (((e + (f * x)) + g) - ((d + (a * x)) + b))) by (nonlinear_arith);
    }
    ring::law_consequence(l, r, h, v);
}

/// The equation of the curve, from that of the abscissas.
pub proof fn lemma_curve_equation<F: Field>(a: F, b: F, d: F, e: F, f: F, g: F, x: F)
    requires
        a.valid(),
        b.valid(),
        d.valid(),
        e.valid(),
        f.valid(),
        g.valid(),
        x.valid(),
        d.plus(field::minus(a, f).times(x)) == e.plus(field::minus(g, b)),
    ensures
        e.plus(f.times(x)).plus(g) == d.plus(a.times(x)).plus(b),
{
    broadcast use ring::group_evaluation;

    let v = seq![a, b, d, e, f, g, x];
    let (e_a, e_b, e_d, e_e, e_f, e_g, e_x) = (
        ring::var(0),
        ring::var(1),
        ring::var(2),
        ring::var(3),
        ring::var(4),
        ring::var(5),
        ring::var(6),
    );
    let l = ring::plus(ring::plus(e_e, ring::times(e_f, e_x)), e_g);
    let r = ring::plus(ring::plus(e_d, ring::times(e_a, e_x)), e_b);
    let h = seq![
        Equation {
            left: ring::plus(e_d, ring::times(ring::minus(e_a, e_f), e_x)),
            right: ring::plus(e_e, ring::minus(e_g, e_b)),
            factor: ring::constant(-1),
        },
    ];
    reveal_with_fuel(ring::slack, 2);
    assert forall|z: Seq<int>| z.len() == v.len() implies #[trigger] ring::number(l, z)
        == ring::number(r, z) + ring::number(ring::slack(h, h.len()), z) by {
        let (a, b, d, e, f, g, x) = (z[0], z[1], z[2], z[3], z[4], z[5], z[6]);
        assert(((e + (f * x)) + g)
            == ((d + (a * x)) + b)
            + (-1) * ((d + ((a - f) * x)) - (e + (g - b)))) by (nonlinear_arith);
    }
    ring::law_consequence(l, r, h, v);
}

/// The products of the abscissas on a chord.
pub proof fn lemma_chord_products<F: Field>(k: F, x1: F, x2: F, t: F)
    requires
        k.valid(),
        x1.valid(),
        x2.valid(),
        t.valid(),
        x2.times(x2).plus(x2.times(x1)).plus(x1.times(x1)).plus(k) == x1.plus(x2).plus(t).times(x2.plus(x1)),
    ensures
        k == x1.times(x2).plus(x1.times(t)).plus(x2.times(t)),
{
    broadcast use ring::group_evaluation;

    let v = seq![k, x1, x2, t];
    let (e_k, e_x1, e_x2, e_t) = (
        ring::var(0),
        ring::var(1),
        ring::var(2),
        ring::var(3),
    );
    let l = e_k;
    let r = ring::plus(
        ring::plus(ring::times(e_x1, e_x2), ring::times(e_x1, e_t)),
        ring::times(e_x2, e_t),
    );
    let h = seq![
        Equation {
            left: ring::plus(
                ring::plus(
                    ring::plus(ring::times(e_x2, e_x2), ring::times(e_x2, e_x1)),
                    ring::times(e_x1, e_x1),
                ),
                e_k,
            ),
            right: ring::times(ring::plus(ring::plus(e_x1, e_x2), e_t), ring::plus(e_x2, e_x1)),
            factor: ring::constant(1),
        },
    ];
    reveal_with_fuel(ring::slack, 2);
    assert forall|z: Seq<int>| z.len() == v.len() implies #[trigger] ring::number(l, z)
        == ring::number(r, z) + ring::number(ring::slack(h, h.len()), z) by {
        let (k, x1, x2, t) = (z[0], z[1], z[2], z[3]);
        assert(k
            == (((x1 * x2) + (x1 * t)) + (x2 * t))
            + (1) * (((((x2 * x2) + (x2 * x1)) + (x1 * x1)) + k) - (((x1 + x2) + t) * (x2 + x1)))) by (nonlinear_arith);
    }
    ring::law_consequence(l, r, h, v);
}

/// The product of the abscissas on a line.
pub proof fn lemma_constant_term<F: Field>(n: F, x1: F, x2: F, t: F)
    requires
        n.valid(),
        x1.valid(),
        x2.valid(),
        t.valid(),
        x1.times(x1).times(x1).plus(x1.times(x2).plus(x1.times(t)).plus(x2.times(t)).times(x1)) == x1.plus(x2).plus(t).times(x1.times(x1)).plus(n),
    ensures
        n == x1.times(x2).times(t),
{
    broadcast use ring::group_evaluation;

    let v = seq![n, x1, x2, t];
    let (e_n, e_x1, e_x2, e_t) = (
        ring::var(0),
        ring::var(1),
        ring::var(2),
        ring::var(3),
    );
    let l = e_n;
    let r = ring::times(ring::times(e_x1, e_x2), e_t);
    let h = seq![
        Equation {
            left: ring::plus(
                ring::times(ring::times(e_x1, e_x1), e_x1),
                ring::times(
                    ring::plus(
                        ring::plus(ring::times(e_x1, e_x2), ring::times(e_x1, e_t)),
                        ring::times(e_x2, e_t),
                    ),
                    e_x1,
                ),
            ),
            right: ring::plus(
                ring::times(ring::plus(ring::plus(e_x1, e_x2), e_t), ring::times(e_x1, e_x1)),
                e_n,
            ),
            factor: ring::constant(-1),
        },
    ];
    reveal_with_fuel(ring::slack, 2);
    assert forall|z: Seq<int>| z.len() == v.len() implies #[trigger] ring::number(l, z)
        == ring::number(r, z) + ring::number(ring::slack(h, h.len()), z) by {
        let (n, x1, x2, t) = (z[0], z[1], z[2], z[3]);
        assert(n
            == ((x1 * x2) * t)
            + (-1) * ((((x1 * x1) * x1) + ((((x1 * x2) + (x1 * t)) + (x2 * t)) * x1)) - ((((x1 + x2) + t) * (x1 * x1)) + n))) by (nonlinear_arith);
    }
    ring::law_consequence(l, r, h, v);
}

/// The third abscissa satisfies the equation of the abscissas.
pub proof fn lemma_third_root<F: Field>(x1: F, x2: F, t: F)
    requires
        x1.valid(),
        x2.valid(),
        t.valid(),
    ensures
        t.times(t).times(t).plus(x1.times(x2).plus(x1.times(t)).plus(x2.times(t)).times(t)) == x1.plus(x2).plus(t).times(t.times(t)).plus(x1.times(x2).times(t)),
{
    broadcast use ring::group_evaluation;

    let v = seq![x1, x2, t];
    let (e_x1, e_x2, e_t) = (
        ring::var(0),
        ring::var(1),
        ring::var(2),
    );
    let l = ring::plus(
        ring::times(ring::times(e_t, e_t), e_t),
        ring::times(
            ring::plus(
                ring::plus(ring::times(e_x1, e_x2), ring::times(e_x1, e_t)),
                ring::times(e_x2, e_t),
            ),
            e_t,
        ),
    );
    let r = ring::plus(
        ring::times(ring::plus(ring::plus(e_x1, e_x2), e_t), ring::times(e_t, e_t)),
        ring::times(ring::times(e_x1, e_x2), e_t),
    );
    assert forall|z: Seq<int>| z.len() == v.len() implies #[trigger] ring::number(l, z)
        == ring::number(r, z) by {
        let (x1, x2, t) = (z[0], z[1], z[2]);
        assert((((t * t) * t) + ((((x1 * x2) + (x1 * t)) + (x2 * t)) * t))
            == ((((x1 + x2) + t) * (t * t)) + ((x1 * x2) * t))) by (nonlinear_arith);
    }
    ring::law_identity(l, r, v);
}

/// The products of the abscissas on a tangent.
pub proof fn lemma_tangent_products<F: Field>(a: F, s: F, c: F, x: F, y: F, t: F)
    requires
        a.valid(),
        s.valid(),
        c.valid(),
        x.valid(),
        y.valid(),
        t.valid(),
        s.times(y.plus(y)) == x.times(x).plus(x.times(x)).plus(x.times(x)).plus(a),
        y == s.times(x).plus(c),
        s.times(s) == x.plus(x).plus(t),
    ensures
        field::minus(a, s.times(c).plus(s.times(c))) == x.times(x).plus(x.times(t)).plus(x.times(t)),
{
    broadcast use ring::group_evaluation;

    let v = seq![a, s, c, x, y, t];
    let (e_a, e_s, e_c, e_x, e_y, e_t) = (
        ring::var(0),
        ring::var(1),
        ring::var(2),
        ring::var(3),
        ring::var(4),
        ring::var(5),
    );
    let l = ring::minus(e_a, ring::plus(ring::times(e_s, e_c), ring::times(e_s, e_c)));
    let r = ring::plus(
        ring::plus(ring::times(e_x, e_x), ring::times(e_x, e_t)),
        ring::times(e_x, e_t),
    );
    let h = seq![
        Equation {
            left: ring::times(e_s, ring::plus(e_y, e_y)),
            right: ring::plus(
                ring::plus(
                    ring::plus(ring::times(e_x, e_x), ring::times(e_x, e_x)),
                    ring::times(e_x, e_x),
                ),
                e_a,
            ),
            factor: ring::constant(-1),
        },
        Equation {
            left: e_y,
            right: ring::plus(ring::times(e_s, e_x), e_c),
            factor: ring::times(ring::constant(2), e_s),
        },
        Equation {
            left: ring::times(e_s, e_s),
            right: ring::plus(ring::plus(e_x, e_x), e_t),
            factor: ring::times(ring::constant(2), e_x),
        },
    ];
    reveal_with_fuel(ring::slack, 4);
    assert forall|z: Seq<int>| z.len() == v.len() implies #[trigger] ring::number(l, z)
        == ring::number(r, z) + ring::number(ring::slack(h, h.len()), z) by {
        let (a, s, c, x, y, t) = (z[0], z[1], z[2], z[3], z[4], z[5]);
        assert((a - ((s * c) + (s * c)))
            == (((x * x) + (x * t)) + (x * t))
            + (-1) * ((s * (y + y)) - ((((x * x) + (x * x)) + (x * x)) + a))
            + ((2) * s) * (y - ((s * x) + c))
            + ((2) * x) * ((s * s) - ((x + x) + t))) by (nonlinear_arith);
    }
    ring::law_consequence(l, r, h, v);
}

/// Negating both factors keeps the product.
pub proof fn lemma_negated_product<F: Field>(x: F, y: F)
    requires
        x.valid(),
        y.valid(),
    ensures
        x.negated().times(y.negated()) == x.times(y),
{
    broadcast use ring::group_evaluation;

    let v = seq![x, y];
    let (e_x, e_y) = (
        ring::var(0),
        ring::var(1),
    );
    let l = ring::times(ring::negated(e_x), ring::negated(e_y));
    let r = ring::times(e_x, e_y);
    assert forall|z: Seq<int>| z.len() == v.len() implies #[trigger] ring::number(l, z)
        == ring::number(r, z) by {
        let (x, y) = (z[0], z[1]);
        assert(((-x) * (-y)) == (x * y)) by (nonlinear_arith);
    }
    ring::law_identity(l, r, v);
}

/// Exchanging the last two of three summands.
pub proof fn lemma_swap_sum<F: Field>(x1: F, x2: F, x3: F)
    requires
        x1.valid(),
        x2.valid(),
        x3.valid(),
    ensures
        x1.plus(x2).plus(x3) == x1.plus(x3).plus(x2),
{
    broadcast use ring::group_evaluation;

    let v = seq![x1, x2, x3];
    let (e_x1, e_x2, e_x3) = (
        ring::var(0),
        ring::var(1),
        ring::var(2),
    );
    let l = ring::plus(ring::plus(e_x1, e_x2), e_x3);
    let r = ring::plus(ring::plus(e_x1, e_x3), e_x2);
    assert forall|z: Seq<int>| z.len() == v.len() implies #[trigger] ring::number(l, z)
        == ring::number(r, z) by {
        let (x1, x2, x3) = (z[0], z[1], z[2]);
        assert(((x1 + x2) + x3) == ((x1 + x3) + x2)) by (nonlinear_arith);
    }
    ring::law_identity(l, r, v);
}

/// Exchanging the last two in the sum of products of pairs.
pub proof fn lemma_swap_products<F: Field>(x1: F, x2: F, x3: F)
    requires
        x1.valid(),
        x2.valid(),
        x3.valid(),
    ensures
        x1.times(x2).plus(x1.times(x3)).plus(x2.times(x3)) == x1.times(x3).plus(x1.times(x2)).plus(x3.times(x2)),
{
    broadcast use ring::group_evaluation;

    let v = seq![x1, x2, x3];
    let (e_x1, e_x2, e_x3) = (
        ring::var(0),
        ring::var(1),
        ring::var(2),
    );
    let l = ring::plus(
        ring::plus(ring::times(e_x1, e_x2), ring::times(e_x1, e_x3)),
        ring::times(e_x2, e_x3),
    );
    let r = ring::plus(
        ring::plus(ring::times(e_x1, e_x3), ring::times(e_x1, e_x2)),
        ring::times(e_x3, e_x2),
    );
    assert forall|z: Seq<int>| z.len() == v.len() implies #[trigger] ring::number(l, z)
        == ring::number(r, z) by {
        let (x1, x2, x3) = (z[0], z[1], z[2]);
        assert((((x1 * x2) + (x1 * x3)) + (x2 * x3))
            == (((x1 * x3) + (x1 * x2)) + (x3 * x2))) by (nonlinear_arith);
    }
    ring::law_identity(l, r, v);
}

/// Exchanging the last two of three factors.
pub proof fn lemma_swap_product<F: Field>(x1: F, x2: F, x3: F)
    requires
        x1.valid(),
        x2.valid(),
        x3.valid(),
    ensures
        x1.times(x2).times(x3) == x1.times(x3).times(x2),
{
    broadcast use ring::group_evaluation;

    let v = seq![x1, x2, x3];
    let (e_x1, e_x2, e_x3) = (
        ring::var(0),
        ring::var(1),
        ring::var(2),
    );
    let l = ring::times(ring::times(e_x1, e_x2), e_x3);
    let r = ring::times(ring::times(e_x1, e_x3), e_x2);
    assert forall|z: Seq<int>| z.len() == v.len() implies #[trigger] ring::number(l, z)
        == ring::number(r, z) by {
        let (x1, x2, x3) = (z[0], z[1], z[2]);
        assert(((x1 * x2) * x3) == ((x1 * x3) * x2)) by (nonlinear_arith);
    }
    ring::law_identity(l, r, v);
}

/// Exchanging the first two of three summands.
pub proof fn lemma_turn_sum<F: Field>(x1: F, x2: F, x3: F)
    requires
        x1.valid(),
        x2.valid(),
        x3.valid(),
    ensures
        x1.plus(x2).plus(x3) == x2.plus(x1).plus(x3),
{
    broadcast use ring::group_evaluation;

    let v = seq![x1, x2, x3];
    let (e_x1, e_x2, e_x3) = (
        ring::var(0),
        ring::var(1),
        ring::var(2),
    );
    let l = ring::plus(ring::plus(e_x1, e_x2), e_x3);
    let r = ring::plus(ring::plus(e_x2, e_x1), e_x3);
    assert forall|z: Seq<int>| z.len() == v.len() implies #[trigger] ring::number(l, z)
        == ring::number(r, z) by {
        let (x1, x2, x3) = (z[0], z[1], z[2]);
        assert(((x1 + x2) + x3) == ((x2 + x1) + x3)) by (nonlinear_arith);
    }
    ring::law_identity(l, r, v);
}

/// Exchanging the first two in the sum of products of pairs.
pub proof fn lemma_turn_products<F: Field>(x1: F, x2: F, x3: F)
    requires
        x1.valid(),
        x2.valid(),
        x3.valid(),
    ensures
        x1.times(x2).plus(x1.times(x3)).plus(x2.times(x3)) == x2.times(x1).plus(x2.times(x3)).plus(x1.times(x3)),
{
    broadcast use ring::group_evaluation;

    let v = seq![x1, x2, x3];
    let (e_x1, e_x2, e_x3) = (
        ring::var(0),
        ring::var(1),
        ring::var(2),
    );
    let l = ring::plus(
        ring::plus(ring::times(e_x1, e_x2), ring::times(e_x1, e_x3)),
        ring::times(e_x2, e_x3),
    );
    let r = ring::plus(
        ring::plus(ring::times(e_x2, e_x1), ring::times(e_x2, e_x3)),
        ring::times(e_x1, e_x3),
    );
    assert forall|z: Seq<int>| z.len() == v.len() implies #[trigger] ring::number(l, z)
        == ring::number(r, z) by {
        let (x1, x2, x3) = (z[0], z[1], z[2]);
        assert((((x1 * x2) + (x1 * x3)) + (x2 * x3))
            == (((x2 * x1) + (x2 * x3)) + (x1 * x3))) by (nonlinear_arith);
    }
    ring::law_identity(l, r, v);
}

/// Exchanging the first two of three factors.
pub proof fn lemma_turn_product<F: Field>(x1: F, x2: F, x3: F)
    requires
        x1.valid(),
        x2.valid(),
        x3.valid(),
    ensures
        x1.times(x2).times(x3) == x2.times(x1).times(x3),
{
    broadcast use ring::group_evaluation;

    let v = seq![x1, x2, x3];
    let (e_x1, e_x2, e_x3) = (
        ring::var(0),
        ring::var(1),
        ring::var(2),
    );
    let l = ring::times(ring::times(e_x1, e_x2), e_x3);
    let r = ring::times(ring::times(e_x2, e_x1), e_x3);
    assert forall|z: Seq<int>| z.len() == v.len() implies #[trigger] ring::number(l, z)
        == ring::number(r, z) by {
        let (x1, x2, x3) = (z[0], z[1], z[2]);
        assert(((x1 * x2) * x3) == ((x2 * x1) * x3)) by (nonlinear_arith);
    }
    ring::law_identity(l, r, v);
}

/// The reflection of a line.
pub proof fn lemma_reflected_line<F: Field>(s: F, c: F, x: F, y: F)
    requires
        s.valid(),
        c.valid(),
        x.valid(),
        y.valid(),
        y == s.times(x).plus(c),
    ensures
        y.negated() == s.negated().times(x).plus(c.negated()),
{
    broadcast use ring::group_evaluation;

    let v = seq![s, c, x, y];
    let (e_s, e_c, e_x, e_y) = (
        ring::var(0),
        ring::var(1),
        ring::var(2),
        ring::var(3),
    );
    let l = ring::negated(e_y);
    let r = ring::plus(ring::times(ring::negated(e_s), e_x), ring::negated(e_c));
    let h = seq![
        Equation {
            left: e_y,
            right: ring::plus(ring::times(e_s, e_x), e_c),
            factor: ring::constant(-1),
        },
    ];
    reveal_with_fuel(ring::slack, 2);
    assert forall|z: Seq<int>| z.len() == v.len() implies #[trigger] ring::number(l, z)
        == ring::number(r, z) + ring::number(ring::slack(h, h.len()), z) by {
        let (s, c, x, y) = (z[0], z[1], z[2], z[3]);
        assert((-y) == (((-s) * x) + (-c)) + (-1) * (y - ((s * x) + c))) by (nonlinear_arith);
    }
    ring::law_consequence(l, r, h, v);
}

/// The difference of two squares.
pub proof fn lemma_difference_of_squares<F: Field>(x: F, y: F)
    requires
        x.valid(),
        y.valid(),
    ensures
        x.plus(y).times(field::minus(x, y)) == field::minus(x.times(x), y.times(y)),
{
    broadcast use ring::group_evaluation;

    let v = seq![x, y];
    let (e_x, e_y) = (
        ring::var(0),
        ring::var(1),
    );
    let l = ring::times(ring::plus(e_x, e_y), ring::minus(e_x, e_y));
    let r = ring::minus(ring::times(e_x, e_x), ring::times(e_y, e_y));
    assert forall|z: Seq<int>| z.len() == v.len() implies #[trigger] ring::number(l, z)
        == ring::number(r, z) by {
        let (x, y) = (z[0], z[1]);
        assert(((x + y) * (x - y)) == ((x * x) - (y * y))) by (nonlinear_arith);
    }
    ring::law_identity(l, r, v);
}

/// The difference of two cubes.
pub proof fn lemma_cube_difference<F: Field>(x: F, u: F)
    requires
        x.valid(),
        u.valid(),
    ensures
        field::minus(x.times(x).times(x), u.times(u).times(u)) == field::minus(x, u).times(x.times(x).plus(x.times(u)).plus(u.times(u))),
{
    broadcast use ring::group_evaluation;

    let v = seq![x, u];
    let (e_x, e_u) = (
        ring::var(0),
        ring::var(1),
    );
    let l = ring::minus(
        ring::times(ring::times(e_x, e_x), e_x),
        ring::times(ring::times(e_u, e_u), e_u),
    );
    let r = ring::times(
        ring::minus(e_x, e_u),
        ring::plus(
            ring::plus(ring::times(e_x, e_x), ring::times(e_x, e_u)),
            ring::times(e_u, e_u),
        ),
    );
    assert forall|z: Seq<int>| z.len() == v.len() implies #[trigger] ring::number(l, z)
        == ring::number(r, z) by {
        let (x, u) = (z[0], z[1]);
        assert((((x * x) * x) - ((u * u) * u))
            == ((x - u) * (((x * x) + (x * u)) + (u * u)))) by (nonlinear_arith);
    }
    ring::law_identity(l, r, v);
}

/// The difference of two values of the cubic.
pub proof fn lemma_curve_difference<F: Field>(a: F, b: F, e: F, f: F, k: F, x: F, u: F)
    requires
        a.valid(),
        b.valid(),
        e.valid(),
        f.valid(),
        k.valid(),
        x.valid(),
        u.valid(),
        field::minus(e, f) == field::minus(x, u).times(k),
    ensures
        field::minus(e.plus(a.times(x)).plus(b), f.plus(a.times(u)).plus(b)) == field::minus(x, u).times(k.plus(a)),
{
    broadcast use ring::group_evaluation;

    let v = seq![a, b, e, f, k, x, u];
    let (e_a, e_b, e_e, e_f, e_k, e_x, e_u) = (
        ring::var(0),
        ring::var(1),
        ring::var(2),
        ring::var(3),
        ring::var(4),
        ring::var(5),
        ring::var(6),
    );
    let l = ring::minus(
        ring::plus(ring::plus(e_e, ring::times(e_a, e_x)), e_b),
        ring::plus(ring::plus(e_f, ring::times(e_a, e_u)), e_b),
    );
    let r = ring::times(ring::minus(e_x, e_u), ring::plus(e_k, e_a));
    let h = seq![
        Equation {
            left: ring::minus(e_e, e_f),
            right: ring::times(ring::minus(e_x, e_u), e_k),
            factor: ring::constant(1),
        },
    ];
    reveal_with_fuel(ring::slack, 2);
    assert forall|z: Seq<int>| z.len() == v.len() implies #[trigger] ring::number(l, z)
        == ring::number(r, z) + ring::number(ring::slack(h, h.len()), z) by {
        let (a, b, e, f, k, x, u) = (z[0], z[1], z[2], z[3], z[4], z[5], z[6]);
        assert((((e + (a * x)) + b) - ((f + (a * u)) + b))
            == ((x - u) * (k + a))
            + (1) * ((e - f) - ((x - u) * k))) by (nonlinear_arith);
    }
    ring::law_consequence(l, r, h, v);
}

/// The difference of the equations of two abscissas.
pub proof fn lemma_root_difference<F: Field>(
    d: F,
    e: F,
    f: F,
    g: F,
    k: F,
    n: F,
    p: F,
    q: F,
    x1: F,
    x2: F,
)
    requires
        d.valid(),
        e.valid(),
        f.valid(),
        g.valid(),
        k.valid(),
        n.valid(),
        p.valid(),
        q.valid(),
        x1.valid(),
        x2.valid(),
        e.plus(k.times(x2)) == g.times(p).plus(n),
        f.plus(k.times(x1)) == g.times(q).plus(n),
        field::minus(e, f) == field::minus(x2, x1).times(d),
    ensures
        d.plus(k).times(field::minus(x2, x1)) == g.times(field::minus(p, q)),
{
    broadcast use ring::group_evaluation;

    let v = seq![d, e, f, g, k, n, p, q, x1, x2];
    let (e_d, e_e, e_f, e_g, e_k, e_n, e_p, e_q, e_x1, e_x2) = (
        ring::var(0),
        ring::var(1),
        ring::var(2),
        ring::var(3),
        ring::var(4),
        ring::var(5),
        ring::var(6),
        ring::var(7),
        ring::var(8),
        ring::var(9),
    );
    let l = ring::times(ring::plus(e_d, e_k), ring::minus(e_x2, e_x1));
    let r = ring::times(e_g, ring::minus(e_p, e_q));
    let h = seq![
        Equation {
            left: ring::plus(e_e, ring::times(e_k, e_x2)),
            right: ring::plus(ring::times(e_g, e_p), e_n),
            factor: ring::constant(1),
        },
        Equation {
            left: ring::plus(e_f, ring::times(e_k, e_x1)),
            right: ring::plus(ring::times(e_g, e_q), e_n),
            factor: ring::constant(-1),
        },
        Equation {
            left: ring::minus(e_e, e_f),
            right: ring::times(ring::minus(e_x2, e_x1), e_d),
            factor: ring::constant(-1),
        },
    ];
    reveal_with_fuel(ring::slack, 4);
    assert forall|z: Seq<int>| z.len() == v.len() implies #[trigger] ring::number(l, z)
        == ring::number(r, z) + ring::number(ring::slack(h, h.len()), z) by {
        let (d, e, f, g, k, n, p, q, x1, x2) = (z[0], z[1], z[2], z[3], z[4], z[5], z[6], z[7], z[8], z[9]);
        assert(((d + k) * (x2 - x1))
            == (g * (p - q))
            + (1) * ((e + (k * x2)) - ((g * p) + n))
            + (-1) * ((f + (k * x1)) - ((g * q) + n))
            + (-1) * ((e - f) - ((x2 - x1) * d))) by (nonlinear_arith);
    }
    ring::law_consequence(l, r, h, v);
}

/// The other abscissas on a line.
pub proof fn lemma_other_roots<F: Field>(x1: F, x2: F, u: F, x: F)
    requires
        x1.valid(),
        x2.valid(),
        u.valid(),
        x.valid(),
        x.times(x).plus(x.times(x1)).plus(x1.times(x1)).plus(x1.times(x2).plus(x1.times(u)).plus(x2.times(u))) == x1.plus(x2).plus(u).times(x.plus(x1)),
    ensures
        field::minus(x, x2).times(field::minus(x, u)) == F::ZERO,
{
    broadcast use ring::group_evaluation;

    let v = seq![x1, x2, u, x];
    let (e_x1, e_x2, e_u, e_x) = (
        ring::var(0),
        ring::var(1),
        ring::var(2),
        ring::var(3),
    );
    let l = ring::times(ring::minus(e_x, e_x2), ring::minus(e_x, e_u));
    let r = ring::constant(0);
    let h = seq![
        Equation {
            left: ring::plus(
                ring::plus(
                    ring::plus(ring::times(e_x, e_x), ring::times(e_x, e_x1)),
                    ring::times(e_x1, e_x1),
                ),
                ring::plus(
                    ring::plus(ring::times(e_x1, e_x2), ring::times(e_x1, e_u)),
                    ring::times(e_x2, e_u),
                ),
            ),
            right: ring::times(ring::plus(ring::plus(e_x1, e_x2), e_u), ring::plus(e_x, e_x1)),
            factor: ring::constant(1),
        },
    ];
    assert(ring::embed_nat::<F>(0) == F::ZERO);
    reveal_with_fuel(ring::slack, 2);
    assert forall|z: Seq<int>| z.len() == v.len() implies #[trigger] ring::number(l, z)
        == ring::number(r, z) + ring::number(ring::slack(h, h.len()), z) by {
        let (x1, x2, u, x) = (z[0], z[1], z[2], z[3]);
        assert(((x - x2) * (x - u))
            == (0)
            + (1) * (((((x * x) + (x * x1)) + (x1 * x1)) + (((x1 * x2) + (x1 * u)) + (x2 * u))) - (((x1 + x2) + u) * (x + x1)))) by (nonlinear_arith);
    }
    ring::law_consequence(l, r, h, v);
}

/// The coefficients of the conic.
pub proof fn lemma_conic_form<F: Field>(a: F, n: F, u: F, w: F, m1: F, m2: F, x: F, y: F)
    requires
        a.valid(),
        n.valid(),
        u.valid(),
        w.valid(),
        m1.valid(),
        m2.valid(),
        x.valid(),
        y.valid(),
    ensures
        field::minus(x.times(x).plus(u.plus(n).times(x)).plus(field::minus(u.times(u).plus(a).plus(field::minus(m1, m2).times(w)), n.times(u))), m1.plus(m2).times(y)) == field::minus(x.times(x).plus(x.times(u)).plus(u.times(u)).plus(a), m2.times(y.plus(w)).plus(m1.times(field::minus(y, w)))).plus(n.times(field::minus(x, u))),
{
    broadcast use ring::group_evaluation;

    let v = seq![a, n, u, w, m1, m2, x, y];
    let (e_a, e_n, e_u, e_w, e_m1, e_m2, e_x, e_y) = (
        ring::var(0),
        ring::var(1),
        ring::var(2),
        ring::var(3),
        ring::var(4),
        ring::var(5),
        ring::var(6),
        ring::var(7),
    );
    let l = ring::minus(
        ring::plus(
            ring::plus(ring::times(e_x, e_x), ring::times(ring::plus(e_u, e_n), e_x)),
            ring::minus(
                ring::plus(
                    ring::plus(ring::times(e_u, e_u), e_a),
                    ring::times(ring::minus(e_m1, e_m2), e_w),
                ),
                ring::times(e_n, e_u),
            ),
        ),
        ring::times(ring::plus(e_m1, e_m2), e_y),
    );
    let r = ring::plus(
        ring::minus(
            ring::plus(
                ring::plus(
                    ring::plus(ring::times(e_x, e_x), ring::times(e_x, e_u)),
                    ring::times(e_u, e_u),
                ),
                e_a,
            ),
            ring::plus(
                ring::times(e_m2, ring::plus(e_y, e_w)),
                ring::times(e_m1, ring::minus(e_y, e_w)),
            ),
        ),
        ring::times(e_n, ring::minus(e_x, e_u)),
    );
    assert forall|z: Seq<int>| z.len() == v.len() implies #[trigger] ring::number(l, z)
        == ring::number(r, z) by {
        let (a, n, u, w, m1, m2, x, y) = (z[0], z[1], z[2], z[3], z[4], z[5], z[6], z[7]);
        assert(((u + n) * x) == (n * x) + (u * x)) by (nonlinear_arith);
        assert(((m1 - m2) * w) == (w * m1) - (w * m2)) by (nonlinear_arith);
        assert(((m1 + m2) * y) == (m1 * y) + (m2 * y)) by (nonlinear_arith);
        assert((x * u) == (u * x)) by (nonlinear_arith);
        assert((m2 * (y + w)) == (w * m2) + (m2 * y)) by (nonlinear_arith);
        assert((m1 * (y - w)) == -(w * m1) + (m1 * y)) by (nonlinear_arith);
        assert((n * (x - u)) == -(n * u) + (n * x)) by (nonlinear_arith);
    }
    ring::law_identity(l, r, v);
}

/// The conic on the first line.
pub proof fn lemma_first_line<F: Field>(d: F, f: F, k: F, m1: F, m2: F)
    requires
        d.valid(),
        f.valid(),
        k.valid(),
        m1.valid(),
        m2.valid(),
    ensures
        field::minus(k, m2.times(m1.times(d)).plus(m1.times(f))).plus(m1.times(m2).times(d)) == field::minus(k, m1.times(f)),
{
    broadcast use ring::group_evaluation;

    let v = seq![d, f, k, m1, m2];
    let (e_d, e_f, e_k, e_m1, e_m2) = (
        ring::var(0),
        ring::var(1),
        ring::var(2),
        ring::var(3),
        ring::var(4),
    );
    let l = ring::plus(
        ring::minus(
            e_k,
            ring::plus(ring::times(e_m2, ring::times(e_m1, e_d)), ring::times(e_m1, e_f)),
        ),
        ring::times(ring::times(e_m1, e_m2), e_d),
    );
    let r = ring::minus(e_k, ring::times(e_m1, e_f));
    assert forall|z: Seq<int>| z.len() == v.len() implies #[trigger] ring::number(l, z)
        == ring::number(r, z) by {
        let (d, f, k, m1, m2) = (z[0], z[1], z[2], z[3], z[4]);
        assert(((k - ((m2 * (m1 * d)) + (m1 * f))) + ((m1 * m2) * d))
            == (k - (m1 * f))) by (nonlinear_arith);
    }
    ring::law_identity(l, r, v);
}

/// The conic on the second line.
pub proof fn lemma_second_line<F: Field>(d: F, e: F, k: F, m1: F, m2: F)
    requires
        d.valid(),
        e.valid(),
        k.valid(),
        m1.valid(),
        m2.valid(),
    ensures
        field::minus(k, m2.times(e).plus(m1.times(m2.times(d)))).plus(m1.times(m2).times(d)) == field::minus(k, m2.times(e)),
{
    broadcast use ring::group_evaluation;

    let v = seq![d, e, k, m1, m2];
    let (e_d, e_e, e_k, e_m1, e_m2) = (
        ring::var(0),
        ring::var(1),
        ring::var(2),
        ring::var(3),
        ring::var(4),
    );
    let l = ring::plus(
        ring::minus(
            e_k,
            ring::plus(ring::times(e_m2, e_e), ring::times(e_m1, ring::times(e_m2, e_d))),
        ),
        ring::times(ring::times(e_m1, e_m2), e_d),
    );
    let r = ring::minus(e_k, ring::times(e_m2, e_e));
    assert forall|z: Seq<int>| z.len() == v.len() implies #[trigger] ring::number(l, z)
        == ring::number(r, z) by {
        let (d, e, k, m1, m2) = (z[0], z[1], z[2], z[3], z[4]);
        assert(((k - ((m2 * e) + (m1 * (m2 * d)))) + ((m1 * m2) * d))
            == (k - (m2 * e))) by (nonlinear_arith);
    }
    ring::law_identity(l, r, v);
}

/// Exchanging the last two factors.
pub proof fn lemma_move_last<F: Field>(x: F, y: F, u: F)
    requires
        x.valid(),
        y.valid(),
        u.valid(),
    ensures
        x.times(y).times(u) == x.times(u).times(y),
{
    broadcast use ring::group_evaluation;

    let v = seq![x, y, u];
    let (e_x, e_y, e_u) = (
        ring::var(0),
        ring::var(1),
        ring::var(2),
    );
    let l = ring::times(ring::times(e_x, e_y), e_u);
    let r = ring::times(ring::times(e_x, e_u), e_y);
    assert forall|z: Seq<int>| z.len() == v.len() implies #[trigger] ring::number(l, z)
        == ring::number(r, z) by {
        let (x, y, u) = (z[0], z[1], z[2]);
        assert(((x * y) * u) == ((x * u) * y)) by (nonlinear_arith);
    }
    ring::law_identity(l, r, v);
}

/// A point of the line through `(u, -w)`.
pub proof fn lemma_line_below<F: Field>(m1: F, c: F, u: F, w: F, x: F, y: F)
    requires
        m1.valid(),
        c.valid(),
        u.valid(),
        w.valid(),
        x.valid(),
        y.valid(),
        y == m1.times(x).plus(c),
        w.negated() == m1.times(u).plus(c),
    ensures
        y.plus(w) == m1.times(field::minus(x, u)),
{
    broadcast use ring::group_evaluation;

    let v = seq![m1, c, u, w, x, y];
    let (e_m1, e_c, e_u, e_w, e_x, e_y) = (
        ring::var(0),
        ring::var(1),
        ring::var(2),
        ring::var(3),
        ring::var(4),
        ring::var(5),
    );
    let l = ring::plus(e_y, e_w);
    let r = ring::times(e_m1, ring::minus(e_x, e_u));
    let h = seq![
        Equation {
            left: e_y,
            right: ring::plus(ring::times(e_m1, e_x), e_c),
            factor: ring::constant(1),
        },
        Equation {
            left: ring::negated(e_w),
            right: ring::plus(ring::times(e_m1, e_u), e_c),
            factor: ring::constant(-1),
        },
    ];
    reveal_with_fuel(ring::slack, 3);
    assert forall|z: Seq<int>| z.len() == v.len() implies #[trigger] ring::number(l, z)
        == ring::number(r, z) + ring::number(ring::slack(h, h.len()), z) by {
        let (m1, c, u, w, x, y) = (z[0], z[1], z[2], z[3], z[4], z[5]);
        assert((y + w)
            == (m1 * (x - u))
            + (1) * (y - ((m1 * x) + c))
            + (-1) * ((-w) - ((m1 * u) + c))) by (nonlinear_arith);
    }
    ring::law_consequence(l, r, h, v);
}

/// A point of the line through `(u, w)`.
pub proof fn lemma_line_above<F: Field>(m2: F, c: F, u: F, w: F, x: F, y: F)
    requires
        m2.valid(),
        c.valid(),
        u.valid(),
        w.valid(),
        x.valid(),
        y.valid(),
        y == m2.times(x).plus(c),
        w == m2.times(u).plus(c),
    ensures
        field::minus(y, w) == m2.times(field::minus(x, u)),
{
    broadcast use ring::group_evaluation;

    let v = seq![m2, c, u, w, x, y];
    let (e_m2, e_c, e_u, e_w, e_x, e_y) = (
        ring::var(0),
        ring::var(1),
        ring::var(2),
        ring::var(3),
        ring::var(4),
        ring::var(5),
    );
    let l = ring::minus(e_y, e_w);
    let r = ring::times(e_m2, ring::minus(e_x, e_u));
    let h = seq![
        Equation {
            left: e_y,
            right: ring::plus(ring::times(e_m2, e_x), e_c),
            factor: ring::constant(1),
        },
        Equation {
            left: e_w,
            right: ring::plus(ring::times(e_m2, e_u), e_c),
            factor: ring::constant(-1),
        },
    ];
    reveal_with_fuel(ring::slack, 3);
    assert forall|z: Seq<int>| z.len() == v.len() implies #[trigger] ring::number(l, z)
        == ring::number(r, z) + ring::number(ring::slack(h, h.len()), z) by {
        let (m2, c, u, w, x, y) = (z[0], z[1], z[2], z[3], z[4], z[5]);
        assert((y - w)
            == (m2 * (x - u))
            + (1) * (y - ((m2 * x) + c))
            + (-1) * (w - ((m2 * u) + c))) by (nonlinear_arith);
    }
    ring::law_consequence(l, r, h, v);
}

/// The conic at `(u, -w)`.
pub proof fn lemma_conic_below<F: Field>(a: F, u: F, w: F, m1: F, m2: F, y: F)
    requires
        a.valid(),
        u.valid(),
        w.valid(),
        m1.valid(),
        m2.valid(),
        y.valid(),
        w == y.negated(),
    ensures
        field::minus(u.times(u).plus(u.plus(m1.times(m2)).times(u)).plus(field::minus(u.times(u).plus(a).plus(field::minus(m1, m2).times(w)), m1.times(m2).times(u))), m1.plus(m2).times(y)) == field::minus(u.times(u).plus(u.times(u)).plus(u.times(u)).plus(a), m1.times(y.plus(y))),
{
    broadcast use ring::group_evaluation;

    let v = seq![a, u, w, m1, m2, y];
    let (e_a, e_u, e_w, e_m1, e_m2, e_y) = (
        ring::var(0),
        ring::var(1),
        ring::var(2),
        ring::var(3),
        ring::var(4),
        ring::var(5),
    );
    let l = ring::minus(
        ring::plus(
            ring::plus(
                ring::times(e_u, e_u),
                ring::times(ring::plus(e_u, ring::times(e_m1, e_m2)), e_u),
            ),
            ring::minus(
                ring::plus(
                    ring::plus(ring::times(e_u, e_u), e_a),
                    ring::times(ring::minus(e_m1, e_m2), e_w),
                ),
                ring::times(ring::times(e_m1, e_m2), e_u),
            ),
        ),
        ring::times(ring::plus(e_m1, e_m2), e_y),
    );
    let r = ring::minus(
        ring::plus(
            ring::plus(
                ring::plus(ring::times(e_u, e_u), ring::times(e_u, e_u)),
                ring::times(e_u, e_u),
            ),
            e_a,
        ),
        ring::times(e_m1, ring::plus(e_y, e_y)),
    );
    let h = seq![
        Equation {
            left: e_w,
            right: ring::negated(e_y),
            factor: ring::plus(e_m1, ring::times(ring::constant(-1), e_m2)),
        },
    ];
    reveal_with_fuel(ring::slack, 2);
    assert forall|z: Seq<int>| z.len() == v.len() implies #[trigger] ring::number(l, z)
        == ring::number(r, z) + ring::number(ring::slack(h, h.len()), z) by {
        let (a, u, w, m1, m2, y) = (z[0], z[1], z[2], z[3], z[4], z[5]);
        assert(((((u * u) + ((u + (m1 * m2)) * u)) + ((((u * u) + a) + ((m1 - m2) * w)) - ((m1 * m2) * u))) - ((m1 + m2) * y))
            == (((((u * u) + (u * u)) + (u * u)) + a) - (m1 * (y + y)))
            + (m1 + ((-1) * m2)) * (w - (-y))) by (nonlinear_arith);
    }
    ring::law_consequence(l, r, h, v);
}

/// The conic at `(u, w)`.
pub proof fn lemma_conic_above<F: Field>(a: F, u: F, w: F, m1: F, m2: F)
    requires
        a.valid(),
        u.valid(),
        w.valid(),
        m1.valid(),
        m2.valid(),
    ensures
        field::minus(u.times(u).plus(u.plus(m1.times(m2)).times(u)).plus(field::minus(u.times(u).plus(a).plus(field::minus(m1, m2).times(w)), m1.times(m2).times(u))), m1.plus(m2).times(w)) == field::minus(u.times(u).plus(u.times(u)).plus(u.times(u)).plus(a), m2.times(w.plus(w))),
{
    broadcast use ring::group_evaluation;

    let v = seq![a, u, w, m1, m2];
    let (e_a, e_u, e_w, e_m1, e_m2) = (
        ring::var(0),
        ring::var(1),
        ring::var(2),
        ring::var(3),
        ring::var(4),
    );
    let l = ring::minus(
        ring::plus(
            ring::plus(
                ring::times(e_u, e_u),
                ring::times(ring::plus(e_u, ring::times(e_m1, e_m2)), e_u),
            ),
            ring::minus(
                ring::plus(
                    ring::plus(ring::times(e_u, e_u), e_a),
                    ring::times(ring::minus(e_m1, e_m2), e_w),
                ),
                ring::times(ring::times(e_m1, e_m2), e_u),
            ),
        ),
        ring::times(ring::plus(e_m1, e_m2), e_w),
    );
    let r = ring::minus(
        ring::plus(
            ring::plus(
                ring::plus(ring::times(e_u, e_u), ring::times(e_u, e_u)),
                ring::times(e_u, e_u),
            ),
            e_a,
        ),
        ring::times(e_m2, ring::plus(e_w, e_w)),
    );
    assert forall|z: Seq<int>| z.len() == v.len() implies #[trigger] ring::number(l, z)
        == ring::number(r, z) by {
        let (a, u, w, m1, m2) = (z[0], z[1], z[2], z[3], z[4]);
        assert(((((u * u) + ((u + (m1 * m2)) * u)) + ((((u * u) + a) + ((m1 - m2) * w)) - ((m1 * m2) * u))) - ((m1 + m2) * w))
            == (((((u * u) + (u * u)) + (u * u)) + a) - (m2 * (w + w)))) by (nonlinear_arith);
    }
    ring::law_identity(l, r, v);
}

/// The conic touches the tangent that it is made of.
pub proof fn lemma_conic_tangent<F: Field>(u: F, m1: F, m2: F, x: F)
    requires
        u.valid(),
        m1.valid(),
        m2.valid(),
        x.valid(),
        m1.times(m1) == x.plus(x).plus(u),
    ensures
        x.plus(x).plus(u.plus(m1.times(m2))) == m1.plus(m2).times(m1),
{
    broadcast use ring::group_evaluation;

    let v = seq![u, m1, m2, x];
    let (e_u, e_m1, e_m2, e_x) = (
        ring::var(0),
        ring::var(1),
        ring::var(2),
        ring::var(3),
    );
    let l = ring::plus(ring::plus(e_x, e_x), ring::plus(e_u, ring::times(e_m1, e_m2)));
    let r = ring::times(ring::plus(e_m1, e_m2), e_m1);
    let h = seq![
        Equation {
            left: ring::times(e_m1, e_m1),
            right: ring::plus(ring::plus(e_x, e_x), e_u),
            factor: ring::constant(-1),
        },
    ];
    reveal_with_fuel(ring::slack, 2);
    assert forall|z: Seq<int>| z.len() == v.len() implies #[trigger] ring::number(l, z)
        == ring::number(r, z) + ring::number(ring::slack(h, h.len()), z) by {
        let (u, m1, m2, x) = (z[0], z[1], z[2], z[3]);
        assert(((x + x) + (u + (m1 * m2)))
            == ((m1 + m2) * m1)
            + (-1) * ((m1 * m1) - ((x + x) + u))) by (nonlinear_arith);
    }
    ring::law_consequence(l, r, h, v);
}

/// The slope of the tangent, by way of the conic.
pub proof fn lemma_touch_sum<F: Field>(a: F, x: F, u: F)
    requires
        a.valid(),
        x.valid(),
        u.valid(),
    ensures
        x.plus(x).plus(u).times(field::minus(x, u)).plus(x.times(x).plus(x.times(u)).plus(u.times(u)).plus(a)) == x.times(x).plus(x.times(x)).plus(x.times(x)).plus(a),
{
    broadcast use ring::group_evaluation;

    let v = seq![a, x, u];
    let (e_a, e_x, e_u) = (
        ring::var(0),
        ring::var(1),
        ring::var(2),
    );
    let l = ring::plus(
        ring::times(ring::plus(ring::plus(e_x, e_x), e_u), ring::minus(e_x, e_u)),
        ring::plus(
            ring::plus(
                ring::plus(ring::times(e_x, e_x), ring::times(e_x, e_u)),
                ring::times(e_u, e_u),
            ),
            e_a,
        ),
    );
    let r = ring::plus(
        ring::plus(
            ring::plus(ring::times(e_x, e_x), ring::times(e_x, e_x)),
            ring::times(e_x, e_x),
        ),
        e_a,
    );
    assert forall|z: Seq<int>| z.len() == v.len() implies #[trigger] ring::number(l, z)
        == ring::number(r, z) by {
        let (a, x, u) = (z[0], z[1], z[2]);
        assert(((((x + x) + u) * (x - u)) + ((((x * x) + (x * u)) + (u * u)) + a))
            == ((((x * x) + (x * x)) + (x * x)) + a)) by (nonlinear_arith);
    }
    ring::law_identity(l, r, v);
}

/// Multiplying out the slope of the conic.
pub proof fn lemma_touch_left<F: Field>(x: F, u: F, k: F, d: F)
    requires
        x.valid(),
        u.valid(),
        k.valid(),
        d.valid(),
    ensures
        x.plus(x).plus(u.plus(k)).times(d) == x.plus(x).plus(u).times(d).plus(k.times(d)),
{
    broadcast use ring::group_evaluation;

    let v = seq![x, u, k, d];
    let (e_x, e_u, e_k, e_d) = (
        ring::var(0),
        ring::var(1),
        ring::var(2),
        ring::var(3),
    );
    let l = ring::times(ring::plus(ring::plus(e_x, e_x), ring::plus(e_u, e_k)), e_d);
    let r = ring::plus(
        ring::times(ring::plus(ring::plus(e_x, e_x), e_u), e_d),
        ring::times(e_k, e_d),
    );
    assert forall|z: Seq<int>| z.len() == v.len() implies #[trigger] ring::number(l, z)
        == ring::number(r, z) by {
        let (x, u, k, d) = (z[0], z[1], z[2], z[3]);
        assert((((x + x) + (u + k)) * d) == ((((x + x) + u) * d) + (k * d))) by (nonlinear_arith);
    }
    ring::law_identity(l, r, v);
}

/// Multiplying out the slope of the lines.
pub proof fn lemma_touch_right<F: Field>(m1: F, m2: F, t: F, d: F)
    requires
        m1.valid(),
        m2.valid(),
        t.valid(),
        d.valid(),
    ensures
        m1.plus(m2).times(t).times(d) == t.times(m1.times(d).plus(m2.times(d))),
{
    broadcast use ring::group_evaluation;

    let v = seq![m1, m2, t, d];
    let (e_m1, e_m2, e_t, e_d) = (
        ring::var(0),
        ring::var(1),
        ring::var(2),
        ring::var(3),
    );
    let l = ring::times(ring::times(ring::plus(e_m1, e_m2), e_t), e_d);
    let r = ring::times(e_t, ring::plus(ring::times(e_m1, e_d), ring::times(e_m2, e_d)));
    assert forall|z: Seq<int>| z.len() == v.len() implies #[trigger] ring::number(l, z)
        == ring::number(r, z) by {
        let (m1, m2, t, d) = (z[0], z[1], z[2], z[3]);
        assert((((m1 + m2) * t) * d) == (t * ((m1 * d) + (m2 * d)))) by (nonlinear_arith);
    }
    ring::law_identity(l, r, v);
}

/// The product of two multiples.
pub proof fn lemma_touch_product<F: Field>(m1: F, m2: F, d: F)
    requires
        m1.valid(),
        m2.valid(),
        d.valid(),
    ensures
        m1.times(m2).times(d).times(d) == m1.times(d).times(m2.times(d)),
{
    broadcast use ring::group_evaluation;

    let v = seq![m1, m2, d];
    let (e_m1, e_m2, e_d) = (
        ring::var(0),
        ring::var(1),
        ring::var(2),
    );
    let l = ring::times(ring::times(ring::times(e_m1, e_m2), e_d), e_d);
    let r = ring::times(ring::times(e_m1, e_d), ring::times(e_m2, e_d));
    assert forall|z: Seq<int>| z.len() == v.len() implies #[trigger] ring::number(l, z)
        == ring::number(r, z) by {
        let (m1, m2, d) = (z[0], z[1], z[2]);
        assert((((m1 * m2) * d) * d) == ((m1 * d) * (m2 * d))) by (nonlinear_arith);
    }
    ring::law_identity(l, r, v);
}

/// A sum and a difference add up.
pub proof fn lemma_twice<F: Field>(y: F, w: F)
    requires
        y.valid(),
        w.valid(),
    ensures
        y.plus(w).plus(field::minus(y, w)) == y.plus(y),
{
    broadcast use ring::group_evaluation;

    let v = seq![y, w];
    let (e_y, e_w) = (
        ring::var(0),
        ring::var(1),
    );
    let l = ring::plus(ring::plus(e_y, e_w), ring::minus(e_y, e_w));
    let r = ring::plus(e_y, e_y);
    assert forall|z: Seq<int>| z.len() == v.len() implies #[trigger] ring::number(l, z)
        == ring::number(r, z) by {
        let (y, w) = (z[0], z[1]);
        assert(((y + w) + (y - w)) == (y + y)) by (nonlinear_arith);
    }
    ring::law_identity(l, r, v);
}

/// The difference of two conics at a common point.
pub proof fn lemma_conics_meet<F: Field>(p: F, q: F, m: F, pp: F, qq: F, mm: F, x: F, y: F)
    requires
        p.valid(),
        q.valid(),
        m.valid(),
        pp.valid(),
        qq.valid(),
        mm.valid(),
        x.valid(),
        y.valid(),
        field::minus(x.times(x).plus(p.times(x)).plus(q), m.times(y)) == field::minus(x.times(x).plus(pp.times(x)).plus(qq), mm.times(y)),
    ensures
        field::minus(p, pp).times(x).plus(field::minus(q, qq)) == field::minus(m, mm).times(y),
{
    broadcast use ring::group_evaluation;

    let v = seq![p, q, m, pp, qq, mm, x, y];
    let (e_p, e_q, e_m, e_pp, e_qq, e_mm, e_x, e_y) = (
        ring::var(0),
        ring::var(1),
        ring::var(2),
        ring::var(3),
        ring::var(4),
        ring::var(5),
        ring::var(6),
        ring::var(7),
    );
    let l = ring::plus(ring::times(ring::minus(e_p, e_pp), e_x), ring::minus(e_q, e_qq));
    let r = ring::times(ring::minus(e_m, e_mm), e_y);
    let h = seq![
        Equation {
            left: ring::minus(
                ring::plus(ring::plus(ring::times(e_x, e_x), ring::times(e_p, e_x)), e_q),
                ring::times(e_m, e_y),
            ),
            right: ring::minus(
                ring::plus(ring::plus(ring::times(e_x, e_x), ring::times(e_pp, e_x)), e_qq),
                ring::times(e_mm, e_y),
            ),
            factor: ring::constant(1),
        },
    ];
    reveal_with_fuel(ring::slack, 2);
    assert forall|z: Seq<int>| z.len() == v.len() implies #[trigger] ring::number(l, z)
        == ring::number(r, z) + ring::number(ring::slack(h, h.len()), z) by {
        let (p, q, m, pp, qq, mm, x, y) = (z[0], z[1], z[2], z[3], z[4], z[5], z[6], z[7]);
        assert((((p - pp) * x) + (q - qq))
            == ((m - mm) * y)
            + (1) * (((((x * x) + (p * x)) + q) - (m * y)) - ((((x * x) + (pp * x)) + qq) - (mm * y)))) by (nonlinear_arith);
    }
    ring::law_consequence(l, r, h, v);
}

/// A line through two points of a line has its slope.
pub proof fn lemma_common_slope<F: Field>(s: F, c: F, al: F, be: F, ga: F, x1: F, x2: F)
    requires
        s.valid(),
        c.valid(),
        al.valid(),
        be.valid(),
        ga.valid(),
        x1.valid(),
        x2.valid(),
        al.times(x1).plus(be) == ga.times(s.times(x1).plus(c)),
        al.times(x2).plus(be) == ga.times(s.times(x2).plus(c)),
    ensures
        al.times(field::minus(x1, x2)) == ga.times(s).times(field::minus(x1, x2)),
{
    broadcast use ring::group_evaluation;

    let v = seq![s, c, al, be, ga, x1, x2];
    let (e_s, e_c, e_al, e_be, e_ga, e_x1, e_x2) = (
        ring::var(0),
        ring::var(1),
        ring::var(2),
        ring::var(3),
        ring::var(4),
        ring::var(5),
        ring::var(6),
    );
    let l = ring::times(e_al, ring::minus(e_x1, e_x2));
    let r = ring::times(ring::times(e_ga, e_s), ring::minus(e_x1, e_x2));
    let h = seq![
        Equation {
            left: ring::plus(ring::times(e_al, e_x1), e_be),
            right: ring::times(e_ga, ring::plus(ring::times(e_s, e_x1), e_c)),
            factor: ring::constant(1),
        },
        Equation {
            left: ring::plus(ring::times(e_al, e_x2), e_be),
            right: ring::times(e_ga, ring::plus(ring::times(e_s, e_x2), e_c)),
            factor: ring::constant(-1),
        },
    ];
    reveal_with_fuel(ring::slack, 3);
    assert forall|z: Seq<int>| z.len() == v.len() implies #[trigger] ring::number(l, z)
        == ring::number(r, z) + ring::number(ring::slack(h, h.len()), z) by {
        let (s, c, al, be, ga, x1, x2) = (z[0], z[1], z[2], z[3], z[4], z[5], z[6]);
        assert((al * (x1 - x2))
            == ((ga * s) * (x1 - x2))
            + (1) * (((al * x1) + be) - (ga * ((s * x1) + c)))
            + (-1) * (((al * x2) + be) - (ga * ((s * x2) + c)))) by (nonlinear_arith);
    }
    ring::law_consequence(l, r, h, v);
}

/// Conics that touch a line at one point differ by a multiple of it.
pub proof fn lemma_common_tangent<F: Field>(s: F, x: F, p: F, m: F, pp: F, mm: F)
    requires
        s.valid(),
        x.valid(),
        p.valid(),
        m.valid(),
        pp.valid(),
        mm.valid(),
        x.plus(x).plus(p) == m.times(s),
        x.plus(x).plus(pp) == mm.times(s),
    ensures
        field::minus(p, pp) == field::minus(m, mm).times(s),
{
    broadcast use ring::group_evaluation;

    let v = seq![s, x, p, m, pp, mm];
    let (e_s, e_x, e_p, e_m, e_pp, e_mm) = (
        ring::var(0),
        ring::var(1),
        ring::var(2),
        ring::var(3),
        ring::var(4),
        ring::var(5),
    );
    let l = ring::minus(e_p, e_pp);
    let r = ring::times(ring::minus(e_m, e_mm), e_s);
    let h = seq![
        Equation {
            left: ring::plus(ring::plus(e_x, e_x), e_p),
            right: ring::times(e_m, e_s),
            factor: ring::constant(1),
        },
        Equation {
            left: ring::plus(ring::plus(e_x, e_x), e_pp),
            right: ring::times(e_mm, e_s),
            factor: ring::constant(-1),
        },
    ];
    reveal_with_fuel(ring::slack, 3);
    assert forall|z: Seq<int>| z.len() == v.len() implies #[trigger] ring::number(l, z)
        == ring::number(r, z) + ring::number(ring::slack(h, h.len()), z) by {
        let (s, x, p, m, pp, mm) = (z[0], z[1], z[2], z[3], z[4], z[5]);
        assert((p - pp)
            == ((m - mm) * s)
            + (1) * (((x + x) + p) - (m * s))
            + (-1) * (((x + x) + pp) - (mm * s))) by (nonlinear_arith);
    }
    ring::law_consequence(l, r, h, v);
}

/// A further point of a line with the same slope.
pub proof fn lemma_joins_line<F: Field>(s: F, c: F, be: F, ga: F, x1: F, x3: F, y3: F)
    requires
        s.valid(),
        c.valid(),
        be.valid(),
        ga.valid(),
        x1.valid(),
        x3.valid(),
        y3.valid(),
        ga.times(s).times(x1).plus(be) == ga.times(s.times(x1).plus(c)),
        ga.times(s).times(x3).plus(be) == ga.times(y3),
    ensures
        y3.times(ga) == s.times(x3).plus(c).times(ga),
{
    broadcast use ring::group_evaluation;

    let v = seq![s, c, be, ga, x1, x3, y3];
    let (e_s, e_c, e_be, e_ga, e_x1, e_x3, e_y3) = (
        ring::var(0),
        ring::var(1),
        ring::var(2),
        ring::var(3),
        ring::var(4),
        ring::var(5),
        ring::var(6),
    );
    let l = ring::times(e_y3, e_ga);
    let r = ring::times(ring::plus(ring::times(e_s, e_x3), e_c), e_ga);
    let h = seq![
        Equation {
            left: ring::plus(ring::times(ring::times(e_ga, e_s), e_x1), e_be),
            right: ring::times(e_ga, ring::plus(ring::times(e_s, e_x1), e_c)),
            factor: ring::constant(1),
        },
        Equation {
            left: ring::plus(ring::times(ring::times(e_ga, e_s), e_x3), e_be),
            right: ring::times(e_ga, e_y3),
            factor: ring::constant(-1),
        },
    ];
    reveal_with_fuel(ring::slack, 3);
    assert forall|z: Seq<int>| z.len() == v.len() implies #[trigger] ring::number(l, z)
        == ring::number(r, z) + ring::number(ring::slack(h, h.len()), z) by {
        let (s, c, be, ga, x1, x3, y3) = (z[0], z[1], z[2], z[3], z[4], z[5], z[6]);
        assert((y3 * ga)
            == (((s * x3) + c) * ga)
            + (1) * ((((ga * s) * x1) + be) - (ga * ((s * x1) + c)))
            + (-1) * ((((ga * s) * x3) + be) - (ga * y3))) by (nonlinear_arith);
    }
    ring::law_consequence(l, r, h, v);
}

/// The abscissas on a conic.
pub proof fn lemma_conic_sum<F: Field>(u: F, m1: F, m2: F, x1: F, x2: F, x3: F, xs: F)
    requires
        u.valid(),
        m1.valid(),
        m2.valid(),
        x1.valid(),
        x2.valid(),
        x3.valid(),
        xs.valid(),
        m1.times(m1) == x1.plus(x2).plus(u),
        m2.times(m2) == u.plus(x3).plus(xs),
    ensures
        u.plus(m1.times(m2)).plus(u.plus(m1.times(m2))).plus(x1.plus(x2).plus(x3).plus(xs)) == m1.plus(m2).times(m1.plus(m2)),
{
    broadcast use ring::group_evaluation;

    let v = seq![u, m1, m2, x1, x2, x3, xs];
    let (e_u, e_m1, e_m2, e_x1, e_x2, e_x3, e_xs) = (
        ring::var(0),
        ring::var(1),
        ring::var(2),
        ring::var(3),
        ring::var(4),
        ring::var(5),
        ring::var(6),
    );
    let l = ring::plus(
        ring::plus(
            ring::plus(e_u, ring::times(e_m1, e_m2)),
            ring::plus(e_u, ring::times(e_m1, e_m2)),
        ),
        ring::plus(ring::plus(ring::plus(e_x1, e_x2), e_x3), e_xs),
    );
    let r = ring::times(ring::plus(e_m1, e_m2), ring::plus(e_m1, e_m2));
    let h = seq![
        Equation {
            left: ring::times(e_m1, e_m1),
            right: ring::plus(ring::plus(e_x1, e_x2), e_u),
            factor: ring::constant(-1),
        },
        Equation {
            left: ring::times(e_m2, e_m2),
            right: ring::plus(ring::plus(e_u, e_x3), e_xs),
            factor: ring::constant(-1),
        },
    ];
    reveal_with_fuel(ring::slack, 3);
    assert forall|z: Seq<int>| z.len() == v.len() implies #[trigger] ring::number(l, z)
        == ring::number(r, z) + ring::number(ring::slack(h, h.len()), z) by {
        let (u, m1, m2, x1, x2, x3, xs) = (z[0], z[1], z[2], z[3], z[4], z[5], z[6]);
        assert((((u + (m1 * m2)) + (u + (m1 * m2))) + (((x1 + x2) + x3) + xs))
            == ((m1 + m2) * (m1 + m2))
            + (-1) * ((m1 * m1) - ((x1 + x2) + u))
            + (-1) * ((m2 * m2) - ((u + x3) + xs))) by (nonlinear_arith);
    }
    ring::law_consequence(l, r, h, v);
}

/// The fourth abscissa on a conic.
pub proof fn lemma_fourth_point<F: Field>(p: F, q: F, x1: F, x2: F, x3: F, xs: F, xt: F)
    requires
        p.valid(),
        q.valid(),
        x1.valid(),
        x2.valid(),
        x3.valid(),
        xs.valid(),
        xt.valid(),
        p.plus(p).plus(x1.plus(x2).plus(x3).plus(xs)) == q,
        p.plus(p).plus(x2.plus(x3).plus(x1).plus(xt)) == q,
    ensures
        xs == xt,
{
    broadcast use ring::group_evaluation;

    let v = seq![p, q, x1, x2, x3, xs, xt];
    let (e_p, e_q, e_x1, e_x2, e_x3, e_xs, e_xt) = (
        ring::var(0),
        ring::var(1),
        ring::var(2),
        ring::var(3),
        ring::var(4),
        ring::var(5),
        ring::var(6),
    );
    let l = e_xs;
    let r = e_xt;
    let h = seq![
        Equation {
            left: ring::plus(
                ring::plus(e_p, e_p),
                ring::plus(ring::plus(ring::plus(e_x1, e_x2), e_x3), e_xs),
            ),
            right: e_q,
            factor: ring::constant(1),
        },
        Equation {
            left: ring::plus(
                ring::plus(e_p, e_p),
                ring::plus(ring::plus(ring::plus(e_x2, e_x3), e_x1), e_xt),
            ),
            right: e_q,
            factor: ring::constant(-1),
        },
    ];
    reveal_with_fuel(ring::slack, 3);
    assert forall|z: Seq<int>| z.len() == v.len() implies #[trigger] ring::number(l, z)
        == ring::number(r, z) + ring::number(ring::slack(h, h.len()), z) by {
        let (p, q, x1, x2, x3, xs, xt) = (z[0], z[1], z[2], z[3], z[4], z[5], z[6]);
        assert(xs
            == xt
            + (1) * (((p + p) + (((x1 + x2) + x3) + xs)) - q)
            + (-1) * (((p + p) + (((x2 + x3) + x1) + xt)) - q)) by (nonlinear_arith);
    }
    ring::law_consequence(l, r, h, v);
}

/// The fourth ordinate on a conic.
pub proof fn lemma_fourth_ordinate<F: Field>(p: F, q: F, m: F, x: F, y1: F, y2: F)
    requires
        p.valid(),
        q.valid(),
        m.valid(),
        x.valid(),
        y1.valid(),
        y2.valid(),
        field::minus(x.times(x).plus(p.times(x)).plus(q), m.times(y1)) == field::minus(x.times(x).plus(p.times(x)).plus(q), m.times(y2)),
    ensures
        y1.times(m) == y2.times(m),
{
    broadcast use ring::group_evaluation;

    let v = seq![p, q, m, x, y1, y2];
    let (e_p, e_q, e_m, e_x, e_y1, e_y2) = (
        ring::var(0),
        ring::var(1),
        ring::var(2),
        ring::var(3),
        ring::var(4),
        ring::var(5),
    );
    let l = ring::times(e_y1, e_m);
    let r = ring::times(e_y2, e_m);
    let h = seq![
        Equation {
            left: ring::minus(
                ring::plus(ring::plus(ring::times(e_x, e_x), ring::times(e_p, e_x)), e_q),
                ring::times(e_m, e_y1),
            ),
            right: ring::minus(
                ring::plus(ring::plus(ring::times(e_x, e_x), ring::times(e_p, e_x)), e_q),
                ring::times(e_m, e_y2),
            ),
            factor: ring::constant(-1),
        },
    ];
    reveal_with_fuel(ring::slack, 2);
    assert forall|z: Seq<int>| z.len() == v.len() implies #[trigger] ring::number(l, z)
        == ring::number(r, z) + ring::number(ring::slack(h, h.len()), z) by {
        let (p, q, m, x, y1, y2) = (z[0], z[1], z[2], z[3], z[4], z[5]);
        assert((y1 * m)
            == (y2 * m)
            + (-1) * (((((x * x) + (p * x)) + q) - (m * y1)) - ((((x * x) + (p * x)) + q) - (m * y2)))) by (nonlinear_arith);
    }
    ring::law_consequence(l, r, h, v);
}

/// Two points of a conic.
pub proof fn lemma_flat_conic<F: Field>(p: F, q: F, m: F, x1: F, y1: F, x3: F, y3: F)
    requires
        p.valid(),
        q.valid(),
        m.valid(),
        x1.valid(),
        y1.valid(),
        x3.valid(),
        y3.valid(),
        field::minus(x1.times(x1).plus(p.times(x1)).plus(q), m.times(y1)) == field::minus(x3.times(x3).plus(p.times(x3)).plus(q), m.times(y3)),
    ensures
        x1.plus(x3).plus(p).times(field::minus(x1, x3)) == m.times(field::minus(y1, y3)),
{
    broadcast use ring::group_evaluation;

    let v = seq![p, q, m, x1, y1, x3, y3];
    let (e_p, e_q, e_m, e_x1, e_y1, e_x3, e_y3) = (
        ring::var(0),
        ring::var(1),
        ring::var(2),
        ring::var(3),
        ring::var(4),
        ring::var(5),
        ring::var(6),
    );
    let l = ring::times(ring::plus(ring::plus(e_x1, e_x3), e_p), ring::minus(e_x1, e_x3));
    let r = ring::times(e_m, ring::minus(e_y1, e_y3));
    let h = seq![
        Equation {
            left: ring::minus(
                ring::plus(ring::plus(ring::times(e_x1, e_x1), ring::times(e_p, e_x1)), e_q),
                ring::times(e_m, e_y1),
            ),
            right: ring::minus(
                ring::plus(ring::plus(ring::times(e_x3, e_x3), ring::times(e_p, e_x3)), e_q),
                ring::times(e_m, e_y3),
            ),
            factor: ring::constant(1),
        },
    ];
    reveal_with_fuel(ring::slack, 2);
    assert forall|z: Seq<int>| z.len() == v.len() implies #[trigger] ring::number(l, z)
        == ring::number(r, z) + ring::number(ring::slack(h, h.len()), z) by {
        let (p, q, m, x1, y1, x3, y3) = (z[0], z[1], z[2], z[3], z[4], z[5], z[6]);
        assert((((x1 + x3) + p) * (x1 - x3))
            == (m * (y1 - y3))
            + (1) * (((((x1 * x1) + (p * x1)) + q) - (m * y1)) - ((((x3 * x3) + (p * x3)) + q) - (m * y3)))) by (nonlinear_arith);
    }
    ring::law_consequence(l, r, h, v);
}

/// Points of a conic without slope.
pub proof fn lemma_flat_points<F: Field>(u: F, m1: F, m2: F, x1: F, x2: F, x3: F)
    requires
        u.valid(),
        m1.valid(),
        m2.valid(),
        x1.valid(),
        x2.valid(),
        x3.valid(),
        x1.plus(x3).plus(u.plus(m1.times(m2))) == F::ZERO,
        m1.plus(m2) == F::ZERO,
        m1.times(m1) == x1.plus(x2).plus(u),
    ensures
        x3 == x2,
{
    broadcast use ring::group_evaluation;

    let v = seq![u, m1, m2, x1, x2, x3];
    let (e_u, e_m1, e_m2, e_x1, e_x2, e_x3) = (
        ring::var(0),
        ring::var(1),
        ring::var(2),
        ring::var(3),
        ring::var(4),
        ring::var(5),
    );
    let l = e_x3;
    let r = e_x2;
    let h = seq![
        Equation {
            left: ring::plus(ring::plus(e_x1, e_x3), ring::plus(e_u, ring::times(e_m1, e_m2))),
            right: ring::constant(0),
            factor: ring::constant(1),
        },
        Equation {
            left: ring::plus(e_m1, e_m2),
            right: ring::constant(0),
            factor: ring::times(ring::constant(-1), e_m1),
        },
        Equation {
            left: ring::times(e_m1, e_m1),
            right: ring::plus(ring::plus(e_x1, e_x2), e_u),
            factor: ring::constant(1),
        },
    ];
    assert(ring::embed_nat::<F>(0) == F::ZERO);
    reveal_with_fuel(ring::slack, 4);
    assert forall|z: Seq<int>| z.len() == v.len() implies #[trigger] ring::number(l, z)
        == ring::number(r, z) + ring::number(ring::slack(h, h.len()), z) by {
        let (u, m1, m2, x1, x2, x3) = (z[0], z[1], z[2], z[3], z[4], z[5]);
        assert(x3
            == x2
            + (1) * (((x1 + x3) + (u + (m1 * m2))) - (0))
            + ((-1) * m1) * ((m1 + m2) - (0))
            + (1) * ((m1 * m1) - ((x1 + x2) + u))) by (nonlinear_arith);
    }
    ring::law_consequence(l, r, h, v);
}

/// A common root of the cubic and its derivative.
pub proof fn lemma_singular_point<F: Field>(a: F, b: F, x: F)
    requires
        a.valid(),
        b.valid(),
        x.valid(),
        x.times(x).plus(x.times(x)).plus(x.times(x)).plus(a) == F::ZERO,
        x.times(x).times(x).plus(a.times(x)).plus(b) == F::ZERO,
    ensures
        a.times(x).plus(a.times(x)).plus(b.plus(b).plus(b)) == F::ZERO,
{
    broadcast use ring::group_evaluation;

    let v = seq![a, b, x];
    let (e_a, e_b, e_x) = (
        ring::var(0),
        ring::var(1),
        ring::var(2),
    );
    let l = ring::plus(
        ring::plus(ring::times(e_a, e_x), ring::times(e_a, e_x)),
        ring::plus(ring::plus(e_b, e_b), e_b),
    );
    let r = ring::constant(0);
    let h = seq![
        Equation {
            left: ring::plus(
                ring::plus(
                    ring::plus(ring::times(e_x, e_x), ring::times(e_x, e_x)),
                    ring::times(e_x, e_x),
                ),
                e_a,
            ),
            right: ring::constant(0),
            factor: ring::times(ring::constant(-1), e_x),
        },
        Equation {
            left: ring::plus(
                ring::plus(ring::times(ring::times(e_x, e_x), e_x), ring::times(e_a, e_x)),
                e_b,
            ),
            right: ring::constant(0),
            factor: ring::constant(3),
        },
    ];
    assert(ring::embed_nat::<F>(0) == F::ZERO);
    reveal_with_fuel(ring::slack, 3);
    assert forall|z: Seq<int>| z.len() == v.len() implies #[trigger] ring::number(l, z)
        == ring::number(r, z) + ring::number(ring::slack(h, h.len()), z) by {
        let (a, b, x) = (z[0], z[1], z[2]);
        assert((((a * x) + (a * x)) + ((b + b) + b))
            == (0)
            + ((-1) * x) * (((((x * x) + (x * x)) + (x * x)) + a) - (0))
            + (3) * (((((x * x) * x) + (a * x)) + b) - (0))) by (nonlinear_arith);
    }
    ring::law_consequence(l, r, h, v);
}

/// The square of a product.
pub proof fn lemma_square_of_product<F: Field>(a: F, x: F)
    requires
        a.valid(),
        x.valid(),
    ensures
        a.times(a).times(x.times(x)) == a.times(x).times(a.times(x)),
{
    broadcast use ring::group_evaluation;

    let v = seq![a, x];
    let (e_a, e_x) = (
        ring::var(0),
        ring::var(1),
    );
    let l = ring::times(ring::times(e_a, e_a), ring::times(e_x, e_x));
    let r = ring::times(ring::times(e_a, e_x), ring::times(e_a, e_x));
    assert forall|z: Seq<int>| z.len() == v.len() implies #[trigger] ring::number(l, z)
        == ring::number(r, z) by {
        let (a, x) = (z[0], z[1]);
        assert(((a * a) * (x * x)) == ((a * x) * (a * x))) by (nonlinear_arith);
    }
    ring::law_identity(l, r, v);
}

/// The discriminant at a common root of the cubic and its derivative.
pub proof fn lemma_discriminant<F: Field>(a: F, e: F, p: F, q: F, t: F)
    requires
        a.valid(),
        e.valid(),
        p.valid(),
        q.valid(),
        t.valid(),
        p.plus(p).plus(p).plus(a) == F::ZERO,
        t.plus(t).plus(e) == F::ZERO,
        q.times(p) == t.times(t),
    ensures
        q.times(a).plus(q.times(a)).plus(q.times(a)).plus(q.times(a)).plus(e.times(e).plus(e.times(e)).plus(e.times(e))) == F::ZERO,
{
    broadcast use ring::group_evaluation;

    let v = seq![a, e, p, q, t];
    let (e_a, e_e, e_p, e_q, e_t) = (
        ring::var(0),
        ring::var(1),
        ring::var(2),
        ring::var(3),
        ring::var(4),
    );
    let l = ring::plus(
        ring::plus(
            ring::plus(
                ring::plus(ring::times(e_q, e_a), ring::times(e_q, e_a)),
                ring::times(e_q, e_a),
            ),
            ring::times(e_q, e_a),
        ),
        ring::plus(
            ring::plus(ring::times(e_e, e_e), ring::times(e_e, e_e)),
            ring::times(e_e, e_e),
        ),
    );
    let r = ring::constant(0);
    let h = seq![
        Equation {
            left: ring::plus(ring::plus(ring::plus(e_p, e_p), e_p), e_a),
            right: ring::constant(0),
            factor: ring::times(ring::constant(4), e_q),
        },
        Equation {
            left: ring::plus(ring::plus(e_t, e_t), e_e),
            right: ring::constant(0),
            factor: ring::times(
                ring::times(ring::constant(-1), ring::constant(3)),
                ring::plus(
                    ring::times(ring::constant(-1), e_e),
                    ring::times(ring::constant(2), e_t),
                ),
            ),
        },
        Equation {
            left: ring::times(e_q, e_p),
            right: ring::times(e_t, e_t),
            factor: ring::constant(-12),
        },
    ];
    assert(ring::embed_nat::<F>(0) == F::ZERO);
    reveal_with_fuel(ring::slack, 4);
    assert forall|z: Seq<int>| z.len() == v.len() implies #[trigger] ring::number(l, z)
        == ring::number(r, z) + ring::number(ring::slack(h, h.len()), z) by {
        let (a, e, p, q, t) = (z[0], z[1], z[2], z[3], z[4]);
        assert((((((q * a) + (q * a)) + (q * a)) + (q * a)) + (((e * e) + (e * e)) + (e * e)))
            == (0)
            + ((4) * q) * ((((p + p) + p) + a) - (0))
            + (((-1) * (3)) * (((-1) * e) + ((2) * t))) * (((t + t) + e) - (0))
            + (-12) * ((q * p) - (t * t))) by (nonlinear_arith);
    }
    ring::law_consequence(l, r, h, v);
}

} // verus!
