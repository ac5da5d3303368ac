//! Pippenger MSM with batched-affine bucket accumulation.
//!
//! Accumulating buckets with mixed projective+affine additions takes ~11
//! field multiplications each. Here the points of each bucket are reduced by
//! a balanced binary tree whose additions run in AFFINE coordinates: one
//! field inversion per addition, amortized across every pair of the tree
//! level with one Montgomery batch inversion (~3 multiplications per
//! element), for ~6 multiplications per addition. All pairs of a level are
//! independent by construction — no collision scheduling is needed.
//!
//! Degenerate additions are classified per pair before the batch
//! inversion: identity operands, equal-x doublings (sharing the batch
//! inversion with `2y` as denominator) and `P + (-P) = identity` all take
//! explicit paths, so the kernel is correct on adversarial inputs, not
//! just random ones.
use crate::associativity;
use crate::buckets;
use crate::curve;
use crate::curve::{Affine, BigInteger, Point, PrimeField, Projective, SWCurveConfig};
use crate::digits;
use crate::field;
use crate::field::Field;
use crate::group;
use crate::limbs;
use vstd::arithmetic::div_mod::*;
use vstd::arithmetic::mul::*;
use vstd::arithmetic::power2::*;
use vstd::prelude::*;

verus! {

/// How one addition is carried out.
#[derive(Clone, Copy)]
enum Kind {
    /// `a + b`, distinct x coordinates: `den = b.x - a.x`.
    Add,
    /// `a + a` (equal coordinates, y != 0): `den = 2 a.y`.
    Double,
    /// `b` is the identity (also used to move an odd leftover): result `a`.
    TakeA,
    /// `a` is the identity: result `b`.
    TakeB,
    /// `a = -b` or a doubling with y = 0: result identity.
    Identity,
}

/// An addition of two points that waits for the inversion of its denominator.
struct Pending<P: SWCurveConfig> {
    a: Affine<P>,
    b: Affine<P>,
    out: usize,
    kind: Kind,
}

/// The case of the addition rule that `a + b` falls under.
spec fn kind_of<P: SWCurveConfig>(a: Affine<P>, b: Affine<P>) -> Kind {
    match (a.point(), b.point()) {
        (None, _) => Kind::TakeB,
        (_, None) => Kind::TakeA,
        (Some((x1, y1)), Some((x2, y2))) => {
            if x1 != x2 {
                Kind::Add
            } else if y1 == y2 && y1 != P::BaseField::ZERO {
                Kind::Double
            } else {
                Kind::Identity
            }
        },
    }
}

/// What an addition divides by; one where it does not divide.
spec fn denominator<P: SWCurveConfig>(a: Affine<P>, b: Affine<P>) -> P::BaseField {
    match kind_of(a, b) {
        Kind::Add => field::minus(b.x, a.x),
        Kind::Double => a.y.plus(a.y),
        _ => P::BaseField::ONE,
    }
}

/// All members are valid.
pub open spec fn all_valid<P: SWCurveConfig>(pts: Seq<Affine<P>>) -> bool {
    forall|i: int| 0 <= i < pts.len() ==> (#[trigger] pts[i]).valid()
}

/// The operands of all pending additions are valid.
spec fn valid_operands<P: SWCurveConfig>(pending: Seq<Pending<P>>) -> bool {
    forall|i: int|
        0 <= i < pending.len() ==> (#[trigger] pending[i]).a.valid() && pending[i].b.valid()
}

/// Sorts an addition into its case.
fn classify<P: SWCurveConfig>(a: &Affine<P>, b: &Affine<P>) -> (kind: Kind)
    requires
        a.valid(),
        b.valid(),
    ensures
        kind == kind_of(*a, *b),
{
    if a.is_zero() {
        Kind::TakeB
    } else if b.is_zero() {
        Kind::TakeA
    } else if !a.x.equals(&b.x) {
        Kind::Add
    } else if a.y.equals(&b.y) && !a.y.is_zero() {
        Kind::Double
    } else {
        Kind::Identity
    }
}

/// Carries out one addition, given the reciprocal of its denominator.
fn apply<P: SWCurveConfig>(p: &Pending<P>, inv: &P::BaseField) -> (r: Affine<P>)
    requires
        p.a.valid(),
        p.b.valid(),
        inv.valid(),
        p.kind == kind_of(p.a, p.b),
        *inv == field::reciprocal(denominator(p.a, p.b)),
    ensures
        r.valid(),
        r.point() == curve::sum::<P>(p.a.point(), p.b.point()),
{
    proof {
        P::law_coefficient();
    }
    match p.kind {
        Kind::TakeA => p.a,
        Kind::TakeB => p.b,
        Kind::Identity => Affine::zero(),
        Kind::Add => {
            let lambda: P::BaseField = p.b.y.sub(&p.a.y).mul(inv);
            let x3: P::BaseField = lambda.square().sub(&p.a.x).sub(&p.b.x);
            let y3: P::BaseField = lambda.mul(&p.a.x.sub(&x3)).sub(&p.a.y);
            Affine::new_unchecked(x3, y3)
        },
        Kind::Double => {
            let sq: P::BaseField = p.a.x.square();
            let lambda: P::BaseField = sq.double().add(&sq).add(&P::COEFF_A).mul(inv);
            let x3: P::BaseField = lambda.square().sub(&p.a.x.double());
            let y3: P::BaseField = lambda.mul(&p.a.x.sub(&x3)).sub(&p.a.y);
            Affine::new_unchecked(x3, y3)
        },
    }
}

/// No two pending additions write to the same position.
spec fn independent<P: SWCurveConfig>(pending: Seq<Pending<P>>) -> bool {
    forall|k: int, m: int|
        0 <= k < m < pending.len() ==> (#[trigger] pending[k]).out != (#[trigger] pending[m]).out
}

/// Classifies every pending addition, batch-inverts the denominators of
/// the non-degenerate ones, then computes and writes all results.
fn batch_apply<P: SWCurveConfig>(
    pts: &mut Vec<Affine<P>>,
    pending: &mut Vec<Pending<P>>,
    dens: &mut Vec<P::BaseField>,
)
    requires
        all_valid(old(pts)@),
        valid_operands(old(pending)@),
        independent(old(pending)@),
        forall|k: int|
            0 <= k < old(pending)@.len() ==> (#[trigger] old(pending)@[k]).out < old(pts)@.len(),
    ensures
        all_valid(final(pts)@),
        final(pts)@.len() == old(pts)@.len(),
        // positions that nothing is written to
        forall|i: int|
            0 <= i < old(pts)@.len() && (forall|k: int|
                0 <= k < old(pending)@.len() ==> (#[trigger] old(pending)@[k]).out != i)
                ==> #[trigger] final(pts)@[i] == old(pts)@[i],
        // positions that a result is written to
        forall|k: int|
            #![trigger old(pending)@[k]]
            0 <= k < old(pending)@.len() ==> final(pts)@[old(pending)@[k].out as int].point()
                == curve::sum::<P>(old(pending)@[k].a.point(), old(pending)@[k].b.point()),
        // what is left in the work space
        final(pending)@.len() == old(pending)@.len(),
        final(dens)@.len() == old(pending)@.len(),
        forall|k: int|
            0 <= k < old(pending)@.len() ==> #[trigger] final(pending)@[k] == (Pending {
                kind: kind_of(old(pending)@[k].a, old(pending)@[k].b),
                ..old(pending)@[k]
            }),
        forall|k: int|
            0 <= k < old(pending)@.len() ==> #[trigger] final(dens)@[k] == field::reciprocal(
                denominator(old(pending)@[k].a, old(pending)@[k].b),
            ),
{
    let ghost items = pending@;
    let ghost pts0 = pts@;
    let n: usize = pending.len();
    dens.clear();
    proof {
        P::BaseField::law_closed();
    }
    for i in 0..n
        invariant
            P::BaseField::ONE.valid(),
            field::all_valid(dens@),
            valid_operands(items),
            n == items.len(),
            pending@.len() == n,
            dens@.len() == i,
            forall|k: int|
                0 <= k < n ==> (#[trigger] pending@[k]).a == items[k].a && pending@[k].b == items[k].b
                    && pending@[k].out == items[k].out,
            forall|k: int|
                0 <= k < i ==> (#[trigger] pending@[k]).kind == kind_of(items[k].a, items[k].b),
            forall|k: int|
                0 <= k < i ==> #[trigger] dens@[k] == denominator(items[k].a, items[k].b),
    {
        let (a, b, out): (Affine<P>, Affine<P>, usize) = (
            pending[i].a,
            pending[i].b,
            pending[i].out,
        );
        assert(items[i as int].a.valid() && items[i as int].b.valid());
        let kind: Kind = classify(&a, &b);
        pending[i] = Pending { a, b, out, kind };
        dens.push(
            match kind {
                Kind::Add => b.x.sub(&a.x),
                Kind::Double => a.y.double(),
                _ => P::BaseField::ONE,
            },
        );
    }
    field::batch_inversion(dens);
    for i in 0..n
        invariant
            all_valid(pts@),
            valid_operands(items),
            field::all_valid(dens@),
            n == items.len(),
            pending@.len() == n,
            dens@.len() == n,
            pts@.len() == pts0.len(),
            forall|k: int| 0 <= k < n ==> (#[trigger] items[k]).out < pts0.len(),
            forall|k: int|
                0 <= k < n ==> (#[trigger] pending@[k]).a == items[k].a && pending@[k].b == items[k].b
                    && pending@[k].out == items[k].out,
            forall|k: int|
                0 <= k < n ==> (#[trigger] pending@[k]).kind == kind_of(items[k].a, items[k].b),
            forall|k: int|
                0 <= k < n ==> #[trigger] dens@[k] == field::reciprocal(
                    denominator(items[k].a, items[k].b),
                ),
            independent(items),
            forall|j: int|
                0 <= j < pts0.len() && (forall|k: int|
                    0 <= k < n ==> (#[trigger] items[k]).out != j) ==> #[trigger] pts@[j] == pts0[j],
            forall|k: int|
                #![trigger items[k]]
                0 <= k < i ==> pts@[items[k].out as int].point() == curve::sum::<P>(
                    items[k].a.point(),
                    items[k].b.point(),
                ),
    {
        assert(items[i as int].a.valid() && items[i as int].b.valid());
        assert(dens@[i as int].valid());
        let r: Affine<P> = apply(&pending[i], &dens[i]);
        let out: usize = pending[i].out;
        assert(out == items[i as int].out);
        pts[out] = r;
    }
}

/// The points that a sequence of affine coordinates stands for.
pub open spec fn points_of<P: SWCurveConfig>(bases: Seq<Affine<P>>) -> Seq<Point<P::BaseField>> {
    Seq::new(bases.len(), |i: int| bases[i].point())
}

/// How many of the first `n` points the buckets below `b` hold.
spec fn filled<F: Field>(points: Seq<Point<F>>, column: Seq<i64>, b: nat, n: nat) -> nat
    decreases b,
{
    if b == 0 {
        0
    } else {
        filled(points, column, (b - 1) as nat, n) + buckets::members(
            points,
            column,
            (b - 1) as nat,
            n,
        ).len()
    }
}

/// One more point adds at most one to what buckets hold.
proof fn lemma_filled_step<F: Field>(points: Seq<Point<F>>, column: Seq<i64>, b: nat, n: nat)
    requires
        n > 0,
    ensures
        filled(points, column, b, n) <= filled(points, column, b, (n - 1) as nat) + 1,
        points[n - 1] is None || column[n - 1] == 0 || column[n - 1] > b || column[n - 1] < -b
            ==> filled(points, column, b, n) == filled(points, column, b, (n - 1) as nat),
    decreases b,
{
    if b > 0 {
        lemma_filled_step(points, column, (b - 1) as nat, n);
    }
}

/// Buckets hold no more than there is.
proof fn lemma_filled_bound<F: Field>(points: Seq<Point<F>>, column: Seq<i64>, b: nat, n: nat)
    ensures
        filled(points, column, b, n) <= n,
    decreases n, b,
{
    if n > 0 {
        lemma_filled_step(points, column, b, n);
        lemma_filled_bound(points, column, b, (n - 1) as nat);
    } else if b > 0 {
        lemma_filled_bound(points, column, (b - 1) as nat, n);
    }
}

/// Later buckets start after the members of earlier ones.
proof fn lemma_filled_monotone<F: Field>(
    points: Seq<Point<F>>,
    column: Seq<i64>,
    b: nat,
    e: nat,
    n: nat,
)
    requires
        b < e,
    ensures
        filled(points, column, b, n) + buckets::members(points, column, b, n).len() <= filled(
            points,
            column,
            e,
            n,
        ),
    decreases e,
{
    if b + 1 < e {
        lemma_filled_monotone(points, column, b, (e - 1) as nat, n);
    }
}

/// Buckets only grow.
proof fn lemma_members_grow<F: Field>(
    points: Seq<Point<F>>,
    column: Seq<i64>,
    b: nat,
    m: nat,
    n: nat,
)
    requires
        m <= n,
    ensures
        buckets::members(points, column, b, m).len() <= buckets::members(
            points,
            column,
            b,
            n,
        ).len() <= n,
    decreases n,
{
    if n > m {
        lemma_members_grow(points, column, b, m, (n - 1) as nat);
    } else if n > 0 {
        lemma_members_grow(points, column, b, (m - 1) as nat, (n - 1) as nat);
    }
}

/// The bucket of a digit other than zero.
fn bucket_of(d: i64) -> (b: usize)
    requires
        d != 0,
        -usize::MAX <= d <= usize::MAX,
    ensures
        d == b + 1 || d == -(b + 1),
{
    if d < 0 {
        (-(d + 1)) as usize
    } else {
        (d - 1) as usize
    }
}

/// Digit `w` of scalar `j` lies within the digits of all scalars.
proof fn lemma_digit_index(j: int, stride: int, w: int, n: int)
    requires
        0 <= j < n,
        0 <= w < stride,
    ensures
        0 <= j * stride <= j * stride + w < n * stride,
{
    assert(0 <= j * stride && j * stride + w < n * stride) by (nonlinear_arith)
        requires
            0 <= j < n,
            0 <= w < stride,
    ;
}

/// What the sum of a window is given: at least `stride` digits for every base, those of window `w`
/// within the range of the buckets.
pub open spec fn window_input<P: SWCurveConfig>(
    bases: Seq<Affine<P>>,
    scalar_digits: Seq<i64>,
    stride: nat,
    w: nat,
    n_buckets: nat,
) -> bool {
    &&& all_valid(bases)
    &&& w < stride
    &&& scalar_digits.len() >= bases.len() * stride
    &&& n_buckets <= usize::MAX
    &&& forall|j: int|
        0 <= j < bases.len() ==> -n_buckets <= #[trigger] buckets::column(
            scalar_digits,
            stride,
            w,
            bases.len(),
        )[j] <= n_buckets
}

/// Counts the members of every bucket.
fn count_members<P: SWCurveConfig>(
    bases: &[Affine<P>],
    scalar_digits: &Vec<i64>,
    stride: usize,
    w: usize,
    n_buckets: usize,
) -> (lens: Vec<usize>)
    requires
        window_input(bases@, scalar_digits@, stride as nat, w as nat, n_buckets as nat),
    ensures
        lens@.len() == n_buckets,
        forall|b: int|
            0 <= b < n_buckets ==> #[trigger] lens@[b] == buckets::members(
                points_of(bases@),
                buckets::column(scalar_digits@, stride as nat, w as nat, bases@.len()),
                b as nat,
                bases@.len(),
            ).len(),
{
    let n: usize = bases.len();
    let ghost points = points_of(bases@);
    let ghost col = buckets::column(scalar_digits@, stride as nat, w as nat, n as nat);
    let mut lens: Vec<usize> = vec![0usize; n_buckets];
    for j in 0..n
        invariant
            n == bases@.len(),
            window_input(bases@, scalar_digits@, stride as nat, w as nat, n_buckets as nat),
            points == points_of(bases@),
            col == buckets::column(scalar_digits@, stride as nat, w as nat, n as nat),
            lens@.len() == n_buckets,
            forall|b: int|
                0 <= b < n_buckets ==> #[trigger] lens@[b] == buckets::members(
                    points,
                    col,
                    b as nat,
                    j as nat,
                ).len(),
    {
        proof {
            lemma_digit_index(j as int, stride as int, w as int, n as int);
            assert(scalar_digits@.len() == scalar_digits.len());
        }
        let d: i64 = scalar_digits[j * stride + w];
        assert(d == col[j as int]);
        if d != 0 && !bases[j].is_zero() {
            let b: usize = bucket_of(d);
            proof {
                lemma_members_grow(points, col, b as nat, j as nat, j as nat);
            }
            lens[b] = lens[b] + 1;
        }
    }
    lens
}

/// What the buckets hold of the first `n` points.
spec fn contents<F: Field>(
    points: Seq<Point<F>>,
    column: Seq<i64>,
    n_buckets: nat,
    n: nat,
) -> Seq<Seq<Point<F>>> {
    Seq::new(n_buckets, |b: int| buckets::members(points, column, b as nat, n))
}

/// The members of bucket `b` lie at `starts[b]` and up.
spec fn placed<P: SWCurveConfig>(
    pts: Seq<Affine<P>>,
    starts: Seq<usize>,
    held: Seq<Seq<Point<P::BaseField>>>,
) -> bool {
    forall|b: int, k: int|
        0 <= b < held.len() && 0 <= k < held[b].len() ==> starts[b] + k < pts.len() && pts[starts[b]
            + k].point() == #[trigger] held[b][k]
}

/// Bucket `b` has room for `room[b]` points at `starts[b]` and up, apart from all others.
spec fn spaced(starts: Seq<usize>, room: Seq<usize>, size: nat) -> bool {
    &&& starts.len() == room.len()
    &&& forall|b: int| 0 <= b < starts.len() ==> #[trigger] starts[b] + room[b] <= size
    &&& forall|b: int, e: int|
        0 <= b < e < starts.len() ==> #[trigger] starts[b] + room[b] <= #[trigger] starts[e]
}

/// Lays the buckets out one after the other: the start of each, and the size of all.
fn lay_out<F: Field>(
    lens: &Vec<usize>,
    Ghost(points): Ghost<Seq<Point<F>>>,
    Ghost(column): Ghost<Seq<i64>>,
) -> (r: (Vec<usize>, usize))
    requires
        points.len() <= usize::MAX,
        forall|b: int|
            0 <= b < lens@.len() ==> #[trigger] lens@[b] == buckets::members(
                points,
                column,
                b as nat,
                points.len(),
            ).len(),
    ensures
        r.0@.len() == lens@.len(),
        forall|b: int|
            0 <= b < lens@.len() ==> #[trigger] r.0@[b] == filled(
                points,
                column,
                b as nat,
                points.len(),
            ),
        r.1 == filled(points, column, lens@.len(), points.len()),
        spaced(r.0@, lens@, r.1 as nat),
{
    let n_buckets: usize = lens.len();
    let mut starts: Vec<usize> = vec![0usize; n_buckets];
    let mut acc: usize = 0;
    for b in 0..n_buckets
        invariant
            n_buckets == lens@.len(),
            starts@.len() == n_buckets,
            points.len() <= usize::MAX,
            forall|i: int|
                0 <= i < lens@.len() ==> #[trigger] lens@[i] == buckets::members(
                    points,
                    column,
                    i as nat,
                    points.len(),
                ).len(),
            acc == filled(points, column, b as nat, points.len()),
            forall|i: int|
                0 <= i < b ==> #[trigger] starts@[i] == filled(
                    points,
                    column,
                    i as nat,
                    points.len(),
                ),
    {
        proof {
            lemma_filled_bound(points, column, (b + 1) as nat, points.len());
        }
        starts[b] = acc;
        acc = acc + lens[b];
    }
    proof {
        let n = points.len();
        assert forall|b: int| 0 <= b < n_buckets implies #[trigger] starts@[b] + lens@[b] <= acc by {
            lemma_filled_monotone(points, column, b as nat, n_buckets as nat, n);
        }
        assert forall|b: int, e: int| 0 <= b < e < n_buckets implies #[trigger] starts@[b] + lens@[b]
            <= #[trigger] starts@[e] by {
            lemma_filled_monotone(points, column, b as nat, e as nat, n);
        }
    }
    (starts, acc)
}

/// Puts the points, with the signs of their digits, into their buckets.
fn scatter<P: SWCurveConfig>(
    bases: &[Affine<P>],
    scalar_digits: &Vec<i64>,
    stride: usize,
    w: usize,
    starts: &Vec<usize>,
    size: usize,
    Ghost(room): Ghost<Seq<usize>>,
) -> (pts: Vec<Affine<P>>)
    requires
        window_input(bases@, scalar_digits@, stride as nat, w as nat, starts@.len()),
        spaced(starts@, room, size as nat),
        forall|b: int|
            0 <= b < room.len() ==> #[trigger] room[b] == buckets::members(
                points_of(bases@),
                buckets::column(scalar_digits@, stride as nat, w as nat, bases@.len()),
                b as nat,
                bases@.len(),
            ).len(),
    ensures
        all_valid(pts@),
        pts@.len() == size,
        placed(
            pts@,
            starts@,
            contents(
                points_of(bases@),
                buckets::column(scalar_digits@, stride as nat, w as nat, bases@.len()),
                starts@.len(),
                bases@.len(),
            ),
        ),
{
    let n: usize = bases.len();
    let n_buckets: usize = starts.len();
    let ghost points = points_of(bases@);
    let ghost col = buckets::column(scalar_digits@, stride as nat, w as nat, n as nat);
    let mut fill: Vec<usize> = starts.clone();
    let mut pts: Vec<Affine<P>> = vec![Affine::zero(); size];
    for j in 0..n
        invariant
            n == bases@.len(),
            n_buckets == starts@.len(),
            window_input(bases@, scalar_digits@, stride as nat, w as nat, n_buckets as nat),
            points == points_of(bases@),
            col == buckets::column(scalar_digits@, stride as nat, w as nat, n as nat),
            spaced(starts@, room, size as nat),
            forall|b: int|
                0 <= b < room.len() ==> #[trigger] room[b] == buckets::members(
                    points,
                    col,
                    b as nat,
                    n as nat,
                ).len(),
            all_valid(pts@),
            pts@.len() == size,
            fill@.len() == n_buckets,
            forall|b: int|
                0 <= b < n_buckets ==> #[trigger] fill@[b] == starts@[b] + buckets::members(
                    points,
                    col,
                    b as nat,
                    j as nat,
                ).len(),
            placed(pts@, starts@, contents(points, col, n_buckets as nat, j as nat)),
    {
        proof {
            lemma_digit_index(j as int, stride as int, w as int, n as int);
            assert(scalar_digits@.len() == scalar_digits.len());
        }
        let d: i64 = scalar_digits[j * stride + w];
        assert(d == col[j as int]);
        let ghost held = contents(points, col, n_buckets as nat, j as nat);
        let ghost next = contents(points, col, n_buckets as nat, (j + 1) as nat);
        if d != 0 && !bases[j].is_zero() {
            let i: usize = bucket_of(d);
            assert(bases@[j as int].valid());
            let base: Affine<P> = if d < 0 { bases[j].neg() } else { bases[j] };
            let at: usize = fill[i];
            let ghost before = pts@;
            proof {
                lemma_members_grow(points, col, i as nat, (j + 1) as nat, n as nat);
            }
            pts[at] = base;
            fill[i] = fill[i] + 1;
            proof {
                assert forall|b: int, k: int| 0 <= b < next.len() && 0 <= k < next[b].len() implies
                    starts@[b] + k < pts@.len() && pts@[starts@[b] + k].point()
                    == #[trigger] next[b][k] by {
                    lemma_members_grow(points, col, b as nat, (j + 1) as nat, n as nat);
                    if b == i && k == held[b].len() {
                    } else {
                        assert(next[b][k] == held[b][k]);
                        if b < i {
                            assert(starts@[b] + room[b] <= starts@[i as int]);
                        } else if b > i {
                            assert(starts@[i as int] + room[i as int] <= starts@[b]);
                        }
                    }
                }
            }
        } else {
            assert(next =~= held);
        }
    }
    pts
}

/// The next level of every bucket's tree.
spec fn next_level<P: SWCurveConfig>(held: Seq<Seq<Point<P::BaseField>>>) -> Seq<
    Seq<Point<P::BaseField>>,
> {
    Seq::new(held.len(), |b: int| buckets::halved::<P>(held[b]))
}

/// The pending additions compute the next level of the first `count` buckets, and the first
/// `extra` results of the bucket after them. Those of bucket `b` stand from index `at[b]` on, and
/// write to the front of the bucket; `owner` tells the bucket of each addition. Buckets with fewer
/// than two members have none.
spec fn scheduled<P: SWCurveConfig>(
    pending: Seq<Pending<P>>,
    starts: Seq<usize>,
    held: Seq<Seq<Point<P::BaseField>>>,
    owner: Seq<int>,
    at: Seq<int>,
    count: int,
    extra: int,
) -> bool {
    &&& owner.len() == pending.len()
    &&& valid_operands(pending)
    &&& forall|i: int|
        0 <= i < pending.len() ==> {
            &&& 0 <= #[trigger] owner[i] < count || owner[i] == count && pending[i].out
                < starts[count] + extra
            &&& held[owner[i]].len() >= 2
            &&& starts[owner[i]] <= pending[i].out < starts[owner[i]] + (held[owner[i]].len() + 1)
                / 2
        }
    &&& forall|i: int, j: int|
        0 <= i < j < pending.len() ==> (#[trigger] pending[i]).out < (#[trigger] pending[j]).out
    &&& forall|b: int, k: int|
        0 <= b < held.len() && held[b].len() >= 2 && 0 <= k < (held[b].len() + 1) / 2 && (b < count
            || b == count && k < extra) ==> {
            let i = at[b] + k;
            &&& 0 <= i < pending.len()
            &&& pending[i].out == starts[b] + k
            &&& #[trigger] buckets::halved::<P>(held[b])[k] == curve::sum::<P>(
                pending[i].a.point(),
                pending[i].b.point(),
            )
        }
}

/// One more addition.
proof fn lemma_scheduled_push<P: SWCurveConfig>(
    pending: Seq<Pending<P>>,
    item: Pending<P>,
    starts: Seq<usize>,
    room: Seq<usize>,
    held: Seq<Seq<Point<P::BaseField>>>,
    owner: Seq<int>,
    at: Seq<int>,
    count: int,
    extra: int,
)
    requires
        scheduled(pending, starts, held, owner, at, count, extra),
        item.a.valid(),
        item.b.valid(),
        0 <= count < held.len(),
        held.len() == starts.len(),
        starts.len() == room.len(),
        held[count].len() >= 2,
        0 <= extra < (held[count].len() + 1) / 2,
        at[count] + extra == pending.len(),
        at[count] >= 0,
        forall|b: int, e: int|
            0 <= b < e < starts.len() ==> #[trigger] starts[b] + room[b] <= #[trigger] starts[e],
        forall|b: int| 0 <= b < held.len() ==> (#[trigger] held[b]).len() <= room[b],
        item.out == starts[count] + extra,
        buckets::halved::<P>(held[count])[extra] == curve::sum::<P>(
            item.a.point(),
            item.b.point(),
        ),
    ensures
        scheduled(pending.push(item), starts, held, owner.push(count), at, count, extra + 1),
{
    let (p, o) = (pending.push(item), owner.push(count));
    let n = pending.len() as int;
    assert forall|i: int, j: int| 0 <= i < j < p.len() implies (#[trigger] p[i]).out < (
    #[trigger] p[j]).out by {
        if j == n {
            let b = owner[i];
            assert(p[i] == pending[i]);
            if b < count {
                assert(starts[b] + room[b] <= starts[count]);
                assert(held[b].len() <= room[b]);
            }
        }
    }
    assert forall|i: int| 0 <= i < p.len() implies {
        &&& 0 <= #[trigger] o[i] < count || o[i] == count && p[i].out < starts[count] + extra + 1
        &&& held[o[i]].len() >= 2
        &&& starts[o[i]] <= p[i].out < starts[o[i]] + (held[o[i]].len() + 1) / 2
    } by {
        if i < n {
            assert(o[i] == owner[i]);
        }
    }
}

/// Each bucket holds as many points as its length says, and no more than it has room for.
spec fn sized<F: Field>(held: Seq<Seq<Point<F>>>, lens: Seq<usize>, room: Seq<usize>) -> bool {
    &&& lens.len() == held.len()
    &&& room.len() == held.len()
    &&& forall|b: int|
        0 <= b < held.len() ==> (#[trigger] held[b]).len() == lens[b] && lens[b] <= room[b]
}

/// Collects the additions of one level of all trees, in-place layout per
/// bucket, no compaction: results of a length-l bucket land at offsets
/// `0..ceil(l/2)` of the same bucket.
fn collect_level<P: SWCurveConfig>(
    pts: &Vec<Affine<P>>,
    starts: &Vec<usize>,
    lens: &mut Vec<usize>,
    pending: &mut Vec<Pending<P>>,
    Ghost(room): Ghost<Seq<usize>>,
    Ghost(held): Ghost<Seq<Seq<Point<P::BaseField>>>>,
) -> (r: (Ghost<Seq<int>>, Ghost<Seq<int>>))
    requires
        all_valid(pts@),
        spaced(starts@, room, pts@.len()),
        placed(pts@, starts@, held),
        sized(held, old(lens)@, room),
    ensures
        scheduled(final(pending)@, starts@, held, r.0@, r.1@, starts@.len() as int, 0),
        final(lens)@.len() == starts@.len(),
        forall|b: int|
            0 <= b < starts@.len() ==> #[trigger] final(lens)@[b] == (old(lens)@[b] + 1) / 2,
{
    let n_buckets: usize = starts.len();
    let ghost lens0 = lens@;
    let ghost mut owner: Seq<int> = Seq::empty();
    let ghost mut at: Seq<int> = Seq::empty();
    pending.clear();
    for b in 0..n_buckets
        invariant
            n_buckets == starts@.len(),
            all_valid(pts@),
            spaced(starts@, room, pts@.len()),
            placed(pts@, starts@, held),
            sized(held, lens0, room),
            lens@.len() == n_buckets,
            forall|i: int| 0 <= i < b ==> #[trigger] lens@[i] == (lens0[i] + 1) / 2,
            forall|i: int| b <= i < n_buckets ==> #[trigger] lens@[i] == lens0[i],
            at.len() == b,
            scheduled(pending@, starts@, held, owner, at, b as int, 0),
    {
        let start: usize = starts[b];
        let len: usize = lens[b];
        assert(held[b as int].len() == len);
        let ghost first = pending@.len() as int;
        proof {
            at = at.push(first);
        }
        assert(scheduled(pending@, starts@, held, owner, at, b as int, 0));
        if len >= 2 {
            let half: usize = len / 2 + len % 2;
            for k in 0..half
                invariant
                    b < n_buckets,
                    n_buckets == starts@.len(),
                    all_valid(pts@),
                    spaced(starts@, room, pts@.len()),
                    placed(pts@, starts@, held),
                    sized(held, lens0, room),
                    start == starts@[b as int],
                    len == held[b as int].len(),
                    len >= 2,
                    half == (len + 1) / 2,
                    at.len() == b + 1,
                    at[b as int] == first,
                    first >= 0,
                    pending@.len() == first + k,
                    scheduled(pending@, starts@, held, owner, at, b as int, k as int),
            {
                let ghost before = pending@;
                let ghost seg = held[b as int];
                assert(pts@[start + 2 * k].valid());
                assert(pts@.len() == pts.len());
                assert(pts@[start + 2 * k].point() == seg[2 * k as int]);
                if 2 * k + 1 < len {
                    assert(pts@[start + 2 * k + 1].valid());
                    assert(pts@[start + 2 * k + 1].point() == seg[2 * k + 1]);
                    pending.push(
                        Pending {
                            a: pts[start + 2 * k],
                            b: pts[start + 2 * k + 1],
                            out: start + k,
                            kind: Kind::Add,
                        },
                    );
                } else {
                    // Odd leftover moves down to close the level's layout.
                    pending.push(
                        Pending {
                            a: pts[start + 2 * k],
                            b: Affine::zero(),
                            out: start + k,
                            kind: Kind::TakeA,
                        },
                    );
                }
                proof {
                    lemma_scheduled_push(
                        before,
                        pending@.last(),
                        starts@,
                        room,
                        held,
                        owner,
                        at,
                        b as int,
                        k as int,
                    );
                    owner = owner.push(b as int);
                }
            }
            lens[b] = half;
        }
        assert(scheduled(pending@, starts@, held, owner, at, b + 1, 0));
    }
    (Ghost(owner), Ghost(at))
}

/// The number of points in the first `n` buckets.
spec fn occupancy<F: Field>(held: Seq<Seq<Point<F>>>, n: nat) -> nat
    decreases n,
{
    if n == 0 {
        0
    } else {
        occupancy(held, (n - 1) as nat) + held[n - 1].len()
    }
}

/// A level leaves no more points, and fewer where a bucket had two.
proof fn lemma_occupancy_falls<P: SWCurveConfig>(held: Seq<Seq<Point<P::BaseField>>>, n: nat, b: int)
    requires
        n <= held.len(),
    ensures
        occupancy(next_level::<P>(held), n) <= occupancy(held, n),
        0 <= b < n && held[b].len() >= 2 ==> occupancy(next_level::<P>(held), n) < occupancy(
            held,
            n,
        ),
    decreases n,
{
    if n > 0 {
        lemma_occupancy_falls::<P>(held, (n - 1) as nat, b);
    }
}

/// Applying the additions of a level leaves the next level in place.
proof fn lemma_level_applied<P: SWCurveConfig>(
    before: Seq<Affine<P>>,
    after: Seq<Affine<P>>,
    pending: Seq<Pending<P>>,
    starts: Seq<usize>,
    room: Seq<usize>,
    held: Seq<Seq<Point<P::BaseField>>>,
    owner: Seq<int>,
    at: Seq<int>,
)
    requires
        held.len() == starts.len(),
        room.len() == starts.len(),
        after.len() == before.len(),
        spaced(starts, room, before.len()),
        placed(before, starts, held),
        forall|b: int| 0 <= b < held.len() ==> (#[trigger] held[b]).len() <= room[b],
        scheduled(pending, starts, held, owner, at, held.len() as int, 0),
        forall|i: int|
            0 <= i < before.len() && (forall|k: int|
                0 <= k < pending.len() ==> (#[trigger] pending[k]).out != i) ==> #[trigger] after[i]
                == before[i],
        forall|k: int|
            #![trigger pending[k]]
            0 <= k < pending.len() ==> after[pending[k].out as int].point() == curve::sum::<P>(
                pending[k].a.point(),
                pending[k].b.point(),
            ),
    ensures
        placed(after, starts, next_level::<P>(held)),
{
    let next = next_level::<P>(held);
    assert forall|b: int, k: int| 0 <= b < next.len() && 0 <= k < next[b].len() implies starts[b] + k
        < after.len() && after[starts[b] + k].point() == #[trigger] next[b][k] by {
        assert(held[b].len() <= room[b]);
        assert(starts[b] + room[b] <= before.len());
        assert(next[b] == buckets::halved::<P>(held[b]));
        if held[b].len() >= 2 {
            let i = at[b] + k;
            assert(buckets::halved::<P>(held[b])[k] == curve::sum::<P>(
                pending[i].a.point(),
                pending[i].b.point(),
            ));
            assert(pending[i].out == starts[b] + k);
        } else {
            assert(next[b][k] == held[b][0]);
            assert forall|m: int| 0 <= m < pending.len() implies (#[trigger] pending[m]).out
                != starts[b] by {
                let o = owner[m];
                assert(held[o].len() <= room[o]);
                if o < b {
                    assert(starts[o] + room[o] <= starts[b]);
                } else {
                    assert(starts[b] + room[b] <= starts[o]);
                }
            }
            assert(after[starts[b] as int] == before[starts[b] as int]);
        }
    }
}

/// Reduces every bucket by a balanced tree, level by level over all buckets.
fn reduce_buckets<P: SWCurveConfig>(
    pts: &mut Vec<Affine<P>>,
    starts: &Vec<usize>,
    lens: &mut Vec<usize>,
    Ghost(held): Ghost<Seq<Seq<Point<P::BaseField>>>>,
)
    requires
        all_valid(old(pts)@),
        spaced(starts@, old(lens)@, old(pts)@.len()),
        placed(old(pts)@, starts@, held),
        sized(held, old(lens)@, old(lens)@),
    ensures
        all_valid(final(pts)@),
        final(pts)@.len() == old(pts)@.len(),
        final(lens)@.len() == old(lens)@.len(),
        forall|b: int|
            0 <= b < held.len() ==> #[trigger] final(lens)@[b] == (if held[b].len() == 0 {
                0
            } else {
                1int
            }),
        forall|b: int|
            #![trigger held[b]]
            0 <= b < held.len() && held[b].len() > 0 ==> {
                &&& starts@[b] < final(pts)@.len()
                &&& final(pts)@[starts@[b] as int].point() == buckets::tree::<P>(held[b])
            },
{
    let ghost room = lens@;
    let ghost mut cur = held;
    let ghost size = pts@.len();
    let mut pending: Vec<Pending<P>> = Vec::new();
    let mut dens: Vec<P::BaseField> = Vec::new();
    loop
        invariant
            all_valid(pts@),
            size == pts@.len(),
            cur.len() == held.len(),
            spaced(starts@, room, size),
            placed(pts@, starts@, cur),
            sized(cur, lens@, room),
            forall|b: int|
                0 <= b < held.len() ==> buckets::tree::<P>(#[trigger] cur[b]) == buckets::tree::<P>(
                    held[b],
                ) && (cur[b].len() == 0 <==> held[b].len() == 0),
        ensures
            forall|b: int| 0 <= b < held.len() ==> (#[trigger] cur[b]).len() < 2,
        decreases occupancy(cur, cur.len()),
    {
        let ghost lens0 = lens@;
        let (Ghost(owner), Ghost(at)) = collect_level(
            pts,
            starts,
            lens,
            &mut pending,
            Ghost(room),
            Ghost(cur),
        );
        let ghost items = pending@;
        if pending.is_empty() {
            proof {
                assert forall|b: int| 0 <= b < cur.len() implies (#[trigger] cur[b]).len() < 2 by {
                    if cur[b].len() >= 2 {
                        let first = buckets::halved::<P>(cur[b])[0];
                    }
                }
            }
            break;
        }
        let ghost before = pts@;
        proof {
            assert forall|k: int| 0 <= k < items.len() implies (#[trigger] items[k]).out < size by {
                let o = owner[k];
                assert(cur[o].len() <= room[o]);
                assert(starts@[o] + room[o] <= size);
            }
        }
        batch_apply(pts, &mut pending, &mut dens);
        proof {
            lemma_level_applied(before, pts@, items, starts@, room, cur, owner, at);
            lemma_occupancy_falls::<P>(cur, cur.len(), owner[0]);
            cur = next_level::<P>(cur);
        }
    }
    proof {
        assert forall|b: int| 0 <= b < held.len() implies #[trigger] lens@[b] == (if held[b].len()
            == 0 {
            0
        } else {
            1int
        }) by {
            assert(cur[b].len() < 2);
        }
        assert forall|b: int|
            #![trigger held[b]]
            0 <= b < held.len() && held[b].len() > 0 implies starts@[b] < pts@.len()
            && pts@[starts@[b] as int].point() == buckets::tree::<P>(held[b]) by {
            assert(cur[b].len() == 1);
            let first = cur[b][0];
        }
    }
}

/// Windows of fewer bits than a machine word have a countable number of buckets.
proof fn lemma_bucket_count(c: nat)
    requires
        c < usize::BITS,
    ensures
        pow2(c) <= usize::MAX,
{
    lemma2_to64();
    lemma2_to64_rest();
    if c < usize::BITS - 1 {
        lemma_pow2_strictly_increases(c, (usize::BITS - 1) as nat);
    }
}

/// One window: counting-sort the (sign-applied) points by bucket, reduce
/// each bucket with level-batched affine additions, then the usual
/// running-sum bucket reduction.
fn window_sum<P: SWCurveConfig>(
    bases: &[Affine<P>],
    scalar_digits: &Vec<i64>,
    stride: usize,
    w: usize,
    c: usize,
) -> (r: Projective<P>)
    requires
        c < usize::BITS,
        window_input(bases@, scalar_digits@, stride as nat, w as nat, pow2(c as nat)),
    ensures
        r.valid(),
        r.point() == buckets::window_value::<P>(
            points_of(bases@),
            buckets::column(scalar_digits@, stride as nat, w as nat, bases@.len()),
            pow2(c as nat),
        ),
{
    proof {
        lemma_bucket_count(c as nat);
        vstd::bits::lemma_usize_shl_is_mul(1, c);
    }
    // Full 2^c buckets: the recoding's LAST digit is not recentered and can
    // exceed 2^(c-1) in absolute value.
    let n_buckets: usize = 1usize << c;
    let ghost points = points_of(bases@);
    let ghost col = buckets::column(scalar_digits@, stride as nat, w as nat, bases@.len());
    let ghost held = contents(points, col, n_buckets as nat, points.len());
    let ghost sums = buckets::bucket_sums::<P>(points, col, n_buckets as nat);
    let mut lens: Vec<usize> = count_members(bases, scalar_digits, stride, w, n_buckets);
    assert(points.len() == bases.len());
    let (starts, size): (Vec<usize>, usize) = lay_out::<P::BaseField>(
        &lens,
        Ghost(points),
        Ghost(col),
    );
    let mut pts: Vec<Affine<P>> = scatter(
        bases,
        scalar_digits,
        stride,
        w,
        &starts,
        size,
        Ghost(lens@),
    );
    reduce_buckets(&mut pts, &starts, &mut lens, Ghost(held));
    let mut running: Projective<P> = Projective::zero();
    let mut res: Projective<P> = Projective::zero();
    let mut b: usize = n_buckets;
    while b > 0
        invariant
            all_valid(pts@),
            running.valid(),
            res.valid(),
            b <= n_buckets,
            n_buckets == held.len(),
            held.len() == sums.len(),
            starts@.len() == n_buckets,
            lens@.len() == n_buckets,
            forall|i: int|
                0 <= i < held.len() ==> #[trigger] sums[i] == buckets::tree::<P>(held[i]),
            forall|i: int|
                0 <= i < held.len() ==> #[trigger] lens@[i] == (if held[i].len() == 0 {
                    0
                } else {
                    1int
                }),
            forall|i: int|
                #![trigger held[i]]
                0 <= i < held.len() && held[i].len() > 0 ==> {
                    &&& starts@[i] < pts@.len()
                    &&& pts@[starts@[i] as int].point() == buckets::tree::<P>(held[i])
                },
            running.point() == buckets::running::<P>(sums, b as nat),
            res.point() == buckets::swept::<P>(sums, b as nat),
        decreases b,
    {
        b = b - 1;
        assert(sums[b as int] == buckets::tree::<P>(held[b as int]));
        if lens[b] == 1 {
            assert(pts@[starts@[b as int] as int].valid());
            running.add_affine(&pts[starts[b]]);
        }
        res.add_assign(&running);
    }
    res
}

/// The width of the windows for `size` points.
pub open spec fn window_bits(size: nat) -> nat {
    if size < 32 {
        3
    } else {
        (digits::ceil_log2(size) * 69) / 100 + 2
    }
}

/// The numbers that the first `n` scalars stand for.
pub open spec fn scalar_values<B: BigInteger>(bigints: Seq<B>, n: nat) -> Seq<int> {
    Seq::new(n, |j: int| curve::integer(bigints[j]) as int)
}

/// The scalars represent elements of the scalar field: each is below the modulus.
pub open spec fn reduced<S: PrimeField>(scalars: Seq<int>) -> bool {
    forall|j: int|
        0 <= j < scalars.len() ==> 0 <= #[trigger] scalars[j] < curve::integer(S::modulus())
}

/// The numbers modulo `2^bits`.
pub open spec fn truncated(scalars: Seq<int>, bits: nat) -> Seq<int> {
    Seq::new(scalars.len(), |j: int| scalars[j] % pow2(bits) as int)
}

/// Signed digits, `stride` to a scalar in windows of `c` bits, that recode the scalars modulo
/// `2^(c * stride)`.
pub open spec fn recodes(scalar_digits: Seq<i64>, scalars: Seq<int>, stride: nat, c: nat) -> bool {
    &&& scalar_digits.len() == scalars.len() * stride
    &&& forall|j: int|
        0 <= j < scalars.len() ==> {
            let row = #[trigger] buckets::row(scalar_digits, stride, j);
            &&& digits::recentered(row, c)
            &&& digits::digit_sum(row, c, stride) == scalars[j] % pow2(c * stride) as int
        }
}

/// The recoded digits are within the range of the buckets.
proof fn lemma_digits_in_range(scalar_digits: Seq<i64>, scalars: Seq<int>, stride: nat, c: nat)
    requires
        recodes(scalar_digits, scalars, stride, c),
        stride > 0,
        c > 0,
    ensures
        forall|i: int|
            0 <= i < scalar_digits.len() ==> -pow2(c) <= #[trigger] scalar_digits[i] <= pow2(c),
{
    assert forall|i: int| 0 <= i < scalar_digits.len() implies -pow2(c) <= #[trigger] scalar_digits[i]
        <= pow2(c) by {
        let (j, w) = (i / stride as int, i % stride as int);
        lemma_fundamental_div_mod(i, stride as int);
        lemma_mod_bound(i, stride as int);
        lemma_div_pos_is_pos(i, stride as int);
        lemma_mul_is_commutative(stride as int, j);
        assert(j < scalars.len()) by (nonlinear_arith)
            requires
                j * stride <= i,
                i < scalars.len() * stride,
                stride > 0,
        ;
        let row = buckets::row(scalar_digits, stride, j);
        assert(row[w] == scalar_digits[i]);
        lemma_pow2_unfold(c);
        lemma_pow2_pos(c);
        if w == stride - 1 {
            assert(row.last() == row[w]);
        }
    }
}

/// Appending the digits of one more scalar.
proof fn lemma_recodes_append(
    scalar_digits: Seq<i64>,
    more: Seq<i64>,
    scalars: Seq<int>,
    v: int,
    stride: nat,
    c: nat,
)
    requires
        recodes(scalar_digits, scalars, stride, c),
        more.len() == stride,
        digits::recentered(more, c),
        digits::digit_sum(more, c, stride) == v % pow2(c * stride) as int,
    ensures
        recodes(scalar_digits + more, scalars.push(v), stride, c),
{
    let all = scalar_digits + more;
    let n = scalars.len() as int;
    assert((n + 1) * stride == n * stride + stride) by (nonlinear_arith);
    assert forall|j: int| 0 <= j < n + 1 implies {
        let row = #[trigger] buckets::row(all, stride, j);
        &&& digits::recentered(row, c)
        &&& digits::digit_sum(row, c, stride) == scalars.push(v)[j] % pow2(c * stride) as int
    } by {
        let row = buckets::row(all, stride, j);
        if j < n {
            assert forall|w: int| 0 <= w < stride implies #[trigger] row[w] == buckets::row(
                scalar_digits,
                stride,
                j,
            )[w] by {
                lemma_digit_index(j, stride as int, w, n);
            }
            assert(row =~= buckets::row(scalar_digits, stride, j));
        } else {
            assert(row =~= more);
        }
    }
}

/// MSM over signed windowed digits with batched-affine bucket trees.
pub fn msm_bigint_batch_affine<P: SWCurveConfig>(
    bases: &[Affine<P>],
    bigints: &[<P::ScalarField as PrimeField>::BigInt],
) -> (r: Projective<P>)
    requires
        forall|j: int|
            0 <= j < bases@.len() && j < bigints@.len() ==> (#[trigger] bases@[j]).valid(),
    ensures
        r.valid(),
        ({
            let size = vstd::math::min(bases@.len() as int, bigints@.len() as int) as nat;
            let points = points_of(bases@).take(size as int);
            let scalars = scalar_values(bigints@, size);
            let num_bits = P::ScalarField::MODULUS_BIT_SIZE as nat;
            let c = window_bits(size);
            let stride = digits::digits_count(num_bits, c);
            // no terms
            &&& size == 0 ==> r.point() is None
            // the bucket method, whatever the points are
            &&& size > 0 ==> exists|scalar_digits: Seq<i64>| #[trigger]
                recodes(scalar_digits, scalars, stride, c) && r.point() == buckets::bucket_msm::<P>(
                    points,
                    scalar_digits,
                    stride,
                    c,
                )
            // the sum of the scaled points, for points of a nonsingular curve and reduced scalars
            &&& forall|b: P::BaseField|
                b.valid() && #[trigger] associativity::nonsingular::<P>(b) && group::all_in(
                    points,
                    associativity::curve_points::<P>(b),
                ) && reduced::<P::ScalarField>(scalars) ==> r.point() == buckets::combination::<P>(
                    points,
                    scalars,
                    size,
                )
            // said of the inputs themselves: each integer goes with the base at its own position
            &&& forall|b: P::BaseField|
                b.valid() && #[trigger] associativity::nonsingular::<P>(b) && (forall|j: int|
                    0 <= j < size ==> associativity::on_curve::<P>(
                        b,
                        (#[trigger] bases@[j]).point(),
                    )) && (forall|j: int|
                    0 <= j < size ==> curve::integer(#[trigger] bigints@[j]) < curve::integer(
                        P::ScalarField::modulus(),
                    )) ==> r.point() == Seq::new(
                    size,
                    |j: int|
                        group::scaled::<P>(curve::integer(bigints@[j]) as int, bases@[j].point()),
                ).fold_left(
                    None,
                    |p: Point<P::BaseField>, q: Point<P::BaseField>| curve::sum::<P>(p, q),
                )
            // for points of any group and any scalars, as far as the windows cover them
            &&& forall|s: Set<Point<P::BaseField>>|
                #[trigger] group::is_group::<P>(s) && group::all_in(points, s) ==> r.point()
                    == buckets::combination::<P>(points, truncated(scalars, c * stride), size)
            // and they cover scalars of no more bits than the modulus
            &&& forall|j: int|
                0 <= j < size && scalars[j] < pow2(num_bits) ==> #[trigger] truncated(
                    scalars,
                    c * stride,
                )[j] == scalars[j]
        }),
{
    let size: usize = if bases.len() < bigints.len() { bases.len() } else { bigints.len() };
    let ghost points = points_of(bases@).take(size as int);
    let ghost scalars = scalar_values(bigints@, size as nat);
    if size == 0 {
        return Projective::zero();
    }
    let ghost all = bases@;
    let bases: &[Affine<P>] = vstd::slice::slice_subrange(bases, 0, size);
    assert(points_of(bases@) =~= points);
    let c: usize = if size < 32 { 3 } else { digits::ln_without_floats(size) + 2 };
    proof {
        lemma2_to64();
        if usize::BITS == 32 {
            digits::lemma_ceil_log2_bound(size as nat, 32);
        }
        P::ScalarField::law_modulus();
        assert forall|j: int| 0 <= j < size implies P::ScalarField::MODULUS_BIT_SIZE <= 64 * (
        #[trigger] bigints@[j]).words().len() by {
            lemma_words_suffice::<P::ScalarField>(bigints@[j]);
        }
    }
    let num_bits: usize = P::ScalarField::MODULUS_BIT_SIZE as usize;
    let stride: usize = (num_bits - 1) / c + 1;
    proof {
        limbs::lemma_div_multiples_vanish_quotient_add(num_bits - 1, 1, c as int);
    }
    let mut scalar_digits: Vec<i64> = Vec::new();
    assert(0 * stride == 0);
    for j in 0..size
        invariant
            size <= bigints@.len(),
            1 <= c <= 62,
            stride == digits::digits_count(num_bits as nat, c as nat),
            scalars == scalar_values(bigints@, size as nat),
            1 <= num_bits,
            forall|i: int|
                0 <= i < size ==> num_bits <= 64 * (#[trigger] bigints@[i]).words().len(),
            recodes(scalar_digits@, scalars.take(j as int), stride as nat, c as nat),
    {
        let mut row: Vec<i64> = digits::make_digits(&bigints[j], c, num_bits);
        proof {
            lemma_recodes_append(
                scalar_digits@,
                row@,
                scalars.take(j as int),
                scalars[j as int],
                stride as nat,
                c as nat,
            );
            assert(scalars.take(j as int).push(scalars[j as int]) =~= scalars.take(j + 1));
        }
        scalar_digits.append(&mut row);
    }
    assert(scalars.take(size as int) =~= scalars);
    proof {
        lemma_digits_in_range(scalar_digits@, scalars, stride as nat, c as nat);
        lemma_bucket_count(c as nat);
        assert forall|w: nat| w < stride implies #[trigger] window_input(
            bases@,
            scalar_digits@,
            stride as nat,
            w,
            pow2(c as nat),
        ) by {
            let col = buckets::column(scalar_digits@, stride as nat, w, size as nat);
            assert forall|j: int| 0 <= j < size implies -pow2(c as nat) <= #[trigger] col[j] <= pow2(
                c as nat,
            ) by {
                lemma_digit_index(j, stride as int, w as int, size as int);
            }
        }
    }
    let ghost windows = buckets::window_values::<P>(
        points,
        scalar_digits@,
        stride as nat,
        c as nat,
    );
    let mut window_sums: Vec<Projective<P>> = Vec::new();
    for w in 0..stride
        invariant
            c < usize::BITS,
            points == points_of(bases@),
            forall|k: nat|
                k < stride ==> #[trigger] window_input(
                    bases@,
                    scalar_digits@,
                    stride as nat,
                    k,
                    pow2(c as nat),
                ),
            windows == buckets::window_values::<P>(
                points,
                scalar_digits@,
                stride as nat,
                c as nat,
            ),
            window_sums@.len() == w,
            forall|k: int| 0 <= k < w ==> (#[trigger] window_sums@[k]).valid(),
            forall|k: int| 0 <= k < w ==> (#[trigger] window_sums@[k]).point() == windows[k],
    {
        window_sums.push(window_sum(bases, &scalar_digits, stride, w, c));
    }
    let mut total: Projective<P> = Projective::zero();
    let mut i: usize = stride;
    while i > 1
        invariant
            1 <= i <= stride,
            window_sums@.len() == stride,
            forall|k: int| 0 <= k < stride ==> (#[trigger] window_sums@[k]).valid(),
            total.valid(),
            windows.len() == stride,
            forall|k: int| 0 <= k < stride ==> (#[trigger] window_sums@[k]).point() == windows[k],
            total.point() == buckets::folded::<P>(windows, c as nat, i as nat),
        decreases i,
    {
        i = i - 1;
        total.add_assign(&window_sums[i]);
        let ghost start = total.point();
        for k in 0..c
            invariant
                total.valid(),
                total.point() == buckets::doubled::<P>(start, k as nat),
        {
            total.double_in_place();
        }
    }
    let mut r: Projective<P> = window_sums[0];
    r.add_assign(&total);
    proof {
        let (cn, sn) = (c as nat, stride as nat);
        let numbers = truncated(scalars, cn * sn);
        assert(buckets::recoded(scalar_digits@, sn, cn, points.len()) =~= numbers) by {
            assert forall|j: int| 0 <= j < size implies #[trigger] numbers[j]
                == digits::digit_sum(buckets::row(scalar_digits@, sn, j), cn, sn) by {}
        }
        assert forall|s: Set<Point<P::BaseField>>|
            #[trigger] group::is_group::<P>(s) && group::all_in(points, s) implies r.point()
            == buckets::combination::<P>(points, numbers, size as nat) by {
            buckets::law_bucket_msm::<P>(s, points, scalar_digits@, sn, cn);
        }
        assert forall|b: P::BaseField|
            b.valid() && #[trigger] associativity::nonsingular::<P>(b) && group::all_in(
                points,
                associativity::curve_points::<P>(b),
            ) && reduced::<P::ScalarField>(scalars) implies r.point() == buckets::combination::<P>(
            points,
            scalars,
            size as nat,
        ) by {
            associativity::law_curve_group::<P>(b);
            P::ScalarField::law_modulus();
            assert forall|j: int| 0 <= j < size implies numbers[j] == scalars[j] by {
                lemma_covered(num_bits as nat, cn, scalars[j] as nat);
            }
            assert(numbers =~= scalars);
        }
        law_msm_terms::<P, <P::ScalarField as PrimeField>::BigInt>(all, bigints@, size as nat);
        assert forall|b: P::BaseField|
            b.valid() && #[trigger] associativity::nonsingular::<P>(b) && (forall|j: int|
                0 <= j < size ==> associativity::on_curve::<P>(b, (#[trigger] all[j]).point()))
                && (forall|j: int|
                0 <= j < size ==> curve::integer(#[trigger] bigints@[j]) < curve::integer(
                    P::ScalarField::modulus(),
                )) implies r.point() == buckets::combination::<P>(points, scalars, size as nat) by {
            assert forall|j: int| 0 <= j < size implies associativity::curve_points::<P>(
                b,
            ).contains(#[trigger] points[j]) by {
                assert(bases@[j].valid() && points[j] == all[j].point());
            }
            assert forall|j: int| 0 <= j < size implies 0 <= #[trigger] scalars[j]
                < curve::integer(P::ScalarField::modulus()) by {
                assert(scalars[j] == curve::integer(bigints@[j]));
            }
            assert(reduced::<P::ScalarField>(scalars));
            assert(group::all_in(points, associativity::curve_points::<P>(b)));
        }
        assert forall|j: int| 0 <= j < size && scalars[j] < pow2(num_bits as nat) implies #[trigger]
            numbers[j] == scalars[j] by {
            lemma_covered(num_bits as nat, cn, scalars[j] as nat);
        }
    }
    r
}

/// Integers of the type that holds the modulus have words for all of its bits.
proof fn lemma_words_suffice<S: PrimeField>(v: S::BigInt)
    ensures
        S::MODULUS_BIT_SIZE <= 64 * v.words().len(),
{
    let words = S::modulus().words();
    let top = (S::MODULUS_BIT_SIZE - 1) as nat;
    S::law_modulus();
    S::BigInt::law_words(v, S::modulus());
    lemma2_to64();
    limbs::lemma_value_bound(words, 64, words.len());
    if 64 * words.len() < top {
        lemma_pow2_strictly_increases(64 * words.len(), top);
    }
}

/// The windows cover all bits, so that taking a number of that many bits modulo `2^(c * stride)`
/// changes nothing.
proof fn lemma_covered(num_bits: nat, c: nat, v: nat)
    requires
        num_bits > 0,
        c > 0,
        v < pow2(num_bits),
    ensures
        v as int % pow2(c * digits::digits_count(num_bits, c)) as int == v,
{
    let stride = digits::digits_count(num_bits, c);
    lemma_fundamental_div_mod(num_bits + c - 1, c as int);
    lemma_mod_bound(num_bits + c - 1, c as int);
    if num_bits < c * stride {
        lemma_pow2_strictly_increases(num_bits, c * stride);
    }
    lemma_small_mod(v, pow2(c * stride));
}

/// Folding terms with the addition of points is the sum of the scaled points.
proof fn lemma_fold<P: SWCurveConfig>(
    points: Seq<Point<P::BaseField>>,
    scalars: Seq<int>,
    terms: Seq<Point<P::BaseField>>,
    step: spec_fn(Point<P::BaseField>, Point<P::BaseField>) -> Point<P::BaseField>,
)
    requires
        forall|j: int|
            0 <= j < terms.len() ==> #[trigger] terms[j] == group::scaled::<P>(
                scalars[j],
                points[j],
            ),
        forall|p: Point<P::BaseField>, q: Point<P::BaseField>| #[trigger]
            step(p, q) == curve::sum::<P>(p, q),
    ensures
        terms.fold_left(None, step) == buckets::combination::<P>(points, scalars, terms.len()),
    decreases terms.len(),
{
    if terms.len() > 0 {
        lemma_fold::<P>(points, scalars, terms.drop_last(), step);
        let n = terms.len();
        assert(terms.last() == terms[n - 1]);
    }
}

/// The sum of the scaled points pairs each base with the integer at its own position: it folds the
/// addition of points over the terms `integer(bigints[j])` times the point of `bases[j]`, for every
/// `j` below `n` in this order.
pub proof fn law_msm_terms<P: SWCurveConfig, B: BigInteger>(
    bases: Seq<Affine<P>>,
    bigints: Seq<B>,
    n: nat,
)
    requires
        n <= bases.len(),
        n <= bigints.len(),
    ensures
        buckets::combination::<P>(points_of(bases).take(n as int), scalar_values(bigints, n), n)
            == Seq::new(
            n,
            |j: int| group::scaled::<P>(curve::integer(bigints[j]) as int, bases[j].point()),
        ).fold_left(
            None,
            |p: Point<P::BaseField>, q: Point<P::BaseField>| curve::sum::<P>(p, q),
        ),
{
    lemma_fold::<P>(
        points_of(bases).take(n as int),
        scalar_values(bigints, n),
        Seq::new(
            n,
            |j: int| group::scaled::<P>(curve::integer(bigints[j]) as int, bases[j].point()),
        ),
        |p: Point<P::BaseField>, q: Point<P::BaseField>| curve::sum::<P>(p, q),
    );
}

/// Number `j` of the scalars is the integer of `bigints[j]`, and point `j` that of `bases[j]`.
pub proof fn law_inputs<P: SWCurveConfig, B: BigInteger>(
    bases: Seq<Affine<P>>,
    bigints: Seq<B>,
    n: nat,
    j: int,
)
    requires
        0 <= j < n <= bigints.len(),
        n <= bases.len(),
    ensures
        scalar_values(bigints, n).len() == n,
        scalar_values(bigints, n)[j] == curve::integer(bigints[j]),
        points_of(bases).len() == bases.len(),
        points_of(bases)[j] == bases[j].point(),
{
}

/// One more base and integer add one more term to what the others gave.
pub proof fn law_msm_one_more<P: SWCurveConfig, B: BigInteger>(
    bases: Seq<Affine<P>>,
    bigints: Seq<B>,
    n: nat,
)
    requires
        n < bases.len(),
        n < bigints.len(),
    ensures
        buckets::combination::<P>(
            points_of(bases).take((n + 1) as int),
            scalar_values(bigints, n + 1),
            n + 1,
        ) == curve::sum::<P>(
            buckets::combination::<P>(
                points_of(bases).take(n as int),
                scalar_values(bigints, n),
                n,
            ),
            group::scaled::<P>(curve::integer(bigints[n as int]) as int, bases[n as int].point()),
        ),
{
    let step = |p: Point<P::BaseField>, q: Point<P::BaseField>| curve::sum::<P>(p, q);
    let (points, scalars) = (points_of(bases).take((n + 1) as int), scalar_values(bigints, n + 1));
    let terms = Seq::new(n, |j: int| group::scaled::<P>(scalars[j], points[j]));
    lemma_fold::<P>(points, scalars, terms, step);
    lemma_fold::<P>(points_of(bases).take(n as int), scalar_values(bigints, n), terms, step);
    buckets::law_combination::<P>(points, scalars, n);
}

/// Scalars are reduced when each is a number below the modulus, and are truncated one by one.
pub proof fn law_scalars<S: PrimeField>(scalars: Seq<int>, bits: nat)
    ensures
        reduced::<S>(scalars) <==> forall|j: int|
            0 <= j < scalars.len() ==> 0 <= #[trigger] scalars[j] < curve::integer(S::modulus()),
        truncated(scalars, bits).len() == scalars.len(),
        forall|j: int|
            0 <= j < scalars.len() ==> #[trigger] truncated(scalars, bits)[j] == scalars[j] % pow2(
                bits,
            ) as int,
{
}

/// Few points take windows of three bits, others windows of two bits more than about the natural
/// logarithm of their number.
pub proof fn law_window_bits(size: nat)
    ensures
        size < 32 ==> window_bits(size) == 3,
        size >= 32 ==> window_bits(size) == (digits::ceil_log2(size) * 69) / 100 + 2,
{
}

/// Digits recode scalars when those of scalar `j` are recentered and stand for it modulo
/// `2^(c * stride)`.
pub proof fn law_recodes(scalar_digits: Seq<i64>, scalars: Seq<int>, stride: nat, c: nat)
    ensures
        recodes(scalar_digits, scalars, stride, c) <==> {
            &&& scalar_digits.len() == scalars.len() * stride
            &&& forall|j: int|
                0 <= j < scalars.len() ==> digits::recentered(
                    #[trigger] buckets::row(scalar_digits, stride, j),
                    c,
                ) && digits::digit_sum(buckets::row(scalar_digits, stride, j), c, stride)
                    == scalars[j] % pow2(c * stride) as int
        },
{
}

/// Coordinates are valid when each pair is.
pub proof fn law_all_valid<P: SWCurveConfig>(pts: Seq<Affine<P>>)
    ensures
        all_valid(pts) <==> forall|i: int| 0 <= i < pts.len() ==> (#[trigger] pts[i]).valid(),
{
}

/// A window needs valid bases, `stride` digits for each of them, and of the digits at position `w`
/// that they are in the range of the buckets.
pub proof fn law_window_input<P: SWCurveConfig>(
    bases: Seq<Affine<P>>,
    scalar_digits: Seq<i64>,
    stride: nat,
    w: nat,
    n_buckets: nat,
)
    ensures
        window_input(bases, scalar_digits, stride, w, n_buckets) <==> {
            &&& forall|j: int| 0 <= j < bases.len() ==> (#[trigger] bases[j]).valid()
            &&& w < stride
            &&& scalar_digits.len() >= bases.len() * stride
            &&& n_buckets <= usize::MAX
            &&& forall|j: int|
                0 <= j < bases.len() ==> -n_buckets <= #[trigger] scalar_digits[j * stride + w]
                    <= n_buckets
        },
{
    let col = buckets::column(scalar_digits, stride, w, bases.len());
    assert forall|j: int| 0 <= j < bases.len() implies #[trigger] col[j] == scalar_digits[j * stride
        + w] by {}
    if window_input(bases, scalar_digits, stride, w, n_buckets) {
        assert forall|j: int| 0 <= j < bases.len() implies -n_buckets
            <= #[trigger] scalar_digits[j * stride + w] <= n_buckets by {
            assert(-n_buckets <= col[j] <= n_buckets);
        }
    }
}

} // verus!
