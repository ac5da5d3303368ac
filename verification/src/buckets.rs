//! The bucket method as a function on points: what each of its steps computes, and why the
//! result is the sum of the scaled points.
use crate::curve;
use crate::curve::{Point, SWCurveConfig};
use crate::digits;
use crate::field::Field;
use crate::group;
use crate::limbs;
use vstd::arithmetic::power2::*;
use vstd::prelude::*;

verus! {

/// One level of a balanced tree: neighbours are added, an odd leftover moves down.
pub open spec fn halved<P: SWCurveConfig>(t: Seq<Point<P::BaseField>>) -> Seq<Point<P::BaseField>> {
    Seq::new(
        ((t.len() + 1) / 2) as nat,
        |k: int|
            if 2 * k + 1 < t.len() {
                curve::sum::<P>(t[2 * k], t[2 * k + 1])
            } else {
                t[2 * k]
            },
    )
}

/// The sum of a sequence of points by a balanced tree.
pub open spec fn tree<P: SWCurveConfig>(t: Seq<Point<P::BaseField>>) -> Point<P::BaseField>
    decreases t.len(),
{
    if t.len() == 0 {
        None
    } else if t.len() == 1 {
        t[0]
    } else {
        tree::<P>(halved::<P>(t))
    }
}

/// A point with a signed digit belongs to bucket `b`: the digit is `b + 1` up to sign.
pub open spec fn in_bucket<F: Field>(p: Point<F>, d: i64, b: nat) -> bool {
    p is Some && (d == b + 1 || d == -(b + 1))
}

/// The point with the sign of the digit.
pub open spec fn signed<F: Field>(p: Point<F>, d: i64) -> Point<F> {
    if d < 0 {
        curve::negative(p)
    } else {
        p
    }
}

/// What bucket `b` holds of the first `n` points, in their order.
pub open spec fn members<F: Field>(
    points: Seq<Point<F>>,
    column: Seq<i64>,
    b: nat,
    n: nat,
) -> Seq<Point<F>>
    decreases n,
{
    if n == 0 {
        Seq::empty()
    } else {
        let before = members(points, column, b, (n - 1) as nat);
        if in_bucket(points[n - 1], column[n - 1], b) {
            before.push(signed(points[n - 1], column[n - 1]))
        } else {
            before
        }
    }
}

/// The sums of the buckets from `b` up, added up from the top.
pub open spec fn running<P: SWCurveConfig>(t: Seq<Point<P::BaseField>>, b: nat) -> Point<
    P::BaseField,
>
    decreases t.len() - b,
{
    if b >= t.len() {
        None
    } else {
        curve::sum::<P>(running::<P>(t, b + 1), t[b as int])
    }
}

/// The running sums from bucket `b` up, added up from the top.
pub open spec fn swept<P: SWCurveConfig>(t: Seq<Point<P::BaseField>>, b: nat) -> Point<P::BaseField>
    decreases t.len() - b,
{
    if b >= t.len() {
        None
    } else {
        curve::sum::<P>(swept::<P>(t, b + 1), running::<P>(t, b))
    }
}

/// The tree sums of `count` buckets.
pub open spec fn bucket_sums<P: SWCurveConfig>(
    points: Seq<Point<P::BaseField>>,
    column: Seq<i64>,
    count: nat,
) -> Seq<Point<P::BaseField>> {
    Seq::new(count, |b: int| tree::<P>(members(points, column, b as nat, points.len())))
}

/// The digits at position `w` of `n` scalars with `stride` digits each.
pub open spec fn column(scalar_digits: Seq<i64>, stride: nat, w: nat, n: nat) -> Seq<i64> {
    Seq::new(n, |j: int| scalar_digits[j * stride + w])
}

/// What one window contributes, with `count` buckets.
pub open spec fn window_value<P: SWCurveConfig>(
    points: Seq<Point<P::BaseField>>,
    column: Seq<i64>,
    count: nat,
) -> Point<P::BaseField> {
    swept::<P>(bucket_sums::<P>(points, column, count), 0)
}

/// A point doubled `k` times.
pub open spec fn doubled<P: SWCurveConfig>(p: Point<P::BaseField>, k: nat) -> Point<P::BaseField>
    decreases k,
{
    if k == 0 {
        p
    } else {
        let h = doubled::<P>(p, (k - 1) as nat);
        curve::sum::<P>(h, h)
    }
}

/// The windows from `i` up, from high to low: each is added before `c` doublings.
pub open spec fn folded<P: SWCurveConfig>(
    windows: Seq<Point<P::BaseField>>,
    c: nat,
    i: nat,
) -> Point<P::BaseField>
    decreases windows.len() - i,
{
    if i >= windows.len() {
        None
    } else {
        doubled::<P>(curve::sum::<P>(folded::<P>(windows, c, i + 1), windows[i as int]), c)
    }
}

/// The values of the windows of `c` bits.
pub open spec fn window_values<P: SWCurveConfig>(
    points: Seq<Point<P::BaseField>>,
    scalar_digits: Seq<i64>,
    stride: nat,
    c: nat,
) -> Seq<Point<P::BaseField>> {
    Seq::new(
        stride,
        |w: int|
            window_value::<P>(
                points,
                column(scalar_digits, stride, w as nat, points.len()),
                pow2(c),
            ),
    )
}

/// The result of the bucket method with windows of `c` bits, `stride` to a scalar.
pub open spec fn bucket_msm<P: SWCurveConfig>(
    points: Seq<Point<P::BaseField>>,
    scalar_digits: Seq<i64>,
    stride: nat,
    c: nat,
) -> Point<P::BaseField> {
    let windows = window_values::<P>(points, scalar_digits, stride, c);
    curve::sum::<P>(windows[0], folded::<P>(windows, c, 1))
}

/// The sum of the first `n` points, each scaled by its integer.
pub open spec fn combination<P: SWCurveConfig>(
    points: Seq<Point<P::BaseField>>,
    scalars: Seq<int>,
    n: nat,
) -> Point<P::BaseField>
    decreases n,
{
    if n == 0 {
        None
    } else {
        curve::sum::<P>(
            combination::<P>(points, scalars, (n - 1) as nat),
            group::scaled::<P>(scalars[n - 1], points[n - 1]),
        )
    }
}

/// A level of the tree keeps the sum.
proof fn lemma_halved_total<P: SWCurveConfig>(
    s: Set<Point<P::BaseField>>,
    t: Seq<Point<P::BaseField>>,
)
    requires
        group::is_group::<P>(s),
        group::all_in(t, s),
    ensures
        group::all_in(halved::<P>(t), s),
        group::total::<P>(halved::<P>(t)) == group::total::<P>(t),
    decreases t.len(),
{
    let h = halved::<P>(t);
    let n = t.len();
    if n > 0 {
        let t1 = t.drop_last();
        assert(group::all_in(t1, s)) by {
            assert forall|i: int| 0 <= i < t1.len() implies s.contains(#[trigger] t1[i]) by {
                assert(s.contains(t[i]));
            }
        }
        if n % 2 == 1 {
            lemma_halved_total::<P>(s, t1);
            assert(h.drop_last() =~= halved::<P>(t1));
            assert(h.last() == t.last());
            assert(group::total::<P>(h) == curve::sum::<P>(
                group::total::<P>(h.drop_last()),
                h.last(),
            ));
            assert(s.contains(t[n - 1]));
            assert forall|i: int| 0 <= i < h.len() implies s.contains(#[trigger] h[i]) by {
                if i < h.len() - 1 {
                    assert(s.contains(halved::<P>(t1)[i]));
                }
            }
        } else {
            let t2 = t1.drop_last();
            assert(group::all_in(t2, s)) by {
                assert forall|i: int| 0 <= i < t2.len() implies s.contains(#[trigger] t2[i]) by {
                    assert(s.contains(t[i]));
                }
            }
            lemma_halved_total::<P>(s, t2);
            assert(h.drop_last() =~= halved::<P>(t2));
            let (a, b) = (t[n - 2], t[n - 1]);
            assert(h.last() == curve::sum::<P>(a, b));
            assert(s.contains(t[n - 2]) && s.contains(t[n - 1]));
            group::lemma_closed::<P>(s, a, b);
            group::lemma_total_in::<P>(s, t2);
            group::lemma_associative::<P>(s, group::total::<P>(t2), a, b);
            assert(group::total::<P>(t1) == curve::sum::<P>(group::total::<P>(t2), a));
            assert(group::total::<P>(t) == curve::sum::<P>(group::total::<P>(t1), b));
            assert(group::total::<P>(h) == curve::sum::<P>(
                group::total::<P>(h.drop_last()),
                h.last(),
            ));
            assert forall|i: int| 0 <= i < h.len() implies s.contains(#[trigger] h[i]) by {
                if i < h.len() - 1 {
                    assert(s.contains(halved::<P>(t2)[i]));
                }
            }
        }
    }
}

/// A balanced tree gives the sum.
proof fn lemma_tree_total<P: SWCurveConfig>(
    s: Set<Point<P::BaseField>>,
    t: Seq<Point<P::BaseField>>,
)
    requires
        group::is_group::<P>(s),
        group::all_in(t, s),
    ensures
        tree::<P>(t) == group::total::<P>(t),
    decreases t.len(),
{
    if t.len() == 1 {
        assert(group::total::<P>(t.drop_last()) is None);
    } else if t.len() > 1 {
        lemma_halved_total::<P>(s, t);
        lemma_tree_total::<P>(s, halved::<P>(t));
    }
}

/// The buckets from `b` up, weighted by `k`, `k + 1` and so on.
spec fn weighted<P: SWCurveConfig>(t: Seq<Point<P::BaseField>>, b: nat, k: nat) -> Point<
    P::BaseField,
>
    decreases t.len() - b,
{
    if b >= t.len() {
        None
    } else {
        curve::sum::<P>(weighted::<P>(t, b + 1, k + 1), group::multiple::<P>(k, t[b as int]))
    }
}

/// The sums over buckets stay in the group.
proof fn lemma_sums_in<P: SWCurveConfig>(
    s: Set<Point<P::BaseField>>,
    t: Seq<Point<P::BaseField>>,
    b: nat,
    k: nat,
)
    requires
        group::is_group::<P>(s),
        group::all_in(t, s),
    ensures
        s.contains(running::<P>(t, b)),
        s.contains(weighted::<P>(t, b, k)),
    decreases t.len() - b,
{
    if b < t.len() {
        let x = t[b as int];
        assert(s.contains(x));
        lemma_sums_in::<P>(s, t, b + 1, k + 1);
        group::lemma_multiple_in::<P>(s, k, x);
        group::lemma_closed::<P>(s, running::<P>(t, b + 1), x);
        group::lemma_closed::<P>(s, weighted::<P>(t, b + 1, k + 1), group::multiple::<P>(k, x));
    } else {
        reveal(group::is_group);
    }
}

/// Raising all weights by one adds the running sum.
proof fn lemma_weights_raised<P: SWCurveConfig>(
    s: Set<Point<P::BaseField>>,
    t: Seq<Point<P::BaseField>>,
    b: nat,
    k: nat,
)
    requires
        group::is_group::<P>(s),
        group::all_in(t, s),
    ensures
        weighted::<P>(t, b, k + 1) == curve::sum::<P>(
            weighted::<P>(t, b, k),
            running::<P>(t, b),
        ),
    decreases t.len() - b,
{
    if b < t.len() {
        let x = t[b as int];
        assert(s.contains(x));
        lemma_weights_raised::<P>(s, t, b + 1, k + 1);
        lemma_sums_in::<P>(s, t, b + 1, k + 1);
        group::lemma_multiple_in::<P>(s, k, x);
        assert(group::multiple::<P>(k + 1, x) == curve::sum::<P>(group::multiple::<P>(k, x), x));
        group::lemma_exchange::<P>(
            s,
            weighted::<P>(t, b + 1, k + 1),
            running::<P>(t, b + 1),
            group::multiple::<P>(k, x),
            x,
        );
    }
}

/// Adding up running sums weights bucket `b + i` by `i + 1`.
proof fn lemma_swept_weighted<P: SWCurveConfig>(
    s: Set<Point<P::BaseField>>,
    t: Seq<Point<P::BaseField>>,
    b: nat,
)
    requires
        group::is_group::<P>(s),
        group::all_in(t, s),
    ensures
        swept::<P>(t, b) == weighted::<P>(t, b, 1),
    decreases t.len() - b,
{
    if b < t.len() {
        let x = t[b as int];
        assert(s.contains(x));
        lemma_swept_weighted::<P>(s, t, b + 1);
        lemma_weights_raised::<P>(s, t, b + 1, 1);
        lemma_sums_in::<P>(s, t, b + 1, 1);
        group::lemma_associative::<P>(
            s,
            weighted::<P>(t, b + 1, 1),
            running::<P>(t, b + 1),
            x,
        );
        assert(group::multiple::<P>(0, x) is None);
        assert(group::multiple::<P>(1, x) == x);
    }
}

/// Buckets below `b` do not count.
proof fn lemma_weighted_agree<P: SWCurveConfig>(
    t: Seq<Point<P::BaseField>>,
    u: Seq<Point<P::BaseField>>,
    b: nat,
    k: nat,
)
    requires
        t.len() == u.len(),
        forall|i: int| b <= i < t.len() ==> #[trigger] t[i] == u[i],
    ensures
        weighted::<P>(t, b, k) == weighted::<P>(u, b, k),
    decreases t.len() - b,
{
    if b < t.len() {
        lemma_weighted_agree::<P>(t, u, b + 1, k + 1);
    }
}

/// A point added to a bucket counts with the bucket's weight.
proof fn lemma_weighted_update<P: SWCurveConfig>(
    s: Set<Point<P::BaseField>>,
    t: Seq<Point<P::BaseField>>,
    i: nat,
    x: Point<P::BaseField>,
    b: nat,
    k: nat,
)
    requires
        group::is_group::<P>(s),
        group::all_in(t, s),
        s.contains(x),
        b <= i < t.len(),
    ensures
        weighted::<P>(t.update(i as int, curve::sum::<P>(t[i as int], x)), b, k)
            == curve::sum::<P>(
            weighted::<P>(t, b, k),
            group::multiple::<P>((k + i - b) as nat, x),
        ),
    decreases t.len() - b,
{
    let y = t[i as int];
    let u = t.update(i as int, curve::sum::<P>(y, x));
    assert(s.contains(y));
    lemma_sums_in::<P>(s, t, b + 1, k + 1);
    let rest = weighted::<P>(t, b + 1, k + 1);
    if b == i {
        lemma_weighted_agree::<P>(t, u, b + 1, k + 1);
        group::lemma_multiple_of_sum::<P>(s, k, y, x);
        group::lemma_multiple_in::<P>(s, k, y);
        group::lemma_multiple_in::<P>(s, k, x);
        group::lemma_associative::<P>(
            s,
            rest,
            group::multiple::<P>(k, y),
            group::multiple::<P>(k, x),
        );
    } else {
        lemma_weighted_update::<P>(s, t, i, x, b + 1, k + 1);
        let m = (k + i - b) as nat;
        assert((k + 1 + i - (b + 1)) as nat == m);
        let z = t[b as int];
        assert(s.contains(z));
        assert(u[b as int] == z);
        let (mx, kz) = (group::multiple::<P>(m, x), group::multiple::<P>(k, z));
        group::lemma_multiple_in::<P>(s, m, x);
        group::lemma_multiple_in::<P>(s, k, z);
        group::lemma_associative::<P>(s, rest, mx, kz);
        group::lemma_closed::<P>(s, mx, kz);
        group::law_sum_commutative::<P>(mx, kz);
        group::lemma_associative::<P>(s, rest, kz, mx);
    }
}

/// What buckets hold is in the group.
proof fn lemma_members_in<P: SWCurveConfig>(
    s: Set<Point<P::BaseField>>,
    points: Seq<Point<P::BaseField>>,
    column: Seq<i64>,
    b: nat,
    n: nat,
)
    requires
        group::is_group::<P>(s),
        group::all_in(points, s),
        n <= points.len(),
    ensures
        group::all_in(members(points, column, b, n), s),
    decreases n,
{
    if n > 0 {
        lemma_members_in::<P>(s, points, column, b, (n - 1) as nat);
        let p = points[n - 1];
        assert(s.contains(p));
        group::lemma_closed::<P>(s, p, p);
    }
}

/// The integers that a column of digits holds.
pub open spec fn integers(column: Seq<i64>) -> Seq<int> {
    Seq::new(column.len(), |j: int| column[j] as int)
}

/// The sums of the buckets over the first `n` points.
spec fn bucket_totals<P: SWCurveConfig>(
    points: Seq<Point<P::BaseField>>,
    column: Seq<i64>,
    count: nat,
    n: nat,
) -> Seq<Point<P::BaseField>> {
    Seq::new(count, |b: int| group::total::<P>(members(points, column, b as nat, n)))
}

/// The weighted buckets over the first `n` points add up to the scaled points.
proof fn lemma_buckets_combine<P: SWCurveConfig>(
    s: Set<Point<P::BaseField>>,
    points: Seq<Point<P::BaseField>>,
    column: Seq<i64>,
    count: nat,
    n: nat,
)
    requires
        group::is_group::<P>(s),
        group::all_in(points, s),
        n <= points.len(),
        column.len() == points.len(),
        forall|j: int| 0 <= j < column.len() ==> -count <= #[trigger] column[j] <= count,
    ensures
        group::all_in(bucket_totals::<P>(points, column, count, n), s),
        weighted::<P>(bucket_totals::<P>(points, column, count, n), 0, 1) == combination::<P>(
            points,
            integers(column),
            n,
        ),
    decreases n,
{
    let t = bucket_totals::<P>(points, column, count, n);
    assert forall|b: int| 0 <= b < t.len() implies s.contains(#[trigger] t[b]) by {
        lemma_members_in::<P>(s, points, column, b as nat, n);
        group::lemma_total_in::<P>(s, members(points, column, b as nat, n));
    }
    if n == 0 {
        lemma_weighted_empty::<P>(t, 0, 1);
    } else {
        let h = (n - 1) as nat;
        lemma_buckets_combine::<P>(s, points, column, count, h);
        let before = bucket_totals::<P>(points, column, count, h);
        let (p, d) = (points[n - 1], column[n - 1]);
        assert(s.contains(p));
        if p is None || d == 0 {
            assert(t =~= before);
            group::lemma_multiple_of_identity::<P>(d as nat);
            group::lemma_multiple_of_identity::<P>((-d) as nat);
        } else {
            let i: nat = if d > 0 { (d - 1) as nat } else { (-d - 1) as nat };
            let x = signed(p, d);
            group::lemma_closed::<P>(s, p, p);
            assert forall|b: int| 0 <= b < count implies #[trigger] t[b] == before.update(
                i as int,
                curve::sum::<P>(before[i as int], x),
            )[b] by {
                let held = members(points, column, b as nat, h);
                if b == i {
                    assert(held.push(x).drop_last() =~= held);
                }
            }
            assert(t =~= before.update(i as int, curve::sum::<P>(before[i as int], x)));
            lemma_weighted_update::<P>(s, before, i, x, 0, 1);
        }
    }
}

/// Empty buckets weigh nothing.
proof fn lemma_weighted_empty<P: SWCurveConfig>(t: Seq<Point<P::BaseField>>, b: nat, k: nat)
    requires
        forall|i: int| 0 <= i < t.len() ==> #[trigger] t[i] is None,
    ensures
        weighted::<P>(t, b, k) is None,
    decreases t.len() - b,
{
    if b < t.len() {
        lemma_weighted_empty::<P>(t, b + 1, k + 1);
        group::lemma_multiple_of_identity::<P>(k);
        assert(t[b as int] is None);
    }
}

/// A window adds up the points, each scaled by its digit.
pub proof fn law_window<P: SWCurveConfig>(
    s: Set<Point<P::BaseField>>,
    points: Seq<Point<P::BaseField>>,
    column: Seq<i64>,
    count: nat,
)
    requires
        group::is_group::<P>(s),
        group::all_in(points, s),
        column.len() == points.len(),
        forall|j: int| 0 <= j < column.len() ==> -count <= #[trigger] column[j] <= count,
    ensures
        window_value::<P>(points, column, count) == combination::<P>(
            points,
            integers(column),
            points.len(),
        ),
{
    let n = points.len();
    let t = bucket_sums::<P>(points, column, count);
    lemma_buckets_combine::<P>(s, points, column, count, n);
    assert(t =~= bucket_totals::<P>(points, column, count, n)) by {
        assert forall|b: int| 0 <= b < count implies #[trigger] t[b] == bucket_totals::<P>(
            points,
            column,
            count,
            n,
        )[b] by {
            lemma_members_in::<P>(s, points, column, b as nat, n);
            lemma_tree_total::<P>(s, members(points, column, b as nat, n));
        }
    }
    lemma_swept_weighted::<P>(s, t, 0);
}

/// Doubling `k` times multiplies by `2^k`.
proof fn lemma_doubled<P: SWCurveConfig>(
    s: Set<Point<P::BaseField>>,
    p: Point<P::BaseField>,
    k: nat,
)
    requires
        group::is_group::<P>(s),
        s.contains(p),
    ensures
        doubled::<P>(p, k) == group::multiple::<P>(pow2(k), p),
    decreases k,
{
    lemma2_to64();
    if k == 0 {
        assert(group::multiple::<P>(0, p) is None);
        assert(group::multiple::<P>(1, p) == p);
    } else {
        let h = (k - 1) as nat;
        lemma_doubled::<P>(s, p, h);
        lemma_pow2_unfold(k);
        group::lemma_multiple_adds::<P>(s, pow2(h), pow2(h), p);
    }
}

/// The windows from `i` up, stacked: window `i + k` counts `2^(c k)` times.
spec fn stacked<P: SWCurveConfig>(
    windows: Seq<Point<P::BaseField>>,
    c: nat,
    i: nat,
) -> Point<P::BaseField>
    decreases windows.len() - i,
{
    if i >= windows.len() {
        None
    } else {
        curve::sum::<P>(
            group::multiple::<P>(pow2(c), stacked::<P>(windows, c, i + 1)),
            windows[i as int],
        )
    }
}

/// Stacked windows stay in the group.
proof fn lemma_stacked_in<P: SWCurveConfig>(
    s: Set<Point<P::BaseField>>,
    windows: Seq<Point<P::BaseField>>,
    c: nat,
    i: nat,
)
    requires
        group::is_group::<P>(s),
        group::all_in(windows, s),
    ensures
        s.contains(stacked::<P>(windows, c, i)),
    decreases windows.len() - i,
{
    if i < windows.len() {
        lemma_stacked_in::<P>(s, windows, c, i + 1);
        let v = stacked::<P>(windows, c, i + 1);
        group::lemma_multiple_in::<P>(s, pow2(c), v);
        assert(s.contains(windows[i as int]));
        group::lemma_closed::<P>(s, group::multiple::<P>(pow2(c), v), windows[i as int]);
    } else {
        reveal(group::is_group);
    }
}

/// Folding windows from high to low stacks them.
proof fn lemma_folded_stacked<P: SWCurveConfig>(
    s: Set<Point<P::BaseField>>,
    windows: Seq<Point<P::BaseField>>,
    c: nat,
    i: nat,
)
    requires
        group::is_group::<P>(s),
        group::all_in(windows, s),
    ensures
        folded::<P>(windows, c, i) == group::multiple::<P>(
            pow2(c),
            stacked::<P>(windows, c, i),
        ),
    decreases windows.len() - i,
{
    if i < windows.len() {
        lemma_folded_stacked::<P>(s, windows, c, i + 1);
        lemma_stacked_in::<P>(s, windows, c, i);
        lemma_doubled::<P>(s, stacked::<P>(windows, c, i), c);
    } else {
        group::lemma_multiple_of_identity::<P>(pow2(c));
    }
}

/// Stacking distributes over sums of windows.
proof fn lemma_stacked_sum<P: SWCurveConfig>(
    s: Set<Point<P::BaseField>>,
    u: Seq<Point<P::BaseField>>,
    v: Seq<Point<P::BaseField>>,
    w: Seq<Point<P::BaseField>>,
    c: nat,
    i: nat,
)
    requires
        group::is_group::<P>(s),
        group::all_in(u, s),
        group::all_in(v, s),
        u.len() == w.len(),
        v.len() == w.len(),
        forall|k: int| 0 <= k < w.len() ==> #[trigger] w[k] == curve::sum::<P>(u[k], v[k]),
    ensures
        stacked::<P>(w, c, i) == curve::sum::<P>(
            stacked::<P>(u, c, i),
            stacked::<P>(v, c, i),
        ),
    decreases w.len() - i,
{
    if i < w.len() {
        lemma_stacked_sum::<P>(s, u, v, w, c, i + 1);
        lemma_stacked_in::<P>(s, u, c, i + 1);
        lemma_stacked_in::<P>(s, v, c, i + 1);
        let (a, b) = (stacked::<P>(u, c, i + 1), stacked::<P>(v, c, i + 1));
        let m = pow2(c);
        group::lemma_multiple_of_sum::<P>(s, m, a, b);
        group::lemma_multiple_in::<P>(s, m, a);
        group::lemma_multiple_in::<P>(s, m, b);
        assert(s.contains(u[i as int]) && s.contains(v[i as int]));
        assert(w[i as int] == curve::sum::<P>(u[i as int], v[i as int]));
        group::lemma_exchange::<P>(
            s,
            group::multiple::<P>(m, a),
            group::multiple::<P>(m, b),
            u[i as int],
            v[i as int],
        );
    }
}

/// The number that the digits from `i` up stand for, in units of digit `i`.
spec fn upper(d: Seq<i64>, c: nat, i: nat) -> int
    decreases d.len() - i,
{
    if i >= d.len() {
        0
    } else {
        pow2(c) * upper(d, c, i + 1) + d[i as int]
    }
}

/// The digits below `i` and those from `i` up make the whole number.
proof fn lemma_upper(d: Seq<i64>, c: nat, i: nat)
    requires
        i <= d.len(),
    ensures
        digits::digit_sum(d, c, d.len()) == digits::digit_sum(d, c, i) + pow2(c * i) * upper(
            d,
            c,
            i,
        ),
    decreases d.len() - i,
{
    if i < d.len() {
        lemma_upper(d, c, i + 1);
        limbs::lemma_weight_step(c, i);
        let (w, r, u, x) = (pow2(c * i) as int, pow2(c) as int, upper(d, c, i + 1), d[i as int] as int);
        assert(digits::digit_sum(d, c, i + 1) == digits::digit_sum(d, c, i) + x * w);
        assert(x * w + (w * r) * u == w * (r * u + x)) by (nonlinear_arith);
    } else {
        assert(pow2(c * i) * 0 == 0) by (nonlinear_arith);
    }
}

/// Stacking multiples of one point by digits gives the multiple by their number.
proof fn lemma_stacked_scaled<P: SWCurveConfig>(
    s: Set<Point<P::BaseField>>,
    v: Seq<Point<P::BaseField>>,
    d: Seq<i64>,
    p: Point<P::BaseField>,
    c: nat,
    i: nat,
)
    requires
        group::is_group::<P>(s),
        s.contains(p),
        v.len() == d.len(),
        forall|k: int| 0 <= k < v.len() ==> #[trigger] v[k] == group::scaled::<P>(d[k] as int, p),
    ensures
        stacked::<P>(v, c, i) == group::scaled::<P>(upper(d, c, i), p),
    decreases v.len() - i,
{
    if i < v.len() {
        lemma_stacked_scaled::<P>(s, v, d, p, c, i + 1);
        let u = upper(d, c, i + 1);
        group::lemma_multiple_scaled::<P>(s, pow2(c), u, p);
        assert(v[i as int] == group::scaled::<P>(d[i as int] as int, p));
        group::lemma_scaled_adds::<P>(s, pow2(c) * u, d[i as int] as int, p);
    } else {
        assert(group::scaled::<P>(0, p) is None);
    }
}

/// Combinations stay in the group.
proof fn lemma_combination_in<P: SWCurveConfig>(
    s: Set<Point<P::BaseField>>,
    points: Seq<Point<P::BaseField>>,
    scalars: Seq<int>,
    n: nat,
)
    requires
        group::is_group::<P>(s),
        group::all_in(points, s),
        n <= points.len(),
    ensures
        s.contains(combination::<P>(points, scalars, n)),
    decreases n,
{
    if n > 0 {
        let h = (n - 1) as nat;
        lemma_combination_in::<P>(s, points, scalars, h);
        assert(s.contains(points[n - 1]));
        group::lemma_scaled_in::<P>(s, scalars[n - 1], points[n - 1]);
        group::lemma_closed::<P>(
            s,
            combination::<P>(points, scalars, h),
            group::scaled::<P>(scalars[n - 1], points[n - 1]),
        );
    } else {
        reveal(group::is_group);
    }
}

/// The digits of scalar `j`.
pub open spec fn row(scalar_digits: Seq<i64>, stride: nat, j: int) -> Seq<i64> {
    Seq::new(stride, |w: int| scalar_digits[j * stride + w])
}

/// The numbers that the digits of `n` scalars stand for.
pub open spec fn recoded(scalar_digits: Seq<i64>, stride: nat, c: nat, n: nat) -> Seq<int> {
    Seq::new(n, |j: int| digits::digit_sum(row(scalar_digits, stride, j), c, stride))
}

/// The windows' combinations over the first `m` points.
spec fn window_combinations<P: SWCurveConfig>(
    points: Seq<Point<P::BaseField>>,
    scalar_digits: Seq<i64>,
    stride: nat,
    m: nat,
) -> Seq<Point<P::BaseField>> {
    Seq::new(
        stride,
        |w: int|
            combination::<P>(
                points,
                integers(column(scalar_digits, stride, w as nat, points.len())),
                m,
            ),
    )
}

/// Windows of combinations stack to the combination by whole numbers.
proof fn lemma_windows_combine<P: SWCurveConfig>(
    s: Set<Point<P::BaseField>>,
    points: Seq<Point<P::BaseField>>,
    scalar_digits: Seq<i64>,
    stride: nat,
    c: nat,
    m: nat,
)
    requires
        group::is_group::<P>(s),
        group::all_in(points, s),
        m <= points.len(),
    ensures
        group::all_in(window_combinations::<P>(points, scalar_digits, stride, m), s),
        stacked::<P>(window_combinations::<P>(points, scalar_digits, stride, m), c, 0)
            == combination::<P>(points, recoded(scalar_digits, stride, c, points.len()), m),
    decreases m,
{
    let n = points.len();
    let w = window_combinations::<P>(points, scalar_digits, stride, m);
    let numbers = recoded(scalar_digits, stride, c, n);
    assert forall|k: int| 0 <= k < w.len() implies s.contains(#[trigger] w[k]) by {
        lemma_combination_in::<P>(
            s,
            points,
            integers(column(scalar_digits, stride, k as nat, n)),
            m,
        );
    }
    if m == 0 {
        lemma_stacked_empty::<P>(w, c, 0);
    } else {
        let h = (m - 1) as nat;
        lemma_windows_combine::<P>(s, points, scalar_digits, stride, c, h);
        let u = window_combinations::<P>(points, scalar_digits, stride, h);
        let p = points[h as int];
        let d = row(scalar_digits, stride, h as int);
        let v = Seq::new(stride, |k: int| group::scaled::<P>(d[k] as int, p));
        assert(s.contains(p));
        assert forall|k: int| 0 <= k < v.len() implies s.contains(#[trigger] v[k]) by {
            group::lemma_scaled_in::<P>(s, d[k] as int, p);
        }
        assert forall|k: int| 0 <= k < w.len() implies #[trigger] w[k] == curve::sum::<P>(
            u[k],
            v[k],
        ) by {
            assert(integers(column(scalar_digits, stride, k as nat, n))[h as int] == d[k]);
        }
        lemma_stacked_sum::<P>(s, u, v, w, c, 0);
        lemma_stacked_scaled::<P>(s, v, d, p, c, 0);
        lemma_upper(d, c, 0);
        lemma2_to64();
        assert(c * 0 == 0) by (nonlinear_arith);
        assert(upper(d, c, 0) == numbers[h as int]);
    }
}

/// Windows of the identity stack to the identity.
proof fn lemma_stacked_empty<P: SWCurveConfig>(w: Seq<Point<P::BaseField>>, c: nat, i: nat)
    requires
        forall|k: int| 0 <= k < w.len() ==> #[trigger] w[k] is None,
    ensures
        stacked::<P>(w, c, i) is None,
    decreases w.len() - i,
{
    if i < w.len() {
        lemma_stacked_empty::<P>(w, c, i + 1);
        group::lemma_multiple_of_identity::<P>(pow2(c));
        assert(w[i as int] is None);
    }
}

/// The bucket method adds up the points, each scaled by the number that its digits stand for.
pub proof fn law_bucket_msm<P: SWCurveConfig>(
    s: Set<Point<P::BaseField>>,
    points: Seq<Point<P::BaseField>>,
    scalar_digits: Seq<i64>,
    stride: nat,
    c: nat,
)
    requires
        group::is_group::<P>(s),
        group::all_in(points, s),
        stride > 0,
        scalar_digits.len() == points.len() * stride,
        forall|i: int|
            0 <= i < scalar_digits.len() ==> -pow2(c) <= #[trigger] scalar_digits[i] <= pow2(c),
    ensures
        bucket_msm::<P>(points, scalar_digits, stride, c) == combination::<P>(
            points,
            recoded(scalar_digits, stride, c, points.len()),
            points.len(),
        ),
{
    let n = points.len();
    let windows = window_values::<P>(points, scalar_digits, stride, c);
    let combined = window_combinations::<P>(points, scalar_digits, stride, n);
    assert forall|w: int| 0 <= w < stride implies #[trigger] windows[w] == combined[w] by {
        let col = column(scalar_digits, stride, w as nat, n);
        assert forall|j: int| 0 <= j < col.len() implies -pow2(c) <= #[trigger] col[j] <= pow2(c) by {
            assert(0 <= j * stride + w < n * stride) by (nonlinear_arith)
                requires
                    0 <= j < n,
                    0 <= w < stride,
            ;
        }
        law_window::<P>(s, points, col, pow2(c));
    }
    assert(windows =~= combined);
    lemma_windows_combine::<P>(s, points, scalar_digits, stride, c, n);
    lemma_folded_stacked::<P>(s, windows, c, 1);
    lemma_stacked_in::<P>(s, windows, c, 1);
    let upper_windows = group::multiple::<P>(pow2(c), stacked::<P>(windows, c, 1));
    group::lemma_multiple_in::<P>(s, pow2(c), stacked::<P>(windows, c, 1));
    assert(s.contains(windows[0]));
    group::lemma_closed::<P>(s, windows[0], upper_windows);
    group::law_sum_commutative::<P>(windows[0], upper_windows);
}

/// The sum of scaled points takes in one term after the other, each integer with the point at the
/// same position.
pub proof fn law_combination<P: SWCurveConfig>(
    points: Seq<Point<P::BaseField>>,
    scalars: Seq<int>,
    n: nat,
)
    ensures
        combination::<P>(points, scalars, 0) is None,
        combination::<P>(points, scalars, n + 1) == curve::sum::<P>(
            combination::<P>(points, scalars, n),
            group::scaled::<P>(scalars[n as int], points[n as int]),
        ),
{
}

/// A tree adds neighbours and goes on with their sums, `u`.
pub proof fn law_tree<P: SWCurveConfig>(
    t: Seq<Point<P::BaseField>>,
    u: Seq<Point<P::BaseField>>,
)
    ensures
        t.len() == 0 ==> tree::<P>(t) is None,
        t.len() == 1 ==> tree::<P>(t) == t[0],
        t.len() > 1 && u.len() == (t.len() + 1) / 2 && (forall|k: int|
            0 <= k < u.len() ==> #[trigger] u[k] == (if 2 * k + 1 < t.len() {
                curve::sum::<P>(t[2 * k], t[2 * k + 1])
            } else {
                t[2 * k]
            })) ==> tree::<P>(t) == tree::<P>(u),
{
    if t.len() > 1 && u.len() == (t.len() + 1) / 2 && (forall|k: int|
        0 <= k < u.len() ==> #[trigger] u[k] == (if 2 * k + 1 < t.len() {
            curve::sum::<P>(t[2 * k], t[2 * k + 1])
        } else {
            t[2 * k]
        })) {
        assert(u =~= halved::<P>(t));
    }
}

/// Point `n` goes to bucket `b` when it is not the identity and its digit is `b + 1`, or, reflected,
/// when its digit is `-(b + 1)`.
pub proof fn law_members<F: Field>(points: Seq<Point<F>>, column: Seq<i64>, b: nat, n: nat)
    ensures
        members(points, column, b, 0).len() == 0,
        members(points, column, b, n + 1) == (if points[n as int] is None {
            members(points, column, b, n)
        } else if column[n as int] == b + 1 {
            members(points, column, b, n).push(points[n as int])
        } else if column[n as int] == -(b + 1) {
            members(points, column, b, n).push(curve::negative(points[n as int]))
        } else {
            members(points, column, b, n)
        }),
{
}

/// The sweep from the top bucket down adds each bucket to the running sum, and that to the result.
pub proof fn law_swept<P: SWCurveConfig>(t: Seq<Point<P::BaseField>>, b: nat)
    ensures
        b >= t.len() ==> running::<P>(t, b) is None && swept::<P>(t, b) is None,
        b < t.len() ==> running::<P>(t, b) == curve::sum::<P>(
            running::<P>(t, b + 1),
            t[b as int],
        ),
        b < t.len() ==> swept::<P>(t, b) == curve::sum::<P>(
            swept::<P>(t, b + 1),
            running::<P>(t, b),
        ),
{
}

/// A window is the sweep over the trees, `t`, of its buckets.
pub proof fn law_window_value<P: SWCurveConfig>(
    points: Seq<Point<P::BaseField>>,
    column: Seq<i64>,
    t: Seq<Point<P::BaseField>>,
)
    requires
        forall|b: int|
            0 <= b < t.len() ==> #[trigger] t[b] == tree::<P>(
                members(points, column, b as nat, points.len()),
            ),
    ensures
        window_value::<P>(points, column, t.len()) == swept::<P>(t, 0),
{
    assert(t =~= bucket_sums::<P>(points, column, t.len()));
}

/// Folding adds a window and doubles `c` times, from the top window down.
pub proof fn law_folded<P: SWCurveConfig>(
    windows: Seq<Point<P::BaseField>>,
    c: nat,
    i: nat,
    p: Point<P::BaseField>,
)
    ensures
        doubled::<P>(p, 0) == p,
        doubled::<P>(p, c + 1) == curve::sum::<P>(doubled::<P>(p, c), doubled::<P>(p, c)),
        i >= windows.len() ==> folded::<P>(windows, c, i) is None,
        i < windows.len() ==> folded::<P>(windows, c, i) == doubled::<P>(
            curve::sum::<P>(folded::<P>(windows, c, i + 1), windows[i as int]),
            c,
        ),
{
}

/// The bucket method takes window `w` of scalar `j` from digit `j * stride + w`, and adds the
/// lowest window to the folded others.
pub proof fn law_bucket_windows<P: SWCurveConfig>(
    points: Seq<Point<P::BaseField>>,
    scalar_digits: Seq<i64>,
    columns: Seq<Seq<i64>>,
    windows: Seq<Point<P::BaseField>>,
    c: nat,
)
    requires
        columns.len() == windows.len(),
        forall|w: int|
            #![trigger columns[w]]
            0 <= w < windows.len() ==> columns[w].len() == points.len() && forall|j: int|
                0 <= j < points.len() ==> #[trigger] columns[w][j] == scalar_digits[j
                    * windows.len() + w],
        forall|w: int|
            0 <= w < windows.len() ==> #[trigger] windows[w] == window_value::<P>(
                points,
                columns[w],
                pow2(c),
            ),
    ensures
        bucket_msm::<P>(points, scalar_digits, windows.len(), c) == curve::sum::<P>(
            windows[0],
            folded::<P>(windows, c, 1),
        ),
{
    let all = window_values::<P>(points, scalar_digits, windows.len(), c);
    if windows.len() > 0 {
        assert forall|w: int| 0 <= w < windows.len() implies #[trigger] windows[w] == all[w] by {
            assert(columns[w] =~= column(scalar_digits, windows.len(), w as nat, points.len()));
        }
        assert(windows =~= all);
    } else {
        assert(windows =~= all);
    }
}

/// The digits of scalar `j` are those from `j * stride` on.
pub proof fn law_row(scalar_digits: Seq<i64>, stride: nat, j: int, w: int)
    requires
        0 <= w < stride,
    ensures
        row(scalar_digits, stride, j).len() == stride,
        row(scalar_digits, stride, j)[w] == scalar_digits[j * stride + w],
{
}

} // verus!
