//! Polynomial identities: what holds of all integers holds in every field.
use crate::field;
use crate::field::Field;
use vstd::prelude::*;

verus! {

/// A polynomial expression over numbered variables.
pub enum Expr {
    Const(int),
    Var(nat),
    Add(Box<Expr>, Box<Expr>),
    Neg(Box<Expr>),
    Mul(Box<Expr>, Box<Expr>),
}

/// The value of an expression over the integers.
pub closed spec fn number(e: Expr, z: Seq<int>) -> int
    decreases e,
{
    match e {
        Expr::Const(c) => c,
        Expr::Var(i) => z[i as int],
        Expr::Add(a, b) => number(*a, z) + number(*b, z),
        Expr::Neg(a) => -number(*a, z),
        Expr::Mul(a, b) => number(*a, z) * number(*b, z),
    }
}

/// The element that one added `n` times gives.
pub open spec fn embed_nat<F: Field>(n: nat) -> F
    decreases n,
{
    if n == 0 {
        F::ZERO
    } else {
        embed_nat::<F>((n - 1) as nat).plus(F::ONE)
    }
}

/// The element that an integer stands for.
pub open spec fn embed<F: Field>(c: int) -> F {
    if c >= 0 {
        embed_nat::<F>(c as nat)
    } else {
        embed_nat::<F>((-c) as nat).negated()
    }
}

/// The value of an expression in a field.
pub closed spec fn element<F: Field>(e: Expr, v: Seq<F>) -> F
    decreases e,
{
    match e {
        Expr::Const(c) => embed::<F>(c),
        Expr::Var(i) => v[i as int],
        Expr::Add(a, b) => element(*a, v).plus(element(*b, v)),
        Expr::Neg(a) => element(*a, v).negated(),
        Expr::Mul(a, b) => element(*a, v).times(element(*b, v)),
    }
}

/// All variables are below `n`.
pub closed spec fn within(e: Expr, n: nat) -> bool
    decreases e,
{
    match e {
        Expr::Const(c) => true,
        Expr::Var(i) => i < n,
        Expr::Add(a, b) => within(*a, n) && within(*b, n),
        Expr::Neg(a) => within(*a, n),
        Expr::Mul(a, b) => within(*a, n) && within(*b, n),
    }
}

/// Integers embed as valid elements.
proof fn lemma_embed_valid<F: Field>(c: int)
    ensures
        embed::<F>(c).valid(),
    decreases
            (if c >= 0 {
                c
            } else {
                -c
            }),
{
    F::law_closed();
    if c > 0 {
        lemma_embed_valid::<F>(c - 1);
    } else if c < 0 {
        lemma_embed_valid::<F>(c + 1);
        lemma_embed_nat_valid::<F>((-c) as nat);
    }
}

/// Natural numbers embed as valid elements.
proof fn lemma_embed_nat_valid<F: Field>(n: nat)
    ensures
        embed_nat::<F>(n).valid(),
    decreases n,
{
    F::law_closed();
    if n > 0 {
        lemma_embed_nat_valid::<F>((n - 1) as nat);
    }
}

/// Counting up by one adds one.
proof fn lemma_embed_next<F: Field>(c: int)
    ensures
        embed::<F>(c + 1) == embed::<F>(c).plus(F::ONE),
{
    F::law_closed();
    if c < 0 {
        // -(u + 1) + 1 = -u
        let u = embed_nat::<F>((-c - 1) as nat);
        lemma_embed_nat_valid::<F>((-c - 1) as nat);
        let w = u.plus(F::ONE);
        assert(embed_nat::<F>((-c) as nat) == w);
        F::law_plus_negated(w);
        F::law_plus_commutative(w, w.negated());
        F::law_plus_commutative(u, F::ONE);
        F::law_plus_associative(w.negated(), F::ONE, u);
        F::law_plus_negated(u);
        F::law_plus_commutative(u, u.negated());
        field::lemma_plus_cancel(w.negated().plus(F::ONE), u.negated(), u);
        if c == -1 {
            F::law_plus_zero(F::ZERO.negated());
            F::law_plus_commutative(F::ZERO, F::ZERO.negated());
            F::law_plus_negated(F::ZERO);
        }
    }
}

/// Embedding keeps sums.
proof fn lemma_embed_add<F: Field>(a: int, b: int)
    ensures
        embed::<F>(a + b) == embed::<F>(a).plus(embed::<F>(b)),
    decreases
            (if b >= 0 {
                b
            } else {
                -b
            }),
{
    F::law_closed();
    lemma_embed_valid::<F>(a);
    lemma_embed_valid::<F>(b);
    lemma_embed_valid::<F>(a + b);
    if b == 0 {
        F::law_plus_zero(embed::<F>(a));
    } else if b > 0 {
        lemma_embed_add::<F>(a, b - 1);
        lemma_embed_valid::<F>(b - 1);
        lemma_embed_next::<F>(a + b - 1);
        lemma_embed_next::<F>(b - 1);
        F::law_plus_associative(embed::<F>(a), embed::<F>(b - 1), F::ONE);
    } else {
        lemma_embed_add::<F>(a, b + 1);
        lemma_embed_next::<F>(a + b);
        lemma_embed_next::<F>(b);
        F::law_plus_associative(embed::<F>(a), embed::<F>(b), F::ONE);
        field::lemma_plus_cancel(
            embed::<F>(a + b),
            embed::<F>(a).plus(embed::<F>(b)),
            F::ONE,
        );
    }
}

/// Embedding keeps negatives.
proof fn lemma_embed_neg<F: Field>(a: int)
    ensures
        embed::<F>(-a) == embed::<F>(a).negated(),
{
    F::law_closed();
    lemma_embed_valid::<F>(a);
    lemma_embed_valid::<F>(-a);
    lemma_embed_add::<F>(-a, a);
    let x = embed::<F>(a);
    F::law_plus_negated(x);
    F::law_plus_commutative(x, x.negated());
    field::lemma_plus_cancel(embed::<F>(-a), x.negated(), x);
}

/// Embedding keeps products.
proof fn lemma_embed_mul<F: Field>(a: int, b: int)
    ensures
        embed::<F>(a * b) == embed::<F>(a).times(embed::<F>(b)),
    decreases
            (if a >= 0 {
                a
            } else {
                -a
            }),
{
    F::law_closed();
    lemma_embed_valid::<F>(a);
    lemma_embed_valid::<F>(b);
    lemma_embed_valid::<F>(a * b);
    let y = embed::<F>(b);
    F::law_times_one(y);
    F::law_times_commutative(F::ONE, y);
    if a == 0 {
        assert(0 * b == 0) by (nonlinear_arith);
        field::lemma_times_zero(y);
    } else if a > 0 {
        lemma_embed_mul::<F>(a - 1, b);
        lemma_embed_valid::<F>(a - 1);
        lemma_embed_next::<F>(a - 1);
        F::law_distributive(embed::<F>(a - 1), F::ONE, y);
        assert(a * b == (a - 1) * b + b) by (nonlinear_arith);
        lemma_embed_add::<F>((a - 1) * b, b);
    } else {
        lemma_embed_mul::<F>(a + 1, b);
        lemma_embed_next::<F>(a);
        F::law_distributive(embed::<F>(a), F::ONE, y);
        assert((a + 1) * b == a * b + b) by (nonlinear_arith);
        lemma_embed_add::<F>(a * b, b);
        field::lemma_plus_cancel(embed::<F>(a * b), embed::<F>(a).times(y), y);
    }
}

/// Expressions of valid elements are valid.
pub proof fn lemma_element_valid<F: Field>(e: Expr, v: Seq<F>)
    requires
        within(e, v.len()),
        field::all_valid(v),
    ensures
        element(e, v).valid(),
    decreases e,
{
    F::law_closed();
    match e {
        Expr::Const(c) => {
            lemma_embed_valid::<F>(c);
        },
        Expr::Var(i) => {
            assert(v[i as int].valid());
        },
        Expr::Add(a, b) => {
            lemma_element_valid(*a, v);
            lemma_element_valid(*b, v);
        },
        Expr::Neg(a) => {
            lemma_element_valid(*a, v);
        },
        Expr::Mul(a, b) => {
            lemma_element_valid(*a, v);
            lemma_element_valid(*b, v);
        },
    }
}

/// An expression without variables has the value of its number.
proof fn lemma_closed_element<F: Field>(e: Expr, v: Seq<F>, z: Seq<int>)
    requires
        within(e, 0),
    ensures
        element(e, v) == embed::<F>(number(e, z)),
    decreases e,
{
    match e {
        Expr::Const(c) => {},
        Expr::Var(i) => {},
        Expr::Add(a, b) => {
            lemma_closed_element(*a, v, z);
            lemma_closed_element(*b, v, z);
            lemma_embed_add::<F>(number(*a, z), number(*b, z));
        },
        Expr::Neg(a) => {
            lemma_closed_element(*a, v, z);
            lemma_embed_neg::<F>(number(*a, z));
        },
        Expr::Mul(a, b) => {
            lemma_closed_element(*a, v, z);
            lemma_closed_element(*b, v, z);
            lemma_embed_mul::<F>(number(*a, z), number(*b, z));
        },
    }
}

/// The coefficients of a polynomial in one variable, lowest first.
enum Coeffs {
    Nil,
    Cons(Expr, Box<Coeffs>),
}

/// The number of coefficients.
spec fn length(p: Coeffs) -> nat
    decreases p,
{
    match p {
        Coeffs::Nil => 0,
        Coeffs::Cons(c, r) => 1 + length(*r),
    }
}

/// The value of the polynomial at `x` over the integers.
spec fn number_at(p: Coeffs, z: Seq<int>, x: int) -> int
    decreases p,
{
    match p {
        Coeffs::Nil => 0,
        Coeffs::Cons(c, r) => number(c, z) + x * number_at(*r, z, x),
    }
}

/// The value of the polynomial at `x` in a field.
spec fn element_at<F: Field>(p: Coeffs, v: Seq<F>, x: F) -> F
    decreases p,
{
    match p {
        Coeffs::Nil => F::ZERO,
        Coeffs::Cons(c, r) => element(c, v).plus(x.times(element_at(*r, v, x))),
    }
}

/// All variables of all coefficients are below `n`.
spec fn all_within(p: Coeffs, n: nat) -> bool
    decreases p,
{
    match p {
        Coeffs::Nil => true,
        Coeffs::Cons(c, r) => within(c, n) && all_within(*r, n),
    }
}

/// The sum of two polynomials.
spec fn poly_add(p: Coeffs, q: Coeffs) -> Coeffs
    decreases p,
{
    match (p, q) {
        (Coeffs::Nil, _) => q,
        (_, Coeffs::Nil) => p,
        (Coeffs::Cons(a, r), Coeffs::Cons(b, s)) => Coeffs::Cons(
            Expr::Add(Box::new(a), Box::new(b)),
            Box::new(poly_add(*r, *s)),
        ),
    }
}

/// The negative of a polynomial.
spec fn poly_neg(p: Coeffs) -> Coeffs
    decreases p,
{
    match p {
        Coeffs::Nil => Coeffs::Nil,
        Coeffs::Cons(a, r) => Coeffs::Cons(Expr::Neg(Box::new(a)), Box::new(poly_neg(*r))),
    }
}

/// A polynomial times an expression.
spec fn poly_scale(c: Expr, p: Coeffs) -> Coeffs
    decreases p,
{
    match p {
        Coeffs::Nil => Coeffs::Nil,
        Coeffs::Cons(a, r) => Coeffs::Cons(
            Expr::Mul(Box::new(c), Box::new(a)),
            Box::new(poly_scale(c, *r)),
        ),
    }
}

/// The product of two polynomials.
spec fn poly_mul(p: Coeffs, q: Coeffs) -> Coeffs
    decreases p,
{
    match p {
        Coeffs::Nil => Coeffs::Nil,
        Coeffs::Cons(a, r) => poly_add(
            poly_scale(a, q),
            Coeffs::Cons(Expr::Const(0), Box::new(poly_mul(*r, q))),
        ),
    }
}

/// An expression as a polynomial in variable `k`.
spec fn coefficients(e: Expr, k: nat) -> Coeffs
    decreases e,
{
    match e {
        Expr::Const(c) => Coeffs::Cons(e, Box::new(Coeffs::Nil)),
        Expr::Var(i) => if i == k {
            Coeffs::Cons(
                Expr::Const(0),
                Box::new(Coeffs::Cons(Expr::Const(1), Box::new(Coeffs::Nil))),
            )
        } else {
            Coeffs::Cons(e, Box::new(Coeffs::Nil))
        },
        Expr::Add(a, b) => poly_add(coefficients(*a, k), coefficients(*b, k)),
        Expr::Neg(a) => poly_neg(coefficients(*a, k)),
        Expr::Mul(a, b) => poly_mul(coefficients(*a, k), coefficients(*b, k)),
    }
}

/// Sums of polynomials over the integers.
proof fn lemma_number_add(p: Coeffs, q: Coeffs, z: Seq<int>, x: int, n: nat)
    ensures
        number_at(poly_add(p, q), z, x) == number_at(p, z, x) + number_at(q, z, x),
        all_within(p, n) && all_within(q, n) ==> all_within(poly_add(p, q), n),
    decreases p,
{
    if let (Coeffs::Cons(a, r), Coeffs::Cons(b, s)) = (p, q) {
        lemma_number_add(*r, *s, z, x, n);
        let (u, w) = (number_at(*r, z, x), number_at(*s, z, x));
        assert(x * (u + w) == x * u + x * w) by (nonlinear_arith);
    }
}

/// Negatives of polynomials over the integers.
proof fn lemma_number_neg(p: Coeffs, z: Seq<int>, x: int, n: nat)
    ensures
        number_at(poly_neg(p), z, x) == -number_at(p, z, x),
        all_within(p, n) ==> all_within(poly_neg(p), n),
    decreases p,
{
    if let Coeffs::Cons(a, r) = p {
        lemma_number_neg(*r, z, x, n);
        let u = number_at(*r, z, x);
        assert(x * (-u) == -(x * u)) by (nonlinear_arith);
    }
}

/// Multiples of polynomials over the integers.
proof fn lemma_number_scale(c: Expr, p: Coeffs, z: Seq<int>, x: int, n: nat)
    ensures
        number_at(poly_scale(c, p), z, x) == number(c, z) * number_at(p, z, x),
        within(c, n) && all_within(p, n) ==> all_within(poly_scale(c, p), n),
    decreases p,
{
    let y = number(c, z);
    if let Coeffs::Cons(a, r) = p {
        lemma_number_scale(c, *r, z, x, n);
        let (u, w) = (number_at(*r, z, x), number(a, z));
        assert(y * w + x * (y * u) == y * (w + x * u)) by (nonlinear_arith);
    } else {
        assert(y * 0 == 0) by (nonlinear_arith);
    }
}

/// Products of polynomials over the integers.
proof fn lemma_number_mul(p: Coeffs, q: Coeffs, z: Seq<int>, x: int, n: nat)
    ensures
        number_at(poly_mul(p, q), z, x) == number_at(p, z, x) * number_at(q, z, x),
        all_within(p, n) && all_within(q, n) ==> all_within(poly_mul(p, q), n),
    decreases p,
{
    let y = number_at(q, z, x);
    if let Coeffs::Cons(a, r) = p {
        lemma_number_mul(*r, q, z, x, n);
        lemma_number_scale(a, q, z, x, n);
        let shifted = Coeffs::Cons(Expr::Const(0), Box::new(poly_mul(*r, q)));
        assert(number_at(shifted, z, x) == 0 + x * number_at(poly_mul(*r, q), z, x));
        lemma_number_add(poly_scale(a, q), shifted, z, x, n);
        let (u, w) = (number_at(*r, z, x), number(a, z));
        assert(w * y + x * (u * y) == (w + x * u) * y) by (nonlinear_arith);
    } else {
        assert(0 * y == 0) by (nonlinear_arith);
    }
}

/// Collecting coefficients keeps the value over the integers.
proof fn lemma_number_collected(e: Expr, z: Seq<int>, k: nat)
    ensures
        number_at(coefficients(e, k), z, z[k as int]) == number(e, z),
        within(e, k + 1) ==> all_within(coefficients(e, k), k),
    decreases e,
{
    let x = z[k as int];
    match e {
        Expr::Const(c) => {
            assert(number_at(Coeffs::Nil, z, x) == 0);
            assert(x * 0 == 0) by (nonlinear_arith);
            assert(all_within(Coeffs::Nil, k));
        },
        Expr::Var(i) => {
            assert(number_at(Coeffs::Nil, z, x) == 0);
            assert(all_within(Coeffs::Nil, k));
            assert(x * 0 == 0) by (nonlinear_arith);
            if i == k {
                let one = Coeffs::Cons(Expr::Const(1), Box::new(Coeffs::Nil));
                assert(number_at(one, z, x) == 1);
                assert(all_within(one, k));
            }
        },
        Expr::Add(a, b) => {
            lemma_number_collected(*a, z, k);
            lemma_number_collected(*b, z, k);
            lemma_number_add(coefficients(*a, k), coefficients(*b, k), z, x, k);
        },
        Expr::Neg(a) => {
            lemma_number_collected(*a, z, k);
            lemma_number_neg(coefficients(*a, k), z, x, k);
        },
        Expr::Mul(a, b) => {
            lemma_number_collected(*a, z, k);
            lemma_number_collected(*b, z, k);
            lemma_number_mul(coefficients(*a, k), coefficients(*b, k), z, x, k);
        },
    }
}

/// The value of a polynomial of valid elements is valid.
proof fn lemma_element_at_valid<F: Field>(p: Coeffs, v: Seq<F>, x: F)
    requires
        all_within(p, v.len()),
        field::all_valid(v),
        x.valid(),
    ensures
        element_at(p, v, x).valid(),
    decreases p,
{
    F::law_closed();
    if let Coeffs::Cons(c, r) = p {
        lemma_element_valid(c, v);
        lemma_element_at_valid(*r, v, x);
    }
}

/// Sums of polynomials in a field.
proof fn lemma_element_add<F: Field>(p: Coeffs, q: Coeffs, v: Seq<F>, x: F)
    requires
        all_within(p, v.len()),
        all_within(q, v.len()),
        field::all_valid(v),
        x.valid(),
    ensures
        element_at(poly_add(p, q), v, x) == element_at(p, v, x).plus(element_at(q, v, x)),
        all_within(poly_add(p, q), v.len()),
    decreases p,
{
    F::law_closed();
    lemma_element_at_valid(p, v, x);
    lemma_element_at_valid(q, v, x);
    F::law_plus_zero(element_at(p, v, x));
    F::law_plus_zero(element_at(q, v, x));
    F::law_plus_commutative(F::ZERO, element_at(q, v, x));
    if let (Coeffs::Cons(a, r), Coeffs::Cons(b, s)) = (p, q) {
        lemma_element_add(*r, *s, v, x);
        lemma_element_valid(a, v);
        lemma_element_valid(b, v);
        lemma_element_at_valid(*r, v, x);
        lemma_element_at_valid(*s, v, x);
        let (u, w) = (element_at(*r, v, x), element_at(*s, v, x));
        F::law_distributive(u, w, x);
        F::law_times_commutative(x, u.plus(w));
        F::law_times_commutative(x, u);
        F::law_times_commutative(x, w);
        field::lemma_plus_exchange(element(a, v), x.times(u), element(b, v), x.times(w));
    }
}

/// Negatives of polynomials in a field.
proof fn lemma_element_neg<F: Field>(p: Coeffs, v: Seq<F>, x: F)
    requires
        all_within(p, v.len()),
        field::all_valid(v),
        x.valid(),
    ensures
        element_at(poly_neg(p), v, x) == element_at(p, v, x).negated(),
        all_within(poly_neg(p), v.len()),
    decreases p,
{
    F::law_closed();
    if let Coeffs::Cons(a, r) = p {
        lemma_element_neg(*r, v, x);
        lemma_element_valid(a, v);
        lemma_element_at_valid(*r, v, x);
        let u = element_at(*r, v, x);
        field::lemma_negated_times(x, u);
        field::lemma_negated_plus(element(a, v), x.times(u));
    } else {
        F::law_plus_zero(F::ZERO.negated());
        F::law_plus_commutative(F::ZERO, F::ZERO.negated());
        F::law_plus_negated(F::ZERO);
    }
}

/// Multiples of polynomials in a field.
proof fn lemma_element_scale<F: Field>(c: Expr, p: Coeffs, v: Seq<F>, x: F)
    requires
        within(c, v.len()),
        all_within(p, v.len()),
        field::all_valid(v),
        x.valid(),
    ensures
        element_at(poly_scale(c, p), v, x) == element(c, v).times(element_at(p, v, x)),
        all_within(poly_scale(c, p), v.len()),
    decreases p,
{
    F::law_closed();
    let y = element(c, v);
    lemma_element_valid(c, v);
    if let Coeffs::Cons(a, r) = p {
        lemma_element_scale(c, *r, v, x);
        lemma_element_valid(a, v);
        lemma_element_at_valid(*r, v, x);
        let (u, w) = (element_at(*r, v, x), element(a, v));
        // x (y u) = (x u) y
        F::law_times_associative(x, u, y);
        F::law_times_commutative(y, u);
        F::law_distributive(w, x.times(u), y);
        F::law_times_commutative(y, w);
        F::law_times_commutative(y, w.plus(x.times(u)));
    } else {
        field::lemma_times_zero(y);
    }
}

/// Products of polynomials in a field.
proof fn lemma_element_mul<F: Field>(p: Coeffs, q: Coeffs, v: Seq<F>, x: F)
    requires
        all_within(p, v.len()),
        all_within(q, v.len()),
        field::all_valid(v),
        x.valid(),
    ensures
        element_at(poly_mul(p, q), v, x) == element_at(p, v, x).times(element_at(q, v, x)),
        all_within(poly_mul(p, q), v.len()),
    decreases p,
{
    F::law_closed();
    let y = element_at(q, v, x);
    lemma_element_at_valid(q, v, x);
    if let Coeffs::Cons(a, r) = p {
        lemma_element_mul(*r, q, v, x);
        lemma_element_scale(a, q, v, x);
        lemma_element_valid(a, v);
        lemma_element_at_valid(*r, v, x);
        let shifted = Coeffs::Cons(Expr::Const(0), Box::new(poly_mul(*r, q)));
        lemma_element_add(poly_scale(a, q), shifted, v, x);
        let (u, w) = (element_at(*r, v, x), element(a, v));
        let t = x.times(u.times(y));
        assert(embed_nat::<F>(0) == F::ZERO);
        assert(element::<F>(Expr::Const(0), v) == F::ZERO);
        F::law_plus_zero(t);
        F::law_plus_commutative(F::ZERO, t);
        assert(element_at(shifted, v, x) == t);
        F::law_times_associative(x, u, y);
        F::law_distributive(w, x.times(u), y);
    } else {
        field::lemma_times_zero(y);
    }
}

/// Collecting coefficients keeps the value in a field.
proof fn lemma_element_collected<F: Field>(e: Expr, v: Seq<F>, k: nat)
    requires
        within(e, k + 1),
        k < v.len(),
        field::all_valid(v),
    ensures
        element_at(coefficients(e, k), v, v[k as int]) == element(e, v),
        all_within(coefficients(e, k), v.len()),
    decreases e,
{
    F::law_closed();
    let x = v[k as int];
    assert(x.valid());
    field::lemma_times_zero(x);
    assert(element_at(Coeffs::Nil, v, x) == F::ZERO);
    assert(all_within(Coeffs::Nil, v.len()));
    match e {
        Expr::Const(c) => {
            lemma_embed_valid::<F>(c);
            F::law_plus_zero(embed::<F>(c));
        },
        Expr::Var(i) => {
            if i == k {
                let one = Coeffs::Cons(Expr::Const(1), Box::new(Coeffs::Nil));
                assert(embed_nat::<F>(0) == F::ZERO);
                assert(embed_nat::<F>(1) == F::ZERO.plus(F::ONE));
                F::law_plus_zero(F::ONE);
                F::law_plus_commutative(F::ZERO, F::ONE);
                assert(element::<F>(Expr::Const(1), v) == F::ONE);
                assert(element::<F>(Expr::Const(0), v) == F::ZERO);
                assert(element_at(one, v, x) == F::ONE);
                assert(all_within(one, v.len()));
                F::law_times_one(x);
                F::law_plus_zero(x);
                F::law_plus_commutative(F::ZERO, x);
            } else {
                assert(v[i as int].valid());
                F::law_plus_zero(v[i as int]);
            }
        },
        Expr::Add(a, b) => {
            lemma_element_collected(*a, v, k);
            lemma_element_collected(*b, v, k);
            lemma_element_add(coefficients(*a, k), coefficients(*b, k), v, x);
        },
        Expr::Neg(a) => {
            lemma_element_collected(*a, v, k);
            lemma_element_neg(coefficients(*a, k), v, x);
        },
        Expr::Mul(a, b) => {
            lemma_element_collected(*a, v, k);
            lemma_element_collected(*b, v, k);
            lemma_element_mul(coefficients(*a, k), coefficients(*b, k), v, x);
        },
    }
}

/// Every coefficient is zero at `z`.
spec fn all_zero(p: Coeffs, z: Seq<int>) -> bool
    decreases p,
{
    match p {
        Coeffs::Nil => true,
        Coeffs::Cons(c, r) => number(c, z) == 0 && all_zero(*r, z),
    }
}

/// Variables that do not occur do not matter.
proof fn lemma_number_agree(e: Expr, y: Seq<int>, z: Seq<int>, k: nat)
    requires
        within(e, k),
        forall|i: int| 0 <= i < k ==> #[trigger] y[i] == z[i],
    ensures
        number(e, y) == number(e, z),
    decreases e,
{
    match e {
        Expr::Const(c) => {},
        Expr::Var(i) => {
            assert(y[i as int] == z[i as int]);
        },
        Expr::Add(a, b) => {
            lemma_number_agree(*a, y, z, k);
            lemma_number_agree(*b, y, z, k);
        },
        Expr::Neg(a) => {
            lemma_number_agree(*a, y, z, k);
        },
        Expr::Mul(a, b) => {
            lemma_number_agree(*a, y, z, k);
            lemma_number_agree(*b, y, z, k);
        },
    }
}

/// The same of polynomials.
proof fn lemma_number_at_agree(p: Coeffs, y: Seq<int>, z: Seq<int>, k: nat, x: int)
    requires
        all_within(p, k),
        forall|i: int| 0 <= i < k ==> #[trigger] y[i] == z[i],
    ensures
        number_at(p, y, x) == number_at(p, z, x),
    decreases p,
{
    if let Coeffs::Cons(c, r) = p {
        lemma_number_agree(c, y, z, k);
        lemma_number_at_agree(*r, y, z, k, x);
    }
}

/// A polynomial that vanishes at all integers but zero has zero coefficients.
proof fn lemma_vanishing(p: Coeffs, z: Seq<int>)
    requires
        forall|t: int| t != 0 ==> #[trigger] number_at(p, z, t) == 0,
    ensures
        all_zero(p, z),
    decreases p,
{
    if let Coeffs::Cons(c, r) = p {
        // a root beyond the lowest coefficient divides it
        let a = number(c, z);
        let t = if a >= 0 { a + 1 } else { 1 - a };
        let q = number_at(*r, z, t);
        assert(number_at(p, z, t) == 0);
        assert(a == 0) by (nonlinear_arith)
            requires
                a + t * q == 0,
                t == (if a >= 0 {
                    a + 1
                } else {
                    1 - a
                }),
        ;
        assert forall|t: int| t != 0 implies #[trigger] number_at(*r, z, t) == 0 by {
            let q = number_at(*r, z, t);
            assert(number_at(p, z, t) == 0);
            assert(q == 0) by (nonlinear_arith)
                requires
                    t * q == 0,
                    t != 0,
            ;
        }
        lemma_vanishing(*r, z);
    }
}

/// An expression that is zero for all integers is zero in the field.
proof fn lemma_zero<F: Field>(e: Expr, k: nat, v: Seq<F>)
    requires
        within(e, k),
        k <= v.len(),
        field::all_valid(v),
        forall|z: Seq<int>| z.len() == v.len() ==> #[trigger] number(e, z) == 0,
    ensures
        element(e, v) == F::ZERO,
    decreases k, 0nat,
{
    if k == 0 {
        let z = Seq::new(v.len(), |i: int| 0int);
        assert(number(e, z) == 0);
        lemma_closed_element(e, v, z);
    } else {
        let h = (k - 1) as nat;
        let p = coefficients(e, h);
        assert forall|z: Seq<int>| z.len() == v.len() implies #[trigger] all_zero(p, z) by {
            assert forall|t: int| t != 0 implies #[trigger] number_at(p, z, t) == 0 by {
                let y = z.update(h as int, t);
                lemma_number_collected(e, y, h);
                assert(number(e, y) == 0);
                lemma_number_at_agree(p, y, z, h, t);
            }
            lemma_vanishing(p, z);
        }
        lemma_number_collected(e, Seq::new(v.len(), |i: int| 0int), h);
        lemma_element_collected(e, v, h);
        lemma_all_zero(p, h, v, v[h as int]);
    }
}

/// A polynomial whose coefficients are zero for all integers is zero in the field.
proof fn lemma_all_zero<F: Field>(p: Coeffs, k: nat, v: Seq<F>, x: F)
    requires
        all_within(p, k),
        k <= v.len(),
        field::all_valid(v),
        x.valid(),
        forall|z: Seq<int>| z.len() == v.len() ==> #[trigger] all_zero(p, z),
    ensures
        element_at(p, v, x) == F::ZERO,
    decreases k, 1 + length(p),
{
    F::law_closed();
    if let Coeffs::Cons(c, r) = p {
        assert forall|z: Seq<int>| z.len() == v.len() implies #[trigger] number(c, z) == 0 by {
            assert(all_zero(p, z));
        }
        assert forall|z: Seq<int>| z.len() == v.len() implies #[trigger] all_zero(*r, z) by {
            assert(all_zero(p, z));
        }
        lemma_zero(c, k, v);
        lemma_all_zero(*r, k, v, x);
        field::lemma_times_zero(x);
        F::law_plus_zero(F::ZERO);
    }
}

/// Expressions that agree on all integers agree in every field.
pub proof fn law_identity<F: Field>(l: Expr, r: Expr, v: Seq<F>)
    requires
        within(l, v.len()),
        within(r, v.len()),
        field::all_valid(v),
        forall|z: Seq<int>| z.len() == v.len() ==> #[trigger] number(l, z) == number(r, z),
    ensures
        element(l, v) == element(r, v),
{
    let d = Expr::Add(Box::new(l), Box::new(Expr::Neg(Box::new(r))));
    assert(within(Expr::Neg(Box::new(r)), v.len()));
    assert forall|z: Seq<int>| z.len() == v.len() implies #[trigger] number(d, z) == 0 by {
        assert(number(l, z) == number(r, z));
        assert(number(Expr::Neg(Box::new(r)), z) == -number(r, z));
    }
    lemma_zero(d, v.len(), v);
    lemma_element_valid(l, v);
    lemma_element_valid(r, v);
    assert(element::<F>(Expr::Neg(Box::new(r)), v) == element(r, v).negated());
    field::lemma_minus_zero(element(l, v), element(r, v));
}

/// An integer.
pub closed spec fn constant(c: int) -> Expr {
    Expr::Const(c)
}

/// A variable.
pub closed spec fn var(i: nat) -> Expr {
    Expr::Var(i)
}

/// A sum.
pub closed spec fn plus(a: Expr, b: Expr) -> Expr {
    Expr::Add(Box::new(a), Box::new(b))
}

/// The opposite.
pub closed spec fn negated(a: Expr) -> Expr {
    Expr::Neg(Box::new(a))
}

/// A difference.
pub closed spec fn minus(a: Expr, b: Expr) -> Expr {
    plus(a, negated(b))
}

/// A product.
pub closed spec fn times(a: Expr, b: Expr) -> Expr {
    Expr::Mul(Box::new(a), Box::new(b))
}

/// The integer value of an integer.
pub broadcast proof fn lemma_number_constant(c: int, z: Seq<int>)
    ensures
        #[trigger] number(constant(c), z) == c,
{
}

/// The element that an integer stands for.
pub broadcast proof fn lemma_element_constant<F: Field>(c: int, v: Seq<F>)
    ensures
        #[trigger] element(constant(c), v) == embed::<F>(c),
{
}

/// The variables of an integer.
pub broadcast proof fn lemma_within_constant(c: int, n: nat)
    ensures
        #[trigger] within(constant(c), n) == true,
{
}

/// The integer value of a variable.
pub broadcast proof fn lemma_number_var(i: nat, z: Seq<int>)
    ensures
        #[trigger] number(var(i), z) == z[i as int],
{
}

/// The element that a variable stands for.
pub broadcast proof fn lemma_element_var<F: Field>(i: nat, v: Seq<F>)
    ensures
        #[trigger] element(var(i), v) == v[i as int],
{
}

/// The variables of a variable.
pub broadcast proof fn lemma_within_var(i: nat, n: nat)
    ensures
        #[trigger] within(var(i), n) == (i < n),
{
}

/// The integer value of a sum.
pub broadcast proof fn lemma_number_plus(a: Expr, b: Expr, z: Seq<int>)
    ensures
        #[trigger] number(plus(a, b), z) == number(a, z) + number(b, z),
{
}

/// The element that a sum stands for.
pub broadcast proof fn lemma_element_plus<F: Field>(a: Expr, b: Expr, v: Seq<F>)
    ensures
        #[trigger] element(plus(a, b), v) == element(a, v).plus(element(b, v)),
{
}

/// The variables of a sum.
pub broadcast proof fn lemma_within_plus(a: Expr, b: Expr, n: nat)
    ensures
        #[trigger] within(plus(a, b), n) == (within(a, n) && within(b, n)),
{
}

/// The integer value of an opposite.
pub broadcast proof fn lemma_number_negated(a: Expr, z: Seq<int>)
    ensures
        #[trigger] number(negated(a), z) == -number(a, z),
{
}

/// The element that an opposite stands for.
pub broadcast proof fn lemma_element_negated<F: Field>(a: Expr, v: Seq<F>)
    ensures
        #[trigger] element(negated(a), v) == element(a, v).negated(),
{
}

/// The variables of an opposite.
pub broadcast proof fn lemma_within_negated(a: Expr, n: nat)
    ensures
        #[trigger] within(negated(a), n) == within(a, n),
{
}

/// The integer value of a difference.
pub broadcast proof fn lemma_number_minus(a: Expr, b: Expr, z: Seq<int>)
    ensures
        #[trigger] number(minus(a, b), z) == number(a, z) - number(b, z),
{
    reveal_with_fuel(number, 3);
}

/// The element that a difference stands for.
pub broadcast proof fn lemma_element_minus<F: Field>(a: Expr, b: Expr, v: Seq<F>)
    ensures
        #[trigger] element(minus(a, b), v) == field::minus(element(a, v), element(b, v)),
{
    reveal_with_fuel(element, 3);
}

/// The variables of a difference.
pub broadcast proof fn lemma_within_minus(a: Expr, b: Expr, n: nat)
    ensures
        #[trigger] within(minus(a, b), n) == (within(a, n) && within(b, n)),
{
    reveal_with_fuel(within, 3);
}

/// The integer value of a product.
pub broadcast proof fn lemma_number_times(a: Expr, b: Expr, z: Seq<int>)
    ensures
        #[trigger] number(times(a, b), z) == number(a, z) * number(b, z),
{
}

/// The element that a product stands for.
pub broadcast proof fn lemma_element_times<F: Field>(a: Expr, b: Expr, v: Seq<F>)
    ensures
        #[trigger] element(times(a, b), v) == element(a, v).times(element(b, v)),
{
}

/// The variables of a product.
pub broadcast proof fn lemma_within_times(a: Expr, b: Expr, n: nat)
    ensures
        #[trigger] within(times(a, b), n) == (within(a, n) && within(b, n)),
{
}

/// How expressions are evaluated.
pub broadcast group group_evaluation {
    lemma_number_constant,
    lemma_element_constant,
    lemma_within_constant,
    lemma_number_var,
    lemma_element_var,
    lemma_within_var,
    lemma_number_plus,
    lemma_element_plus,
    lemma_within_plus,
    lemma_number_negated,
    lemma_element_negated,
    lemma_within_negated,
    lemma_number_minus,
    lemma_element_minus,
    lemma_within_minus,
    lemma_number_times,
    lemma_element_times,
    lemma_within_times,
}

/// An equation with a factor: `left == right`, multiplied by `factor`.
pub struct Equation {
    pub left: Expr,
    pub right: Expr,
    pub factor: Expr,
}

/// The differences of the first `n` equations, multiplied by their factors and added up.
pub open spec fn slack(h: Seq<Equation>, n: nat) -> Expr
    decreases n,
{
    if n == 0 {
        constant(0)
    } else {
        plus(
            slack(h, (n - 1) as nat),
            times(h[n - 1].factor, minus(h[n - 1].left, h[n - 1].right)),
        )
    }
}

/// Equations that hold in the field have no slack.
proof fn lemma_no_slack<F: Field>(h: Seq<Equation>, n: nat, v: Seq<F>)
    requires
        n <= h.len(),
        within(slack(h, n), v.len()),
        field::all_valid(v),
        forall|i: int|
            0 <= i < n ==> element(#[trigger] h[i].left, v) == element(h[i].right, v),
    ensures
        element(slack(h, n), v) == F::ZERO,
    decreases n,
{
    F::law_closed();
    if n > 0 {
        let m = (n - 1) as nat;
        let q = h[n - 1];
        let d = minus(q.left, q.right);
        let t = times(q.factor, d);
        assert(within(slack(h, m), v.len()) && within(t, v.len()));
        assert(within(q.factor, v.len()) && within(d, v.len()));
        assert(within(q.left, v.len()) && within(negated(q.right), v.len()));
        lemma_no_slack(h, m, v);
        lemma_element_valid(q.left, v);
        lemma_element_valid(q.right, v);
        lemma_element_valid(q.factor, v);
        assert(element(h[n - 1].left, v) == element(q.right, v));
        assert(element::<F>(negated(q.right), v) == element(q.right, v).negated());
        assert(element(d, v) == element(q.left, v).plus(element(q.right, v).negated()));
        F::law_plus_negated(element(q.left, v));
        field::lemma_times_zero(element(q.factor, v));
        F::law_plus_zero(F::ZERO);
        assert(element(t, v) == element(q.factor, v).times(element(d, v)));
        assert(slack(h, n) == plus(slack(h, m), t));
        assert(element(slack(h, n), v) == element(slack(h, m), v).plus(element(t, v)));
    } else {
        assert(embed_nat::<F>(0) == F::ZERO);
        assert(element::<F>(constant(0), v) == embed::<F>(0));
    }
}

/// An equation that follows over the integers from equations with factors, as an identity, follows
/// in every field.
pub proof fn law_consequence<F: Field>(l: Expr, r: Expr, h: Seq<Equation>, v: Seq<F>)
    requires
        within(l, v.len()),
        within(r, v.len()),
        within(slack(h, h.len()), v.len()),
        field::all_valid(v),
        forall|i: int|
            0 <= i < h.len() ==> element(#[trigger] h[i].left, v) == element(h[i].right, v),
        forall|z: Seq<int>|
            z.len() == v.len() ==> #[trigger] number(l, z) == number(r, z) + number(
                slack(h, h.len()),
                z,
            ),
    ensures
        element(l, v) == element(r, v),
{
    let s = slack(h, h.len());
    let q = plus(r, s);
    assert(within(q, v.len()));
    assert forall|z: Seq<int>| z.len() == v.len() implies #[trigger] number(l, z) == number(
        q,
        z,
    ) by {
        assert(number(q, z) == number(r, z) + number(s, z));
    }
    law_identity(l, q, v);
    lemma_no_slack(h, h.len(), v);
    lemma_element_valid(r, v);
    F::law_plus_zero(element(r, v));
    assert(element(q, v) == element(r, v).plus(element(s, v)));
}

} // verus!
