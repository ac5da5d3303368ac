//! The fields that curves are defined over, and the simultaneous inversion of many elements.
use vstd::prelude::*;

verus! {

/// A field: its arithmetic as functions, the laws that they obey, and executable operations that
/// compute them.
pub trait Field: Sized + Copy {
    /// The neutral element of addition.
    const ZERO: Self;

    /// The neutral element of multiplication.
    const ONE: Self;

    /// Whether the value represents an element. Representations may admit other values, of which
    /// the laws say nothing; no two valid values represent the same element.
    spec fn valid(self) -> bool;

    /// The sum of two elements.
    spec fn plus(self, other: Self) -> Self;

    /// The additive inverse.
    spec fn negated(self) -> Self;

    /// The product of two elements.
    spec fn times(self, other: Self) -> Self;

    /// The multiplicative inverse of an element other than zero.
    spec fn inverted(self) -> Self;

    /// Constants are valid, and so are the results of operations on valid values.
    proof fn law_closed()
        ensures
            Self::ZERO.valid(),
            Self::ONE.valid(),
            forall|a: Self, b: Self|
                a.valid() && b.valid() ==> (#[trigger] a.plus(b).valid()),
            forall|a: Self, b: Self|
                a.valid() && b.valid() ==> (#[trigger] a.times(b).valid()),
            forall|a: Self| a.valid() ==> (#[trigger] a.negated().valid()),
            forall|a: Self| a.valid() && a != Self::ZERO ==> (#[trigger] a.inverted().valid()),
    ;

    /// Addition is associative.
    proof fn law_plus_associative(a: Self, b: Self, c: Self)
        requires
            a.valid(),
            b.valid(),
            c.valid(),
        ensures
            a.plus(b).plus(c) == a.plus(b.plus(c)),
    ;

    /// Addition is commutative.
    proof fn law_plus_commutative(a: Self, b: Self)
        requires
            a.valid(),
            b.valid(),
        ensures
            a.plus(b) == b.plus(a),
    ;

    /// Zero is neutral for addition.
    proof fn law_plus_zero(a: Self)
        requires
            a.valid(),
        ensures
            a.plus(Self::ZERO) == a,
    ;

    /// An element and its negation add up to zero.
    proof fn law_plus_negated(a: Self)
        requires
            a.valid(),
        ensures
            a.plus(a.negated()) == Self::ZERO,
    ;

    /// Multiplication is associative.
    proof fn law_times_associative(a: Self, b: Self, c: Self)
        requires
            a.valid(),
            b.valid(),
            c.valid(),
        ensures
            a.times(b).times(c) == a.times(b.times(c)),
    ;

    /// Multiplication is commutative.
    proof fn law_times_commutative(a: Self, b: Self)
        requires
            a.valid(),
            b.valid(),
        ensures
            a.times(b) == b.times(a),
    ;

    /// One is neutral for multiplication.
    proof fn law_times_one(a: Self)
        requires
            a.valid(),
        ensures
            a.times(Self::ONE) == a,
    ;

    /// Multiplication distributes over addition.
    proof fn law_distributive(a: Self, b: Self, c: Self)
        requires
            a.valid(),
            b.valid(),
            c.valid(),
        ensures
            a.plus(b).times(c) == a.times(c).plus(b.times(c)),
    ;

    /// An element other than zero and its inverse multiply to one.
    proof fn law_inverted(a: Self)
        requires
            a.valid(),
            a != Self::ZERO,
        ensures
            a.times(a.inverted()) == Self::ONE,
    ;

    /// Zero and one differ.
    proof fn law_nontrivial()
        ensures
            Self::ZERO != Self::ONE,
    ;

    /// The sum.
    fn add(&self, other: &Self) -> (r: Self)
        requires
            self.valid(),
            other.valid(),
        ensures
            r.valid(),
            r == self.plus(*other),
    ;

    /// The difference.
    fn sub(&self, other: &Self) -> (r: Self)
        requires
            self.valid(),
            other.valid(),
        ensures
            r.valid(),
            r == self.plus(other.negated()),
    ;

    /// The additive inverse.
    fn neg(&self) -> (r: Self)
        requires
            self.valid(),
        ensures
            r.valid(),
            r == self.negated(),
    ;

    /// Twice the element.
    fn double(&self) -> (r: Self)
        requires
            self.valid(),
        ensures
            r.valid(),
            r == self.plus(*self),
    ;

    /// The product.
    fn mul(&self, other: &Self) -> (r: Self)
        requires
            self.valid(),
            other.valid(),
        ensures
            r.valid(),
            r == self.times(*other),
    ;

    /// The element times itself.
    fn square(&self) -> (r: Self)
        requires
            self.valid(),
        ensures
            r.valid(),
            r == self.times(*self),
    ;

    /// The multiplicative inverse, `None` of zero.
    fn inverse(&self) -> (r: Option<Self>)
        requires
            self.valid(),
        ensures
            r == (if *self == Self::ZERO {
                None
            } else {
                Some(self.inverted())
            }),
            r is Some ==> r->0.valid(),
    ;

    /// Whether the element is zero.
    fn is_zero(&self) -> (r: bool)
        requires
            self.valid(),
        ensures
            r == (*self == Self::ZERO),
    ;

    /// Whether two elements are the same.
    fn equals(&self, other: &Self) -> (r: bool)
        requires
            self.valid(),
            other.valid(),
        ensures
            r == (*self == *other),
    ;
}

/// The inverse of an element, where zero stands for its own.
pub open spec fn reciprocal<F: Field>(a: F) -> F {
    if a == F::ZERO {
        F::ZERO
    } else {
        a.inverted()
    }
}

/// The difference of two elements.
pub open spec fn minus<F: Field>(a: F, b: F) -> F {
    a.plus(b.negated())
}

/// All members are valid.
pub open spec fn all_valid<F: Field>(s: Seq<F>) -> bool {
    forall|i: int| 0 <= i < s.len() ==> (#[trigger] s[i]).valid()
}

/// The product of the members of `s` other than zero.
pub open spec fn nonzero_product<F: Field>(s: Seq<F>) -> F
    decreases s.len(),
{
    if s.len() == 0 {
        F::ONE
    } else if s.last() == F::ZERO {
        nonzero_product(s.drop_last())
    } else {
        nonzero_product(s.drop_last()).times(s.last())
    }
}

/// Only zero can be added without effect.
pub proof fn lemma_plus_cancel<F: Field>(a: F, b: F, c: F)
    requires
        a.valid(),
        b.valid(),
        c.valid(),
        a.plus(c) == b.plus(c),
    ensures
        a == b,
{
    F::law_closed();
    F::law_plus_associative(a, c, c.negated());
    F::law_plus_associative(b, c, c.negated());
    F::law_plus_negated(c);
    F::law_plus_zero(a);
    F::law_plus_zero(b);
}

/// A product with zero is zero.
pub proof fn lemma_times_zero<F: Field>(a: F)
    requires
        a.valid(),
    ensures
        a.times(F::ZERO) == F::ZERO,
        F::ZERO.times(a) == F::ZERO,
{
    F::law_closed();
    let z = F::ZERO.times(a);
    F::law_plus_zero(F::ZERO);
    F::law_distributive(F::ZERO, F::ZERO, a);
    F::law_plus_zero(z);
    F::law_plus_commutative(z, F::ZERO);
    lemma_plus_cancel(z, F::ZERO, z);
    F::law_times_commutative(a, F::ZERO);
}

/// A factor other than zero cancels.
pub proof fn lemma_times_cancel<F: Field>(a: F, b: F, c: F)
    requires
        a.valid(),
        b.valid(),
        c.valid(),
        a.times(c) == b.times(c),
        c != F::ZERO,
    ensures
        a == b,
{
    F::law_closed();
    F::law_times_associative(a, c, c.inverted());
    F::law_times_associative(b, c, c.inverted());
    F::law_inverted(c);
    F::law_times_one(a);
    F::law_times_one(b);
}

/// There are no zero divisors.
pub proof fn lemma_times_nonzero<F: Field>(a: F, b: F)
    requires
        a.valid(),
        b.valid(),
        a != F::ZERO,
        b != F::ZERO,
    ensures
        a.times(b) != F::ZERO,
{
    F::law_closed();
    if a.times(b) == F::ZERO {
        lemma_times_zero(b);
        lemma_times_cancel(a, F::ZERO, b);
    }
}

/// The inverse is the only element with product one.
pub proof fn lemma_inverse_unique<F: Field>(a: F, b: F)
    requires
        a.valid(),
        b.valid(),
        a.times(b) == F::ONE,
    ensures
        a != F::ZERO,
        b == a.inverted(),
{
    F::law_closed();
    if a == F::ZERO {
        lemma_times_zero(b);
        F::law_nontrivial();
    }
    F::law_inverted(a);
    F::law_times_commutative(a, b);
    F::law_times_commutative(a, a.inverted());
    lemma_times_cancel(b, a.inverted(), a);
}

/// The middle terms of a sum of sums can be exchanged.
pub proof fn lemma_plus_exchange<F: Field>(a: F, b: F, c: F, d: F)
    requires
        a.valid(),
        b.valid(),
        c.valid(),
        d.valid(),
    ensures
        a.plus(b).plus(c.plus(d)) == a.plus(c).plus(b.plus(d)),
{
    F::law_closed();
    F::law_plus_associative(a, b, c.plus(d));
    F::law_plus_associative(b, c, d);
    F::law_plus_commutative(b, c);
    F::law_plus_associative(c, b, d);
    F::law_plus_associative(a, c, b.plus(d));
}

/// The negative of a sum is the sum of the negatives.
pub proof fn lemma_negated_plus<F: Field>(a: F, b: F)
    requires
        a.valid(),
        b.valid(),
    ensures
        a.negated().plus(b.negated()) == a.plus(b).negated(),
{
    F::law_closed();
    let c = a.plus(b);
    lemma_plus_exchange(a.negated(), b.negated(), a, b);
    F::law_plus_negated(a);
    F::law_plus_negated(b);
    F::law_plus_commutative(a, a.negated());
    F::law_plus_commutative(b, b.negated());
    F::law_plus_zero(F::ZERO);
    F::law_plus_negated(c);
    F::law_plus_commutative(c, c.negated());
    lemma_plus_cancel(a.negated().plus(b.negated()), c.negated(), c);
}

/// The middle factors of a product of products can be exchanged.
pub proof fn lemma_times_exchange<F: Field>(a: F, b: F, c: F, d: F)
    requires
        a.valid(),
        b.valid(),
        c.valid(),
        d.valid(),
    ensures
        a.times(b).times(c.times(d)) == a.times(c).times(b.times(d)),
{
    F::law_closed();
    F::law_times_associative(a, b, c.times(d));
    F::law_times_associative(b, c, d);
    F::law_times_commutative(b, c);
    F::law_times_associative(c, b, d);
    F::law_times_associative(a, c, b.times(d));
}

/// Adding back what was subtracted.
pub proof fn lemma_minus_plus<F: Field>(a: F, b: F)
    requires
        a.valid(),
        b.valid(),
    ensures
        minus(a, b).plus(b) == a,
{
    F::law_closed();
    F::law_plus_associative(a, b.negated(), b);
    F::law_plus_commutative(b.negated(), b);
    F::law_plus_negated(b);
    F::law_plus_zero(a);
}

/// A difference is zero only between equals.
pub proof fn lemma_minus_zero<F: Field>(a: F, b: F)
    requires
        a.valid(),
        b.valid(),
    ensures
        minus(a, b) == F::ZERO <==> a == b,
{
    F::law_closed();
    lemma_minus_plus(a, b);
    F::law_plus_zero(b);
    F::law_plus_commutative(F::ZERO, b);
    F::law_plus_negated(a);
}

/// A difference taken the other way round is negated.
pub proof fn lemma_minus_negated<F: Field>(a: F, b: F)
    requires
        a.valid(),
        b.valid(),
    ensures
        minus(b, a) == minus(a, b).negated(),
{
    F::law_closed();
    let d = minus(a, b);
    lemma_minus_plus(b, a);
    lemma_minus_plus(a, b);
    // (b - a) + (a - b) = 0, as adding b on the right shows
    F::law_plus_associative(minus(b, a), d, b);
    F::law_plus_zero(b);
    F::law_plus_commutative(F::ZERO, b);
    lemma_plus_cancel(minus(b, a).plus(d), F::ZERO, b);
    F::law_plus_negated(d);
    F::law_plus_commutative(d, d.negated());
    lemma_plus_cancel(minus(b, a), d.negated(), d);
}

/// Negating a factor negates the product.
pub proof fn lemma_negated_times<F: Field>(a: F, b: F)
    requires
        a.valid(),
        b.valid(),
    ensures
        a.negated().times(b) == a.times(b).negated(),
        a.times(b.negated()) == a.times(b).negated(),
{
    F::law_closed();
    F::law_plus_negated(a);
    F::law_distributive(a, a.negated(), b);
    lemma_times_zero(b);
    let ab = a.times(b);
    F::law_plus_negated(ab);
    F::law_plus_commutative(ab, a.negated().times(b));
    F::law_plus_commutative(ab, ab.negated());
    lemma_plus_cancel(a.negated().times(b), ab.negated(), ab);
    F::law_plus_negated(b);
    F::law_times_commutative(a, b);
    F::law_times_commutative(a, b.negated());
    F::law_distributive(b, b.negated(), a);
    lemma_times_zero(a);
    F::law_plus_commutative(ab, b.negated().times(a));
    lemma_plus_cancel(b.negated().times(a), ab.negated(), ab);
}

/// Negating twice changes nothing.
pub proof fn lemma_negated_twice<F: Field>(a: F)
    requires
        a.valid(),
    ensures
        a.negated().negated() == a,
{
    F::law_closed();
    let n = a.negated();
    F::law_plus_negated(a);
    F::law_plus_negated(n);
    F::law_plus_commutative(n, n.negated());
    lemma_plus_cancel(a, n.negated(), n);
}

/// Quotients of differences do not depend on the order.
pub proof fn lemma_quotient_negated<F: Field>(n: F, d: F)
    requires
        n.valid(),
        d.valid(),
        d != F::ZERO,
    ensures
        d.negated() != F::ZERO,
        n.negated().times(d.negated().inverted()) == n.times(d.inverted()),
{
    F::law_closed();
    let m = d.negated();
    lemma_negated_twice(d);
    F::law_plus_zero(F::ZERO.negated());
    F::law_plus_commutative(F::ZERO, F::ZERO.negated());
    F::law_plus_negated(F::ZERO);
    // -(1/d) is the inverse of -d
    let i = d.inverted();
    F::law_inverted(d);
    lemma_negated_times(d, i.negated());
    lemma_negated_times(d, i);
    lemma_negated_twice(d.times(i));
    lemma_inverse_unique(m, i.negated());
    lemma_negated_times(n, i.negated());
    lemma_negated_times(n, i);
    lemma_negated_twice(n.times(i));
}

/// Multiplication distributes over subtraction.
pub proof fn lemma_distributive_minus<F: Field>(a: F, b: F, c: F)
    requires
        a.valid(),
        b.valid(),
        c.valid(),
    ensures
        minus(a, b).times(c) == minus(a.times(c), b.times(c)),
{
    F::law_closed();
    F::law_distributive(minus(a, b), b, c);
    lemma_minus_plus(a, b);
    lemma_minus_plus(a.times(c), b.times(c));
    lemma_plus_cancel(minus(a, b).times(c), minus(a.times(c), b.times(c)), b.times(c));
}

/// Subtracting one by one is subtracting the sum.
pub proof fn lemma_minus_minus<F: Field>(a: F, b: F, c: F)
    requires
        a.valid(),
        b.valid(),
        c.valid(),
    ensures
        minus(minus(a, b), c) == minus(a, b.plus(c)),
{
    F::law_closed();
    let (l, r) = (minus(minus(a, b), c), minus(a, b.plus(c)));
    lemma_minus_plus(minus(a, b), c);
    lemma_minus_plus(a, b);
    lemma_minus_plus(a, b.plus(c));
    F::law_plus_commutative(b, c);
    F::law_plus_associative(l, c, b);
    lemma_plus_cancel(l, r, b.plus(c));
}

/// A prefix of valid values is valid.
proof fn lemma_take_valid<F: Field>(s: Seq<F>, n: int)
    requires
        all_valid(s),
        0 <= n <= s.len(),
    ensures
        all_valid(s.take(n)),
{
    assert forall|i: int| 0 <= i < n implies (#[trigger] s.take(n)[i]).valid() by {
        assert(s[i].valid());
    }
}

/// The product of the members other than zero is not zero.
proof fn lemma_nonzero_product<F: Field>(s: Seq<F>)
    requires
        all_valid(s),
    ensures
        nonzero_product(s).valid(),
        nonzero_product(s) != F::ZERO,
    decreases s.len(),
{
    F::law_closed();
    F::law_nontrivial();
    if s.len() > 0 {
        lemma_take_valid(s, s.len() - 1);
        assert(s.take(s.len() - 1) =~= s.drop_last());
        assert(s[s.len() - 1].valid());
        lemma_nonzero_product(s.drop_last());
        if s.last() != F::ZERO {
            lemma_times_nonzero(nonzero_product(s.drop_last()), s.last());
        }
    }
}

/// Inverts every member other than zero in place and leaves the zeros, with a single field
/// inversion: products of prefixes are formed on the way up, and the inverse of the whole product
/// is split off from the top on the way down.
pub fn batch_inversion<F: Field>(v: &mut Vec<F>)
    requires
        all_valid(old(v)@),
    ensures
        all_valid(final(v)@),
        final(v)@.len() == old(v)@.len(),
        forall|i: int|
            0 <= i < old(v)@.len() ==> #[trigger] final(v)@[i] == reciprocal(old(v)@[i]),
{
    let ghost v0 = v@;
    let n: usize = v.len();
    proof {
        F::law_closed();
    }
    let mut prefix: Vec<F> = Vec::new();
    let mut product: F = F::ONE;
    for i in 0..n
        invariant
            v@ == v0,
            n == v0.len(),
            all_valid(v0),
            all_valid(prefix@),
            product.valid(),
            prefix@.len() == i,
            product == nonzero_product(v0.take(i as int)),
            forall|j: int| 0 <= j < i ==> #[trigger] prefix@[j] == nonzero_product(v0.take(j)),
    {
        prefix.push(product);
        assert(v0[i as int].valid());
        assert(v0.take(i + 1).drop_last() =~= v0.take(i as int));
        if !v[i].is_zero() {
            product = product.mul(&v[i]);
        }
    }
    assert(v0.take(n as int) =~= v0);
    proof {
        lemma_nonzero_product(v0);
    }
    // the inverse of the product of the first k members other than zero
    let mut inv: F = product.inverse().unwrap();
    let mut k: usize = n;
    while k > 0
        invariant
            k <= n,
            n == v0.len(),
            v@.len() == n,
            prefix@.len() == n,
            all_valid(v0),
            all_valid(v@),
            all_valid(prefix@),
            inv.valid(),
            forall|j: int| 0 <= j < n ==> #[trigger] prefix@[j] == nonzero_product(v0.take(j)),
            inv == nonzero_product(v0.take(k as int)).inverted(),
            forall|j: int| 0 <= j < k ==> #[trigger] v@[j] == v0[j],
            forall|j: int| k <= j < n ==> #[trigger] v@[j] == reciprocal(v0[j]),
        decreases k,
    {
        k = k - 1;
        let x: F = v[k];
        assert(v0.take(k + 1).drop_last() =~= v0.take(k as int));
        if !x.is_zero() {
            let ghost q = nonzero_product(v0.take(k as int));
            assert(v0[k as int].valid());
            let next: F = inv.mul(&x);
            proof {
                lemma_take_valid(v0, k as int);
                lemma_take_valid(v0, k + 1);
                lemma_nonzero_product(v0.take(k + 1));
                lemma_nonzero_product(v0.take(k as int));
                lemma_split_inverse(q, x, inv);
            }
            v[k] = inv.mul(&prefix[k]);
            inv = next;
        }
    }
}

/// The inverse of a product times one factor is the inverse of the other.
proof fn lemma_split_inverse<F: Field>(q: F, x: F, inv: F)
    requires
        q.valid(),
        x.valid(),
        inv.valid(),
        q.times(x) != F::ZERO,
        inv == q.times(x).inverted(),
    ensures
        inv.times(q) == x.inverted(),
        inv.times(x) == q.inverted(),
{
    F::law_closed();
    F::law_inverted(q.times(x));
    F::law_times_commutative(q, x);
    F::law_times_associative(q, x, inv);
    F::law_times_associative(x, q, inv);
    F::law_times_commutative(inv, x);
    F::law_times_commutative(inv, q);
    lemma_inverse_unique(q, x.times(inv));
    lemma_inverse_unique(x, q.times(inv));
}

/// The reciprocal of an element other than zero multiplies with it to one, and that of zero is
/// zero.
pub proof fn law_reciprocal<F: Field>(a: F)
    requires
        a.valid(),
    ensures
        a != F::ZERO ==> a.times(reciprocal(a)) == F::ONE,
        a == F::ZERO ==> reciprocal(a) == F::ZERO,
        reciprocal(a).valid(),
{
    F::law_closed();
    if a != F::ZERO {
        F::law_inverted(a);
    }
}

/// The difference of two elements is what gives the first when the second is added.
pub proof fn law_minus<F: Field>(a: F, b: F)
    requires
        a.valid(),
        b.valid(),
    ensures
        minus(a, b).plus(b) == a,
        minus(a, b).valid(),
{
    F::law_closed();
    lemma_minus_plus(a, b);
}

/// A sequence is valid when each of its members is.
pub proof fn law_all_valid<F: Field>(s: Seq<F>)
    ensures
        all_valid(s) <==> forall|i: int| 0 <= i < s.len() ==> (#[trigger] s[i]).valid(),
{
}

} // verus!
