//! Radix-2 FFT kernels in the lazy-carry 29-bit-limb domain: butterfly networks
//! whose elements are converted at the boundaries only.
//!
//! Elements cross the boundary as four 64-bit words in standard Montgomery
//! representation (`x * 2^256 mod p`). [`detect`] tells from a field's layout and
//! from its representations of one and two whether its elements are of that kind.
use crate::lazy29;
use crate::lazy29::{Params, LIMBS};
use crate::limbs;
use crate::montgomery;
use vstd::arithmetic::div_mod::*;
use vstd::arithmetic::mul::*;
use vstd::arithmetic::power::*;
use vstd::arithmetic::power2::*;
use vstd::prelude::*;

verus! {

/// Below this size the setup (constant derivation + conversions) is not
/// worth amortizing over the stages.
pub const MIN_LAZY_FFT_SIZE: usize = 128;

const MIN_NUM_CHUNKS_FOR_COMPACTION: usize = 128;

/// `n` is a power of two.
pub open spec fn power_of_two(n: nat) -> bool {
    exists|e: nat| n == #[trigger] pow2(e)
}

/// One stage of the in-order-to-out-of-order network: in every chunk of `2 gap` positions,
/// position `j` of the lower half receives the sum, and position `j` of the upper half the
/// difference times `g^(j chunks)`.
pub open spec fn io_stage(x: Seq<int>, g: int, gap: int, p: int) -> Seq<int> {
    let chunks = x.len() as int / (2 * gap);
    Seq::new(
        x.len(),
        |k: int|
            {
                let j = k % (2 * gap);
                if j < gap {
                    (x[k] + x[k + gap]) % p
                } else {
                    ((x[k - gap] - x[k]) * pow(g, ((j - gap) * chunks) as nat)) % p
                }
            },
    )
}

/// One stage of the out-of-order-to-in-order network: in every chunk of `2 gap` positions,
/// position `j` of the upper half is multiplied by `g^(j chunks)` and then added to and subtracted
/// from position `j` of the lower half.
pub open spec fn oi_stage(x: Seq<int>, g: int, gap: int, p: int) -> Seq<int> {
    let chunks = x.len() as int / (2 * gap);
    Seq::new(
        x.len(),
        |k: int|
            {
                let j = k % (2 * gap);
                if j < gap {
                    (x[k] + x[k + gap] * pow(g, (j * chunks) as nat)) % p
                } else {
                    (x[k - gap] - x[k] * pow(g, ((j - gap) * chunks) as nat)) % p
                }
            },
    )
}

/// The in-order-to-out-of-order network from stage `gap` on: gaps are halved down to 1.
pub open spec fn io_network(x: Seq<int>, g: int, gap: nat, p: int) -> Seq<int>
    decreases gap,
{
    if gap == 0 {
        x
    } else {
        io_network(io_stage(x, g, gap as int, p), g, gap / 2, p)
    }
}

/// The out-of-order-to-in-order network from stage `gap` on: gaps are doubled up to half the
/// length.
pub open spec fn oi_network(x: Seq<int>, g: int, gap: nat, p: int) -> Seq<int>
    decreases
            (if gap < x.len() {
                x.len() - gap
            } else {
                0
            }),
{
    if gap == 0 || gap >= x.len() {
        x
    } else {
        oi_network(oi_stage(x, g, gap as int, p), g, 2 * gap, p)
    }
}

/// The field elements that a vector of domain forms stands for.
pub open spec fn elements(pr: Params, d: Seq<[u64; LIMBS]>) -> Seq<int> {
    Seq::new(d.len(), |k: int| pr.element(d[k]) as int)
}

/// The field elements that a vector of standard Montgomery forms stands for.
pub open spec fn residues(pr: Params, w: Seq<[u64; 4]>) -> Seq<int> {
    Seq::new(w.len(), |k: int| pr.residue(w[k]) as int)
}

/// All members are domain elements.
pub open spec fn all_lazy(pr: Params, d: Seq<[u64; LIMBS]>) -> bool {
    forall|k: int| 0 <= k < d.len() ==> pr.lazy(#[trigger] d[k])
}

/// All members are fully reduced.
pub open spec fn all_reduced(pr: Params, w: Seq<[u64; 4]>) -> bool {
    forall|k: int| 0 <= k < w.len() ==> limbs::value64(#[trigger] w[k]) < pr.modulus()
}

/// Which butterfly a stage applies.
#[derive(Clone, Copy, Debug, PartialEq, Eq)]
pub enum Butterfly {
    /// In-order input, out-of-order output.
    InOut,
    /// Out-of-order input, in-order output.
    OutIn,
}

/// What a butterfly leaves in the low position.
pub open spec fn low_result(kind: Butterfly, lo: int, hi: int, root: int, p: int) -> int {
    match kind {
        Butterfly::InOut => (lo + hi) % p,
        Butterfly::OutIn => (lo + hi * root) % p,
    }
}

/// What a butterfly leaves in the high position.
pub open spec fn high_result(kind: Butterfly, lo: int, hi: int, root: int, p: int) -> int {
    match kind {
        Butterfly::InOut => ((lo - hi) * root) % p,
        Butterfly::OutIn => (lo - hi * root) % p,
    }
}

/// The domain form that a butterfly leaves in the low position, from the domain forms that it is
/// given, all as numbers below `2p`.
pub open spec fn low_form(kind: Butterfly, lo: nat, hi: nat, root: nat, p: nat) -> nat {
    match kind {
        Butterfly::InOut => lazy29::lazy_sum(lo, hi, p),
        Butterfly::OutIn => lazy29::lazy_sum(lo, montgomery::redc(hi * root, p), p),
    }
}

/// The domain form that a butterfly leaves in the high position.
pub open spec fn high_form(kind: Butterfly, lo: nat, hi: nat, root: nat, p: nat) -> nat {
    match kind {
        Butterfly::InOut => montgomery::redc(lazy29::lazy_difference(lo, hi, p) * root, p),
        Butterfly::OutIn => lazy29::lazy_difference(lo, montgomery::redc(hi * root, p), p),
    }
}

/// Sum to the low operand, difference times `root` to the high one.
#[inline(always)]
fn butterfly_io(pr: &Params, lo: &mut [u64; LIMBS], hi: &mut [u64; LIMBS], root: &[u64; LIMBS])
    requires
        pr.wf(),
        pr.lazy(*old(lo)),
        pr.lazy(*old(hi)),
        pr.lazy(*root),
    ensures
        pr.lazy(*final(lo)),
        pr.lazy(*final(hi)),
        limbs::value29(*final(lo)) == low_form(
            Butterfly::InOut,
            limbs::value29(*old(lo)),
            limbs::value29(*old(hi)),
            limbs::value29(*root),
            pr.modulus(),
        ),
        limbs::value29(*final(hi)) == high_form(
            Butterfly::InOut,
            limbs::value29(*old(lo)),
            limbs::value29(*old(hi)),
            limbs::value29(*root),
            pr.modulus(),
        ),
        pr.element(*final(lo)) == (pr.element(*old(lo)) + pr.element(*old(hi))) % pr.modulus(),
        pr.element(*final(hi)) == ((pr.element(*old(lo)) - pr.element(*old(hi))) * pr.element(*root))
            % pr.modulus() as int,
{
    let neg: [u64; LIMBS] = lazy29::sub_p(pr, lo, hi);
    *lo = lazy29::add_p(pr, lo, hi);
    proof {
        lazy29::lemma_lazy_product(*pr, neg, *root);
        lemma_mul_mod_noop_left(
            pr.element(*old(lo)) - pr.element(*old(hi)),
            pr.element(*root) as int,
            pr.modulus() as int,
        );
    }
    *hi = lazy29::mont_mul_p(pr, &neg, root);
}

/// High operand times `root`, then sum to the low operand and difference to the high one.
#[inline(always)]
fn butterfly_oi(pr: &Params, lo: &mut [u64; LIMBS], hi: &mut [u64; LIMBS], root: &[u64; LIMBS])
    requires
        pr.wf(),
        pr.lazy(*old(lo)),
        pr.lazy(*old(hi)),
        pr.lazy(*root),
    ensures
        pr.lazy(*final(lo)),
        pr.lazy(*final(hi)),
        limbs::value29(*final(lo)) == low_form(
            Butterfly::OutIn,
            limbs::value29(*old(lo)),
            limbs::value29(*old(hi)),
            limbs::value29(*root),
            pr.modulus(),
        ),
        limbs::value29(*final(hi)) == high_form(
            Butterfly::OutIn,
            limbs::value29(*old(lo)),
            limbs::value29(*old(hi)),
            limbs::value29(*root),
            pr.modulus(),
        ),
        pr.element(*final(lo)) == (pr.element(*old(lo)) + pr.element(*old(hi)) * pr.element(*root))
            % pr.modulus(),
        pr.element(*final(hi)) == (pr.element(*old(lo)) - pr.element(*old(hi)) * pr.element(*root))
            % pr.modulus() as int,
{
    proof {
        lazy29::lemma_lazy_product(*pr, *hi, *root);
    }
    let t: [u64; LIMBS] = lazy29::mont_mul_p(pr, hi, root);
    let neg: [u64; LIMBS] = lazy29::sub_p(pr, lo, &t);
    *lo = lazy29::add_p(pr, lo, &t);
    *hi = neg;
    proof {
        let (x, y) = (
            pr.element(*old(lo)) as int,
            pr.element(*old(hi)) * pr.element(*root) as int,
        );
        lemma_add_mod_noop_right(x, y, pr.modulus() as int);
        lemma_sub_mod_noop_right(x, y, pr.modulus() as int);
    }
}

/// Applies the butterflies of one chunk, which starts at `base`.
fn butterfly_chunk(
    kind: Butterfly,
    pr: &Params,
    xi: &mut Vec<[u64; LIMBS]>,
    roots: &Vec<[u64; LIMBS]>,
    step: usize,
    base: usize,
    gap: usize,
)
    requires
        pr.wf(),
        all_lazy(*pr, old(xi)@),
        all_lazy(*pr, roots@),
        base + 2 * gap <= old(xi).len(),
        gap > 0,
        step > 0,
        (gap - 1) * step < roots.len(),
    ensures
        final(xi).len() == old(xi).len(),
        all_lazy(*pr, final(xi)@),
        forall|k: int|
            0 <= k < old(xi).len() && !(base <= k < base + 2 * gap) ==> #[trigger] final(xi)[k]
                == old(xi)[k],
        forall|k: int|
            base <= k < base + gap ==> limbs::value29(#[trigger] final(xi)[k]) == low_form(
                kind,
                limbs::value29(old(xi)[k]),
                limbs::value29(old(xi)[k + gap]),
                limbs::value29(roots[(k - base) * step]),
                pr.modulus(),
            ),
        forall|k: int|
            base + gap <= k < base + 2 * gap ==> limbs::value29(#[trigger] final(xi)[k])
                == high_form(
                kind,
                limbs::value29(old(xi)[k - gap]),
                limbs::value29(old(xi)[k]),
                limbs::value29(roots[(k - gap - base) * step]),
                pr.modulus(),
            ),
        forall|k: int|
            base <= k < base + gap ==> pr.element(#[trigger] final(xi)[k]) == low_result(
                kind,
                pr.element(old(xi)[k]) as int,
                pr.element(old(xi)[k + gap]) as int,
                pr.element(roots[(k - base) * step]) as int,
                pr.modulus() as int,
            ),
        forall|k: int|
            base + gap <= k < base + 2 * gap ==> pr.element(#[trigger] final(xi)[k]) == high_result(
                kind,
                pr.element(old(xi)[k - gap]) as int,
                pr.element(old(xi)[k]) as int,
                pr.element(roots[(k - gap - base) * step]) as int,
                pr.modulus() as int,
            ),
{
    let ghost x0 = xi@;
    let mut j: usize = 0;
    while j < gap
        invariant
            pr.wf(),
            j <= gap,
            step > 0,
            (gap - 1) * step < roots.len(),
            base + 2 * gap <= x0.len(),
            xi.len() == x0.len(),
            all_lazy(*pr, xi@),
            all_lazy(*pr, roots@),
            forall|k: int|
                0 <= k < x0.len() && !(base <= k < base + j) && !(base + gap <= k < base + gap + j)
                    ==> #[trigger] xi@[k] == x0[k],
            forall|k: int|
                base <= k < base + j ==> limbs::value29(#[trigger] xi@[k]) == low_form(
                    kind,
                    limbs::value29(x0[k]),
                    limbs::value29(x0[k + gap]),
                    limbs::value29(roots[(k - base) * step]),
                    pr.modulus(),
                ),
            forall|k: int|
                base + gap <= k < base + gap + j ==> limbs::value29(#[trigger] xi@[k])
                    == high_form(
                    kind,
                    limbs::value29(x0[k - gap]),
                    limbs::value29(x0[k]),
                    limbs::value29(roots[(k - gap - base) * step]),
                    pr.modulus(),
                ),
            forall|k: int|
                base <= k < base + j ==> pr.element(#[trigger] xi@[k]) == low_result(
                    kind,
                    pr.element(x0[k]) as int,
                    pr.element(x0[k + gap]) as int,
                    pr.element(roots[(k - base) * step]) as int,
                    pr.modulus() as int,
                ),
            forall|k: int|
                base + gap <= k < base + gap + j ==> pr.element(#[trigger] xi@[k]) == high_result(
                    kind,
                    pr.element(x0[k - gap]) as int,
                    pr.element(x0[k]) as int,
                    pr.element(roots[(k - gap - base) * step]) as int,
                    pr.modulus() as int,
                ),
        decreases gap - j,
    {
        proof {
            assert(0 <= j * step <= (gap - 1) * step) by (nonlinear_arith)
                requires
                    0 <= j <= gap - 1,
                    step > 0,
            ;
        }
        let root: [u64; LIMBS] = roots[j * step];
        let mut lo: [u64; LIMBS] = xi[base + j];
        let mut hi: [u64; LIMBS] = xi[base + gap + j];
        proof {
            assert(pr.lazy(xi@[base + j]) && pr.lazy(xi@[base + gap + j]) && pr.lazy(
                roots@[j * step],
            ));
            assert(xi@[base + j] == x0[base + j] && xi@[base + gap + j] == x0[base + gap + j]);
        }
        match kind {
            Butterfly::InOut => butterfly_io(pr, &mut lo, &mut hi, &root),
            Butterfly::OutIn => butterfly_oi(pr, &mut lo, &mut hi, &root),
        }
        xi[base + j] = lo;
        xi[base + gap + j] = hi;
        j += 1;
    }
}

/// One stage of either network.
pub open spec fn stage(kind: Butterfly, x: Seq<int>, g: int, gap: int, p: int) -> Seq<int> {
    match kind {
        Butterfly::InOut => io_stage(x, g, gap, p),
        Butterfly::OutIn => oi_stage(x, g, gap, p),
    }
}

/// The butterflies of every chunk of `2 gap` positions, where positions `j` and `gap + j` of a
/// chunk meet with `roots[j * step]`.
pub open spec fn stage_with(
    kind: Butterfly,
    x: Seq<int>,
    roots: Seq<int>,
    step: int,
    gap: int,
    p: int,
) -> Seq<int> {
    Seq::new(
        x.len(),
        |k: int|
            {
                let j = k % (2 * gap);
                if j < gap {
                    low_result(kind, x[k], x[k + gap], roots[j * step], p)
                } else {
                    high_result(kind, x[k - gap], x[k], roots[(j - gap) * step], p)
                }
            },
    )
}

/// The domain forms, as numbers.
pub open spec fn forms(d: Seq<[u64; LIMBS]>) -> Seq<nat> {
    Seq::new(d.len(), |k: int| limbs::value29(d[k]))
}

/// The butterflies of every chunk, as [`stage_with`], on domain forms.
pub open spec fn stage_forms(
    kind: Butterfly,
    x: Seq<nat>,
    roots: Seq<nat>,
    step: int,
    gap: int,
    p: nat,
) -> Seq<nat> {
    Seq::new(
        x.len(),
        |k: int|
            {
                let j = k % (2 * gap);
                if j < gap {
                    low_form(kind, x[k], x[k + gap], roots[j * step], p)
                } else {
                    high_form(kind, x[k - gap], x[k], roots[(j - gap) * step], p)
                }
            },
    )
}

/// `roots`, read in steps of `step`, starts with the first `gap` powers of `g^chunks`.
spec fn twiddles(
    pr: Params,
    roots: Seq<[u64; LIMBS]>,
    step: int,
    gap: int,
    g: int,
    chunks: int,
) -> bool {
    forall|j: int|
        0 <= j < gap ==> #[trigger] pr.element(roots[j * step]) as int == pow(
            g,
            (j * chunks) as nat,
        ) % pr.modulus() as int
}

/// With powers of one root the butterflies are those of a network.
proof fn lemma_network_stage(
    kind: Butterfly,
    pr: Params,
    x: Seq<int>,
    roots: Seq<[u64; LIMBS]>,
    step: int,
    gap: int,
    g: int,
)
    requires
        pr.modulus() > 0,
        gap > 0,
        step > 0,
        (gap - 1) * step < roots.len(),
        twiddles(pr, roots, step, gap, g, x.len() as int / (2 * gap)),
    ensures
        stage_with(kind, x, elements(pr, roots), step, gap, pr.modulus() as int) == stage(
            kind,
            x,
            g,
            gap,
            pr.modulus() as int,
        ),
{
    let p = pr.modulus() as int;
    let chunks = x.len() as int / (2 * gap);
    let (have, want) = (
        stage_with(kind, x, elements(pr, roots), step, gap, p),
        stage(kind, x, g, gap, p),
    );
    assert forall|k: int| 0 <= k < x.len() implies #[trigger] have[k] == want[k] by {
        let j = k % (2 * gap);
        lemma_mod_bound(k, 2 * gap);
        let i = if j < gap { j } else { j - gap };
        let e = pow(g, (i * chunks) as nat);
        assert(0 <= i * step <= (gap - 1) * step) by (nonlinear_arith)
            requires
                0 <= i <= gap - 1,
                step > 0,
        ;
        assert(pr.element(roots[i * step]) == e % p);
        assert(elements(pr, roots)[i * step] == e % p);
        let (x1, x2) = if j < gap { (x[k], x[k + gap]) } else { (x[k - gap], x[k]) };
        lemma_mul_mod_noop_right(x1 - x2, e, p);
        lemma_mul_mod_noop_right(x2, e, p);
        lemma_add_mod_noop_right(x1, x2 * (e % p), p);
        lemma_add_mod_noop_right(x1, x2 * e, p);
        lemma_sub_mod_noop_right(x1, x2 * (e % p), p);
        lemma_sub_mod_noop_right(x1, x2 * e, p);
    }
    assert(have =~= want);
}

/// Applies the same butterflies in every chunk of `chunk_size = 2 gap` positions.
fn apply_butterfly_lazy(
    kind: Butterfly,
    pr: &Params,
    xi: &mut Vec<[u64; LIMBS]>,
    roots: &Vec<[u64; LIMBS]>,
    step: usize,
    chunk_size: usize,
    gap: usize,
)
    requires
        pr.wf(),
        all_lazy(*pr, old(xi)@),
        all_lazy(*pr, roots@),
        gap > 0,
        step > 0,
        chunk_size == 2 * gap,
        old(xi).len() % chunk_size == 0,
        (gap - 1) * step < roots.len(),
    ensures
        final(xi).len() == old(xi).len(),
        all_lazy(*pr, final(xi)@),
        forms(final(xi)@) == stage_forms(
            kind,
            forms(old(xi)@),
            forms(roots@),
            step as int,
            gap as int,
            pr.modulus(),
        ),
        elements(*pr, final(xi)@) == stage_with(
            kind,
            elements(*pr, old(xi)@),
            elements(*pr, roots@),
            step as int,
            gap as int,
            pr.modulus() as int,
        ),
{
    let ghost x0 = xi@;
    let ghost p = pr.modulus() as int;
    let ghost want = stage_with(
        kind,
        elements(*pr, x0),
        elements(*pr, roots@),
        step as int,
        gap as int,
        p,
    );
    let ghost want_forms = stage_forms(
        kind,
        forms(x0),
        forms(roots@),
        step as int,
        gap as int,
        pr.modulus(),
    );
    let num_chunks: usize = xi.len() / chunk_size;
    let mut base: usize = 0;
    let mut c: usize = 0;
    proof {
        lemma_fundamental_div_mod(xi.len() as int, chunk_size as int);
        lemma_mul_is_commutative(num_chunks as int, chunk_size as int);
    }
    while c < num_chunks
        invariant
            pr.wf(),
            c <= num_chunks,
            gap > 0,
            step > 0,
            chunk_size == 2 * gap,
            base == c * chunk_size,
            xi.len() == num_chunks * chunk_size,
            xi.len() == x0.len(),
            p == pr.modulus(),
            want == stage_with(
                kind,
                elements(*pr, x0),
                elements(*pr, roots@),
                step as int,
                gap as int,
                p,
            ),
            want_forms == stage_forms(
                kind,
                forms(x0),
                forms(roots@),
                step as int,
                gap as int,
                pr.modulus(),
            ),
            (gap - 1) * step < roots.len(),
            all_lazy(*pr, xi@),
            all_lazy(*pr, roots@),
            forall|k: int| base <= k < x0.len() ==> #[trigger] xi@[k] == x0[k],
            forall|k: int| 0 <= k < base ==> pr.element(#[trigger] xi@[k]) == want[k],
            forall|k: int| 0 <= k < base ==> limbs::value29(#[trigger] xi@[k]) == want_forms[k],
        decreases num_chunks - c,
    {
        let ghost before = xi@;
        proof {
            assert((c + 1) * chunk_size <= num_chunks * chunk_size) by (nonlinear_arith)
                requires
                    c + 1 <= num_chunks,
                    chunk_size >= 0,
            ;
            assert((c + 1) * chunk_size == c * chunk_size + chunk_size) by (nonlinear_arith);
        }
        butterfly_chunk(kind, pr, xi, roots, step, base, gap);
        proof {
            assert forall|k: int| base <= k < base + chunk_size implies pr.element(
                #[trigger] xi@[k],
            ) == want[k] && limbs::value29(xi@[k]) == want_forms[k] by {
                let j = k - base;
                lemma_fundamental_div_mod_converse(k, 2 * gap, c as int, j);
                let i = if j < gap { j } else { j - gap };
                assert(0 <= i * step <= (gap - 1) * step) by (nonlinear_arith)
                    requires
                        0 <= i <= gap - 1,
                        step > 0,
                ;
                let (l, h) = (base + i, base + gap + i);
                assert(before[l] == x0[l] && before[h] == x0[h]);
            }
        }
        base += chunk_size;
        c += 1;
    }
    assert(elements(*pr, xi@) =~= want);
    assert(forms(xi@) =~= want_forms);
}

/// The powers that a root vector of stride `s` holds.
spec fn root_powers(pr: Params, roots: Seq<[u64; LIMBS]>, g: int, s: int) -> bool {
    forall|i: int|
        0 <= i < roots.len() ==> #[trigger] pr.element(roots[i]) as int == pow(g, (i * s) as nat)
            % pr.modulus() as int
}

/// The first `count` members, taken in steps of `stride`.
fn compact(roots: &Vec<[u64; LIMBS]>, stride: usize, count: usize) -> (out: Vec<[u64; LIMBS]>)
    requires
        stride > 0,
        roots.len() >= count * stride,
    ensures
        out.len() == count,
        forall|i: int| 0 <= i < count ==> #[trigger] out[i] == roots[i * stride],
{
    let mut out: Vec<[u64; LIMBS]> = Vec::new();
    let mut i: usize = 0;
    while i < count
        invariant
            i <= count,
            out.len() == i,
            stride > 0,
            roots.len() >= count * stride,
            forall|k: int| 0 <= k < i ==> #[trigger] out[k] == roots[k * stride],
        decreases count - i,
    {
        proof {
            assert(0 <= i * stride < count * stride) by (nonlinear_arith)
                requires
                    0 <= i < count,
                    stride > 0,
            ;
        }
        out.push(roots[i * stride]);
        i += 1;
    }
    out
}

/// Enters the domain with every member.
fn enter_all(pr: &Params, w: &[[u64; 4]]) -> (d: Vec<[u64; LIMBS]>)
    requires
        pr.wf(),
    ensures
        d.len() == w.len(),
        all_lazy(*pr, d@),
        elements(*pr, d@) == residues(*pr, w@),
{
    let mut d: Vec<[u64; LIMBS]> = Vec::new();
    let mut i: usize = 0;
    while i < w.len()
        invariant
            pr.wf(),
            i <= w.len(),
            d.len() == i,
            all_lazy(*pr, d@),
            forall|k: int| 0 <= k < i ==> pr.element(#[trigger] d@[k]) == pr.residue(w@[k]),
        decreases w.len() - i,
    {
        d.push(lazy29::enter_p(pr, &w[i]));
        i += 1;
    }
    assert(elements(*pr, d@) =~= residues(*pr, w@));
    d
}

/// Leaves the domain with every member, writing the results over `w`.
fn exit_all(pr: &Params, d: &Vec<[u64; LIMBS]>, w: &mut [[u64; 4]])
    requires
        pr.wf(),
        all_lazy(*pr, d@),
        d.len() == old(w).len(),
    ensures
        final(w)@.len() == old(w)@.len(),
        all_reduced(*pr, final(w)@),
        residues(*pr, final(w)@) == elements(*pr, d@),
{
    let mut i: usize = 0;
    while i < d.len()
        invariant
            pr.wf(),
            i <= d.len(),
            d.len() == w@.len(),
            all_lazy(*pr, d@),
            forall|k: int|
                0 <= k < i ==> limbs::value64(#[trigger] w@[k]) < pr.modulus() && pr.residue(w@[k])
                    == pr.element(d@[k]),
        decreases d.len() - i,
    {
        assert(pr.lazy(d@[i as int]));
        w[i] = lazy29::exit_p(pr, &d[i]);
        i += 1;
    }
    assert(residues(*pr, w@) =~= elements(*pr, d@));
}

/// A radix-2 evaluation domain of `size` points.
#[derive(Clone, Copy, Debug, PartialEq, Eq)]
pub struct Radix2EvaluationDomain {
    /// The number of points, a power of two.
    pub size: u64,
}

impl Radix2EvaluationDomain {
    /// The size is a power of two.
    pub open spec fn wf(&self) -> bool {
        power_of_two(self.size as nat)
    }

    /// Computes the first `size / 2` powers of `root`, in standard Montgomery representation:
    /// `[1, g, g^2, ..., g^{(n/2) - 1}]`.
    pub fn roots_of_unity(&self, root: &[u64; 4], pr: &Params) -> (roots: Vec<[u64; 4]>)
        requires
            pr.wf(),
            self.size / 2 <= usize::MAX,
        ensures
            roots.len() == self.size / 2,
            all_reduced(*pr, roots@),
            forall|i: int|
                0 <= i < roots.len() ==> #[trigger] pr.residue(roots[i]) as int == pow(
                    pr.residue(*root) as int,
                    i as nat,
                ) % pr.modulus() as int,
    {
        let count: usize = (self.size / 2) as usize;
        let ghost p = pr.modulus() as int;
        let ghost g = pr.residue(*root) as int;
        let mut roots: Vec<[u64; 4]> = Vec::new();
        let droot: [u64; LIMBS] = lazy29::enter_p(pr, root);
        let mut acc: [u64; 4] = pr.r;
        let mut i: usize = 0;
        proof {
            lemma_mod_bound(pow2(256) as int, p);
            lemma_mod_twice(pow2(256) as int, p);
            lemma_mul_basics(pow2(256) as int);
            crate::montgomery::lemma_unscale_unique(
                limbs::value64(pr.r),
                pr.modulus(),
                256,
                1,
            );
            lemma_pow0(g);
        }
        while i < count
            invariant
                pr.wf(),
                i <= count,
                p == pr.modulus(),
                g == pr.residue(*root),
                pr.lazy(droot),
                pr.element(droot) == g,
                roots.len() == i,
                all_reduced(*pr, roots@),
                limbs::value64(acc) < pr.modulus(),
                pr.residue(acc) == pow(g, i as nat) % p,
                forall|k: int|
                    0 <= k < i ==> #[trigger] pr.residue(roots[k]) as int == pow(g, k as nat) % p,
            decreases count - i,
        {
            roots.push(acc);
            let d: [u64; LIMBS] = lazy29::enter_p(pr, &acc);
            proof {
                lazy29::lemma_lazy_product(*pr, d, droot);
            }
            let t: [u64; LIMBS] = lazy29::mont_mul_p(pr, &d, &droot);
            acc = lazy29::exit_p(pr, &t);
            proof {
                lemma_pow1(g);
                lemma_pow_adds(g, i as nat, 1);
                lemma_mul_mod_noop_left(pow(g, i as nat), g, p);
            }
            i += 1;
        }
        roots
    }

    /// Runs the in-order-to-out-of-order network on `xi` (standard Montgomery representations)
    /// with butterflies in the lazy domain. `xi` may be shorter than the domain.
    pub fn io_helper_lazy(&self, xi: &mut [[u64; 4]], root: &[u64; 4], pr: &Params)
        requires
            self.wf(),
            pr.wf(),
            self.size / 2 <= usize::MAX,
            old(xi)@.len() <= self.size,
            old(xi)@.len() == 0 || power_of_two(old(xi)@.len()),
        ensures
            final(xi)@.len() == old(xi)@.len(),
            all_reduced(*pr, final(xi)@),
            residues(*pr, final(xi)@) == io_network(
                residues(*pr, old(xi)@),
                pr.residue(*root) as int,
                old(xi)@.len() / 2,
                pr.modulus() as int,
            ),
    {
        let ghost p = pr.modulus() as int;
        let ghost g = pr.residue(*root) as int;
        let ghost n = xi@.len();
        let ghost e = choose|e: nat| n == #[trigger] pow2(e);
        let ghost x0 = residues(*pr, xi@);
        assert(xi.len() == n);
        let roots_f: Vec<[u64; 4]> = self.roots_of_unity(root, pr);
        let mut roots: Vec<[u64; LIMBS]> = enter_all(pr, roots_f.as_slice());
        let mut d: Vec<[u64; LIMBS]> = enter_all(pr, xi);
        let mut step: usize = 1;
        let mut first: bool = true;
        let mut gap: usize = d.len() / 2;
        let ghost mut k: int = e - 1;
        let ghost mut s: int = 1;
        proof {
            lemma2_to64();
            if e > 0 {
                lemma_pow2_unfold(e);
            }
            assert forall|i: int| 0 <= i < roots.len() implies #[trigger] pr.element(roots[i]) as int
                == pow(g, (i * 1) as nat) % p by {
                assert(elements(*pr, roots@)[i] == residues(*pr, roots_f@)[i]);
                assert(pr.residue(roots_f[i]) as int == pow(g, i as nat) % p);
            }
        }
        while gap > 0
            invariant
                pr.wf(),
                p == pr.modulus(),
                n > 0 ==> n == pow2(e),
                d.len() == n,
                all_lazy(*pr, d@),
                all_lazy(*pr, roots@),
                -1 <= k < e || n == 0,
                gap == (if k < 0 || n == 0 {
                    0
                } else {
                    pow2(k as nat) as int
                }),
                first ==> k == e - 1,
                s > 0,
                step > 0,
                root_powers(*pr, roots@, g, s),
                roots.len() * s >= n / 2,
                // the stage before this one used every `s * step`-th root
                gap > 0 && !first ==> roots.len() >= 2 * gap * step,
                gap > 0 && !first ==> s * step * (4 * gap) == n,
                gap > 0 && !first && s != 1 ==> s * step >= 128,
                first ==> s == 1,
                io_network(elements(*pr, d@), g, gap as nat, p) == io_network(x0, g, n / 2, p),
            decreases gap,
        {
            proof {
                lemma_pow2_unfold((k + 1) as nat);
                if k + 1 < e {
                    lemma_pow2_strictly_increases((k + 1) as nat, e);
                }
            }
            // each butterfly cluster uses 2*gap positions
            let chunk_size: usize = 2 * gap;
            let num_chunks: usize = d.len() / chunk_size;
            proof {
                let kn = k as nat;
                let c = pow2((e - kn - 1) as nat);
                lemma_pow2_unfold((kn + 1) as nat);
                lemma_pow2_adds((kn + 1) as nat, (e - kn - 1) as nat);
                lemma_pow2_pos((e - kn - 1) as nat);
                lemma_mul_is_commutative(c as int, chunk_size as int);
                lemma_div_by_multiple(c as int, chunk_size as int);
                assert(num_chunks == c);
                assert(n / 2 == gap * num_chunks) by (nonlinear_arith)
                    requires
                        n == (2 * gap) * num_chunks,
                ;
                if first {
                    lemma2_to64();
                    assert(num_chunks == 1);
                } else {
                    assert(2 * (s * step) == num_chunks) by (nonlinear_arith)
                        requires
                            s * step * (4 * gap) == n,
                            n == (2 * gap) * num_chunks,
                            gap > 0,
                    ;
                }
            }
            let ghost s0 = s;
            if num_chunks >= MIN_NUM_CHUNKS_FOR_COMPACTION {
                if !first {
                    let ghost old_roots = roots@;
                    proof {
                        assert(roots.len() >= gap * (step * 2)) by (nonlinear_arith)
                            requires
                                roots.len() >= 2 * gap * step,
                        ;
                        assert(step * 2 <= gap * (step * 2)) by (nonlinear_arith)
                            requires
                                gap >= 1,
                                step > 0,
                        ;
                    }
                    let stride: usize = step * 2;
                    roots = compact(&roots, stride, gap);
                    proof {
                        s = num_chunks as int;
                        assert forall|i: int| 0 <= i < roots.len() implies #[trigger] pr.element(
                            roots[i],
                        ) as int == pow(g, (i * s) as nat) % p by {
                            assert(0 <= i * stride < gap * stride) by (nonlinear_arith)
                                requires
                                    0 <= i < gap,
                                    stride > 0,
                            ;
                            let q = i * stride;
                            assert(pr.element(old_roots[q]) as int == pow(g, (q * s0) as nat) % p);
                            assert(q * s0 == i * s) by (nonlinear_arith)
                                requires
                                    q == i * stride,
                                    stride == step * 2,
                                    2 * (s0 * step) == s,
                            ;
                        }
                        assert forall|i: int| 0 <= i < roots@.len() implies pr.lazy(
                            #[trigger] roots@[i],
                        ) by {
                            assert(0 <= i * stride < gap * stride) by (nonlinear_arith)
                                requires
                                    0 <= i < gap,
                                    stride > 0,
                            ;
                            assert(roots[i] == old_roots[i * stride]);
                        }
                    }
                }
                step = 1;
            } else {
                proof {
                    if !first && s != 1 {
                        assert(num_chunks >= 256);
                    }
                }
                step = num_chunks;
            }
            first = false;
            proof {
                lemma_stage_roots(*pr, roots@, g, s, step as int, gap as int, num_chunks as int, n as int);
            }
            let ghost before = elements(*pr, d@);
            apply_butterfly_lazy(
                Butterfly::InOut,
                pr,
                &mut d,
                &roots,
                step,
                chunk_size,
                gap,
            );
            proof {
                lemma_network_stage(
                    Butterfly::InOut,
                    *pr,
                    before,
                    roots@,
                    step as int,
                    gap as int,
                    g,
                );
            }
            let ghost old_gap = gap as int;
            gap = gap / 2;
            proof {
                if k > 0 {
                    lemma_pow2_unfold(k as nat);
                    assert(roots.len() >= 2 * gap * step) by (nonlinear_arith)
                        requires
                            roots.len() >= old_gap * step,
                            old_gap == 2 * gap,
                    ;
                    assert(s * step * (4 * gap) == n) by (nonlinear_arith)
                        requires
                            s * step == num_chunks,
                            n == (2 * old_gap) * num_chunks,
                            old_gap == 2 * gap,
                    ;
                } else {
                    lemma2_to64();
                }
                k = k - 1;
            }
        }
        exit_all(pr, &d, xi);
    }

    /// Runs the out-of-order-to-in-order network on `xi` (standard Montgomery representations)
    /// from stage `start_gap` on, with butterflies in the lazy domain. `xi` may be shorter than the
    /// domain.
    pub fn oi_helper_lazy(
        &self,
        xi: &mut [[u64; 4]],
        root: &[u64; 4],
        start_gap: usize,
        pr: &Params,
    )
        requires
            self.wf(),
            pr.wf(),
            self.size / 2 <= usize::MAX,
            old(xi)@.len() <= self.size,
            old(xi)@.len() == 0 || power_of_two(old(xi)@.len()),
            power_of_two(start_gap as nat) || start_gap >= old(xi)@.len(),
        ensures
            final(xi)@.len() == old(xi)@.len(),
            all_reduced(*pr, final(xi)@),
            residues(*pr, final(xi)@) == oi_network(
                residues(*pr, old(xi)@),
                pr.residue(*root) as int,
                start_gap as nat,
                pr.modulus() as int,
            ),
    {
        let ghost p = pr.modulus() as int;
        let ghost g = pr.residue(*root) as int;
        let ghost n = xi@.len();
        let ghost e = choose|e: nat| n == #[trigger] pow2(e);
        let ghost x0 = residues(*pr, xi@);
        assert(xi.len() == n);
        let roots_f: Vec<[u64; 4]> = self.roots_of_unity(root, pr);
        let roots_cache: Vec<[u64; LIMBS]> = enter_all(pr, roots_f.as_slice());
        let mut d: Vec<[u64; LIMBS]> = enter_all(pr, xi);
        let mut gap: usize = start_gap;
        proof {
            if start_gap < n {
                let k = choose|k: nat| start_gap == #[trigger] pow2(k);
                assert(gap == pow2(k));
            }
            assert forall|i: int| 0 <= i < roots_cache.len() implies #[trigger] pr.element(
                roots_cache[i],
            ) as int == pow(g, (i * 1) as nat) % p by {
                assert(elements(*pr, roots_cache@)[i] == residues(*pr, roots_f@)[i]);
                assert(pr.residue(roots_f[i]) as int == pow(g, i as nat) % p);
            }
        }
        while gap < d.len()
            invariant
                pr.wf(),
                p == pr.modulus(),
                n > 0 ==> n == pow2(e),
                d.len() == n,
                all_lazy(*pr, d@),
                all_lazy(*pr, roots_cache@),
                gap < n ==> power_of_two(gap as nat),
                root_powers(*pr, roots_cache@, g, 1),
                roots_cache.len() >= n / 2,
                oi_network(elements(*pr, d@), g, gap as nat, p) == oi_network(
                    x0,
                    g,
                    start_gap as nat,
                    p,
                ),
            decreases d.len() - gap,
        {
            let ghost k = choose|k: nat| gap == #[trigger] pow2(k);
            proof {
                if e <= k {
                    if e < k {
                        lemma_pow2_strictly_increases(e, k);
                    }
                    assert(false);
                }
                lemma_pow2_pos(k);
                lemma_pow2_unfold(k + 1);
                if k + 1 < e {
                    lemma_pow2_strictly_increases(k + 1, e);
                }
            }
            // each butterfly cluster uses 2*gap positions
            let chunk_size: usize = 2 * gap;
            let num_chunks: usize = d.len() / chunk_size;
            proof {
                let c = pow2((e - k - 1) as nat);
                lemma_pow2_adds(k + 1, (e - k - 1) as nat);
                lemma_pow2_pos((e - k - 1) as nat);
                lemma_mul_is_commutative(c as int, chunk_size as int);
                lemma_div_by_multiple(c as int, chunk_size as int);
                assert(num_chunks == c);
                assert(n / 2 == gap * num_chunks) by (nonlinear_arith)
                    requires
                        n == (2 * gap) * num_chunks,
                ;
            }
            let ghost before = elements(*pr, d@);
            if num_chunks >= MIN_NUM_CHUNKS_FOR_COMPACTION && gap < d.len() / 2 {
                let compacted_roots: Vec<[u64; LIMBS]> = compact(&roots_cache, num_chunks, gap);
                proof {
                    assert forall|i: int| 0 <= i < gap implies pr.lazy(
                        #[trigger] compacted_roots@[i],
                    ) && pr.element(compacted_roots@[i]) as int == pow(g, (i * num_chunks) as nat)
                        % p by {
                        assert(0 <= i * num_chunks < gap * num_chunks) by (nonlinear_arith)
                            requires
                                0 <= i < gap,
                                num_chunks > 0,
                        ;
                        let q = i * num_chunks;
                        assert(compacted_roots[i] == roots_cache[q]);
                        assert(pr.element(roots_cache[q]) as int == pow(g, (q * 1) as nat) % p);
                    }
                    lemma_mul_basics(num_chunks as int);
                    lemma_stage_roots(
                        *pr,
                        compacted_roots@,
                        g,
                        num_chunks as int,
                        1,
                        gap as int,
                        num_chunks as int,
                        n as int,
                    );
                }
                apply_butterfly_lazy(
                    Butterfly::OutIn,
                    pr,
                    &mut d,
                    &compacted_roots,
                    1,
                    chunk_size,
                    gap,
                );
                proof {
                    lemma_network_stage(
                        Butterfly::OutIn,
                        *pr,
                        before,
                        compacted_roots@,
                        1,
                        gap as int,
                        g,
                    );
                }
            } else {
                proof {
                    lemma_mul_basics(num_chunks as int);
                    lemma_mul_basics(roots_cache.len() as int);
                    lemma_stage_roots(
                        *pr,
                        roots_cache@,
                        g,
                        1,
                        num_chunks as int,
                        gap as int,
                        num_chunks as int,
                        n as int,
                    );
                }
                apply_butterfly_lazy(
                    Butterfly::OutIn,
                    pr,
                    &mut d,
                    &roots_cache,
                    num_chunks,
                    chunk_size,
                    gap,
                );
                proof {
                    lemma_network_stage(
                        Butterfly::OutIn,
                        *pr,
                        before,
                        roots_cache@,
                        num_chunks as int,
                        gap as int,
                        g,
                    );
                }
            }
            gap = 2 * gap;
            assert(gap == pow2(k + 1));
        }
        exit_all(pr, &d, xi);
    }
}

/// Whether a field's elements are laid out as four words: `size` and `align` are those of the
/// element type, `word_align` the alignment of a 64-bit word.
pub fn layout_fits(size: usize, align: usize, word_align: usize, extension_degree: u64) -> (r: bool)
    ensures
        r == (size == 32 && align >= word_align && extension_degree == 1),
{
    !(size != 32 || align < word_align || extension_degree != 1)
}

/// Capability probe. `Some` only for a prime field of four
/// u64 limbs whose in-memory representation is standard Montgomery form:
/// the layout is checked structurally (size/alignment/extension degree) and
/// the representation semantically (repr(1) == R and repr(2) == 2R, with R
/// computed from the characteristic by modular doubling). `one` and `two` are the
/// words of the elements 1 and 2.
pub fn detect(
    size: usize,
    align: usize,
    word_align: usize,
    extension_degree: u64,
    characteristic: &[u64],
    one: &[u64; 4],
    two: &[u64; 4],
) -> (res: Option<Params>)
    ensures
        res is Some <==> {
            let p = limbs::value(characteristic@, 64, 4);
            &&& size == 32 && align >= word_align && extension_degree == 1
            &&& characteristic@.len() == 4
            &&& lazy29::hosts(p)
            &&& limbs::value64(*one) == pow2(256) % p
            &&& limbs::value64(*two) == pow2(257) % p
        },
        res matches Some(pr) ==> pr.wf() && pr.modulus() == limbs::value(characteristic@, 64, 4),
{
    if !layout_fits(size, align, word_align, extension_degree) {
        return None;
    }
    if characteristic.len() != 4 {
        return None;
    }
    let p4: [u64; 4] = [characteristic[0], characteristic[1], characteristic[2], characteristic[3]];
    proof {
        limbs::lemma_value_agree(p4@, characteristic@, 64, 4);
    }
    match Params::from_modulus(p4) {
        None => None,
        Some(pr) => {
            if !same_words(one, &pr.r) || !same_words(two, &pr.two_r) {
                return None;
            }
            Some(pr)
        },
    }
}

/// Whether two four-word numbers are equal.
fn same_words(a: &[u64; 4], b: &[u64; 4]) -> (r: bool)
    ensures
        r == (limbs::value64(*a) == limbs::value64(*b)),
{
    let r: bool = a[0] == b[0] && a[1] == b[1] && a[2] == b[2] && a[3] == b[3];
    proof {
        if r {
            limbs::lemma_value_agree(a@, b@, 64, 4);
        } else if limbs::value64(*a) == limbs::value64(*b) {
            limbs::lemma_unique64(*a, *b);
            assert(a@[0] == b@[0] && a@[1] == b@[1] && a@[2] == b@[2] && a@[3] == b@[3]);
        }
    }
    r
}

/// A root vector of stride `s` read in steps of `step` supplies the roots of a stage with
/// `s * step` chunks.
proof fn lemma_stage_roots(
    pr: Params,
    roots: Seq<[u64; LIMBS]>,
    g: int,
    s: int,
    step: int,
    gap: int,
    chunks: int,
    n: int,
)
    requires
        root_powers(pr, roots, g, s),
        s > 0,
        step > 0,
        gap > 0,
        s * step == chunks,
        roots.len() * s >= n / 2,
        n / 2 == gap * chunks,
        n >= 0,
        n == 2 * gap * chunks,
    ensures
        gap * step <= roots.len(),
        (gap - 1) * step < roots.len(),
        n % (2 * gap) == 0,
        n / (2 * gap) == chunks,
        twiddles(pr, roots, step, gap, g, chunks),
{
    let len = roots.len() as int;
    assert(gap * step <= len) by (nonlinear_arith)
        requires
            len * s >= gap * chunks,
            s * step == chunks,
            s > 0,
    ;
    assert((gap - 1) * step < gap * step) by (nonlinear_arith)
        requires
            step > 0,
    ;
    lemma_mul_is_commutative(chunks, 2 * gap);
    lemma_fundamental_div_mod_converse(n, 2 * gap, chunks, 0);
    assert forall|j: int| 0 <= j < gap implies #[trigger] pr.element(roots[j * step]) as int == pow(
        g,
        (j * chunks) as nat,
    ) % pr.modulus() as int by {
        assert(0 <= j * step < gap * step) by (nonlinear_arith)
            requires
                0 <= j < gap,
                step > 0,
        ;
        let q = j * step;
        assert(pr.element(roots[q]) as int == pow(g, (q * s) as nat) % pr.modulus() as int);
        assert(q * s == j * chunks) by (nonlinear_arith)
            requires
                q == j * step,
                s * step == chunks,
        ;
    }
}

} // verus!
