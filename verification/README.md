# lazy_field

Verified kernels for field and curve arithmetic with lazy reduction, written in
[Verus](https://github.com/verus-lang/verus).

- `src/` is the library. Every function states its behaviour in `requires` and `ensures`
  clauses that Verus proves. The only thing taken on trust is what `ark_std::log2` returns.
  The arithmetic of curves is proved for all types that implement the traits `Field`,
  `BigInteger`, `PrimeField` and `SWCurveConfig`, whose laws an implementation promises.
  - `limbs`, `montgomery`: limb vectors as numbers, and Montgomery reduction.
  - `lazy29`, `neon29`: the lazy-carry domain of nine 29-bit limbs.
  - `radix2`, `fft_laws`: butterfly networks, and the Fourier transforms that they compute.
  - `field`, `curve`, `group`: fields, points and the chord-and-tangent addition.
  - `ring`, `identities`, `associativity`: polynomial identities, and from them the proof that the
    points of a nonsingular curve form a group.
  - `digits`, `buckets`, `batch_affine`: signed windows, the bucket method, and multi-scalar
    multiplication with batched affine additions.
- `tests/` runs the library against the fields of `ark_ff`.
- `app/` applies the kernels to slices of `ark_ff` field elements; it is ordinary Rust and not
  verified.

The contract of multi-scalar multiplication states the sum of the scaled points for the points of
every nonsingular curve `y^2 = x^3 + a x + b`, and for every other set of points on which the
chord-and-tangent addition is that of a group.
