//! Field and curve kernels with lazy reduction.
//!
//! - [`lazy29`] holds elements of 255-bit Montgomery fields as nine 29-bit limbs in the domain
//!   `x * 2^261`, bounded by twice the modulus, so that sums and products need no carry chains;
//!   [`neon29`] multiplies two elements at a time.
//! - [`radix2`] runs the butterfly networks of the radix-2 FFT in that domain; [`fft_laws`] shows
//!   that they compute the discrete Fourier transform.
//! - [`batch_affine`] multiplies many points by scalars and adds them up, with additions in affine
//!   coordinates that share their field inversions; [`buckets`] shows that the bucket method gives
//!   the sum of the scaled points.
//!
//! The models behind the contracts are numbers ([`limbs`], [`montgomery`]), the abstract
//! arithmetic of a [`field`], and points of a [`curve`] that form a [`group`]. That they do is shown
//! in [`associativity`], from polynomial [`identities`] that hold in every commutative [`ring`].
pub mod associativity;
pub mod batch_affine;
pub mod buckets;
pub mod config;
pub mod curve;
pub mod digits;
pub mod fft_laws;
pub mod field;
pub mod group;
pub mod identities;
pub mod lazy29;
pub mod limbs;
pub mod montgomery;
pub mod neon29;
pub mod radix2;
pub mod ring;
