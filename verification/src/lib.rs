//! Number-theory experiments and SAT encodings: Montgomery powers modulo odd numbers,
//! sieves, decimal powers of two, matrix powers, and the CNF of long multiplication,
//! Pythagorean-triple and square-sum colourings and Wang tilings.
use vstd::prelude::*;

pub mod cnf;
pub mod digits;
pub mod limbs;
pub mod matpow;
pub mod matrix;
pub mod modmath;
pub mod nosquare;
pub mod mont;
pub mod pow;
pub mod powdigits;
pub mod pythag;
pub mod s52;
pub mod satmul;
pub mod search;
pub mod sieve;
pub mod text;
pub mod tiling;
pub mod wang;

pub use pow::{pow, MulMod};

verus! {

} // verus!
