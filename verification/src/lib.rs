//! Relationship matrices of a pedigree in exact arithmetic, and the block
//! composition that assembles mixed-model equations from them.
//!
//! A pedigree lists individuals with the ids `1..=n`, each with the ids of
//! its sire and dam, `0` for an unknown parent, parents before offspring.
//! From it [`gen_cov::a_mat`] builds the numerator relationship matrix `A`,
//! and [`gen_cov::inv_a_mat`] the inverse of `A` without inverting anything:
//! with `A = T D T^T` the inverse is `(I - P)^T D^-1 (I - P)`, where `P` puts
//! a half at each parent of each individual and `D` holds the Mendelian
//! sampling variances. [`gen_cov::inv_a_mat_approx`] takes the variances that
//! hold where no parent is inbred.
//!
//! All numbers are exact: a relationship is a fixed-point cell in units of
//! `1 / 2^120`, a term of the inverse a fraction of two integers. A pedigree
//! is refused only where a halving would lose a bit below that unit. The
//! contracts speak of the real numbers that the cells stand for. Proved of
//! them in [`kinship`], [`factor`], [`definite`], [`inverse`] and
//! [`roundtrip`]: `A` is symmetric and positive semi-definite with a diagonal
//! of at least one, `A = T D T^T`, the inverse times `A` is the identity, and
//! the approximate inverse is the exact one just when no parent is inbred.
//!
//! [`compose`] stacks matrices and vectors of any cells into block matrices,
//! and assembles the normal equations of a mixed model.

pub mod compose;
pub mod definite;
pub mod error;
pub mod factor;
pub mod gen_cov;
pub mod inverse;
pub mod kinship;
pub mod matrix;
pub mod pedigree;
pub mod roundtrip;
