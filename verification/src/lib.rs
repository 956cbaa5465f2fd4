//! Integer simplicial homology of a finite abstract simplicial complex.
//!
//! A complex is built from its facets, its boundary maps are written as
//! integer matrices, and the Smith normal forms of those give, for each
//! dimension, the free rank and the torsion coefficients of the homology
//! group. All arithmetic is exact, in `i128`; a value that is not
//! representable is an error.

pub mod arith;
pub mod bits;
pub mod chain_law;
pub mod complex_model;
pub mod determinant;
pub mod error;
pub mod homology;
pub mod linalg;
pub mod matrix;
pub mod parser;
pub mod printing;
pub mod scan;
pub mod simplex;
pub mod smith;
pub mod smith_model;
pub mod updates;
