//! Arithmetic circuit gadgets over the scalar field of BLS12-381.

pub mod bits;
pub mod boolean;
pub mod completeness;
pub mod constraint_system;
pub mod decimal;
pub mod evaluation;
pub mod expression;
pub mod field_lemmas;
pub mod fr;
pub mod linear_combination;
pub mod meaning;
pub mod num;
pub mod results;
pub mod shape;
pub mod soundness;
pub mod strict;
pub mod strict_laws;
pub mod strict_witness;
pub mod witness;
