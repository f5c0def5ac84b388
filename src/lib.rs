//! Prime-field arithmetic and the Jacobian group law of the curve y^2 = x^3 + 3.

pub mod bignum;
pub mod fp;
pub mod g1;
