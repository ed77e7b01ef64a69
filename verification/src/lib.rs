//! Bounded posits: bit-field decoding, exact decimal rendering, exact rational arithmetic and
//! correctly rounded conversion into the four standard b-posit formats.

pub mod arith;
pub mod limbs;
pub mod monotone;
pub mod posit_ops;
pub mod bignum;
pub mod bits;
pub mod bitlit;
pub mod calc;
pub mod digits;
pub mod decimal;
pub mod rational;
pub mod roundtrip;
pub mod format;
pub mod grid;
pub mod inspect;
pub mod literal;
pub mod order;
pub mod text;
