//! A regression toolkit: design matrices with an automatic intercept,
//! label encoding, input checks and scoring.

use vstd::prelude::*;

pub mod checks;
pub mod design;
pub mod error;
pub mod label_encoder;
pub mod order;
pub mod scoring;

verus! {

} // verus!
