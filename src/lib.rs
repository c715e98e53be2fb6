//! A learning-with-errors public-key encryption scheme over a prime field,
//! with contracts proved by Verus.

use vstd::prelude::*;

pub mod bits;
pub mod correctness;
pub mod grid_lock;
pub mod random;
pub mod z;
