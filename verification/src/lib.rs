use vstd::prelude::*;

pub mod cycle;
pub mod palette;
pub mod rng;
pub mod scene;
pub mod sand;
pub mod term;
pub mod text;

verus! {
}
