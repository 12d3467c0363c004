//! Building blocks of a postflop solver for two-player no-limit hold'em: cards and board
//! configurations, ranges, the suit isomorphisms that let one chance outcome stand for others,
//! the sorted hand-strength tables used at showdown, and the integer parts of discounted CFR.

use vstd::prelude::*;

pub mod card;
pub mod range;
pub mod isomorphism;
pub mod swap_list;
pub mod strength;
pub mod sliceop;
pub mod solver;

verus! {

} // verus!
