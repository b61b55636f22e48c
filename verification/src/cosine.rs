//! The similarity of two words, as the caller measures it.
//!
//! The solver asks for the cosine of two rows of the lexicon whenever it needs one, through a
//! function that its caller hands over. All it relies on is that this function answers for
//! every pair of words and always gives the same answer for the same pair.

use vstd::prelude::*;

use crate::ieee::Single;

verus! {

/// `sim` answers for every pair of the first `n` words, and always the same.
pub open spec fn measures<F: Fn(u32, u32) -> Single>(sim: F, n: nat) -> bool {
    &&& forall|i: u32, j: u32| i < n && j < n ==> #[trigger] call_requires(sim, (i, j))
    &&& forall|i: u32, j: u32, a: Single, b: Single| #[trigger]
        call_ensures(sim, (i, j), a) && #[trigger] call_ensures(sim, (i, j), b) ==> a == b
}

/// The similarity of words `i` and `j`.
pub open spec fn cosine<F: Fn(u32, u32) -> Single>(sim: F, i: u32, j: u32) -> Single {
    choose|r: Single| call_ensures(sim, (i, j), r)
}

/// Measures the similarity of two words.
pub fn measure<F: Fn(u32, u32) -> Single>(sim: &F, i: u32, j: u32) -> (r: Single)
    requires
        measures(*sim, (if i < j { j as nat } else { i as nat }) + 1),
    ensures
        r == cosine(*sim, i, j),
{
    sim(i, j)
}

} // verus!
