//! Conversions between the notation-level score and the data-level score.
//! The two models coincide, so the conversion is the identity.

use crate::data::Score;
use vstd::prelude::*;

verus! {

/// Adopt a parsed notation score as the data-model score.
pub fn vsc_score_to_data_score(vsc_score: Score) -> (r: Score)
    ensures
        r@ == vsc_score@,
{
    vsc_score
}

} // verus!
