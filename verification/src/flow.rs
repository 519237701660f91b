//! The flow-history rule: the latest reading of a chronologically ascending
//! history is its last entry, and an empty history has no reading at all.

use vstd::prelude::*;

use crate::data::FlowReading;

verus! {

/// Returns the latest reading of `history`, which the API delivers in
/// ascending chronological order: the last entry when there is one, and
/// `None` for an empty history.
pub fn latest_reading(history: &Vec<FlowReading>) -> (r: Option<FlowReading>)
    ensures
        history@.len() == 0 <==> r is None,
        history@.len() > 0 ==> (r matches Some(f) && f@ == history.deep_view().last()),
{
    if history.len() == 0 {
        None
    } else {
        let f = history[history.len() - 1].clone();
        assert(f@ == history.deep_view().last());
        Some(f)
    }
}

} // verus!
