//! The marker that keeps blocks and allocators from being dropped unnoticed.
//!
//! Nothing here is proved: these are the declarations through which the
//! verified code holds and disposes of the marker of the `relevant` crate.

use relevant::Relevant;
use vstd::prelude::*;

verus! {

/// `relevant::Relevant`: a value that complains when it is dropped. The
/// verified code only carries it.
#[verifier::external_type_specification]
#[verifier::external_body]
pub struct ExRelevant(Relevant);

/// `relevant::Relevant::dispose` consumes the marker without the complaint of
/// its destructor. It returns nothing, and nothing is claimed of it.
pub assume_specification[ Relevant::dispose ](marker: Relevant)
;

/// Makes a fresh `relevant::Relevant`, a unit value. Nothing is claimed of it.
#[verifier::external_body]
pub(crate) fn new_marker() -> (marker: Relevant) {
    Relevant
}

} // verus!
