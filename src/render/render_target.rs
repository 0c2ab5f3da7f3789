//! What a render target is handed from outside.

use vstd::prelude::*;

verus! {

/// Resources that a render target reads from but does not own.
pub trait ExternalResources<'a> {

}

impl ExternalResources<'_> for () {

}

} // verus!
