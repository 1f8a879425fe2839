//! Keeps [`crate::CoapRequestExt`] closed to other crates.

use crate::coap_response::CoapMessage;
use vstd::prelude::*;

verus! {

/// Only types of this crate have this trait.
pub trait Sealed {

}

impl Sealed for CoapMessage {

}

} // verus!
