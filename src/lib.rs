//! A verified model of a component object runtime: objects that expose several
//! interfaces, are found by 128-bit interface identifiers, live by intrusive
//! reference counting, and may aggregate inner objects behind one outer identity.
use vstd::prelude::*;

pub mod interface;
pub mod object;
pub mod protocol;

verus! {

} // verus!
