use vstd::prelude::*;

pub mod layout;
pub mod listing;
pub mod name;
pub mod order;

verus! {

} // verus!
