use vstd::prelude::*;

pub mod bitset;
pub mod captures;
pub mod error;
pub mod owned_captures;
pub mod router;
pub mod spanbuf;
pub mod strmap;

verus! {

} // verus!
