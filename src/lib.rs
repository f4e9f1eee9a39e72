//! Discovery of authority addresses through signed records in a distributed hash table.
use vstd::prelude::*;

pub mod cache;
pub mod codec;
pub mod discovery;
pub mod external;

verus! {

/// Upper bound on the number of addresses kept per authority.
pub const MAX_ADDRESSES_PER_AUTHORITY: usize = 5;

} // verus!
