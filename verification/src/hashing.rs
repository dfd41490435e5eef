//! How the hashes of the library's own types are fed to a hasher: through
//! `Hash::hash` of std for machine integers, of which nothing is proved and
//! nothing claimed.

use vstd::prelude::*;
use std::hash::{Hash, Hasher};

verus! {

/// `Hash::hash` of std for `usize`: feeds the number to the hasher. Nothing
/// is claimed of what the hasher makes of it.
pub assume_specification<H: Hasher>[ <usize as Hash>::hash::<H> ](value: &usize, state: &mut H)
;

/// `Hash::hash` of std for `u128`: feeds the number to the hasher. Nothing
/// is claimed of what the hasher makes of it.
pub assume_specification<H: Hasher>[ <u128 as Hash>::hash::<H> ](value: &u128, state: &mut H)
;

} // verus!
