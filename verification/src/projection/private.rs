//! The sealing token for [`super::CoreSignal`] and
//! [`super::ReadOnlyEngine`]: this module is private to the crate, so no
//! other crate can implement it.

use vstd::prelude::*;

verus! {

/// Sealing token.
pub trait Sealed {}

} // verus!
