//! Residue number system arithmetic for emulating a "wrong" prime field inside a
//! "native" prime field: integers are split into limbs that live in the native
//! field, and the witnesses that the arithmetic gates need are computed here.
pub mod big;
pub mod spec;
pub mod field;
pub mod laws;
pub mod param_laws;
pub mod limbs;
pub mod params;
pub mod setup;
pub mod rns;

use vstd::prelude::*;

verus! {

/// Number of sub limbs a limb is split into for lookup range checks.
pub const NUMBER_OF_LOOKUP_LIMBS: usize = 4;

} // verus!
