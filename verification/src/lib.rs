//! Verified core of the refac tool suite: planning and ordering batch
//! renames, collision detection, binary-content classification, the `.scrap`
//! bookkeeping rules and the `verbump` version and hook-file logic.
use vstd::prelude::*;

pub mod text;
pub mod rename;
pub mod collision;
pub mod verbump;
pub mod scrap;
pub mod path;
pub mod binary;
pub mod pattern;

verus! {

} // verus!
