//! Turns the scanned sticker colors of a puzzle cube into a valid face labelling.
//!
//! - `classification`: capacity-bounded nearest-centroid assignment of samples to faces.
//! - `cube`: the scan session, the notation builder and the robot's orientation tracking.
//! - `validator`: corner and edge legality of a notation.
//! - `fixer`: repair of a notation by swaps, scored by color cohesion and checked by kewb.
//! - `centre_fixer`: the earlier repair, scored by distance to the centres.
//! - `scan_text`: the text format of a saved scan.
//! - `bindings`: the calls into kewb, itertools and std that the proofs take on trust.
use vstd::prelude::*;

pub mod bindings;
pub mod centre_fixer;
pub mod classification;
pub mod constants;
pub mod cube;
pub mod fixer;
pub mod scan_text;
pub mod validator;

verus! {

} // verus!
