//! Finds byte-identical files within a directory tree, reports groups of
//! duplicates, and plans the collision-safe relocation of all but one copy
//! of each group into a quarantine area.
#![verifier::loop_isolation(false)]

use vstd::prelude::*;

pub mod hashing;
pub mod processor;
pub mod quarantine;
pub mod report;
pub mod scanning;

pub use hashing::HashAlgorithm;
pub use report::ReportEntry;

verus! {

/// The character sequences of a list of strings, in order.
pub open spec fn names_view(v: Seq<String>) -> Seq<Seq<char>> {
    v.map_values(|s: String| s@)
}

} // verus!
