//! Version descriptor for the PTBL validator scaffold.
//!
//! The crate exposes one immutable value type, [`VersionInfo`], and one pure
//! accessor, [`version_info`], so that a surrounding system can compile and
//! link against a stable, named surface before real validator logic lands.

use vstd::prelude::*;

pub mod codec;

verus! {

/// The fixed label that identifies this build of the scaffold.
pub open spec fn scaffold_name() -> Seq<char> {
    "ptbl_validator scaffold"@
}

/// A minimal, immutable descriptor identifying this crate.
#[derive(Debug, Clone)]
pub struct VersionInfo {
    pub name: String,
}

/// Returns the descriptor for this build.
///
/// The result always carries the same fixed, non-empty label.
pub fn version_info() -> (r: VersionInfo)
    ensures
        r.name@ == scaffold_name(),
        r.name@.len() > 0,
{
    let name = String::from_str("ptbl_validator scaffold");
    proof {
        reveal_strlit("ptbl_validator scaffold");
    }
    VersionInfo { name }
}

/// Determinism: any two descriptors returned by `version_info` carry
/// the same name, since each equals the one fixed label.
pub proof fn lemma_version_info_deterministic(a: VersionInfo, b: VersionInfo)
    requires
        a.name@ == scaffold_name(),
        b.name@ == scaffold_name(),
    ensures
        a.name@ == b.name@,
{
}

} // verus!
