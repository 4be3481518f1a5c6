//! The order of versions, as `rattler_conda_types` defines it.

use vstd::prelude::*;
use crate::conda_types::version_parses;

verus! {

/// How a first version stands to a second one.
#[derive(Clone, Copy, Debug, PartialEq, Eq, Structural)]
pub enum VersionOrder {
    /// The first version is the older one.
    Older,
    /// Neither is newer: `1.0` and `1.0.0` are the same version.
    Same,
    /// The first version is the newer one.
    Newer,
}

/// How version `a` stands to version `b`. Stands for the order that
/// `Version` implements.
pub uninterp spec fn version_order(a: Seq<char>, b: Seq<char>) -> VersionOrder;

/// Parses both texts with `Version::from_str` and compares the versions.
/// Both texts must parse: the contract is stated for those only.
#[verifier::external_body]
pub(crate) fn compare_versions(a: &str, b: &str) -> (order: VersionOrder)
    requires
        version_parses(a@),
        version_parses(b@),
    ensures
        order == version_order(a@, b@),
{
    let a = a.parse::<rattler_conda_types::Version>().unwrap();
    let b = b.parse::<rattler_conda_types::Version>().unwrap();
    match a.cmp(&b) {
        std::cmp::Ordering::Less => VersionOrder::Older,
        std::cmp::Ordering::Equal => VersionOrder::Same,
        std::cmp::Ordering::Greater => VersionOrder::Newer,
    }
}

} // verus!
