//! Small model types of SBOM listings.
use vstd::prelude::*;

verus! {

/// The number of labels a label listing returns when the caller names no limit.
pub fn limit() -> (r: u64)
    ensures
        r == 10,
{
    10
}

/// A license as an SBOM refers to it: an id and a name.
#[derive(Debug, Clone, PartialEq, Eq)]
pub struct LicenseRefMapping {
    pub license_id: String,
    pub license_name: String,
}

/// Which packages of an SBOM a lookup concerns.
#[derive(Debug, Clone, PartialEq, Eq)]
pub enum SbomNodeReference<'a> {
    /// All packages of the SBOM.
    All,
    /// The package with this node id.
    Package(&'a str),
}

impl<'a> From<&'a str> for SbomNodeReference<'a> {
    fn from(value: &'a str) -> (r: Self) {
        SbomNodeReference::Package(value)
    }
}

impl<'a> vstd::std_specs::convert::FromSpecImpl<&'a str> for SbomNodeReference<'a> {
    open spec fn obeys_from_spec() -> bool {
        true
    }

    open spec fn from_spec(v: &'a str) -> Self {
        SbomNodeReference::Package(v)
    }
}

impl<'a> From<()> for SbomNodeReference<'a> {
    fn from(value: ()) -> (r: Self) {
        SbomNodeReference::All
    }
}

impl<'a> vstd::std_specs::convert::FromSpecImpl<()> for SbomNodeReference<'a> {
    open spec fn obeys_from_spec() -> bool {
        true
    }

    open spec fn from_spec(v: ()) -> Self {
        SbomNodeReference::All
    }
}

/// A side of a relationship between packages.
#[derive(Debug, Clone, Copy, PartialEq, Eq, Structural)]
pub enum Which {
    /// The originating side.
    Left,
    /// The target side.
    Right,
}

impl Default for Which {
    fn default() -> (r: Self)
        ensures
            r == Which::Left,
    {
        Which::Left
    }
}

} // verus!
