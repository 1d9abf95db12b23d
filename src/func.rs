//! Names of the custom SQL functions that queries call.
use vstd::prelude::*;
use crate::text::string_of;

verus! {

/// PostgreSQL's `array_agg` aggregate.
pub struct ArrayAgg;

impl ArrayAgg {
    /// The function's name, unquoted.
    pub fn unquoted(&self) -> (r: String)
        ensures
            r@ == seq!['a', 'r', 'r', 'a', 'y', '_', 'a', 'g', 'g'],
    {
        let v = vec!['a', 'r', 'r', 'a', 'y', '_', 'a', 'g', 'g'];
        assert(v@ =~= seq!['a', 'r', 'r', 'a', 'y', '_', 'a', 'g', 'g']);
        string_of(&v)
    }
}

/// PostgreSQL's `json_build_object` function.
pub struct JsonBuildObject;

impl JsonBuildObject {
    /// The function's name, unquoted.
    pub fn unquoted(&self) -> (r: String)
        ensures
            r@ == seq!['j', 's', 'o', 'n', '_', 'b', 'u', 'i', 'l', 'd', '_', 'o', 'b', 'j', 'e', 'c', 't'],
    {
        let v = vec!['j', 's', 'o', 'n', '_', 'b', 'u', 'i', 'l', 'd', '_', 'o', 'b', 'j', 'e', 'c', 't'];
        assert(v@ =~= seq!['j', 's', 'o', 'n', '_', 'b', 'u', 'i', 'l', 'd', '_', 'o', 'b', 'j', 'e', 'c', 't']);
        string_of(&v)
    }
}

/// PostgreSQL's `to_json` function.
pub struct ToJson;

impl ToJson {
    /// The function's name, unquoted.
    pub fn unquoted(&self) -> (r: String)
        ensures
            r@ == seq!['t', 'o', '_', 'j', 's', 'o', 'n'],
    {
        let v = vec!['t', 'o', '_', 'j', 's', 'o', 'n'];
        assert(v@ =~= seq!['t', 'o', '_', 'j', 's', 'o', 'n']);
        string_of(&v)
    }
}

/// The database function scoring a CVSS v3 vector.
pub struct Cvss3Score;

impl Cvss3Score {
    /// The function's name, unquoted.
    pub fn unquoted(&self) -> (r: String)
        ensures
            r@ == seq!['c', 'v', 's', 's', '3', '_', 's', 'c', 'o', 'r', 'e'],
    {
        let v = vec!['c', 'v', 's', 's', '3', '_', 's', 'c', 'o', 'r', 'e'];
        assert(v@ =~= seq!['c', 'v', 's', 's', '3', '_', 's', 'c', 'o', 'r', 'e']);
        string_of(&v)
    }
}

/// The database function matching a version against a range.
pub struct VersionMatches;

impl VersionMatches {
    /// The function's name, unquoted.
    pub fn unquoted(&self) -> (r: String)
        ensures
            r@ == seq!['v', 'e', 'r', 's', 'i', 'o', 'n', '_', 'm', 'a', 't', 'c', 'h', 'e', 's'],
    {
        let v = vec!['v', 'e', 'r', 's', 'i', 'o', 'n', '_', 'm', 'a', 't', 'c', 'h', 'e', 's'];
        assert(v@ =~= seq!['v', 'e', 'r', 's', 'i', 'o', 'n', '_', 'm', 'a', 't', 'c', 'h', 'e', 's']);
        string_of(&v)
    }
}

/// The database function updating the deprecated state of a consistent set of advisories.
pub struct UpdateDeprecatedAdvisory;

impl UpdateDeprecatedAdvisory {
    /// The function's name, unquoted.
    pub fn unquoted(&self) -> (r: String)
        ensures
            r@ == seq!['u', 'p', 'd', 'a', 't', 'e', '_', 'd', 'e', 'p', 'r', 'e', 'c', 'a', 't', 'e', 'd', '_', 'a', 'd', 'v', 'i', 's', 'o', 'r', 'y'],
    {
        let v = vec!['u', 'p', 'd', 'a', 't', 'e', '_', 'd', 'e', 'p', 'r', 'e', 'c', 'a', 't', 'e', 'd', '_', 'a', 'd', 'v', 'i', 's', 'o', 'r', 'y'];
        assert(v@ =~= seq!['u', 'p', 'd', 'a', 't', 'e', '_', 'd', 'e', 'p', 'r', 'e', 'c', 'a', 't', 'e', 'd', '_', 'a', 'd', 'v', 'i', 's', 'o', 'r', 'y']);
        string_of(&v)
    }
}

/// The database function expanding `LicenseRef-` references of a license expression into the licenses they refer to.
pub struct ExpandLicenseExpression;

impl ExpandLicenseExpression {
    /// The function's name, unquoted.
    pub fn unquoted(&self) -> (r: String)
        ensures
            r@ == seq!['e', 'x', 'p', 'a', 'n', 'd', '_', 'l', 'i', 'c', 'e', 'n', 's', 'e', '_', 'e', 'x', 'p', 'r', 'e', 's', 's', 'i', 'o', 'n'],
    {
        let v = vec!['e', 'x', 'p', 'a', 'n', 'd', '_', 'l', 'i', 'c', 'e', 'n', 's', 'e', '_', 'e', 'x', 'p', 'r', 'e', 's', 's', 'i', 'o', 'n'];
        assert(v@ =~= seq!['e', 'x', 'p', 'a', 'n', 'd', '_', 'l', 'i', 'c', 'e', 'n', 's', 'e', '_', 'e', 'x', 'p', 'r', 'e', 's', 's', 'i', 'o', 'n']);
        string_of(&v)
    }
}

/// The database function giving the final license of a row, whether it comes from CycloneDX or SPDX data.
pub struct CaseLicenseTextSbomId;

impl CaseLicenseTextSbomId {
    /// The function's name, unquoted.
    pub fn unquoted(&self) -> (r: String)
        ensures
            r@ == seq!['c', 'a', 's', 'e', '_', 'l', 'i', 'c', 'e', 'n', 's', 'e', '_', 't', 'e', 'x', 't', '_', 's', 'b', 'o', 'm', '_', 'i', 'd'],
    {
        let v = vec!['c', 'a', 's', 'e', '_', 'l', 'i', 'c', 'e', 'n', 's', 'e', '_', 't', 'e', 'x', 't', '_', 's', 'b', 'o', 'm', '_', 'i', 'd'];
        assert(v@ =~= seq!['c', 'a', 's', 'e', '_', 'l', 'i', 'c', 'e', 'n', 's', 'e', '_', 't', 'e', 'x', 't', '_', 's', 'b', 'o', 'm', '_', 'i', 'd']);
        string_of(&v)
    }
}

/// Further custom SQL functions.
#[derive(Debug, Clone, Copy, PartialEq, Eq, Structural)]
pub enum CustomFunc {
    /// Expands a license expression using the license reference mappings of its SBOM.
    ExpandLicenseExpressionWithMappings,
}

impl CustomFunc {
    /// The function's name, unquoted.
    pub fn unquoted(&self) -> (r: String)
        ensures
            r@ == seq!['e', 'x', 'p', 'a', 'n', 'd', '_', 'l', 'i', 'c', 'e', 'n', 's', 'e', '_', 'e', 'x', 'p', 'r', 'e', 's', 's', 'i', 'o', 'n', '_', 'w', 'i', 't', 'h', '_', 'm', 'a', 'p', 'p', 'i', 'n', 'g', 's'],
    {
        let v = vec!['e', 'x', 'p', 'a', 'n', 'd', '_', 'l', 'i', 'c', 'e', 'n', 's', 'e', '_', 'e', 'x', 'p', 'r', 'e', 's', 's', 'i', 'o', 'n', '_', 'w', 'i', 't', 'h', '_', 'm', 'a', 'p', 'p', 'i', 'n', 'g', 's'];
        assert(v@ =~= seq!['e', 'x', 'p', 'a', 'n', 'd', '_', 'l', 'i', 'c', 'e', 'n', 's', 'e', '_', 'e', 'x', 'p', 'r', 'e', 's', 's', 'i', 'o', 'n', '_', 'w', 'i', 't', 'h', '_', 'm', 'a', 'p', 'p', 'i', 'n', 'g', 's']);
        string_of(&v)
    }
}

} // verus!
