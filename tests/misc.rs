use sbom_catalog::license::{expand_licenses, LicenseService};
use sbom_catalog::func::{
    ArrayAgg, CaseLicenseTextSbomId, Cvss3Score, CustomFunc, ExpandLicenseExpression, JsonBuildObject, ToJson,
    UpdateDeprecatedAdvisory, VersionMatches,
};
use sbom_catalog::query::{parse_query, Constraint, Operator};
use sbom_catalog::sbom::{limit, SbomNodeReference, Which};

#[test]
fn function_names() {
    assert_eq!(ArrayAgg.unquoted(), "array_agg");
    assert_eq!(JsonBuildObject.unquoted(), "json_build_object");
    assert_eq!(ToJson.unquoted(), "to_json");
    assert_eq!(Cvss3Score.unquoted(), "cvss3_score");
    assert_eq!(VersionMatches.unquoted(), "version_matches");
    assert_eq!(UpdateDeprecatedAdvisory.unquoted(), "update_deprecated_advisory");
    assert_eq!(ExpandLicenseExpression.unquoted(), "expand_license_expression");
    assert_eq!(CaseLicenseTextSbomId.unquoted(), "case_license_text_sbom_id");
    assert_eq!(
        CustomFunc::ExpandLicenseExpressionWithMappings.unquoted(),
        "expand_license_expression_with_mappings"
    );
}

#[test]
fn model_defaults() {
    assert_eq!(limit(), 10);
    assert_eq!(Which::default(), Which::Left);
    assert_eq!(SbomNodeReference::from("node"), SbomNodeReference::Package("node"));
    assert_eq!(SbomNodeReference::from(()), SbomNodeReference::All);
}

#[test]
fn operators_round_trip_through_text() {
    for op in [
        Operator::Equal,
        Operator::NotEqual,
        Operator::Like,
        Operator::NotLike,
        Operator::GreaterThan,
        Operator::GreaterThanOrEqual,
        Operator::LessThan,
        Operator::LessThanOrEqual,
        Operator::And,
        Operator::Or,
    ] {
        assert_eq!(Operator::from_symbol(&op.symbol()), Some(op));
    }
    assert_eq!(Operator::from_symbol("=="), None);
}

#[test]
fn query_parts() {
    let parsed = parse_query(r"purl:name~x|y&free\&text").unwrap();
    assert_eq!(
        parsed,
        vec![
            Constraint {
                field: Some("purl:name".to_string()),
                op: Some(Operator::Like),
                values: vec!["x".to_string(), "y".to_string()]
            },
            Constraint { field: None, op: None, values: vec!["free&text".to_string()] },
        ]
    );
    let not_a_field = parse_query("a b=c").unwrap();
    assert_eq!(not_a_field[0].field, None);
    assert_eq!(not_a_field[0].values, vec!["a b=c".to_string()]);
}

#[test]
fn license_expansion_is_distinct_by_case_and_sorted() {
    let _service = LicenseService::new();
    let rows: Vec<String> = ["MIT", "apache-2.0", "Apache-2.0", "mit", "GPL-2.0-only", "MIT"]
        .iter()
        .map(|s| s.to_string())
        .collect();
    let listed = expand_licenses(&rows);
    let names: Vec<&str> = listed.iter().map(|m| m.license_name.as_str()).collect();
    assert_eq!(names, vec!["Apache-2.0", "GPL-2.0-only", "MIT"]);
    assert!(listed.iter().all(|m| m.license_id == m.license_name));
    assert!(expand_licenses(&vec![]).is_empty());
}
