use sbom_catalog::error::Error;
use sbom_catalog::path::{parse_path, split_decoded_path, MAX_PATH_DEPTH};

fn names(v: &[&str]) -> Vec<String> {
    v.iter().map(|s| s.to_string()).collect()
}

#[test]
fn path_splits_on_unescaped_slashes() {
    assert_eq!(parse_path("A/B").unwrap(), names(&["A", "B"]));
    assert_eq!(parse_path(r"A/B\/C/D\\E").unwrap(), names(&["A", "B/C", r"D\E"]));
}

#[test]
fn path_is_percent_decoded_first() {
    assert_eq!(parse_path("A%2FB/C%20D").unwrap(), names(&["A", "B", "C D"]));
    assert_eq!(parse_path("A%5C%2FB").unwrap(), names(&["A/B"]));
    assert_eq!(parse_path("%FF"), Err(Error::InvalidUrlEncoding));
}

#[test]
fn malformed_paths_are_rejected() {
    assert_eq!(parse_path(""), Err(Error::EmptyPath));
    assert_eq!(parse_path("A//B"), Err(Error::EmptyPathSegment));
    assert_eq!(parse_path("/A"), Err(Error::EmptyPathSegment));
    assert_eq!(parse_path("A/"), Err(Error::TrailingPathDelimiter));
    assert_eq!(parse_path(r"A\x"), Err(Error::InvalidPathEscape('x')));
    assert_eq!(parse_path(r"A\"), Err(Error::IncompletePathEscape));
}

#[test]
fn path_depth_is_bounded() {
    let ok: Vec<String> = (0..MAX_PATH_DEPTH).map(|i| format!("Level{i}")).collect();
    assert_eq!(parse_path(&ok.join("/")).unwrap(), ok);
    let deep: Vec<String> = (0..=MAX_PATH_DEPTH).map(|i| format!("Level{i}")).collect();
    assert_eq!(parse_path(&deep.join("/")), Err(Error::PathTooDeep(21)));
}

#[test]
fn encoded_names_parse_back() {
    let given = names(&["Prod (EU)", "a/b", r"c\d"]);
    let encoded: Vec<String> = given.iter().map(|n| n.replace('\\', r"\\").replace('/', r"\/")).collect();
    let path = encoded.join("/");
    let parsed = split_decoded_path(&path).unwrap();
    assert_eq!(parsed, given);
    let again: Vec<String> = parsed.iter().map(|n| n.replace('\\', r"\\").replace('/', r"\/")).collect();
    assert_eq!(again.join("/"), path);
}
