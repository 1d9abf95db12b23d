use sbom_catalog::error::{Error, ErrorKind};
use sbom_catalog::etag::{etag, required_revision, revision_from_if_match};
use sbom_catalog::group::{page_bounds, SbomGroup, SbomGroupRequest, SbomGroupService};
use sbom_catalog::name::validate_name;
use sbom_catalog::value::{CalendarDate, Timestamp};

fn today() -> Timestamp {
    Timestamp {
        date: CalendarDate { year: 2024, month: 6, day: 1 },
        hour: 9,
        minute: 0,
        second: 0,
        nanosecond: 0,
        offset_seconds: 0,
    }
}

fn request(parent: Option<u128>, name: &str) -> SbomGroupRequest {
    SbomGroupRequest { parent, name: name.to_string(), labels: vec![] }
}

fn create(service: &mut SbomGroupService, parent: Option<u128>, name: &str) -> SbomGroup {
    service.create_group(request(parent, name)).unwrap()
}

#[test]
fn test_create_root_group() {
    let mut service = SbomGroupService::new();
    let labels = vec![("env".to_string(), "prod".to_string())];
    let group = service
        .create_group(SbomGroupRequest { parent: None, name: "Production".to_string(), labels: labels.clone() })
        .unwrap();
    assert_eq!(group.name, "Production");
    assert_eq!(group.parent, None);
    assert_eq!(group.revision, 1);
    assert_eq!(group.labels, labels);
}

#[test]
fn test_create_child_group() {
    let mut service = SbomGroupService::new();
    let parent = create(&mut service, None, "Parent");
    let child = create(&mut service, Some(parent.id), "Child");
    assert_eq!(child.parent, Some(parent.id));
    assert_eq!(child.name, "Child");
    let details = service.get_group(parent.id, true, false, false).unwrap();
    assert_eq!(details.children, Some(vec![child.id]));
}

#[test]
fn test_get_group_with_etag() {
    let mut service = SbomGroupService::new();
    let group = create(&mut service, None, "TestGroup");
    let details = service.get_group(group.id, false, false, false).unwrap();
    assert_eq!(details.group, group);
    assert_eq!(etag(details.group.revision), "\"1\"");
}

#[test]
fn test_list_groups() {
    let mut service = SbomGroupService::new();
    for name in ["Group1", "Group2"] {
        create(&mut service, None, name);
    }
    let list = service.list_groups_query("", today(), 0, 0, false, false).unwrap();
    assert_eq!(list.total, 2);
    let names: Vec<&str> = list.items.iter().map(|d| d.group.name.as_str()).collect();
    assert_eq!(names, vec!["Group1", "Group2"]);
}

#[test]
fn test_path_lookup() {
    let mut service = SbomGroupService::new();
    let a = create(&mut service, None, "A");
    let b = create(&mut service, Some(a.id), "B");
    let found = service.get_group_by_path("A/B", false, false, true).unwrap().unwrap();
    assert_eq!(found.group.id, b.id);
    assert_eq!(found.group.parent, Some(a.id));
    assert_eq!(found.parent_path, Some(vec![a.id]));
    assert_eq!(service.get_group_by_path("A/C", false, false, false).unwrap(), None);
    assert_eq!(service.get_group_by_path("B", false, false, false).unwrap(), None);
}

#[test]
fn test_update_with_if_match() {
    let mut service = SbomGroupService::new();
    let group = create(&mut service, None, "TestGroup");
    let header = format!("\"{}\"", group.revision);
    let updated = service
        .update_group_if_match(group.id, Some(&header), request(None, "UpdatedGroup"))
        .unwrap();
    assert_eq!(updated.name, "UpdatedGroup");
    assert_eq!(updated.revision, 2);
    assert_eq!(service.get_group(group.id, false, false, false).unwrap().group.revision, 2);
}

#[test]
fn test_update_with_wrong_if_match() {
    let mut service = SbomGroupService::new();
    let group = create(&mut service, None, "TestGroup");
    let err = service
        .update_group_if_match(group.id, Some("\"999\""), request(None, "UpdatedGroup"))
        .unwrap_err();
    assert_eq!(err, Error::RevisionMismatch { stored: 1, expected: 999 });
    assert_eq!(err.kind().status(), 400);
    assert_eq!(service.get_group(group.id, false, false, false).unwrap().group, group);
    let retried = service.update_group_if_match(group.id, Some("\"1\""), request(None, "UpdatedGroup")).unwrap();
    assert_eq!(retried.revision, 2);
}

#[test]
fn test_delete_with_if_match() {
    let mut service = SbomGroupService::new();
    let group = create(&mut service, None, "TestGroup");
    let header = format!("\"{}\"", group.revision);
    service.delete_group_if_match(group.id, Some(&header)).unwrap();
    assert_eq!(service.get_group(group.id, false, false, false), None);
}

#[test]
fn test_delete_group_with_children() {
    let mut service = SbomGroupService::new();
    let parent = create(&mut service, None, "Parent");
    let child = create(&mut service, Some(parent.id), "Child");
    let err = service.delete_group_if_match(parent.id, None).unwrap_err();
    assert_eq!(err, Error::HasChildren);
    assert_eq!(err.kind().status(), 409);
    assert!(service.get_group(parent.id, false, false, false).is_some());
    assert!(service.get_group(child.id, false, false, false).is_some());
}

#[test]
fn test_cycle_detection() {
    let mut service = SbomGroupService::new();
    let a = create(&mut service, None, "A");
    let b = create(&mut service, Some(a.id), "B");
    let c = create(&mut service, Some(b.id), "C");
    let err = service.update_group_if_match(a.id, Some("\"1\""), request(Some(c.id), "A")).unwrap_err();
    assert_eq!(err, Error::Cycle);
    assert_eq!(err.kind().status(), 400);
    assert_eq!(service.get_group(a.id, false, false, false).unwrap().group.parent, None);
    assert_eq!(
        service.update_group(a.id, 1, request(Some(a.id), "A")).unwrap_err(),
        Error::OwnParent
    );
}

#[test]
fn test_deep_path() {
    let mut service = SbomGroupService::new();
    let mut parent = None;
    let mut last = None;
    for i in 0..10 {
        let g = create(&mut service, parent, &format!("Level{i}"));
        parent = Some(g.id);
        last = Some(g);
    }
    let path: Vec<String> = (0..10).map(|i| format!("Level{i}")).collect();
    let found = service.get_group_by_path(&path.join("/"), false, false, true).unwrap().unwrap();
    assert_eq!(found.group.name, "Level9");
    assert_eq!(found.group.id, last.unwrap().id);
    assert_eq!(found.parent_path.unwrap().len(), 9);
}

#[test]
fn test_path_too_deep() {
    let service = SbomGroupService::new();
    let path: Vec<String> = (0..21).map(|i| format!("Level{i}")).collect();
    let err = service.get_group_by_path(&path.join("/"), false, false, false).unwrap_err();
    assert_eq!(err, Error::PathTooDeep(21));
    assert_eq!(err.kind(), ErrorKind::BadRequest);
}

#[test]
fn create_rejects_bad_requests() {
    let mut service = SbomGroupService::new();
    assert_eq!(service.create_group(request(None, "")).unwrap_err(), Error::EmptyName);
    assert_eq!(service.create_group(request(None, " lead")).unwrap_err(), Error::NameWhitespace);
    assert_eq!(service.create_group(request(None, "a/b")).unwrap_err(), Error::NameInvalidCharacters);
    assert_eq!(service.create_group(request(Some(7), "x")).unwrap_err(), Error::ParentNotFound(7));
    assert_eq!(service.create_group(request(Some(7), "x")).unwrap_err().kind().status(), 404);
    create(&mut service, None, "x");
    let err = service.create_group(request(None, "x")).unwrap_err();
    assert_eq!(err, Error::NameTaken);
    assert_eq!(err.kind().status(), 409);
}

#[test]
fn create_with_taken_id_is_internal() {
    let mut service = SbomGroupService::new();
    service.create_group_with_id(5, request(None, "a")).unwrap();
    assert_eq!(service.create_group_with_id(5, request(None, "b")).unwrap_err(), Error::Internal);
}

#[test]
fn concurrent_updates_conflict() {
    let mut service = SbomGroupService::new();
    let g = create(&mut service, None, "G");
    service.update_group(g.id, 1, request(None, "First")).unwrap();
    let err = service.update_group(g.id, 1, request(None, "Second")).unwrap_err();
    assert_eq!(err, Error::RevisionMismatch { stored: 2, expected: 1 });
    assert_eq!(service.get_group(g.id, false, false, false).unwrap().group.name, "First");
}

#[test]
fn delete_then_recreate() {
    let mut service = SbomGroupService::new();
    let a = create(&mut service, None, "A");
    let b = create(&mut service, Some(a.id), "B");
    service.delete_group(b.id, 1).unwrap();
    let again = service.create_group(request(Some(a.id), "B")).unwrap();
    assert_eq!(again.parent, Some(a.id));
    assert_eq!(again.revision, 1);
}

#[test]
fn set_assignments_deduplicates() {
    let mut service = SbomGroupService::new();
    let g1 = create(&mut service, None, "g1").id;
    let g2 = create(&mut service, None, "g2").id;
    service.set_sbom_assignments(100, vec![g1, g1, g2]).unwrap();
    assert_eq!(service.get_sbom_assignments(100), vec![g1, g2]);
    service.set_sbom_assignments(100, vec![g1, g2]).unwrap();
    assert_eq!(service.get_sbom_assignments(100), vec![g1, g2]);
    let details = service.get_group(g1, false, true, false).unwrap();
    assert_eq!(details.sbom_count, Some(1));
}

#[test]
fn set_assignments_replaces_and_reports_missing() {
    let mut service = SbomGroupService::new();
    let g1 = create(&mut service, None, "g1").id;
    let g2 = create(&mut service, None, "g2").id;
    service.set_sbom_assignments(1, vec![g1]).unwrap();
    service.set_sbom_assignments(2, vec![g1, g2]).unwrap();
    service.set_sbom_assignments(1, vec![g2]).unwrap();
    assert_eq!(service.get_sbom_assignments(1), vec![g2]);
    assert_eq!(service.get_sbom_assignments(2), vec![g1, g2]);
    let err = service.set_sbom_assignments(1, vec![g1, 77, 77, 78]).unwrap_err();
    assert_eq!(err, Error::GroupsNotFound(vec![77, 78]));
    assert_eq!(err.kind().status(), 404);
    assert_eq!(service.get_sbom_assignments(1), vec![g2]);
}

#[test]
fn add_assignments_keeps_existing() {
    let mut service = SbomGroupService::new();
    let g1 = create(&mut service, None, "g1").id;
    let g2 = create(&mut service, None, "g2").id;
    service.add_sbom_assignments(1, vec![g1]).unwrap();
    service.add_sbom_assignments(1, vec![g2, g1, g2]).unwrap();
    assert_eq!(service.get_sbom_assignments(1), vec![g1, g2]);
}

#[test]
fn delete_removes_assignments() {
    let mut service = SbomGroupService::new();
    let g1 = create(&mut service, None, "g1").id;
    let g2 = create(&mut service, None, "g2").id;
    service.set_sbom_assignments(1, vec![g1, g2]).unwrap();
    service.delete_group_if_match(g1, Some("1")).unwrap();
    assert_eq!(service.get_sbom_assignments(1), vec![g2]);
}

#[test]
fn pagination_bounds() {
    assert_eq!(page_bounds(10, 0, 0), (0, 10));
    assert_eq!(page_bounds(10, 3, 4), (3, 7));
    assert_eq!(page_bounds(10, 8, 4), (8, 10));
    assert_eq!(page_bounds(10, 12, 4), (10, 10));
    let mut service = SbomGroupService::new();
    for i in 0..5 {
        create(&mut service, None, &format!("G{i}"));
    }
    let page = service.list_groups_query("", today(), 1, 2, true, true).unwrap();
    assert_eq!(page.total, 5);
    let names: Vec<&str> = page.items.iter().map(|d| d.group.name.as_str()).collect();
    assert_eq!(names, vec!["G1", "G2"]);
    assert_eq!(page.items[0].sbom_count, Some(0));
    assert_eq!(page.items[0].parent_path, Some(vec![]));
}

#[test]
fn if_match_values() {
    assert_eq!(revision_from_if_match("\"12\""), Ok(12));
    assert_eq!(revision_from_if_match("7"), Ok(7));
    assert_eq!(revision_from_if_match("\"x\""), Err(Error::InvalidIfMatch));
    assert_eq!(required_revision(None), Err(Error::MissingIfMatch));
    assert_eq!(Error::MissingIfMatch.kind().status(), 412);
    assert_eq!(etag(42), "\"42\"");
    assert_eq!(etag(-3), "\"-3\"");
}

#[test]
fn name_rules() {
    assert_eq!(validate_name("Prod (EU)-1_a.b"), Ok(()));
    assert_eq!(validate_name(&"a".repeat(255)), Ok(()));
    assert_eq!(validate_name(&"a".repeat(256)), Err(Error::NameTooLong(256)));
    assert_eq!(validate_name("trail\t"), Err(Error::NameWhitespace));
    assert_eq!(validate_name("é"), Err(Error::NameInvalidCharacters));
}

#[test]
fn listing_is_ordered_by_name() {
    let mut service = SbomGroupService::new();
    let b = create(&mut service, None, "beta");
    create(&mut service, Some(b.id), "alpha");
    create(&mut service, None, "Gamma");
    create(&mut service, None, "alpha");
    let list = service.list_groups_query("", today(), 0, 0, false, false).unwrap();
    let names: Vec<&str> = list.items.iter().map(|d| d.group.name.as_str()).collect();
    assert_eq!(names, vec!["Gamma", "alpha", "alpha", "beta"]);
    assert_eq!(list.items[1].group.parent, Some(b.id));
    let page = service.list_groups_query("", today(), 3, 5, false, false).unwrap();
    assert_eq!(page.total, 4);
    assert_eq!(page.items.len(), 1);
    assert_eq!(page.items[0].group.name, "beta");
}

#[test]
fn listing_filters_by_query() {
    let mut service = SbomGroupService::new();
    let prod = service
        .create_group(SbomGroupRequest {
            parent: None,
            name: "Production".to_string(),
            labels: vec![("env".to_string(), "prod".to_string())],
        })
        .unwrap();
    let child = create(&mut service, Some(prod.id), "Alpha_1");
    create(&mut service, None, "Staging");
    service.update_group(child.id, 1, request(Some(prod.id), "Alpha_1")).unwrap();
    let names = |q: &str| -> Vec<String> {
        service
            .list_groups_query(q, today(), 0, 0, false, false)
            .unwrap()
            .items
            .into_iter()
            .map(|d| d.group.name)
            .collect()
    };
    assert_eq!(names("name~PROD"), vec!["Production"]);
    assert_eq!(names("parent_id=null"), vec!["Production", "Staging"]);
    assert_eq!(names("parent_id!=null"), vec!["Alpha_1"]);
    assert_eq!(names("labels:env=prod"), vec!["Production"]);
    assert_eq!(names("revision>1"), vec!["Alpha_1"]);
    assert_eq!(names("a_1"), vec!["Alpha_1"]);
    assert_eq!(names("ion|ing"), vec!["Production", "Staging"]);
    assert_eq!(names("name<Q&name!=Alpha_1"), vec!["Production"]);
    assert_eq!(
        service.list_groups_query("color=red", today(), 0, 0, false, false).unwrap_err(),
        Error::UnknownField("color".to_string())
    );
}

#[test]
fn names_and_revisions_edge_cases() {
    assert_eq!(validate_name("\u{3000}Prod"), Err(Error::NameWhitespace));
    assert_eq!(validate_name("Prod\u{a0}"), Err(Error::NameWhitespace));
    assert_eq!(validate_name("Pro\u{a0}d"), Err(Error::NameInvalidCharacters));
    assert_eq!(revision_from_if_match("\"+3\""), Ok(3));
    assert_eq!(revision_from_if_match("\"2147483648\""), Err(Error::InvalidIfMatch));
    assert_eq!(revision_from_if_match("\"\""), Err(Error::InvalidIfMatch));
}

#[test]
fn deep_parent_chain_is_not_a_cycle() {
    let mut service = SbomGroupService::new();
    let mut parent = None;
    let mut ids = vec![];
    for i in 0..120 {
        let g = create(&mut service, parent, &format!("L{i}"));
        parent = Some(g.id);
        ids.push(g.id);
    }
    let other = create(&mut service, None, "Other");
    assert_eq!(
        service.update_group(other.id, 1, request(Some(ids[119]), "Other")).unwrap_err(),
        Error::HierarchyTooDeep
    );
    assert_eq!(
        service.update_group(ids[0], 1, request(Some(ids[50]), "L0")).unwrap_err(),
        Error::Cycle
    );
    assert!(service.update_group(other.id, 1, request(Some(ids[10]), "Other")).is_ok());
}

#[test]
fn parent_path_of_absent_group() {
    let mut service = SbomGroupService::new();
    let a = create(&mut service, None, "A");
    let b = create(&mut service, Some(a.id), "B");
    assert_eq!(service.get_parent_path(b.id), Ok(vec![a.id]));
    assert_eq!(service.get_parent_path(a.id), Ok(vec![]));
    assert_eq!(service.get_parent_path(99), Err(Error::GroupNotFound(99)));
}
