use optic_engine::events::SpecEvent;
use optic_engine::projection::{ProjectionError, SpecProjection};
use optic_engine::queries::EndpointQueries;

fn expect_err(r: Result<SpecProjection, ProjectionError>) -> ProjectionError {
    match r {
        Err(e) => e,
        Ok(_) => panic!("expected a fold error"),
    }
}

fn path_added(path_id: &str, parent_path_id: &str, name: &str) -> SpecEvent {
    SpecEvent::PathComponentAdded {
        path_id: path_id.to_string(),
        parent_path_id: parent_path_id.to_string(),
        name: name.to_string(),
    }
}

#[test]
fn duplicate_domain_id_is_a_fatal_inconsistency() {
    let events = vec![
        path_added("path_1", "root", "posts"),
        path_added("path_1", "root", "authors"),
    ];
    let err = expect_err(SpecProjection::from_events(&events));
    assert_eq!(err, ProjectionError::DuplicateId);
}

#[test]
fn removal_before_add_is_a_fatal_inconsistency() {
    let events = vec![SpecEvent::RequestRemoved { request_id: "request_1".to_string() }];
    let err = expect_err(SpecProjection::from_events(&events));
    assert_eq!(err, ProjectionError::UnknownTarget);
}

#[test]
fn removal_of_the_wrong_kind_is_a_fatal_inconsistency() {
    let events = vec![
        path_added("path_1", "root", "posts"),
        SpecEvent::RequestRemoved { request_id: "path_1".to_string() },
    ];
    let err = expect_err(SpecProjection::from_events(&events));
    assert_eq!(err, ProjectionError::KindMismatch);
}

#[test]
fn add_under_unknown_parent_is_a_fatal_inconsistency() {
    let events = vec![path_added("path_1", "path_0", "posts")];
    let err = expect_err(SpecProjection::from_events(&events));
    assert_eq!(err, ProjectionError::UnknownTarget);
}

#[test]
fn empty_spec_has_no_unused_paths() {
    let spec = SpecProjection::from_events(&Vec::new()).unwrap();
    let queries = EndpointQueries::new(spec.endpoint());
    assert_eq!(queries.resolve_unused_paths().len(), 0);
}

#[test]
fn removing_the_only_endpoint_makes_the_path_unused() {
    let mut events = vec![
        path_added("path_1", "root", "posts"),
        SpecEvent::RequestAdded {
            request_id: "request_1".to_string(),
            path_id: "path_1".to_string(),
            http_method: "GET".to_string(),
        },
        SpecEvent::ResponseAddedByPathAndMethod {
            response_id: "response_1".to_string(),
            path_id: "path_1".to_string(),
            http_method: "GET".to_string(),
            http_status_code: 200,
        },
    ];
    let spec = SpecProjection::from_events(&events).unwrap();
    let queries = EndpointQueries::new(spec.endpoint());
    assert_eq!(queries.resolve_unused_paths().len(), 0);

    events.push(SpecEvent::RequestRemoved { request_id: "request_1".to_string() });
    events.push(SpecEvent::ResponseRemoved { response_id: "response_1".to_string() });
    let spec = SpecProjection::from_events(&events).unwrap();
    let queries = EndpointQueries::new(spec.endpoint());
    assert_eq!(queries.resolve_unused_paths(), vec![String::from("path_1")]);
}

#[test]
fn trailing_slash_resolves_like_the_bare_path() {
    let events = vec![
        path_added("path_1", "root", "a"),
        path_added("path_2", "path_1", "b"),
        path_added("path_3", "path_2", "c"),
    ];
    let spec = SpecProjection::from_events(&events).unwrap();
    let queries = EndpointQueries::new(spec.endpoint());
    assert_eq!(queries.resolve_path_v2("/a/b/c/"), queries.resolve_path_v2("/a/b/c"));
    assert_eq!(queries.resolve_path_v2("/a/b/c/").unwrap(), "path_3");
}

#[test]
fn root_path_resolves_against_an_empty_projection() {
    let spec = SpecProjection::from_events(&Vec::new()).unwrap();
    let queries = EndpointQueries::new(spec.endpoint());
    assert_eq!(queries.resolve_path_v2("/").unwrap(), "root");
    assert_eq!(queries.resolve_path("/").unwrap(), "root");
}

#[test]
fn graph_accessors_walk_the_arena() {
    let events = vec![
        path_added("path_1", "root", "posts"),
        path_added("path_2", "path_1", "favourites"),
        path_added("path_3", "root", "authors"),
    ];
    let spec = SpecProjection::from_events(&events).unwrap();
    let endpoint = spec.endpoint();

    assert!(endpoint.get_node("path_1").is_some());
    assert!(endpoint.get_node("path_9").is_none());
    assert_eq!(endpoint.get_parent("root"), None);
    let root_children = endpoint.get_children("root").unwrap();
    assert_eq!(root_children.len(), 2);
    let path_1_children = endpoint.get_children("path_1").unwrap();
    assert_eq!(path_1_children.len(), 1);
    assert_eq!(endpoint.get_parent("path_2"), Some(root_children[0]));
}

#[test]
fn queries_against_unknown_ids_are_no_matches() {
    let spec = SpecProjection::from_events(&Vec::new()).unwrap();
    let queries = EndpointQueries::new(spec.endpoint());
    assert!(queries.resolve_requests("path_9", &String::from("GET")).is_none());
    assert!(queries.resolve_responses(&String::from("path_9"), &String::from("GET")).is_none());
    assert!(queries
        .resolve_endpoint_query_params("path_9", &String::from("GET"))
        .is_none());
    assert!(queries
        .delete_endpoint_commands(&String::from("path_9"), &String::from("GET"))
        .is_none());
    assert!(queries.delete_path_commands(&String::from("path_9")).is_none());
    assert!(queries.delete_path_commands(&String::from("root")).is_none());
}
