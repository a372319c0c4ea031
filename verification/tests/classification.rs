use optic_engine::events::{
    Body, BodyValue, HttpInteraction, InteractionRequest, InteractionResponse, SpecEvent,
};
use optic_engine::interactions::{
    analyze_undocumented_bodies, classify_interaction, diff, BodyAnalysisLocation,
    InteractionDiffResult, ShapeDiffResult, ShapeEngine, TrailObservations,
};
use optic_engine::projection::SpecProjection;

struct NullEngine;

impl ShapeEngine for NullEngine {
    fn diff_shape(&self, _body: &BodyValue, _root_shape_id: &String) -> Vec<ShapeDiffResult> {
        Vec::new()
    }

    fn observe_body_trails(&self, _body: &BodyValue) -> TrailObservations {
        TrailObservations { entries: Vec::new() }
    }
}

struct OneDiffEngine;

impl ShapeEngine for OneDiffEngine {
    fn diff_shape(&self, _body: &BodyValue, root_shape_id: &String) -> Vec<ShapeDiffResult> {
        vec![ShapeDiffResult {
            kind: format!("UnmatchedShape({})", root_shape_id),
            json_trail: vec![String::from("field")],
            shape_trail: vec![root_shape_id.clone()],
        }]
    }

    fn observe_body_trails(&self, _body: &BodyValue) -> TrailObservations {
        TrailObservations { entries: vec![String::from("observed")] }
    }
}

fn empty_value() -> BodyValue {
    BodyValue { shape_hash_v1_base64: None, as_json_string: None, as_text: None }
}

fn users_spec() -> SpecProjection {
    let events: Vec<SpecEvent> = vec![
        SpecEvent::PathComponentAdded {
            path_id: "path_1".to_string(),
            parent_path_id: "root".to_string(),
            name: "users".to_string(),
        },
        SpecEvent::RequestAdded {
            request_id: "request_1".to_string(),
            path_id: "path_1".to_string(),
            http_method: "POST".to_string(),
        },
        SpecEvent::RequestBodySet {
            request_id: "request_1".to_string(),
            http_content_type: "application/json".to_string(),
            shape_id: "shape_req".to_string(),
        },
        SpecEvent::ResponseAddedByPathAndMethod {
            response_id: "response_1".to_string(),
            path_id: "path_1".to_string(),
            http_method: "POST".to_string(),
            http_status_code: 200,
        },
        SpecEvent::ResponseBodySet {
            response_id: "response_1".to_string(),
            http_content_type: "application/json".to_string(),
            shape_id: "shape_resp".to_string(),
        },
    ];
    SpecProjection::from_events(&events).expect("should be able to apply test events")
}

fn interaction(path: &str, method: &str, req_ct: Option<&str>, status: u16, resp_ct: Option<&str>) -> HttpInteraction {
    HttpInteraction {
        uuid: String::from("id"),
        request: InteractionRequest {
            host: String::from("example.com"),
            method: method.to_string(),
            path: path.to_string(),
            query: empty_value(),
            headers: empty_value(),
            body: Body { content_type: req_ct.map(|c| c.to_string()), value: empty_value() },
        },
        response: InteractionResponse {
            status_code: status,
            headers: empty_value(),
            body: Body { content_type: resp_ct.map(|c| c.to_string()), value: empty_value() },
        },
        tags: Vec::new(),
    }
}

#[test]
fn fully_matching_interaction_classifies_as_matched() {
    let spec = users_spec();
    let ix = interaction("/users", "POST", Some("application/json"), 200, Some("application/json"));
    let results = classify_interaction(&spec, &ix);
    assert_eq!(results.len(), 2);
    assert!(matches!(results[0], InteractionDiffResult::MatchedRequestBodyContentType { .. }));
    assert!(matches!(results[1], InteractionDiffResult::MatchedResponseBodyContentType { .. }));
}

#[test]
fn conformant_interaction_diffs_to_nothing() {
    let spec = users_spec();
    let ix = interaction("/users", "POST", Some("application/json"), 200, Some("application/json"));
    let results = diff(&spec, &NullEngine, &ix);
    assert_eq!(results.len(), 0);
}

#[test]
fn body_shape_differences_become_shape_results() {
    let spec = users_spec();
    let ix = interaction("/users", "POST", Some("application/json"), 200, Some("application/json"));
    let results = diff(&spec, &OneDiffEngine, &ix);
    assert_eq!(results.len(), 2);
    assert!(matches!(results[0], InteractionDiffResult::UnmatchedRequestBodyShape { .. }));
    assert!(matches!(results[1], InteractionDiffResult::UnmatchedResponseBodyShape { .. }));
}

#[test]
fn undeclared_request_content_type_stands_alone() {
    let spec = users_spec();
    let ix = interaction("/users", "POST", Some("text/plain"), 200, Some("application/json"));
    let results = diff(&spec, &NullEngine, &ix);
    assert_eq!(results.len(), 1);
    assert!(matches!(results[0], InteractionDiffResult::UnmatchedRequestBodyContentType { .. }));
}

#[test]
fn unresolved_path_yields_unmatched_url() {
    let spec = users_spec();
    let ix = interaction("/nope", "GET", None, 200, None);
    let results = diff(&spec, &NullEngine, &ix);
    assert_eq!(results.len(), 1);
    assert!(matches!(results[0], InteractionDiffResult::UnmatchedRequestUrl { .. }));
}

#[test]
fn undeclared_status_code_yields_unmatched_status() {
    let spec = users_spec();
    let ix = interaction("/users", "POST", Some("application/json"), 404, None);
    let results = classify_interaction(&spec, &ix);
    assert_eq!(results.len(), 2);
    assert!(matches!(results[0], InteractionDiffResult::MatchedRequestBodyContentType { .. }));
    assert!(matches!(results[1], InteractionDiffResult::UnmatchedResponseStatusCode { .. }));
}

#[test]
fn declared_status_with_wrong_content_type_yields_unmatched_response_body() {
    let spec = users_spec();
    let ix = interaction("/users", "POST", Some("application/json"), 200, Some("text/html"));
    let results = classify_interaction(&spec, &ix);
    assert_eq!(results.len(), 2);
    assert!(matches!(
        results[1],
        InteractionDiffResult::UnmatchedResponseBodyContentType { .. }
    ));
}

#[test]
fn undocumented_bodies_are_forwarded_for_observation() {
    let spec = users_spec();
    let ix = interaction("/users", "POST", Some("text/plain"), 200, Some("application/json"));
    let analyses = analyze_undocumented_bodies(&spec, &OneDiffEngine, &ix);
    assert_eq!(analyses.len(), 1);
    match &analyses[0].body_location {
        BodyAnalysisLocation::UnmatchedRequest { path_id, method, content_type } => {
            assert_eq!(path_id, "path_1");
            assert_eq!(method, "POST");
            assert_eq!(content_type.as_deref(), Some("text/plain"));
        }
        _ => panic!("expected an unmatched request location"),
    }
    assert_eq!(analyses[0].trail_observations.entries, vec![String::from("observed")]);
}

#[test]
fn matched_interaction_analyzes_to_nothing() {
    let spec = users_spec();
    let ix = interaction("/users", "POST", Some("application/json"), 200, Some("application/json"));
    let analyses = analyze_undocumented_bodies(&spec, &NullEngine, &ix);
    assert_eq!(analyses.len(), 0);
}
