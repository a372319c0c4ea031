use optic_engine::commands::SpecCommand;
use optic_engine::events::{
    Body, BodyValue, HttpInteraction, InteractionRequest, InteractionResponse, SpecEvent,
};
use optic_engine::projection::SpecProjection;
use optic_engine::queries::EndpointQueries;

fn empty_value() -> BodyValue {
    BodyValue { shape_hash_v1_base64: None, as_json_string: None, as_text: None }
}

fn interaction_with_path(path: String) -> HttpInteraction {
    HttpInteraction {
        uuid: String::from("id"),
        request: InteractionRequest {
            host: String::from("example.com"),
            method: String::from("GET"),
            path,
            query: empty_value(),
            headers: empty_value(),
            body: Body { content_type: None, value: empty_value() },
        },
        response: InteractionResponse {
            status_code: 200,
            headers: empty_value(),
            body: Body { content_type: None, value: empty_value() },
        },
        tags: Vec::new(),
    }
}

fn path_added(path_id: &str, parent_path_id: &str, name: &str) -> SpecEvent {
    SpecEvent::PathComponentAdded {
        path_id: path_id.to_string(),
        parent_path_id: parent_path_id.to_string(),
        name: name.to_string(),
    }
}

fn path_parameter_added(path_id: &str, parent_path_id: &str, name: &str) -> SpecEvent {
    SpecEvent::PathParameterAdded {
        path_id: path_id.to_string(),
        parent_path_id: parent_path_id.to_string(),
        name: name.to_string(),
    }
}

fn request_added(request_id: &str, path_id: &str, http_method: &str) -> SpecEvent {
    SpecEvent::RequestAdded {
        request_id: request_id.to_string(),
        path_id: path_id.to_string(),
        http_method: http_method.to_string(),
    }
}

fn response_added(response_id: &str, path_id: &str, http_method: &str, code: u16) -> SpecEvent {
    SpecEvent::ResponseAddedByPathAndMethod {
        response_id: response_id.to_string(),
        path_id: path_id.to_string(),
        http_method: http_method.to_string(),
        http_status_code: code,
    }
}

#[test]
pub fn can_ignore_trailing_slash() {
    let interaction: HttpInteraction = interaction_with_path(String::from("/a/b/c/"));
    let normalized_path = EndpointQueries::extract_normalized_path(&interaction.request.path);
    assert_eq!(normalized_path, "/a/b/c")
}

#[test]
pub fn can_handle_no_trailing_slash() {
    let interaction: HttpInteraction = interaction_with_path(String::from("/a/b/c"));
    let normalized_path = EndpointQueries::extract_normalized_path(&interaction.request.path);
    assert_eq!(normalized_path, "/a/b/c")
}

#[test]
pub fn can_handle_root_path() {
    let interaction: HttpInteraction = interaction_with_path(String::from("/"));
    let normalized_path = EndpointQueries::extract_normalized_path(&interaction.request.path);
    assert_eq!(normalized_path, "/")
}

#[test]
pub fn resolve_path_can_resolves_root_path() {
    let events: Vec<SpecEvent> = vec![
        path_added("path_1", "root", "posts"),
        path_added("path_2", "path_1", "favourites"),
        path_added("path_3", "root", "authors"),
        path_added("path_4", "path_3", "dutch"),
        request_added("request_1", "root", "GET"),
        response_added("response_1", "root", "GET", 200),
    ];

    let spec_projection =
        SpecProjection::from_events(&events).expect("should be able to apply test events");

    let endpoint_queries = EndpointQueries::new(spec_projection.endpoint());

    assert_eq!(endpoint_queries.resolve_path("/").unwrap(), "root");
}

////////////////////////////////////////////////////////////////////////////////

#[test]
pub fn resolve_path_v2_can_resolve_ambiguous_paths() {
    // /sports/sport1
    // /sports/sport2
    // /sports/sport2/games
    // /sports/sport2/games/{gameId}
    // /sports/sport2/games/{gameId}/stats
    // /sports/sport2/games/{year}
    // /sports/sport2/games/{year}/{month}
    // /sports/sport2/games/{year}/{month}/{day}
    // /sports/sport2/games/{year}/{month}/{day}/stats
    let events: Vec<SpecEvent> = vec![
        path_added("path_1", "root", "sports"),
        path_added("path_2", "path_1", "sport1"),
        path_added("path_3", "path_1", "sport2"),
        path_added("path_4", "path_3", "games"),
        // gameId and year are the ambiguous path parameters
        path_parameter_added("path_5", "path_4", "gameId"),
        path_parameter_added("path_6", "path_4", "year"),
        path_parameter_added("path_7", "path_6", "month"),
        path_parameter_added("path_8", "path_7", "day"),
        path_added("path_9", "path_8", "stats"),
        path_added("path_10", "path_5", "stats"),
        request_added("request_1", "root", "GET"),
        response_added("response_1", "root", "GET", 200),
    ];

    let spec_projection =
        SpecProjection::from_events(&events).expect("should be able to apply test events");

    let endpoint_queries = EndpointQueries::new(spec_projection.endpoint());

    assert_eq!(endpoint_queries.resolve_path_v2("/").unwrap(), "root");
    assert_eq!(endpoint_queries.resolve_path_v2("/sports/sport1").unwrap(), "path_2");
    assert_eq!(endpoint_queries.resolve_path_v2("/sports/sport2").unwrap(), "path_3");
    assert_eq!(endpoint_queries.resolve_path_v2("/sports/sport1/games"), None);
    assert_eq!(endpoint_queries.resolve_path_v2("/sports/sport2/games/123/stats").unwrap(), "path_10");
    assert_eq!(
        endpoint_queries.resolve_path_v2("/sports/sport2/games/123/winners"),
        Some(String::from("path_7"))
    );
    assert_eq!(
        endpoint_queries.resolve_path_v2("/sports/sport2/games/123/456/789/stats"),
        Some(String::from("path_9"))
    );
}

////////////////////////////////////////////////////////////////////////////////

#[test]
pub fn resolve_path_should_resolve_against_an_empty_spec() {
    let events: Vec<SpecEvent> = Vec::new();

    let spec_projection =
        SpecProjection::from_events(&events).expect("should be able to apply test events");

    let endpoint_queries = EndpointQueries::new(spec_projection.endpoint());

    assert_eq!(endpoint_queries.resolve_path("/").unwrap(), "root");
}

#[test]
pub fn can_find_unused_paths() {
    let events: Vec<SpecEvent> = vec![
        path_added("path_1", "root", "posts"),
        path_added("path_2", "path_1", "favourites"),
        path_added("path_3", "root", "authors"),
        path_added("path_4", "path_3", "dutch"),
        path_parameter_added("path_parameter_1", "path_1", "postId"),
        SpecEvent::ShapeAdded {
            shape_id: "shape_1".to_string(),
            base_shape_id: "$string".to_string(),
        },
        SpecEvent::PathParameterShapeSet {
            path_id: "path_parameter_1".to_string(),
            shape_id: "shape_Ba53AWXhVW".to_string(),
        },
        request_added("request_1", "path_2", "GET"),
        response_added("response_1", "path_2", "GET", 200),
        request_added("request_2", "path_1", "GET"),
        response_added("response_2", "path_1", "GET", 200),
        SpecEvent::RequestRemoved { request_id: "request_2".to_string() },
        SpecEvent::ResponseRemoved { response_id: "response_2".to_string() },
    ];

    let spec_projection =
        SpecProjection::from_events(&events).expect("should be able to apply test events");

    let endpoint_queries = EndpointQueries::new(spec_projection.endpoint());

    let unused_path_ids = endpoint_queries.resolve_unused_paths();

    // post-order finish order of the walk, children visited in insertion order
    assert_eq!(unused_path_ids, vec![
        String::from("path_parameter_1"),
        String::from("path_4"),
        String::from("path_3"),
    ]);
}

#[test]
pub fn can_generate_delete_endpoint_commands() {
    let events: Vec<SpecEvent> = vec![
        path_added("path_1", "root", "posts"),
        path_added("path_2", "path_1", "favourites"),
        path_added("path_3", "root", "authors"),
        request_added("request_1", "path_2", "GET"),
        response_added("response_1", "path_2", "GET", 200),
        request_added("request_2", "path_2", "POST"),
        response_added("response_2", "path_2", "POST", 201),
        request_added("request_3", "path_3", "GET"),
        response_added("response_3", "path_3", "GET", 200),
        SpecEvent::QueryParametersAdded {
            query_parameters_id: "query_1".to_string(),
            path_id: "path_2".to_string(),
            http_method: "GET".to_string(),
        },
        SpecEvent::QueryParametersShapeSet {
            query_parameters_id: "query_1".to_string(),
            shape_id: "shape_Ba53AWXhVW".to_string(),
        },
    ];

    let spec_projection =
        SpecProjection::from_events(&events).expect("should be able to apply test events");

    let endpoint_queries = EndpointQueries::new(spec_projection.endpoint());

    let subject_path = String::from("path_2");
    let subject_method = String::from("GET");
    let deleted_endpoint_commmands = endpoint_queries
        .delete_endpoint_commands(&subject_path, &subject_method)
        .expect("delete commands are generated for existing path and method");

    let updated_spec =
        assert_valid_commands(spec_projection, deleted_endpoint_commmands.commands);
    let updated_queries = EndpointQueries::new(updated_spec.endpoint());
    let remaining_query_parameters =
        updated_queries.resolve_endpoint_query_params(&subject_path, &subject_method);
    let remaining_requests = updated_queries
        .resolve_requests(&subject_path, &subject_method)
        .unwrap();
    let remaining_responses = updated_queries
        .resolve_responses(&subject_path, &subject_method)
        .unwrap();

    assert!(remaining_query_parameters.is_none());
    assert_eq!(remaining_requests.len(), 0);
    assert_eq!(remaining_responses.len(), 0);
}

#[test]
pub fn can_generate_delete_path_commands() {
    let events: Vec<SpecEvent> = vec![
        path_added("path_1", "root", "posts"),
        path_added("path_2", "path_1", "favourites"),
        path_added("path_3", "root", "authors"),
        path_parameter_added("path_parameter_1", "path_1", "postId"),
        SpecEvent::ShapeAdded {
            shape_id: "shape_1".to_string(),
            base_shape_id: "$string".to_string(),
        },
        SpecEvent::PathParameterShapeSet {
            path_id: "path_parameter_1".to_string(),
            shape_id: "shape_Ba53AWXhVW".to_string(),
        },
    ];

    let spec_projection =
        SpecProjection::from_events(&events).expect("should be able to apply test events");

    let endpoint_queries = EndpointQueries::new(spec_projection.endpoint());

    let subjects = [("path_3", "/authors"), ("path_parameter_1", "/posts/1")];

    let mut delete_path_commands: Vec<SpecCommand> = Vec::new();
    for (subject_path_id, _) in subjects.iter() {
        let commands = endpoint_queries
            .delete_path_commands(&String::from(*subject_path_id))
            .expect("delete commands are generated for existing path");
        for endpoint_command in commands {
            delete_path_commands.push(SpecCommand::from(endpoint_command));
        }
    }

    let updated_spec = assert_valid_commands(spec_projection, delete_path_commands);
    let updated_queries = EndpointQueries::new(updated_spec.endpoint());
    let remaining_paths: Vec<String> = subjects
        .iter()
        .filter_map(|(_, subject_path)| updated_queries.resolve_path(*subject_path))
        .collect();

    assert_eq!(remaining_paths.len(), 0);
}

fn assert_valid_commands(
    mut spec_projection: SpecProjection,
    commands: impl IntoIterator<Item = SpecCommand>,
) -> SpecProjection {
    for command in commands {
        let event = spec_projection
            .execute(&command)
            .expect("generated commands must be valid");

        spec_projection
            .apply(&event)
            .expect("events from valid commands must apply");
    }

    spec_projection
}
