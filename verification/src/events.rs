//! The ordered domain-event log consumed by the endpoint projection, and the
//! shape of one observed HTTP interaction.

use vstd::prelude::*;

use crate::state::{
    HttpMethod, HttpStatusCode, PathComponentId, QueryParametersId, RequestId, ResponseId, ShapeId,
};

verus! {

/// One domain event.  `Added` events create nodes, `Removed` events destroy
/// a node together with its dependent descendants, and the `Set` events
/// attach a shape reference or body descriptor without changing topology.
/// `ShapeAdded` belongs to the external shape engine and leaves the endpoint
/// graph untouched.
pub enum SpecEvent {
    PathComponentAdded { path_id: PathComponentId, parent_path_id: PathComponentId, name: String },
    PathParameterAdded { path_id: PathComponentId, parent_path_id: PathComponentId, name: String },
    PathComponentRemoved { path_id: PathComponentId },
    PathParameterRemoved { path_id: PathComponentId },
    PathParameterShapeSet { path_id: PathComponentId, shape_id: ShapeId },
    RequestAdded { request_id: RequestId, path_id: PathComponentId, http_method: HttpMethod },
    RequestRemoved { request_id: RequestId },
    RequestBodySet { request_id: RequestId, http_content_type: String, shape_id: ShapeId },
    ResponseAddedByPathAndMethod {
        response_id: ResponseId,
        path_id: PathComponentId,
        http_method: HttpMethod,
        http_status_code: HttpStatusCode,
    },
    ResponseRemoved { response_id: ResponseId },
    ResponseBodySet { response_id: ResponseId, http_content_type: String, shape_id: ShapeId },
    QueryParametersAdded {
        query_parameters_id: QueryParametersId,
        path_id: PathComponentId,
        http_method: HttpMethod,
    },
    QueryParametersRemoved { query_parameters_id: QueryParametersId },
    QueryParametersShapeSet { query_parameters_id: QueryParametersId, shape_id: ShapeId },
    ShapeAdded { shape_id: ShapeId, base_shape_id: ShapeId },
}

/// An opaque structural body representation, passed through to the external
/// shape engine untouched.
pub struct BodyValue {
    pub shape_hash_v1_base64: Option<String>,
    pub as_json_string: Option<String>,
    pub as_text: Option<String>,
}

/// A request or response body as observed on the wire.
pub struct Body {
    pub content_type: Option<String>,
    pub value: BodyValue,
}

/// The request half of an observed interaction.
pub struct InteractionRequest {
    pub host: String,
    pub method: HttpMethod,
    pub path: String,
    pub query: BodyValue,
    pub headers: BodyValue,
    pub body: Body,
}

/// The response half of an observed interaction.
pub struct InteractionResponse {
    pub status_code: HttpStatusCode,
    pub headers: BodyValue,
    pub body: Body,
}

/// One observed concrete HTTP request/response pair to be classified
/// against the modelled API surface.
pub struct HttpInteraction {
    pub uuid: String,
    pub request: InteractionRequest,
    pub response: InteractionResponse,
    pub tags: Vec<String>,
}

} // verus!
