//! Domain identifiers and small shared value types.

use vstd::prelude::*;

verus! {

/// Stable, externally assigned identifier of a path-component node.
pub type PathComponentId = String;

/// Stable identifier of a request node.
pub type RequestId = String;

/// Stable identifier of a response node.
pub type ResponseId = String;

/// Stable identifier of a query-parameters node.
pub type QueryParametersId = String;

/// Stable identifier of a declared shape, owned by the external shape engine.
pub type ShapeId = String;

/// An HTTP method token, e.g. `GET`.
pub type HttpMethod = String;

/// An HTTP status code, e.g. `200`.
pub type HttpStatusCode = u16;

} // verus!
