//! Mutation commands the query engine synthesises.  They are handed to the
//! command/event core — here `SpecProjection::execute` — which validates them
//! and answers with the domain events to fold back into the projection.

use vstd::prelude::*;

use crate::events::SpecEvent;
use crate::state::{PathComponentId, QueryParametersId, RequestId, ResponseId};

verus! {

/// A removal command, each referencing the affected domain id.
pub enum EndpointCommand {
    RemoveRequest { request_id: RequestId },
    RemoveResponse { response_id: ResponseId },
    RemoveQueryParameters { query_parameters_id: QueryParametersId },
    RemovePathComponent { path_id: PathComponentId },
    RemovePathParameter { path_id: PathComponentId },
}

impl EndpointCommand {
    /// The domain event a valid execution of this command produces.
    pub open spec fn event_for(self) -> SpecEvent {
        match self {
            EndpointCommand::RemoveRequest { request_id } => SpecEvent::RequestRemoved {
                request_id,
            },
            EndpointCommand::RemoveResponse { response_id } => SpecEvent::ResponseRemoved {
                response_id,
            },
            EndpointCommand::RemoveQueryParameters { query_parameters_id } => {
                SpecEvent::QueryParametersRemoved { query_parameters_id }
            },
            EndpointCommand::RemovePathComponent { path_id } => SpecEvent::PathComponentRemoved {
                path_id,
            },
            EndpointCommand::RemovePathParameter { path_id } => SpecEvent::PathParameterRemoved {
                path_id,
            },
        }
    }

    pub fn remove_request(request_id: RequestId) -> (c: EndpointCommand)
        ensures
            c == (EndpointCommand::RemoveRequest { request_id }),
    {
        EndpointCommand::RemoveRequest { request_id }
    }

    pub fn remove_response(response_id: ResponseId) -> (c: EndpointCommand)
        ensures
            c == (EndpointCommand::RemoveResponse { response_id }),
    {
        EndpointCommand::RemoveResponse { response_id }
    }

    pub fn remove_query_parameters(query_parameters_id: QueryParametersId) -> (c: EndpointCommand)
        ensures
            c == (EndpointCommand::RemoveQueryParameters { query_parameters_id }),
    {
        EndpointCommand::RemoveQueryParameters { query_parameters_id }
    }

    pub fn remove_path_component(path_id: PathComponentId) -> (c: EndpointCommand)
        ensures
            c == (EndpointCommand::RemovePathComponent { path_id }),
    {
        EndpointCommand::RemovePathComponent { path_id }
    }

    pub fn remove_path_parameter(path_id: PathComponentId) -> (c: EndpointCommand)
        ensures
            c == (EndpointCommand::RemovePathParameter { path_id }),
    {
        EndpointCommand::RemovePathParameter { path_id }
    }
}

/// A command addressed to the whole spec; the endpoint commands are the only
/// family this model carries.
pub enum SpecCommand {
    Endpoint { command: EndpointCommand },
}

impl SpecCommand {
    /// The wrapped endpoint command.
    pub open spec fn endpoint_command(self) -> EndpointCommand {
        match self {
            SpecCommand::Endpoint { command } => command,
        }
    }
}

impl From<EndpointCommand> for SpecCommand {
    fn from(command: EndpointCommand) -> (r: SpecCommand) {
        SpecCommand::Endpoint { command }
    }
}

impl vstd::std_specs::convert::FromSpecImpl<EndpointCommand> for SpecCommand {
    open spec fn obeys_from_spec() -> bool {
        true
    }

    open spec fn from_spec(command: EndpointCommand) -> SpecCommand {
        SpecCommand::Endpoint { command }
    }
}

} // verus!
