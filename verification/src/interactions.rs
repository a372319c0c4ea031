//! The interaction traverser and classifier: walk one observed HTTP
//! interaction through the query engine, dimension by dimension (path,
//! method, request content type; and independently path, method, status
//! code, response content type), and accumulate one typed result per
//! dimension chain.  Matched body content types are then escalated to the
//! external shape engine, whose structural diffs become shape results.

use vstd::prelude::*;

use crate::events::{BodyValue, HttpInteraction};
use crate::projection::{BodyDescriptor, EndpointProjection, SpecProjection};
use crate::queries::EndpointQueries;
use crate::state::{HttpMethod, HttpStatusCode, PathComponentId, RequestId, ResponseId, ShapeId};

verus! {

/// One observed dimension of the interaction, recorded as it is matched.
pub enum InteractionTrailComponent {
    Url { path: String },
    Method { method: HttpMethod },
    RequestBody { content_type: Option<String> },
    ResponseStatusCode { status_code: HttpStatusCode },
    ResponseBody { content_type: Option<String>, status_code: HttpStatusCode },
}

/// The observed dimensions matched so far, outermost first.
pub struct InteractionTrail {
    pub path: Vec<InteractionTrailComponent>,
}

impl InteractionTrail {
    /// The method recorded in the trail, if any.
    pub open spec fn method_view(self) -> Option<Seq<char>> {
        if exists|l: int|
            0 <= l < self.path@.len() && (#[trigger] self.path@[l]) is Method {
            let l = choose|l: int|
                0 <= l < self.path@.len() && (#[trigger] self.path@[l]) is Method;
            Some(self.path@[l]->method@)
        } else {
            None
        }
    }

    /// The first method component recorded in the trail.
    pub fn get_method(&self) -> (r: Option<&HttpMethod>)
        ensures
            r is Some ==> self.method_view() is Some,
            r matches Some(m) ==> (exists|l: int|
                0 <= l < self.path@.len() && (#[trigger] self.path@[l]) is Method
                    && self.path@[l]->method@ == m@),
    {
        let n = self.path.len();
        let mut l: usize = 0;
        while l < n
            invariant
                l <= n,
                n == self.path@.len(),
            decreases n - l,
        {
            if let InteractionTrailComponent::Method { method } = &self.path[l] {
                return Some(method);
            }
            l += 1;
        }
        None
    }
}

/// Where in the declared spec a result points.
pub enum RequestSpecTrail {
    SpecRoot,
    SpecPath { path_id: PathComponentId },
    SpecRequestRoot { request_id: RequestId },
    SpecRequestBody { request_id: RequestId },
    SpecResponseRoot { response_id: ResponseId },
    SpecResponseBody { response_id: ResponseId },
}

impl RequestSpecTrail {
    /// The path id carried by a `SpecPath` trail.
    pub fn get_path_id(&self) -> (r: Option<&PathComponentId>)
        ensures
            match r {
                Some(p) => self matches RequestSpecTrail::SpecPath { path_id } && path_id@ == p@,
                None => !(self is SpecPath),
            },
    {
        match self {
            RequestSpecTrail::SpecPath { path_id } => Some(path_id),
            _ => None,
        }
    }
}

/// One structural difference reported by the external shape engine,
/// carried through untouched.
pub struct ShapeDiffResult {
    pub kind: String,
    pub json_trail: Vec<String>,
    pub shape_trail: Vec<String>,
}

/// The shape observations the external engine infers from a raw body,
/// carried through untouched.
pub struct TrailObservations {
    pub entries: Vec<String>,
}

/// The narrow contract this engine consumes from the external shape/schema
/// engine: structural diffing of a body against a declared shape, and shape
/// inference from a raw body.  Implementations live outside this crate.
pub trait ShapeEngine {
    /// Diff `body` against the declared shape rooted at `root_shape_id`;
    /// an empty answer means the body fully conforms.
    fn diff_shape(&self, body: &BodyValue, root_shape_id: &ShapeId) -> Vec<ShapeDiffResult>;

    /// Infer a structural shape candidate from a raw body.
    fn observe_body_trails(&self, body: &BodyValue) -> TrailObservations;
}

/// One classification result: a Matched or Unmatched terminal outcome per
/// dimension chain, or a shape-level difference found after a match.
pub enum InteractionDiffResult {
    UnmatchedRequestUrl { interaction_trail: InteractionTrail, requests_trail: RequestSpecTrail },
    UnmatchedRequestBodyContentType {
        interaction_trail: InteractionTrail,
        requests_trail: RequestSpecTrail,
    },
    MatchedRequestBodyContentType {
        interaction_trail: InteractionTrail,
        requests_trail: RequestSpecTrail,
        root_shape_id: Option<ShapeId>,
    },
    UnmatchedResponseStatusCode {
        interaction_trail: InteractionTrail,
        requests_trail: RequestSpecTrail,
    },
    UnmatchedResponseBodyContentType {
        interaction_trail: InteractionTrail,
        requests_trail: RequestSpecTrail,
    },
    MatchedResponseBodyContentType {
        interaction_trail: InteractionTrail,
        requests_trail: RequestSpecTrail,
        root_shape_id: Option<ShapeId>,
    },
    UnmatchedRequestBodyShape {
        interaction_trail: InteractionTrail,
        requests_trail: RequestSpecTrail,
        shape_diff: ShapeDiffResult,
    },
    UnmatchedResponseBodyShape {
        interaction_trail: InteractionTrail,
        requests_trail: RequestSpecTrail,
        shape_diff: ShapeDiffResult,
    },
}

/// The view of an optional owned string.
pub open spec fn opt_string_view(o: Option<String>) -> Option<Seq<char>> {
    match o {
        Some(s) => Some(s@),
        None => None,
    }
}

/// The observed request content type, as a view.
pub open spec fn req_ct_view(ix: HttpInteraction) -> Option<Seq<char>> {
    opt_string_view(ix.request.body.content_type)
}

/// The observed response content type, as a view.
pub open spec fn resp_ct_view(ix: HttpInteraction) -> Option<Seq<char>> {
    opt_string_view(ix.response.body.content_type)
}

/// The declared root shape of a matched body, if the body carries one.
pub open spec fn shape_opt_matches(o: Option<ShapeId>, body: Option<BodyDescriptor>) -> bool {
    match body {
        Some(bd) => o matches Some(s) && s@ == bd.root_shape_id@,
        None => o is None,
    }
}

/// The trail holds exactly `[Url, Method]` for this interaction.
pub open spec fn trail_url_method(t: InteractionTrail, ix: HttpInteraction) -> bool {
    &&& t.path@.len() == 2
    &&& t.path@[0] matches InteractionTrailComponent::Url { path } && path@ == ix.request.path@
    &&& t.path@[1] matches InteractionTrailComponent::Method { method } && method@
        == ix.request.method@
}

/// The trail holds `[Url, Method, RequestBody]` for this interaction.
pub open spec fn trail_request_body(t: InteractionTrail, ix: HttpInteraction) -> bool {
    &&& t.path@.len() == 3
    &&& t.path@[0] matches InteractionTrailComponent::Url { path } && path@ == ix.request.path@
    &&& t.path@[1] matches InteractionTrailComponent::Method { method } && method@
        == ix.request.method@
    &&& t.path@[2] matches InteractionTrailComponent::RequestBody { content_type }
        && opt_string_view(content_type) == req_ct_view(ix)
}

/// The trail holds `[Url, Method, ResponseStatusCode]`.
pub open spec fn trail_response_status(t: InteractionTrail, ix: HttpInteraction) -> bool {
    &&& t.path@.len() == 3
    &&& t.path@[0] matches InteractionTrailComponent::Url { path } && path@ == ix.request.path@
    &&& t.path@[1] matches InteractionTrailComponent::Method { method } && method@
        == ix.request.method@
    &&& t.path@[2] matches InteractionTrailComponent::ResponseStatusCode { status_code }
        && status_code == ix.response.status_code
}

/// The trail holds `[Url, Method, ResponseBody]`.
pub open spec fn trail_response_body(t: InteractionTrail, ix: HttpInteraction) -> bool {
    &&& t.path@.len() == 3
    &&& t.path@[0] matches InteractionTrailComponent::Url { path } && path@ == ix.request.path@
    &&& t.path@[1] matches InteractionTrailComponent::Method { method } && method@
        == ix.request.method@
    &&& t.path@[2] matches InteractionTrailComponent::ResponseBody { content_type, status_code }
        && opt_string_view(content_type) == resp_ct_view(ix) && status_code
        == ix.response.status_code
}

/// The one result of an interaction whose path resolves nowhere.
pub open spec fn is_unmatched_url(ix: HttpInteraction, r: InteractionDiffResult) -> bool {
    &&& r matches InteractionDiffResult::UnmatchedRequestUrl { interaction_trail, requests_trail }
    &&& trail_url_method(interaction_trail, ix)
    &&& requests_trail is SpecRoot
}

/// The request-chain outcome when no declared operation matches the
/// observed method and content type.
pub open spec fn is_unmatched_req_ct(
    proj: EndpointProjection,
    ix: HttpInteraction,
    pid: Seq<char>,
    r: InteractionDiffResult,
) -> bool {
    &&& r matches InteractionDiffResult::UnmatchedRequestBodyContentType {
        interaction_trail,
        requests_trail,
    }
    &&& trail_request_body(interaction_trail, ix)
    &&& requests_trail matches RequestSpecTrail::SpecPath { path_id } && path_id@ == pid
}

/// The request-chain outcome when a declared operation matches.
pub open spec fn is_matched_req_ct(
    proj: EndpointProjection,
    ix: HttpInteraction,
    p: int,
    r: InteractionDiffResult,
) -> bool {
    &&& r matches InteractionDiffResult::MatchedRequestBodyContentType {
        interaction_trail,
        requests_trail,
        root_shape_id,
    }
    &&& trail_request_body(interaction_trail, ix)
    &&& exists|e: int|
        #[trigger] proj.is_first_request_ct(e, p, ix.request.method@, req_ct_view(ix)) && (
        requests_trail matches RequestSpecTrail::SpecRequestBody { request_id } && request_id@
            == proj.entry(e).id->0@) && shape_opt_matches(
            root_shape_id,
            proj.entry(e).kind->request.body,
        )
}

/// The response-chain outcome when no response is declared for the
/// observed method and status code at all.
pub open spec fn is_unmatched_resp_status(
    proj: EndpointProjection,
    ix: HttpInteraction,
    pid: Seq<char>,
    r: InteractionDiffResult,
) -> bool {
    &&& r matches InteractionDiffResult::UnmatchedResponseStatusCode {
        interaction_trail,
        requests_trail,
    }
    &&& trail_response_status(interaction_trail, ix)
    &&& requests_trail matches RequestSpecTrail::SpecPath { path_id } && path_id@ == pid
}

/// The response-chain outcome when responses exist for the status code but
/// none matches the observed content type.
pub open spec fn is_unmatched_resp_ct(
    proj: EndpointProjection,
    ix: HttpInteraction,
    pid: Seq<char>,
    r: InteractionDiffResult,
) -> bool {
    &&& r matches InteractionDiffResult::UnmatchedResponseBodyContentType {
        interaction_trail,
        requests_trail,
    }
    &&& trail_response_body(interaction_trail, ix)
    &&& requests_trail matches RequestSpecTrail::SpecPath { path_id } && path_id@ == pid
}

/// The response-chain outcome when a declared response matches.
pub open spec fn is_matched_resp_ct(
    proj: EndpointProjection,
    ix: HttpInteraction,
    p: int,
    r: InteractionDiffResult,
) -> bool {
    &&& r matches InteractionDiffResult::MatchedResponseBodyContentType {
        interaction_trail,
        requests_trail,
        root_shape_id,
    }
    &&& trail_response_body(interaction_trail, ix)
    &&& exists|e: int|
        #[trigger] proj.is_first_response_status_ct(
            e,
            p,
            ix.request.method@,
            ix.response.status_code,
            resp_ct_view(ix),
        ) && (requests_trail matches RequestSpecTrail::SpecResponseBody { response_id }
            && response_id@ == proj.entry(e).id->0@) && shape_opt_matches(
            root_shape_id,
            proj.entry(e).kind->response.body,
        )
}

/// The request-chain terminal outcome for this interaction.
pub open spec fn request_outcome(
    proj: EndpointProjection,
    ix: HttpInteraction,
    p: int,
    pid: Seq<char>,
    r: InteractionDiffResult,
) -> bool {
    if exists|e: int| proj.is_request_ct(e, p, ix.request.method@, req_ct_view(ix)) {
        is_matched_req_ct(proj, ix, p, r)
    } else {
        is_unmatched_req_ct(proj, ix, pid, r)
    }
}

/// The response-chain terminal outcome for this interaction.
pub open spec fn response_outcome(
    proj: EndpointProjection,
    ix: HttpInteraction,
    p: int,
    pid: Seq<char>,
    r: InteractionDiffResult,
) -> bool {
    if exists|e: int|
        proj.is_response_status_ct(
            e,
            p,
            ix.request.method@,
            ix.response.status_code,
            resp_ct_view(ix),
        ) {
        is_matched_resp_ct(proj, ix, p, r)
    } else if exists|e: int|
        proj.is_response_under_status(e, p, ix.request.method@, ix.response.status_code) {
        is_unmatched_resp_ct(proj, ix, pid, r)
    } else {
        is_unmatched_resp_status(proj, ix, pid, r)
    }
}

/// The full classification of one interaction: a single unmatched-URL
/// result when the path resolves nowhere, else exactly one terminal
/// outcome for the request chain followed by one for the response chain.
pub open spec fn classification_describes(
    proj: EndpointProjection,
    ix: HttpInteraction,
    out: Seq<InteractionDiffResult>,
) -> bool {
    match proj.resolve_path_spec(ix.request.path@) {
        None => out.len() == 1 && is_unmatched_url(ix, out[0]),
        Some(pid) => {
            let p = proj.idx_of(pid);
            &&& out.len() == 2
            &&& request_outcome(proj, ix, p, pid, out[0])
            &&& response_outcome(proj, ix, p, pid, out[1])
        },
    }
}

/// A faithful copy of an optional string.
fn dup_opt_string(o: &Option<String>) -> (r: Option<String>)
    ensures
        r == *o,
{
    match o {
        Some(s) => Some(s.clone()),
        None => None,
    }
}

/// The `[Url, Method]` trail of an interaction.
fn url_method_trail(ix: &HttpInteraction) -> (t: InteractionTrail)
    ensures
        trail_url_method(t, *ix),
{
    let mut path: Vec<InteractionTrailComponent> = Vec::new();
    path.push(InteractionTrailComponent::Url { path: ix.request.path.clone() });
    path.push(InteractionTrailComponent::Method { method: ix.request.method.clone() });
    InteractionTrail { path }
}

/// The `[Url, Method, RequestBody]` trail of an interaction.
fn request_body_trail(ix: &HttpInteraction) -> (t: InteractionTrail)
    ensures
        trail_request_body(t, *ix),
{
    let mut path: Vec<InteractionTrailComponent> = Vec::new();
    path.push(InteractionTrailComponent::Url { path: ix.request.path.clone() });
    path.push(InteractionTrailComponent::Method { method: ix.request.method.clone() });
    path.push(
        InteractionTrailComponent::RequestBody {
            content_type: dup_opt_string(&ix.request.body.content_type),
        },
    );
    InteractionTrail { path }
}

/// The `[Url, Method, ResponseStatusCode]` trail of an interaction.
fn response_status_trail(ix: &HttpInteraction) -> (t: InteractionTrail)
    ensures
        trail_response_status(t, *ix),
{
    let mut path: Vec<InteractionTrailComponent> = Vec::new();
    path.push(InteractionTrailComponent::Url { path: ix.request.path.clone() });
    path.push(InteractionTrailComponent::Method { method: ix.request.method.clone() });
    path.push(
        InteractionTrailComponent::ResponseStatusCode { status_code: ix.response.status_code },
    );
    InteractionTrail { path }
}

/// The `[Url, Method, ResponseBody]` trail of an interaction.
fn response_body_trail(ix: &HttpInteraction) -> (t: InteractionTrail)
    ensures
        trail_response_body(t, *ix),
{
    let mut path: Vec<InteractionTrailComponent> = Vec::new();
    path.push(InteractionTrailComponent::Url { path: ix.request.path.clone() });
    path.push(InteractionTrailComponent::Method { method: ix.request.method.clone() });
    path.push(
        InteractionTrailComponent::ResponseBody {
            content_type: dup_opt_string(&ix.response.body.content_type),
            status_code: ix.response.status_code,
        },
    );
    InteractionTrail { path }
}

/// Walk one interaction through the query engine and accumulate exactly
/// one terminal outcome per dimension chain: the layered matching state
/// machine of the classifier, before any shape escalation.
pub fn classify_interaction(spec_projection: &SpecProjection, interaction: &HttpInteraction) -> (out:
    Vec<InteractionDiffResult>)
    requires
        spec_projection.wf(),
    ensures
        classification_describes(spec_projection.endpoint, *interaction, out@),
{
    let queries = EndpointQueries::new(spec_projection.endpoint());
    let mut out: Vec<InteractionDiffResult> = Vec::new();
    let resolved = queries.resolve_interaction_path_v2(interaction);
    match resolved {
        None => {
            out.push(
                InteractionDiffResult::UnmatchedRequestUrl {
                    interaction_trail: url_method_trail(interaction),
                    requests_trail: RequestSpecTrail::SpecRoot,
                },
            );
        },
        Some(path_id) => {
            proof {
                spec_projection.endpoint.lemma_resolve_path_live(interaction.request.path@);
            }
            let req = queries.resolve_request_by_method_and_content_type(
                path_id.as_str(),
                &interaction.request.method,
                interaction.request.body.content_type.as_ref(),
            );
            match req {
                Some((request_id, desc)) => {
                    let root_shape_id = match desc.body {
                        Some(bd) => Some(bd.root_shape_id),
                        None => None,
                    };
                    out.push(
                        InteractionDiffResult::MatchedRequestBodyContentType {
                            interaction_trail: request_body_trail(interaction),
                            requests_trail: RequestSpecTrail::SpecRequestBody { request_id },
                            root_shape_id,
                        },
                    );
                },
                None => {
                    out.push(
                        InteractionDiffResult::UnmatchedRequestBodyContentType {
                            interaction_trail: request_body_trail(interaction),
                            requests_trail: RequestSpecTrail::SpecPath {
                                path_id: path_id.clone(),
                            },
                        },
                    );
                },
            }
            let resp = queries.resolve_response_by_method_status_code_and_content_type(
                path_id.as_str(),
                interaction.request.method.as_str(),
                interaction.response.status_code,
                interaction.response.body.content_type.as_ref(),
            );
            match resp {
                Some((response_id, desc)) => {
                    let root_shape_id = match desc.body {
                        Some(bd) => Some(bd.root_shape_id),
                        None => None,
                    };
                    out.push(
                        InteractionDiffResult::MatchedResponseBodyContentType {
                            interaction_trail: response_body_trail(interaction),
                            requests_trail: RequestSpecTrail::SpecResponseBody { response_id },
                            root_shape_id,
                        },
                    );
                },
                None => {
                    let any = queries.resolve_responses_by_method_and_status_code(
                        interaction.request.method.as_str(),
                        interaction.response.status_code,
                        path_id.as_str(),
                    );
                    proof {
                        let pr = spec_projection.endpoint;
                        let p = pr.idx_of(path_id@);
                        pr.lemma_responses_status_membership(
                            p,
                            interaction.request.method@,
                            interaction.response.status_code,
                            0,
                        );
                        let sl = pr.responses_under_status(
                            p,
                            interaction.request.method@,
                            interaction.response.status_code,
                        );
                        if sl.len() > 0 {
                            assert(sl.contains(sl[0]));
                        }
                        if exists|e: int|
                            pr.is_response_under_status(
                                e,
                                p,
                                interaction.request.method@,
                                interaction.response.status_code,
                            ) {
                            let e = choose|e: int|
                                pr.is_response_under_status(
                                    e,
                                    p,
                                    interaction.request.method@,
                                    interaction.response.status_code,
                                );
                            assert(sl.contains(e));
                        }
                    }
                    if any.len() > 0 {
                        out.push(
                            InteractionDiffResult::UnmatchedResponseBodyContentType {
                                interaction_trail: response_body_trail(interaction),
                                requests_trail: RequestSpecTrail::SpecPath {
                                    path_id: path_id.clone(),
                                },
                            },
                        );
                    } else {
                        out.push(
                            InteractionDiffResult::UnmatchedResponseStatusCode {
                                interaction_trail: response_status_trail(interaction),
                                requests_trail: RequestSpecTrail::SpecPath {
                                    path_id: path_id.clone(),
                                },
                            },
                        );
                    }
                },
            }
        },
    }
    out
}

/// View-wise equality of spec trails.
pub open spec fn spec_trail_view_eq(a: RequestSpecTrail, b: RequestSpecTrail) -> bool {
    match (a, b) {
        (RequestSpecTrail::SpecRoot, RequestSpecTrail::SpecRoot) => true,
        (
            RequestSpecTrail::SpecPath { path_id: x },
            RequestSpecTrail::SpecPath { path_id: y },
        ) => x@ == y@,
        (
            RequestSpecTrail::SpecRequestRoot { request_id: x },
            RequestSpecTrail::SpecRequestRoot { request_id: y },
        ) => x@ == y@,
        (
            RequestSpecTrail::SpecRequestBody { request_id: x },
            RequestSpecTrail::SpecRequestBody { request_id: y },
        ) => x@ == y@,
        (
            RequestSpecTrail::SpecResponseRoot { response_id: x },
            RequestSpecTrail::SpecResponseRoot { response_id: y },
        ) => x@ == y@,
        (
            RequestSpecTrail::SpecResponseBody { response_id: x },
            RequestSpecTrail::SpecResponseBody { response_id: y },
        ) => x@ == y@,
        _ => false,
    }
}

/// View-wise equality of external shape diffs.
pub open spec fn shape_diff_view_eq(a: ShapeDiffResult, b: ShapeDiffResult) -> bool {
    &&& a.kind@ == b.kind@
    &&& a.json_trail.deep_view() == b.json_trail.deep_view()
    &&& a.shape_trail.deep_view() == b.shape_trail.deep_view()
}

/// A faithful copy of a string list.
fn dup_strings(v: &Vec<String>) -> (r: Vec<String>)
    ensures
        r.deep_view() == v.deep_view(),
{
    let n = v.len();
    let mut r: Vec<String> = Vec::new();
    let mut l: usize = 0;
    while l < n
        invariant
            l <= n,
            n == v@.len(),
            r@.len() == l,
            forall|k: int| 0 <= k < l ==> #[trigger] r@[k] == v@[k],
        decreases n - l,
    {
        r.push(v[l].clone());
        l += 1;
    }
    proof {
        assert forall|k: int| 0 <= k < r@.len() implies #[trigger] r.deep_view()[k]
            == v.deep_view()[k] by {
            assert(r@[k] == v@[k]);
        }
        assert(r.deep_view() =~= v.deep_view());
    }
    r
}

/// A view-faithful copy of a shape diff.
fn dup_shape_diff(d: &ShapeDiffResult) -> (r: ShapeDiffResult)
    ensures
        shape_diff_view_eq(r, *d),
{
    ShapeDiffResult {
        kind: d.kind.clone(),
        json_trail: dup_strings(&d.json_trail),
        shape_trail: dup_strings(&d.shape_trail),
    }
}

/// A view-faithful copy of a spec trail.
fn dup_spec_trail(t: &RequestSpecTrail) -> (r: RequestSpecTrail)
    ensures
        spec_trail_view_eq(r, *t),
{
    match t {
        RequestSpecTrail::SpecRoot => RequestSpecTrail::SpecRoot,
        RequestSpecTrail::SpecPath { path_id } => RequestSpecTrail::SpecPath {
            path_id: path_id.clone(),
        },
        RequestSpecTrail::SpecRequestRoot { request_id } => RequestSpecTrail::SpecRequestRoot {
            request_id: request_id.clone(),
        },
        RequestSpecTrail::SpecRequestBody { request_id } => RequestSpecTrail::SpecRequestBody {
            request_id: request_id.clone(),
        },
        RequestSpecTrail::SpecResponseRoot { response_id } => RequestSpecTrail::SpecResponseRoot {
            response_id: response_id.clone(),
        },
        RequestSpecTrail::SpecResponseBody { response_id } => RequestSpecTrail::SpecResponseBody {
            response_id: response_id.clone(),
        },
    }
}

/// A copy of an interaction trail with the same number of components.
fn dup_trail(t: &InteractionTrail) -> (r: InteractionTrail)
    ensures
        r.path@.len() == t.path@.len(),
{
    let n = t.path.len();
    let mut path: Vec<InteractionTrailComponent> = Vec::new();
    let mut l: usize = 0;
    while l < n
        invariant
            l <= n,
            n == t.path@.len(),
            path@.len() == l,
        decreases n - l,
    {
        let c = match &t.path[l] {
            InteractionTrailComponent::Url { path } => InteractionTrailComponent::Url {
                path: path.clone(),
            },
            InteractionTrailComponent::Method { method } => InteractionTrailComponent::Method {
                method: method.clone(),
            },
            InteractionTrailComponent::RequestBody { content_type } => {
                InteractionTrailComponent::RequestBody {
                    content_type: dup_opt_string(content_type),
                }
            },
            InteractionTrailComponent::ResponseStatusCode { status_code } => {
                InteractionTrailComponent::ResponseStatusCode { status_code: *status_code }
            },
            InteractionTrailComponent::ResponseBody { content_type, status_code } => {
                InteractionTrailComponent::ResponseBody {
                    content_type: dup_opt_string(content_type),
                    status_code: *status_code,
                }
            },
        };
        path.push(c);
        l += 1;
    }
    InteractionTrail { path }
}

/// How many results the shape escalation of `r` yields, given that the
/// engine reported `n_diffs` structural differences.
pub open spec fn escalated_matched_len(r: InteractionDiffResult, n_diffs: int) -> int {
    match r {
        InteractionDiffResult::MatchedRequestBodyContentType { root_shape_id, .. } => if root_shape_id is Some {
            n_diffs
        } else {
            0
        },
        InteractionDiffResult::MatchedResponseBodyContentType { root_shape_id, .. } => if root_shape_id is Some {
            n_diffs
        } else {
            0
        },
        _ => 1,
    }
}

/// What the shape escalation of one classification result looks like: a
/// matched body content type becomes one shape result per reported diff
/// (none when the matched operation declares no body), and every other
/// result passes through unchanged.
pub open spec fn escalated_entries_ok(
    r: InteractionDiffResult,
    n_diffs: int,
    seg: Seq<InteractionDiffResult>,
) -> bool {
    match r {
        InteractionDiffResult::MatchedRequestBodyContentType {
            requests_trail,
            root_shape_id,
            ..
        } => {
            &&& seg.len() == escalated_matched_len(r, n_diffs)
            &&& forall|l: int|
                0 <= l < seg.len() ==> ((#[trigger] seg[l])
                    matches InteractionDiffResult::UnmatchedRequestBodyShape {
                    requests_trail: rt,
                    ..
                } && spec_trail_view_eq(rt, requests_trail))
        },
        InteractionDiffResult::MatchedResponseBodyContentType {
            requests_trail,
            root_shape_id,
            ..
        } => {
            &&& seg.len() == escalated_matched_len(r, n_diffs)
            &&& forall|l: int|
                0 <= l < seg.len() ==> ((#[trigger] seg[l])
                    matches InteractionDiffResult::UnmatchedResponseBodyShape {
                    requests_trail: rt,
                    ..
                } && spec_trail_view_eq(rt, requests_trail))
        },
        _ => seg.len() == 1 && seg[0] == r,
    }
}

/// Rewrite one matched body-content-type result into shape results, one
/// per structural diff the engine reported; zero diffs means the body
/// fully conforms and nothing is reported.
pub fn escalate_matched(result: &InteractionDiffResult, shape_diffs: &Vec<ShapeDiffResult>) -> (out:
    Vec<InteractionDiffResult>)
    requires
        result is MatchedRequestBodyContentType || result is MatchedResponseBodyContentType,
    ensures
        escalated_entries_ok(*result, shape_diffs@.len() as int, out@),
        forall|l: int|
            0 <= l < out@.len() ==> (((#[trigger] out@[l])
                matches InteractionDiffResult::UnmatchedRequestBodyShape { shape_diff, .. }
                ==> shape_diff_view_eq(shape_diff, shape_diffs@[l])) && (out@[l]
                matches InteractionDiffResult::UnmatchedResponseBodyShape { shape_diff, .. }
                ==> shape_diff_view_eq(shape_diff, shape_diffs@[l]))),
{
    let mut out: Vec<InteractionDiffResult> = Vec::new();
    match result {
        InteractionDiffResult::MatchedRequestBodyContentType {
            interaction_trail,
            requests_trail,
            root_shape_id,
        } => {
            if root_shape_id.is_some() {
                let n = shape_diffs.len();
                let mut l: usize = 0;
                while l < n
                    invariant
                        l <= n,
                        n == shape_diffs@.len(),
                        out@.len() == l,
                        forall|k: int|
                            0 <= k < l ==> ((#[trigger] out@[k])
                                matches InteractionDiffResult::UnmatchedRequestBodyShape {
                                requests_trail: rt,
                                ..
                            } && spec_trail_view_eq(rt, *requests_trail)),
                        forall|k: int|
                            0 <= k < l ==> ((#[trigger] out@[k])
                                matches InteractionDiffResult::UnmatchedRequestBodyShape {
                                shape_diff,
                                ..
                            } ==> shape_diff_view_eq(shape_diff, shape_diffs@[k])),
                    decreases n - l,
                {
                    out.push(
                        InteractionDiffResult::UnmatchedRequestBodyShape {
                            interaction_trail: dup_trail(interaction_trail),
                            requests_trail: dup_spec_trail(requests_trail),
                            shape_diff: dup_shape_diff(&shape_diffs[l]),
                        },
                    );
                    l += 1;
                }
            }
        },
        InteractionDiffResult::MatchedResponseBodyContentType {
            interaction_trail,
            requests_trail,
            root_shape_id,
        } => {
            if root_shape_id.is_some() {
                let n = shape_diffs.len();
                let mut l: usize = 0;
                while l < n
                    invariant
                        l <= n,
                        n == shape_diffs@.len(),
                        out@.len() == l,
                        forall|k: int|
                            0 <= k < l ==> ((#[trigger] out@[k])
                                matches InteractionDiffResult::UnmatchedResponseBodyShape {
                                requests_trail: rt,
                                ..
                            } && spec_trail_view_eq(rt, *requests_trail)),
                        forall|k: int|
                            0 <= k < l ==> ((#[trigger] out@[k])
                                matches InteractionDiffResult::UnmatchedResponseBodyShape {
                                shape_diff,
                                ..
                            } ==> shape_diff_view_eq(shape_diff, shape_diffs@[k])),
                    decreases n - l,
                {
                    out.push(
                        InteractionDiffResult::UnmatchedResponseBodyShape {
                            interaction_trail: dup_trail(interaction_trail),
                            requests_trail: dup_spec_trail(requests_trail),
                            shape_diff: dup_shape_diff(&shape_diffs[l]),
                        },
                    );
                    l += 1;
                }
            }
        },
        _ => {
            proof {
                assert(false);
            }
        },
    }
    out
}

/// What a full diff answers: the classification of the interaction, with
/// each matched body content type escalated through the shape engine.  The
/// numbers of structural differences the engine reported for the request
/// and the response body are existentially bound: they depend on the
/// engine alone.
pub open spec fn diff_composition(
    proj: EndpointProjection,
    ix: HttpInteraction,
    results: Seq<InteractionDiffResult>,
    nreq: int,
    nresp: int,
    out: Seq<InteractionDiffResult>,
) -> bool {
    &&& classification_describes(proj, ix, results)
    &&& nreq >= 0
    &&& nresp >= 0
    &&& (results.len() == 1 ==> out == results)
    &&& (results.len() == 2 ==> exists|k: int|
        0 <= k <= out.len() && escalated_entries_ok(results[0], nreq, #[trigger] out.take(k))
            && escalated_entries_ok(results[1], nresp, out.skip(k)))
}

/// Classify one interaction and escalate every matched body content type
/// through the external shape-diff contract.
pub fn diff<E: ShapeEngine>(
    spec_projection: &SpecProjection,
    engine: &E,
    http_interaction: &HttpInteraction,
) -> (out: Vec<InteractionDiffResult>)
    requires
        spec_projection.wf(),
    ensures
        exists|results: Seq<InteractionDiffResult>, nreq: int, nresp: int|
            diff_composition(
                spec_projection.endpoint,
                *http_interaction,
                results,
                nreq,
                nresp,
                out@,
            ),
{
    let mut results = classify_interaction(spec_projection, http_interaction);
    let ghost results0 = results@;
    let mut out: Vec<InteractionDiffResult> = Vec::new();
    if results.len() == 1 {
        let r = results.remove(0);
        out.push(r);
        proof {
            assert(out@ =~= results0);
            assert(diff_composition(
                spec_projection.endpoint,
                *http_interaction,
                results0,
                0,
                0,
                out@,
            ));
        }
        return out;
    }
    let second = results.remove(1);
    let first = results.remove(0);
    let ghost gfirst = first;
    let ghost gsecond = second;
    let ghost mut nreq: int = 0;
    let is_matched_first = match &first {
        InteractionDiffResult::MatchedRequestBodyContentType { .. } => true,
        _ => false,
    };
    if is_matched_first {
        let shape = match &first {
            InteractionDiffResult::MatchedRequestBodyContentType { root_shape_id, .. } => {
                match root_shape_id {
                    Some(shape) => Some(shape.clone()),
                    None => None,
                }
            },
            _ => None,
        };
        if let Some(shape) = shape {
            let ds = engine.diff_shape(&http_interaction.request.body.value, &shape);
            let seg = escalate_matched(&first, &ds);
            proof {
                nreq = ds@.len() as int;
            }
            let mut seg = seg;
            let ghost out0 = out@;
            let ghost seg0 = seg@;
            let total = seg.len();
            let mut idx: usize = 0;
            while seg.len() > 0
                invariant
                    out@ =~= out0 + seg0.take(idx as int),
                    seg@ =~= seg0.skip(idx as int),
                    idx as int + seg@.len() == seg0.len(),
                    total == seg0.len(),
                    idx <= total,
                decreases seg@.len(),
            {
                let ghost segpre = seg@;
                let e = seg.remove(0);
                out.push(e);
                idx += 1;
                proof {
                    assert(seg@ =~= segpre.drop_first());
                    assert(seg@ =~= seg0.skip(idx as int));
                    assert(out@ =~= out0 + seg0.take(idx as int));
                }
            }
            proof {
                assert(seg0.take(idx as int) =~= seg0);
                assert(out@ =~= out0 + seg0);
            }
            proof {
                assert(out@ =~= out0 + seg0);
            }
        } else {
            // matched operation without a declared body: nothing to diff
        }
    } else {
        out.push(first);
    }
    let ghost kk = out@.len() as int;
    proof {
        assert(escalated_entries_ok(gfirst, nreq, out@));
    }
    let ghost mut nresp: int = 0;
    let is_matched_second = match &second {
        InteractionDiffResult::MatchedResponseBodyContentType { .. } => true,
        _ => false,
    };
    let ghost out_first = out@;
    if is_matched_second {
        let shape = match &second {
            InteractionDiffResult::MatchedResponseBodyContentType { root_shape_id, .. } => {
                match root_shape_id {
                    Some(shape) => Some(shape.clone()),
                    None => None,
                }
            },
            _ => None,
        };
        if let Some(shape) = shape {
            let ds = engine.diff_shape(&http_interaction.response.body.value, &shape);
            let seg = escalate_matched(&second, &ds);
            proof {
                nresp = ds@.len() as int;
            }
            let mut seg = seg;
            let ghost out0 = out@;
            let ghost seg0 = seg@;
            let total = seg.len();
            let mut idx: usize = 0;
            while seg.len() > 0
                invariant
                    out@ =~= out0 + seg0.take(idx as int),
                    seg@ =~= seg0.skip(idx as int),
                    idx as int + seg@.len() == seg0.len(),
                    total == seg0.len(),
                    idx <= total,
                decreases seg@.len(),
            {
                let ghost segpre = seg@;
                let e = seg.remove(0);
                out.push(e);
                idx += 1;
                proof {
                    assert(seg@ =~= segpre.drop_first());
                    assert(seg@ =~= seg0.skip(idx as int));
                    assert(out@ =~= out0 + seg0.take(idx as int));
                }
            }
            proof {
                assert(seg0.take(idx as int) =~= seg0);
                assert(out@ =~= out0 + seg0);
            }
            proof {
                assert(out@ =~= out0 + seg0);
                assert(escalated_entries_ok(gsecond, nresp, out@.skip(kk)));
            }
        } else {
            proof {
                assert(escalated_entries_ok(gsecond, nresp, out@.skip(kk)));
            }
        }
    } else {
        out.push(second);
        proof {
            assert(out@.skip(kk) =~= seq![gsecond]);
            assert(escalated_entries_ok(gsecond, nresp, out@.skip(kk)));
        }
    }
    proof {
        assert(out@.take(kk) =~= out_first);
        assert(escalated_entries_ok(gfirst, nreq, out@.take(kk)));
        assert(diff_composition(
            spec_projection.endpoint,
            *http_interaction,
            results0,
            nreq,
            nresp,
            out@,
        ));
    }
    out
}

/// Where an undocumented body was observed.
pub enum BodyAnalysisLocation {
    UnmatchedRequest { path_id: PathComponentId, method: HttpMethod, content_type: Option<String> },
    UnmatchedResponse {
        path_id: PathComponentId,
        method: HttpMethod,
        content_type: Option<String>,
        status_code: HttpStatusCode,
    },
}

/// One undocumented body, located in the spec and paired with the shape
/// observations the external engine inferred from it.
pub struct BodyAnalysisResult {
    pub body_location: BodyAnalysisLocation,
    pub trail_observations: TrailObservations,
}

/// The analysis locations that the classification results from index `j`
/// on give rise to: one per unmatched body-content-type result.
pub open spec fn analysis_from(
    results: Seq<InteractionDiffResult>,
    ix: HttpInteraction,
    j: int,
) -> Seq<BodyAnalysisLocation>
    decreases results.len() - j,
{
    if 0 <= j < results.len() {
        let head: Seq<BodyAnalysisLocation> = match results[j] {
            InteractionDiffResult::UnmatchedRequestBodyContentType {
                requests_trail,
                ..
            } => match requests_trail {
                RequestSpecTrail::SpecPath { path_id } => seq![
                    BodyAnalysisLocation::UnmatchedRequest {
                        path_id,
                        method: ix.request.method,
                        content_type: ix.request.body.content_type,
                    },
                ],
                _ => Seq::empty(),
            },
            InteractionDiffResult::UnmatchedResponseBodyContentType {
                requests_trail,
                ..
            } => match requests_trail {
                RequestSpecTrail::SpecPath { path_id } => seq![
                    BodyAnalysisLocation::UnmatchedResponse {
                        path_id,
                        method: ix.request.method,
                        content_type: ix.response.body.content_type,
                        status_code: ix.response.status_code,
                    },
                ],
                _ => Seq::empty(),
            },
            _ => Seq::empty(),
        };
        head + analysis_from(results, ix, j + 1)
    } else {
        Seq::empty()
    }
}

/// Classify one interaction and, for each body whose content type the spec
/// does not declare, forward the raw body to the external trail-observation
/// contract, proposing a shape candidate for it.
pub fn analyze_undocumented_bodies<E: ShapeEngine>(
    spec_projection: &SpecProjection,
    engine: &E,
    interaction: &HttpInteraction,
) -> (out: Vec<BodyAnalysisResult>)
    requires
        spec_projection.wf(),
    ensures
        exists|results: Seq<InteractionDiffResult>|
            {
                &&& #[trigger] classification_describes(
                    spec_projection.endpoint,
                    *interaction,
                    results,
                )
                &&& out@.len() == analysis_from(results, *interaction, 0).len()
                &&& forall|l: int|
                    0 <= l < out@.len() ==> (#[trigger] out@[l]).body_location == analysis_from(
                        results,
                        *interaction,
                        0,
                    )[l]
            },
{
    let results = classify_interaction(spec_projection, interaction);
    let ghost results0 = results@;
    let mut out: Vec<BodyAnalysisResult> = Vec::new();
    let ghost mut glocs: Seq<BodyAnalysisLocation> = Seq::empty();
    let n = results.len();
    let mut j: usize = 0;
    while j < n
        invariant
            j <= n,
            n == results@.len(),
            results0 == results@,
            glocs + analysis_from(results0, *interaction, j as int) == analysis_from(
                results0,
                *interaction,
                0,
            ),
            out@.len() == glocs.len(),
            forall|l: int|
                0 <= l < glocs.len() ==> (#[trigger] out@[l]).body_location == glocs[l],
        decreases n - j,
    {
        let ghost glocs0 = glocs;
        match &results[j] {
            InteractionDiffResult::UnmatchedRequestBodyContentType { requests_trail, .. } => {
                if let RequestSpecTrail::SpecPath { path_id } = requests_trail {
                    let trail_observations = engine.observe_body_trails(
                        &interaction.request.body.value,
                    );
                    out.push(
                        BodyAnalysisResult {
                            body_location: BodyAnalysisLocation::UnmatchedRequest {
                                path_id: path_id.clone(),
                                method: interaction.request.method.clone(),
                                content_type: dup_opt_string(&interaction.request.body.content_type),
                            },
                            trail_observations,
                        },
                    );
                    proof {
                        glocs = glocs + seq![
                            BodyAnalysisLocation::UnmatchedRequest {
                                path_id: *path_id,
                                method: interaction.request.method,
                                content_type: interaction.request.body.content_type,
                            },
                        ];
                    }
                }
            },
            InteractionDiffResult::UnmatchedResponseBodyContentType { requests_trail, .. } => {
                if let RequestSpecTrail::SpecPath { path_id } = requests_trail {
                    let trail_observations = engine.observe_body_trails(
                        &interaction.response.body.value,
                    );
                    out.push(
                        BodyAnalysisResult {
                            body_location: BodyAnalysisLocation::UnmatchedResponse {
                                path_id: path_id.clone(),
                                method: interaction.request.method.clone(),
                                content_type: dup_opt_string(
                                    &interaction.response.body.content_type,
                                ),
                                status_code: interaction.response.status_code,
                            },
                            trail_observations,
                        },
                    );
                    proof {
                        glocs = glocs + seq![
                            BodyAnalysisLocation::UnmatchedResponse {
                                path_id: *path_id,
                                method: interaction.request.method,
                                content_type: interaction.response.body.content_type,
                                status_code: interaction.response.status_code,
                            },
                        ];
                    }
                }
            },
            _ => {},
        }
        proof {
            let jj = j as int;
            let head: Seq<BodyAnalysisLocation> = glocs.skip(glocs0.len() as int);
            assert(glocs =~= glocs0 + head);
            assert(analysis_from(results0, *interaction, jj) =~= head + analysis_from(
                results0,
                *interaction,
                jj + 1,
            ));
            assert(glocs + analysis_from(results0, *interaction, jj + 1) =~= analysis_from(
                results0,
                *interaction,
                0,
            ));
        }
        j += 1;
    }
    proof {
        assert(analysis_from(results0, *interaction, n as int) =~= Seq::<
            BodyAnalysisLocation,
        >::empty());
        assert(glocs =~= analysis_from(results0, *interaction, 0));
    }
    out
}

/// Classification completeness: for an interaction whose path resolves,
/// whose method and request content type match a declared operation, and
/// whose status code and response content type match a declared response,
/// the classification holds only Matched outcomes; and since zero
/// structural diffs mean the body fully conforms, a conformant body
/// escalates to no shape results at all.
pub proof fn lemma_conformant_interaction_all_matched(
    proj: EndpointProjection,
    ix: HttpInteraction,
    results: Seq<InteractionDiffResult>,
)
    requires
        proj.wf(),
        classification_describes(proj, ix, results),
        proj.resolve_path_spec(ix.request.path@) is Some,
        exists|e: int|
            proj.is_request_ct(
                e,
                proj.idx_of(proj.resolve_path_spec(ix.request.path@)->0),
                ix.request.method@,
                req_ct_view(ix),
            ),
        exists|e: int|
            proj.is_response_status_ct(
                e,
                proj.idx_of(proj.resolve_path_spec(ix.request.path@)->0),
                ix.request.method@,
                ix.response.status_code,
                resp_ct_view(ix),
            ),
    ensures
        results.len() == 2,
        results[0] is MatchedRequestBodyContentType,
        results[1] is MatchedResponseBodyContentType,
        escalated_matched_len(results[0], 0) == 0,
        escalated_matched_len(results[1], 0) == 0,
{
    let pid = proj.resolve_path_spec(ix.request.path@)->0;
    let p = proj.idx_of(pid);
    let e1 = choose|e: int| proj.is_request_ct(e, p, ix.request.method@, req_ct_view(ix));
    assert(proj.is_request_ct(e1, p, ix.request.method@, req_ct_view(ix)));
    let e2 = choose|e: int|
        proj.is_response_status_ct(
            e,
            p,
            ix.request.method@,
            ix.response.status_code,
            resp_ct_view(ix),
        );
    assert(proj.is_response_status_ct(
        e2,
        p,
        ix.request.method@,
        ix.response.status_code,
        resp_ct_view(ix),
    ));
    assert(is_matched_req_ct(proj, ix, p, results[0]));
    assert(is_matched_resp_ct(proj, ix, p, results[1]));
}

/// Classification independence: an interaction with a matching path and
/// method but an undeclared request content type, and a matching,
/// conformant response, yields exactly one Unmatched request result and no
/// response-related results at all: the full diff is that one result.
pub proof fn lemma_unmatched_request_ct_stands_alone(
    proj: EndpointProjection,
    ix: HttpInteraction,
    results: Seq<InteractionDiffResult>,
    nreq: int,
    out: Seq<InteractionDiffResult>,
)
    requires
        proj.wf(),
        proj.resolve_path_spec(ix.request.path@) is Some,
        forall|e: int|
            !proj.is_request_ct(
                e,
                proj.idx_of(proj.resolve_path_spec(ix.request.path@)->0),
                ix.request.method@,
                req_ct_view(ix),
            ),
        exists|e: int|
            proj.is_response_status_ct(
                e,
                proj.idx_of(proj.resolve_path_spec(ix.request.path@)->0),
                ix.request.method@,
                ix.response.status_code,
                resp_ct_view(ix),
            ),
        diff_composition(proj, ix, results, nreq, 0, out),
    ensures
        results.len() == 2,
        results[0] is UnmatchedRequestBodyContentType,
        results[1] is MatchedResponseBodyContentType,
        out.len() == 1,
        is_unmatched_req_ct(
            proj,
            ix,
            proj.resolve_path_spec(ix.request.path@)->0,
            out[0],
        ),
{
    let pid = proj.resolve_path_spec(ix.request.path@)->0;
    let p = proj.idx_of(pid);
    let e2 = choose|e: int|
        proj.is_response_status_ct(
            e,
            p,
            ix.request.method@,
            ix.response.status_code,
            resp_ct_view(ix),
        );
    assert(proj.is_response_status_ct(
        e2,
        p,
        ix.request.method@,
        ix.response.status_code,
        resp_ct_view(ix),
    ));
    assert(is_unmatched_req_ct(proj, ix, pid, results[0]));
    assert(is_matched_resp_ct(proj, ix, p, results[1]));
    let k = choose|k: int|
        0 <= k <= out.len() && escalated_entries_ok(results[0], nreq, #[trigger] out.take(k))
            && escalated_entries_ok(results[1], 0, out.skip(k));
    assert(escalated_entries_ok(results[0], nreq, out.take(k)));
    assert(escalated_entries_ok(results[1], 0, out.skip(k)));
    assert(out.take(k).len() == 1);
    assert(out.skip(k).len() == 0);
    assert(out.len() == 1);
    assert(out.take(k)[0] == results[0]);
    assert(out[0] == results[0]);
}

} // verus!
