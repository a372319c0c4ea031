//! Read-only queries over an endpoint projection: path resolution (the
//! ambiguity-aware algorithm and its deprecated greedy predecessor),
//! unused-path detection, endpoint lookup and deletion-command synthesis.

use vstd::prelude::*;

use crate::commands::{EndpointCommand, SpecCommand};
use crate::events::HttpInteraction;
use crate::projection::{
    usizes, EndpointProjection, NodeKind, QueryParametersDescriptor, RequestDescriptor,
    ResponseBodyDescriptor,
};
use crate::state::{HttpMethod, PathComponentId, QueryParametersId, RequestId, ResponseId};

verus! {

/// The domain id of the path tree's root.
pub const ROOT_PATH_ID: &'static str = "root";

/// The segments of `s[i..]`, split on `'/'`.  Splitting an empty sequence
/// yields one empty segment, as `str::split` does.
pub open spec fn split_from(s: Seq<char>, i: int) -> Seq<Seq<char>>
    decreases s.len() - i,
{
    if i < s.len() {
        let rest = split_from(s, i + 1);
        if s[i] == '/' {
            seq![Seq::<char>::empty()] + rest
        } else {
            seq![seq![s[i]] + rest[0]] + rest.drop_first()
        }
    } else {
        seq![Seq::<char>::empty()]
    }
}

/// A split always yields at least one segment.
pub proof fn lemma_split_from_len(s: Seq<char>, i: int)
    ensures
        split_from(s, i).len() >= 1,
    decreases s.len() - i,
{
    if i < s.len() {
        lemma_split_from_len(s, i + 1);
    }
}

/// The normalized form of a request path: the root path stays itself, any
/// other path loses one trailing slash.
pub open spec fn normalized_path(path: Seq<char>) -> Seq<char> {
    if path == seq!['/'] {
        path
    } else if path.len() > 0 && path[path.len() - 1] == '/' {
        path.drop_last()
    } else {
        path
    }
}

/// The view of an optional borrowed string.
pub open spec fn opt_str_view(ct: Option<&String>) -> Option<Seq<char>> {
    match ct {
        Some(c) => Some(c@),
        None => None,
    }
}

impl EndpointProjection {
    /// Node `j` matches one concrete path segment: a parameter matches any
    /// segment, a static component its own name.
    pub open spec fn seg_matches(self, j: int, seg: Seq<char>) -> bool {
        self.entry(j).kind matches NodeKind::PathComponent { component } && (component.is_parameter
            || component.name@ == seg)
    }

    /// Node `i` is a parameter path component.
    pub open spec fn is_param_node(self, i: int) -> bool {
        self.entry(i).kind matches NodeKind::PathComponent { component } && component.is_parameter
    }

    /// All path nodes that finish matching `segs[k..]` walking down from
    /// node `i`, in discovery order.  The traversal visits children in
    /// insertion order (ascending arena index), the one deterministic
    /// ordering this model commits to.
    pub open spec fn cands(self, segs: Seq<Seq<char>>, k: int, i: int) -> Seq<int>
        decreases segs.len() - k, self.n() + 1,
    {
        if k >= segs.len() {
            seq![i]
        } else {
            self.cands_scan(segs, k, i, 0)
        }
    }

    /// The candidates contributed by children of `i` with arena index `>= j`.
    pub open spec fn cands_scan(self, segs: Seq<Seq<char>>, k: int, i: int, j: int) -> Seq<int>
        decreases segs.len() - k, self.n() - j,
    {
        if k < segs.len() && 0 <= j < self.n() {
            (if self.live(j) && (self.entry(j).parent matches Some(p) && p as int == i)
                && self.seg_matches(j, segs[k]) {
                self.cands(segs, k + 1, j)
            } else {
                Seq::empty()
            }) + self.cands_scan(segs, k, i, j + 1)
        } else {
            Seq::empty()
        }
    }

    /// Every candidate is a live path component inside the arena.
    pub proof fn lemma_cands_path_nodes(self, segs: Seq<Seq<char>>, k: int, i: int)
        requires
            k < segs.len(),
        ensures
            forall|l: int|
                0 <= l < self.cands(segs, k, i).len() ==> {
                    let e = #[trigger] self.cands(segs, k, i)[l];
                    &&& self.live(e)
                    &&& self.entry(e).kind is PathComponent
                },
        decreases segs.len() - k, self.n() + 1,
    {
        self.lemma_cands_scan_path_nodes(segs, k, i, 0);
    }

    /// As `lemma_cands_path_nodes`, for the scan helper.
    pub proof fn lemma_cands_scan_path_nodes(self, segs: Seq<Seq<char>>, k: int, i: int, j: int)
        requires
            k < segs.len(),
        ensures
            forall|l: int|
                0 <= l < self.cands_scan(segs, k, i, j).len() ==> {
                    let e = #[trigger] self.cands_scan(segs, k, i, j)[l];
                    &&& self.live(e)
                    &&& self.entry(e).kind is PathComponent
                },
        decreases segs.len() - k, self.n() - j,
    {
        if k < segs.len() && 0 <= j < self.n() {
            if self.live(j) && (self.entry(j).parent matches Some(p) && p as int == i)
                && self.seg_matches(j, segs[k]) {
                if k + 1 < segs.len() {
                    self.lemma_cands_path_nodes(segs, k + 1, j);
                } else {
                    assert(self.cands(segs, k + 1, j) =~= seq![j]);
                }
            }
            self.lemma_cands_scan_path_nodes(segs, k, i, j + 1);
        }
    }

    /// The first candidate that is a static (non-parameter) component.
    pub open spec fn first_static(self, cs: Seq<int>) -> Option<int>
        decreases cs.len(),
    {
        if cs.len() == 0 {
            None
        } else if !self.is_param_node(cs[0]) {
            Some(cs[0])
        } else {
            self.first_static(cs.drop_first())
        }
    }

    /// Skipping a prefix of parameter candidates reaches the first static one.
    pub proof fn lemma_first_static_skip(self, cs: Seq<int>, k: int)
        requires
            0 <= k <= cs.len(),
            forall|l: int| 0 <= l < k ==> self.is_param_node(#[trigger] cs[l]),
        ensures
            k < cs.len() && !self.is_param_node(cs[k]) ==> self.first_static(cs) == Some(cs[k]),
            k == cs.len() ==> self.first_static(cs) is None,
        decreases cs.len(),
    {
        if cs.len() > 0 && k > 0 {
            assert forall|l: int| 0 <= l < k - 1 implies self.is_param_node(
                #[trigger] cs.drop_first()[l],
            ) by {
                assert(cs.drop_first()[l] == cs[l + 1]);
            }
            self.lemma_first_static_skip(cs.drop_first(), k - 1);
            if k < cs.len() {
                assert(cs.drop_first()[k - 1] == cs[k]);
            }
        }
    }

    /// The first live static child of `i` named `seg`, scanning from `j`.
    pub open spec fn first_static_child_from(self, i: int, seg: Seq<char>, j: int) -> Option<int>
        decreases self.n() - j,
    {
        if 0 <= j < self.n() {
            if self.live(j) && (self.entry(j).parent matches Some(p) && p as int == i) && (
            self.entry(j).kind matches NodeKind::PathComponent { component }
                && !component.is_parameter && component.name@ == seg) {
                Some(j)
            } else {
                self.first_static_child_from(i, seg, j + 1)
            }
        } else {
            None
        }
    }

    /// The first live parameter child of `i`, scanning from `j`.
    pub open spec fn first_param_child_from(self, i: int, j: int) -> Option<int>
        decreases self.n() - j,
    {
        if 0 <= j < self.n() {
            if self.live(j) && (self.entry(j).parent matches Some(p) && p as int == i) && (
            self.entry(j).kind matches NodeKind::PathComponent { component }
                && component.is_parameter) {
                Some(j)
            } else {
                self.first_param_child_from(i, j + 1)
            }
        } else {
            None
        }
    }

    /// The deprecated greedy resolution: at each segment commit to the first
    /// static child whose name matches, else the first parameter child, and
    /// never backtrack.
    pub open spec fn greedy_resolve(self, segs: Seq<Seq<char>>, k: int, i: int) -> Option<int>
        decreases segs.len() - k,
    {
        if k >= segs.len() {
            Some(i)
        } else {
            match self.first_static_child_from(i, segs[k], 0) {
                Some(c) => self.greedy_resolve(segs, k + 1, c),
                None => match self.first_param_child_from(i, 0) {
                    Some(c) => self.greedy_resolve(segs, k + 1, c),
                    None => None,
                },
            }
        }
    }

    /// What the deprecated algorithm answers for `path`.
    pub open spec fn resolve_path_spec_deprecated(self, path: Seq<char>) -> Option<Seq<char>> {
        if path == seq!['/'] {
            Some("root"@)
        } else {
            let comps = split_from(normalized_path(path), 0);
            match self.greedy_resolve(comps.drop_first(), 0, 0) {
                Some(i) => self.id_view(i),
                None => None,
            }
        }
    }

    /// A declared body matches an observed content type when both are
    /// absent, or both are present and the content types are equal.
    pub open spec fn ct_matches(body: Option<crate::projection::BodyDescriptor>, ct: Option<Seq<char>>) -> bool {
        match ct {
            Some(c) => body matches Some(bd) && bd.http_content_type@ == c,
            None => body is None,
        }
    }

    /// Arena indices of the live requests under path `p` and `method`, from
    /// index `j` on, in index (insertion) order.
    pub open spec fn requests_under_from(self, p: int, method: Seq<char>, j: int) -> Seq<int>
        decreases self.n() - j,
    {
        if 0 <= j < self.n() {
            (if self.is_request_under(j, p, method) {
                seq![j]
            } else {
                Seq::empty()
            }) + self.requests_under_from(p, method, j + 1)
        } else {
            Seq::empty()
        }
    }

    /// All live requests under path `p` and `method`, in insertion order.
    pub open spec fn requests_under(self, p: int, method: Seq<char>) -> Seq<int> {
        self.requests_under_from(p, method, 0)
    }

    /// As `requests_under_from`, for responses (any status code).
    pub open spec fn responses_under_from(self, p: int, method: Seq<char>, j: int) -> Seq<int>
        decreases self.n() - j,
    {
        if 0 <= j < self.n() {
            (if self.is_response_under(j, p, method) {
                seq![j]
            } else {
                Seq::empty()
            }) + self.responses_under_from(p, method, j + 1)
        } else {
            Seq::empty()
        }
    }

    /// All live responses under path `p` and `method`, in insertion order.
    pub open spec fn responses_under(self, p: int, method: Seq<char>) -> Seq<int> {
        self.responses_under_from(p, method, 0)
    }

    /// As `requests_under_from`, for responses with one status code.
    pub open spec fn responses_status_from(self, p: int, method: Seq<char>, code: u16, j: int) -> Seq<int>
        decreases self.n() - j,
    {
        if 0 <= j < self.n() {
            (if self.is_response_under_status(j, p, method, code) {
                seq![j]
            } else {
                Seq::empty()
            }) + self.responses_status_from(p, method, code, j + 1)
        } else {
            Seq::empty()
        }
    }

    /// All live responses under path `p`, `method` and `code`, in order.
    pub open spec fn responses_under_status(self, p: int, method: Seq<char>, code: u16) -> Seq<int> {
        self.responses_status_from(p, method, code, 0)
    }

    /// `requests_under` holds exactly the live requests under the pair.
    pub proof fn lemma_requests_under_membership(self, p: int, method: Seq<char>, j: int)
        requires
            0 <= j,
        ensures
            forall|e: int|
                #[trigger] self.requests_under_from(p, method, j).contains(e) <==> (j <= e
                    && self.is_request_under(e, p, method)),
        decreases self.n() - j,
    {
        let s = self.requests_under_from(p, method, j);
        if 0 <= j < self.n() {
            self.lemma_requests_under_membership(p, method, j + 1);
            let rest = self.requests_under_from(p, method, j + 1);
            assert forall|e: int| #[trigger] s.contains(e) implies (j <= e && self.is_request_under(
                e,
                p,
                method,
            )) by {
                let idx = choose|idx: int| 0 <= idx < s.len() && s[idx] == e;
                if self.is_request_under(j, p, method) {
                    if idx > 0 {
                        assert(rest[idx - 1] == e);
                        assert(rest.contains(e));
                    }
                } else {
                    assert(rest[idx] == e);
                    assert(rest.contains(e));
                }
            }
            assert forall|e: int| j <= e && self.is_request_under(e, p, method) implies #[trigger] s.contains(
                e,
            ) by {
                if e == j {
                    assert(s[0] == j);
                } else {
                    assert(rest.contains(e));
                    let idx = choose|idx: int| 0 <= idx < rest.len() && rest[idx] == e;
                    if self.is_request_under(j, p, method) {
                        assert(s[idx + 1] == e);
                    } else {
                        assert(s[idx] == e);
                    }
                }
            }
        } else {
            assert forall|e: int| j <= e && self.is_request_under(e, p, method) implies #[trigger] s.contains(
                e,
            ) by {
                assert(self.live(e));
                assert(false);
            }
        }
    }

    /// `responses_under` holds exactly the live responses under the pair.
    pub proof fn lemma_responses_under_membership(self, p: int, method: Seq<char>, j: int)
        requires
            0 <= j,
        ensures
            forall|e: int|
                #[trigger] self.responses_under_from(p, method, j).contains(e) <==> (j <= e
                    && self.is_response_under(e, p, method)),
        decreases self.n() - j,
    {
        let s = self.responses_under_from(p, method, j);
        if 0 <= j < self.n() {
            self.lemma_responses_under_membership(p, method, j + 1);
            let rest = self.responses_under_from(p, method, j + 1);
            assert forall|e: int| #[trigger] s.contains(e) implies (j <= e
                && self.is_response_under(e, p, method)) by {
                let idx = choose|idx: int| 0 <= idx < s.len() && s[idx] == e;
                if self.is_response_under(j, p, method) {
                    if idx > 0 {
                        assert(rest[idx - 1] == e);
                        assert(rest.contains(e));
                    }
                } else {
                    assert(rest[idx] == e);
                    assert(rest.contains(e));
                }
            }
            assert forall|e: int| j <= e && self.is_response_under(e, p, method) implies #[trigger] s.contains(
                e,
            ) by {
                if e == j {
                    assert(s[0] == j);
                } else {
                    assert(rest.contains(e));
                    let idx = choose|idx: int| 0 <= idx < rest.len() && rest[idx] == e;
                    if self.is_response_under(j, p, method) {
                        assert(s[idx + 1] == e);
                    } else {
                        assert(s[idx] == e);
                    }
                }
            }
        } else {
            assert forall|e: int| j <= e && self.is_response_under(e, p, method) implies #[trigger] s.contains(
                e,
            ) by {
                assert(self.live(e));
                assert(false);
            }
        }
    }

    /// Request `e` under the pair also matches the observed content type.
    pub open spec fn is_request_ct(self, e: int, p: int, method: Seq<char>, ct: Option<Seq<char>>) -> bool {
        self.is_request_under(e, p, method) && Self::ct_matches(
            self.entry(e).kind->request.body,
            ct,
        )
    }

    /// `e` is the first request under the pair matching the content type.
    pub open spec fn is_first_request_ct(self, e: int, p: int, method: Seq<char>, ct: Option<Seq<char>>) -> bool {
        self.is_request_ct(e, p, method, ct) && (forall|e2: int|
            0 <= e2 < e ==> !self.is_request_ct(e2, p, method, ct))
    }

    /// Response `e` under path, method and status also matches the content type.
    pub open spec fn is_response_status_ct(self, e: int, p: int, method: Seq<char>, code: u16, ct: Option<Seq<char>>) -> bool {
        self.is_response_under_status(e, p, method, code) && Self::ct_matches(
            self.entry(e).kind->response.body,
            ct,
        )
    }

    /// `e` is the first such response.
    pub open spec fn is_first_response_status_ct(self, e: int, p: int, method: Seq<char>, code: u16, ct: Option<Seq<char>>) -> bool {
        self.is_response_status_ct(e, p, method, code, ct) && (forall|e2: int|
            0 <= e2 < e ==> !self.is_response_status_ct(e2, p, method, code, ct))
    }

    /// `e` is the first query-parameters node under the pair.
    pub open spec fn is_first_query_params(self, e: int, p: int, method: Seq<char>) -> bool {
        self.is_query_params_under(e, p, method) && (forall|e2: int|
            0 <= e2 < e ==> !self.is_query_params_under(e2, p, method))
    }

    /// Entry `m` is a live method node hanging from path node `p`.
    pub open spec fn is_method_node_under(self, m: int, p: int) -> bool {
        self.live(m) && self.entry(m).kind is HttpMethod && (self.entry(m).parent matches Some(pp)
            && pp as int == p)
    }

    /// Entry `r` witnesses a declared endpoint of path node `p`: a live
    /// request one method below it, or a live response one method and one
    /// status code below it.
    pub open spec fn endpoint_witness(self, r: int, p: int) -> bool {
        ||| (self.live(r) && self.entry(r).kind is Request && (self.entry(r).parent matches Some(m)
            && self.is_method_node_under(m as int, p)))
        ||| (self.live(r) && self.entry(r).kind is Response && (self.entry(r).parent matches Some(
            sc,
        ) && self.live(sc as int) && self.entry(sc as int).kind is HttpStatusCode && (self.entry(
            sc as int,
        ).parent matches Some(m) && self.is_method_node_under(m as int, p))))
    }

    /// Path node `p` has a directly declared endpoint.
    pub open spec fn has_endpoint(self, p: int) -> bool {
        exists|r: int| self.endpoint_witness(r, p)
    }

    /// The unused-path bookkeeping for the subtree of path node `i`: the
    /// ids reported unused inside it, in post-order finish order, and
    /// whether `i` itself is unused (no endpoint of its own and no used
    /// child).
    pub open spec fn unused_info(self, i: int) -> (Seq<Seq<char>>, bool)
        decreases self.n() - i, self.n() + 1,
    {
        if 0 <= i < self.n() {
            let s = self.unused_scan(i, i + 1);
            if !self.has_endpoint(i) && !s.1 {
                (s.0 + seq![self.id_view(i)->0], true)
            } else {
                (s.0, false)
            }
        } else {
            (Seq::empty(), false)
        }
    }

    /// The bookkeeping over the path children of `i` with arena index at
    /// least `j`: their concatenated unused lists, and whether any of them
    /// is used.
    pub open spec fn unused_scan(self, i: int, j: int) -> (Seq<Seq<char>>, bool)
        decreases self.n() - i, self.n() - j,
    {
        if i < j < self.n() {
            let rest = self.unused_scan(i, j + 1);
            if self.live(j) && (self.entry(j).parent matches Some(p) && p as int == i)
                && self.entry(j).kind is PathComponent {
                let child = self.unused_info(j);
                (child.0 + rest.0, !child.1 || rest.1)
            } else {
                rest
            }
        } else {
            (Seq::empty(), false)
        }
    }

    /// The ordered ids of the unused paths: every path component that has
    /// no endpoint of its own and no used descendant, the root excepted, in
    /// the post-order finish order of the traversal.
    pub open spec fn unused_paths_spec(self) -> Seq<Seq<char>> {
        self.unused_scan(0, 1).0
    }

    /// Entry `c` is a live path-component child of `i`.
    pub open spec fn is_child_path(self, c: int, i: int) -> bool {
        self.live(c) && (self.entry(c).parent matches Some(p) && p as int == i) && self.entry(
            c,
        ).kind is PathComponent
    }

    /// Subtree membership is transitive along a parent edge.
    pub proof fn lemma_subtree_trans(self, i: int, c: int, e: int)
        requires
            self.in_subtree(c, e),
            self.in_subtree(i, c),
        ensures
            self.in_subtree(i, e),
        decreases e,
    {
        if e != c {
            let pe = self.entry(e).parent->0 as int;
            self.lemma_subtree_trans(i, c, pe);
        }
    }

    /// A strict descendant of `i` lies in the subtree of one of `i`'s
    /// path-component children.
    pub proof fn lemma_subtree_step(self, i: int, e: int)
        requires
            self.wf(),
            self.in_subtree(i, e),
            e != i,
            self.is_path_node(e),
            0 <= i < self.n(),
        ensures
            exists|c: int| #[trigger] self.is_child_path(c, i) && self.in_subtree(c, e),
        decreases e,
    {
        let pe = self.entry(e).parent->0 as int;
        assert(self.entry(e).parent matches Some(q) && (q as int) < e);
        assert(self.live(pe));
        assert(self.is_path_node(pe));
        if pe == i {
            assert(self.is_child_path(e, i) && self.in_subtree(e, e));
        } else {
            assert(self.in_subtree(i, pe));
            self.lemma_subtree_step(i, pe);
            let c = choose|c: int| #[trigger] self.is_child_path(c, i) && self.in_subtree(c, pe);
            assert(self.in_subtree(c, e));
        }
    }

    /// The used-child flag of the scan says exactly that some path child at
    /// index `j` or beyond is used.
    pub proof fn lemma_unused_scan_flag(self, i: int, j: int)
        requires
            self.wf(),
            0 <= i,
            i < j,
        ensures
            self.unused_scan(i, j).1 <==> (exists|c: int|
                j <= c < self.n() && #[trigger] self.is_child_path(c, i) && !self.unused_info(
                    c,
                ).1),
        decreases self.n() - j,
    {
        if i < j < self.n() {
            self.lemma_unused_scan_flag(i, j + 1);
            if self.unused_scan(i, j).1 {
                if self.is_child_path(j, i) && !self.unused_info(j).1 {
                    assert(j <= j < self.n() && self.is_child_path(j, i) && !self.unused_info(
                        j,
                    ).1);
                } else {
                    assert(self.unused_scan(i, j + 1).1);
                    let c = choose|c: int|
                        j + 1 <= c < self.n() && #[trigger] self.is_child_path(c, i)
                            && !self.unused_info(c).1;
                    assert(j <= c < self.n() && self.is_child_path(c, i) && !self.unused_info(
                        c,
                    ).1);
                }
            }
            if exists|c: int|
                j <= c < self.n() && #[trigger] self.is_child_path(c, i) && !self.unused_info(
                    c,
                ).1 {
                let c = choose|c: int|
                    j <= c < self.n() && #[trigger] self.is_child_path(c, i) && !self.unused_info(
                        c,
                    ).1;
                if c == j {
                    assert(self.unused_scan(i, j).1);
                } else {
                    assert(j + 1 <= c < self.n() && self.is_child_path(c, i)
                        && !self.unused_info(c).1);
                    assert(self.unused_scan(i, j + 1).1);
                    assert(self.unused_scan(i, j).1);
                }
            }
        }
    }

    /// A path node is unused exactly when no path node of its subtree —
    /// itself included — has a directly declared endpoint.
    pub proof fn lemma_unused_characterization(self, i: int)
        requires
            self.wf(),
            self.is_path_node(i),
        ensures
            self.unused_info(i).1 <==> (forall|e: int|
                self.is_path_node(e) && #[trigger] self.in_subtree(i, e) ==> !self.has_endpoint(
                    e,
                )),
        decreases self.n() - i,
    {
        self.lemma_unused_scan_flag(i, i + 1);
        assert forall|c: int| #[trigger] self.is_child_path(c, i) implies (i < c
            && (self.unused_info(c).1 <==> (forall|e: int|
            self.is_path_node(e) && #[trigger] self.in_subtree(c, e) ==> !self.has_endpoint(
                e,
            )))) by {
            assert(self.entry(c).parent matches Some(q) && (q as int) < c);
            assert(self.is_path_node(c));
            self.lemma_unused_characterization(c);
        }
        if self.unused_info(i).1 {
            assert(!self.has_endpoint(i));
            assert(!self.unused_scan(i, i + 1).1);
            assert forall|e: int|
                self.is_path_node(e) && #[trigger] self.in_subtree(i, e) implies !self.has_endpoint(
                e,
            ) by {
                if e != i {
                    self.lemma_subtree_step(i, e);
                    let c = choose|c: int|
                        #[trigger] self.is_child_path(c, i) && self.in_subtree(c, e);
                    assert(i + 1 <= c < self.n());
                    assert(self.unused_info(c).1);
                    assert(self.in_subtree(c, e));
                }
            }
        }
        if forall|e: int|
            self.is_path_node(e) && #[trigger] self.in_subtree(i, e) ==> !self.has_endpoint(e) {
            assert(self.in_subtree(i, i));
            assert(!self.has_endpoint(i));
            assert forall|c: int| #[trigger] self.is_child_path(c, i) implies self.unused_info(
                c,
            ).1 by {
                assert forall|e: int|
                    self.is_path_node(e) && #[trigger] self.in_subtree(c, e) implies !self.has_endpoint(
                    e,
                ) by {
                    assert(self.in_subtree(i, c));
                    self.lemma_subtree_trans(i, c, e);
                }
            }
            assert(!self.unused_scan(i, i + 1).1);
            assert(self.unused_info(i).1);
        }
    }

    /// Every live path node lies in the subtree of the root.
    pub proof fn lemma_path_under_root(self, e: int)
        requires
            self.wf(),
            self.is_path_node(e),
        ensures
            self.in_subtree(0, e),
        decreases e,
    {
        if e != 0 {
            let pe = self.entry(e).parent->0 as int;
            assert(self.entry(e).parent matches Some(q) && (q as int) < e);
            assert(self.is_path_node(pe));
            self.lemma_path_under_root(pe);
        }
    }

    /// Membership in the scan's list comes from exactly the path children
    /// at index `j` or beyond.
    pub proof fn lemma_unused_scan_members(self, i: int, j: int)
        requires
            self.wf(),
            0 <= i,
            i < j,
        ensures
            forall|x: Seq<char>|
                #[trigger] self.unused_scan(i, j).0.contains(x) <==> (exists|c: int|
                    j <= c < self.n() && #[trigger] self.is_child_path(c, i) && self.unused_info(
                        c,
                    ).0.contains(x)),
        decreases self.n() - j,
    {
        if i < j < self.n() {
            self.lemma_unused_scan_members(i, j + 1);
            let rest = self.unused_scan(i, j + 1);
            assert forall|x: Seq<char>| #[trigger] self.unused_scan(i, j).0.contains(x) implies (
            exists|c: int|
                j <= c < self.n() && #[trigger] self.is_child_path(c, i) && self.unused_info(
                    c,
                ).0.contains(x)) by {
                if self.is_child_path(j, i) {
                    lemma_concat_contains(self.unused_info(j).0, rest.0, x);
                    if self.unused_info(j).0.contains(x) {
                        assert(j <= j < self.n() && self.is_child_path(j, i) && self.unused_info(
                            j,
                        ).0.contains(x));
                    } else {
                        let c = choose|c: int|
                            j + 1 <= c < self.n() && #[trigger] self.is_child_path(c, i)
                                && self.unused_info(c).0.contains(x);
                        assert(j <= c < self.n() && self.is_child_path(c, i) && self.unused_info(
                            c,
                        ).0.contains(x));
                    }
                } else {
                    let c = choose|c: int|
                        j + 1 <= c < self.n() && #[trigger] self.is_child_path(c, i)
                            && self.unused_info(c).0.contains(x);
                    assert(j <= c < self.n() && self.is_child_path(c, i) && self.unused_info(
                        c,
                    ).0.contains(x));
                }
            }
            assert forall|x: Seq<char>|
                (exists|c: int|
                    j <= c < self.n() && #[trigger] self.is_child_path(c, i) && self.unused_info(
                        c,
                    ).0.contains(x)) implies #[trigger] self.unused_scan(i, j).0.contains(x) by {
                let c = choose|c: int|
                    j <= c < self.n() && #[trigger] self.is_child_path(c, i) && self.unused_info(
                        c,
                    ).0.contains(x);
                if self.is_child_path(j, i) {
                    lemma_concat_contains(self.unused_info(j).0, rest.0, x);
                    if c == j {
                    } else {
                        assert(j + 1 <= c < self.n() && self.is_child_path(c, i)
                            && self.unused_info(c).0.contains(x));
                        assert(rest.0.contains(x));
                    }
                } else {
                    assert(c != j);
                    assert(j + 1 <= c < self.n() && self.is_child_path(c, i) && self.unused_info(
                        c,
                    ).0.contains(x));
                    assert(rest.0.contains(x));
                }
            }
        } else {
            assert forall|x: Seq<char>|
                (exists|c: int|
                    j <= c < self.n() && #[trigger] self.is_child_path(c, i) && self.unused_info(
                        c,
                    ).0.contains(x)) implies #[trigger] self.unused_scan(i, j).0.contains(x) by {
                assert(j >= self.n());
                assert(false);
            }
        }
    }

    /// The subtree list of a path node holds exactly the ids of the unused
    /// path nodes inside its subtree.
    pub proof fn lemma_unused_list_members(self, i: int)
        requires
            self.wf(),
            self.is_path_node(i),
        ensures
            forall|x: Seq<char>|
                #[trigger] self.unused_info(i).0.contains(x) <==> (exists|e: int|
                    self.is_path_node(e) && #[trigger] self.in_subtree(i, e) && self.unused_info(
                        e,
                    ).1 && self.id_view(e) == Some(x)),
        decreases self.n() - i,
    {
        self.lemma_unused_scan_members(i, i + 1);
        let s = self.unused_scan(i, i + 1);
        assert forall|c: int| #[trigger] self.is_child_path(c, i) implies (i < c
            && self.is_path_node(c) && self.in_subtree(i, c) && (forall|x: Seq<char>|
            #[trigger] self.unused_info(c).0.contains(x) <==> (exists|e: int|
                self.is_path_node(e) && #[trigger] self.in_subtree(c, e) && self.unused_info(
                    e,
                ).1 && self.id_view(e) == Some(x)))) by {
            assert(self.entry(c).parent matches Some(q) && (q as int) < c);
            assert(self.in_subtree(i, i));
            assert(self.in_subtree(i, c));
            self.lemma_unused_list_members(c);
        }
        assert forall|x: Seq<char>| #[trigger] self.unused_info(i).0.contains(x) implies (exists|
            e: int,
        |
            self.is_path_node(e) && #[trigger] self.in_subtree(i, e) && self.unused_info(e).1
                && self.id_view(e) == Some(x)) by {
            if self.unused_info(i).1 {
                lemma_concat_contains(s.0, seq![self.id_view(i)->0], x);
                assert(self.unused_info(i).0 == s.0 + seq![self.id_view(i)->0]);
                if s.0.contains(x) {
                    let c = choose|c: int|
                        i + 1 <= c < self.n() && #[trigger] self.is_child_path(c, i)
                            && self.unused_info(c).0.contains(x);
                    let e = choose|e: int|
                        self.is_path_node(e) && #[trigger] self.in_subtree(c, e)
                            && self.unused_info(e).1 && self.id_view(e) == Some(x);
                    self.lemma_subtree_trans(i, c, e);
                } else {
                    assert(seq![self.id_view(i)->0].contains(x));
                    assert(seq![self.id_view(i)->0][0] == x);
                    assert(self.is_path_node(i) && self.in_subtree(i, i) && self.unused_info(
                        i,
                    ).1 && self.id_view(i) == Some(x));
                }
            } else {
                assert(self.unused_info(i).0 == s.0);
                let c = choose|c: int|
                    i + 1 <= c < self.n() && #[trigger] self.is_child_path(c, i)
                        && self.unused_info(c).0.contains(x);
                let e = choose|e: int|
                    self.is_path_node(e) && #[trigger] self.in_subtree(c, e) && self.unused_info(
                        e,
                    ).1 && self.id_view(e) == Some(x);
                self.lemma_subtree_trans(i, c, e);
            }
        }
        assert forall|x: Seq<char>|
            (exists|e: int|
                self.is_path_node(e) && #[trigger] self.in_subtree(i, e) && self.unused_info(
                    e,
                ).1 && self.id_view(e) == Some(x)) implies #[trigger] self.unused_info(
            i,
        ).0.contains(x) by {
            let e = choose|e: int|
                self.is_path_node(e) && #[trigger] self.in_subtree(i, e) && self.unused_info(
                    e,
                ).1 && self.id_view(e) == Some(x);
            if e == i {
                assert(self.unused_info(i).1);
                assert(self.unused_info(i).0 == s.0 + seq![self.id_view(i)->0]);
                assert(self.unused_info(i).0[s.0.len() as int] == x);
            } else {
                self.lemma_subtree_step(i, e);
                let c = choose|c: int|
                    #[trigger] self.is_child_path(c, i) && self.in_subtree(c, e);
                assert(self.unused_info(c).0.contains(x));
                assert(i + 1 <= c < self.n());
                assert(s.0.contains(x));
                if self.unused_info(i).1 {
                    lemma_concat_contains(s.0, seq![self.id_view(i)->0], x);
                } else {
                    assert(self.unused_info(i).0 == s.0);
                }
            }
        }
    }

    /// Exactly which path ids the unused-path query reports: those whose
    /// node — the root excepted — heads a subtree that declares no
    /// endpoint anywhere.
    pub proof fn lemma_unused_paths_exact(self, x: Seq<char>)
        requires
            self.wf(),
        ensures
            self.unused_paths_spec().contains(x) <==> (exists|e: int|
                1 <= e && #[trigger] self.is_path_node(e) && self.id_view(e) == Some(x) && (forall|
                    d: int,
                |
                    self.is_path_node(d) && #[trigger] self.in_subtree(e, d)
                        ==> !self.has_endpoint(d))),
    {
        self.lemma_unused_scan_members(0, 1);
        assert forall|c: int| #[trigger] self.is_child_path(c, 0) implies (1 <= c
            && self.is_path_node(c)) by {
            assert(self.entry(c).parent matches Some(q) && (q as int) < c);
        }
        if self.unused_paths_spec().contains(x) {
            let c = choose|c: int|
                1 <= c < self.n() && #[trigger] self.is_child_path(c, 0) && self.unused_info(
                    c,
                ).0.contains(x);
            self.lemma_unused_list_members(c);
            let e = choose|e: int|
                self.is_path_node(e) && #[trigger] self.in_subtree(c, e) && self.unused_info(
                    e,
                ).1 && self.id_view(e) == Some(x);
            self.lemma_subtree_below(e, 0);
            if e == 0 {
                assert(self.in_subtree(c, 0));
                self.lemma_subtree_below(c, 0);
                assert(false);
            }
            self.lemma_unused_characterization(e);
            assert(1 <= e && self.is_path_node(e) && self.id_view(e) == Some(x) && (forall|d: int|
                self.is_path_node(d) && #[trigger] self.in_subtree(e, d) ==> !self.has_endpoint(
                    d,
                )));
        }
        if exists|e: int|
            1 <= e && #[trigger] self.is_path_node(e) && self.id_view(e) == Some(x) && (forall|
                d: int,
            |
                self.is_path_node(d) && #[trigger] self.in_subtree(e, d) ==> !self.has_endpoint(
                    d,
                )) {
            let e = choose|e: int|
                1 <= e && #[trigger] self.is_path_node(e) && self.id_view(e) == Some(x) && (
                forall|d: int|
                    self.is_path_node(d) && #[trigger] self.in_subtree(e, d)
                        ==> !self.has_endpoint(d));
            self.lemma_unused_characterization(e);
            assert(self.unused_info(e).1);
            self.lemma_path_under_root(e);
            self.lemma_subtree_step(0, e);
            let c = choose|c: int| #[trigger] self.is_child_path(c, 0) && self.in_subtree(c, e);
            self.lemma_unused_list_members(c);
            assert(self.unused_info(c).0.contains(x));
            assert(1 <= c < self.n());
        }
    }

    /// A path node with a directly declared endpoint is never unused.
    pub proof fn lemma_endpoint_path_not_unused(self, i: int)
        requires
            self.wf(),
            self.is_path_node(i),
            self.has_endpoint(i),
        ensures
            !self.unused_info(i).1,
    {
        self.lemma_unused_characterization(i);
        assert(self.in_subtree(i, i));
    }

    /// The resolution over a list of already-split segments: collect every
    /// candidate, then prefer the first static match, else the first
    /// candidate discovered; no candidates is no match.
    pub open spec fn resolve_segments(self, segs: Seq<Seq<char>>) -> Option<int> {
        if segs.len() == 0 {
            None
        } else {
            let cs = self.cands(segs, 0, 0);
            if cs.len() == 0 {
                None
            } else {
                match self.first_static(cs) {
                    Some(i) => Some(i),
                    None => Some(cs[0]),
                }
            }
        }
    }

    /// The root path always resolves to the root id, whatever the
    /// projection holds — one built from no events included.
    pub proof fn lemma_root_path_resolves(self)
        ensures
            self.resolve_path_spec(seq!['/']) == Some("root"@),
    {
    }

    /// Trailing-slash normalization: a path carrying one trailing slash
    /// resolves exactly as the same path without it.  A path whose trimmed
    /// form still ends in a slash, or is the bare root path, is left out:
    /// such a path does not normalize to its trimmed form.
    pub proof fn lemma_trailing_slash_irrelevant(self, path: Seq<char>)
        requires
            path.len() > 1,
            path[path.len() - 1] == '/',
            path.drop_last()[path.drop_last().len() - 1] != '/',
        ensures
            self.resolve_path_spec(path) == self.resolve_path_spec(path.drop_last()),
    {
        let trimmed = path.drop_last();
        assert(path != seq!['/']);
        assert(trimmed != seq!['/']);
        assert(normalized_path(path) =~= trimmed);
        assert(normalized_path(trimmed) =~= trimmed);
    }

    /// A first static candidate is one of the candidates.
    pub proof fn lemma_first_static_elem(self, cs: Seq<int>)
        ensures
            self.first_static(cs) matches Some(e) ==> cs.contains(e),
        decreases cs.len(),
    {
        if cs.len() > 0 && self.is_param_node(cs[0]) {
            self.lemma_first_static_elem(cs.drop_first());
            if self.first_static(cs) is Some {
                let e = self.first_static(cs)->0;
                assert(cs.drop_first().contains(e));
                let l = choose|l: int|
                    0 <= l < cs.drop_first().len() && cs.drop_first()[l] == e;
                assert(cs[l + 1] == e);
            }
        }
    }

    /// A resolved path id names a live path-component node.
    pub proof fn lemma_resolve_path_live(self, path: Seq<char>)
        requires
            self.wf(),
            self.resolve_path_spec(path) is Some,
        ensures
            self.has_live_id(self.resolve_path_spec(path)->0),
            self.is_path_node(self.idx_of(self.resolve_path_spec(path)->0)),
    {
        if path == seq!['/'] {
            assert(self.live(0) && self.id_view(0) == Some("root"@));
            self.lemma_idx_of_is("root"@, 0);
        } else {
            let comps = split_from(normalized_path(path), 0);
            let segs = comps.drop_first();
            let cs = self.cands(segs, 0, 0);
            self.lemma_cands_path_nodes(segs, 0, 0);
            let fs = self.first_static(cs);
            let i: int = if fs is Some {
                fs->0
            } else {
                cs[0]
            };
            if fs is Some {
                self.lemma_first_static_elem(cs);
                let l = choose|l: int| 0 <= l < cs.len() && cs[l] == fs->0;
                assert(self.live(cs[l]) && self.entry(cs[l]).kind is PathComponent);
            } else {
                assert(self.live(cs[0]) && self.entry(cs[0]).kind is PathComponent);
            }
            assert(self.live(i) && self.entry(i).kind is PathComponent);
            assert(self.entry(i).id is Some);
            self.lemma_idx_of_is(self.id_view(i)->0, i);
        }
    }

    /// `responses_under_status` holds exactly the matching live responses.
    pub proof fn lemma_responses_status_membership(
        self,
        p: int,
        method: Seq<char>,
        code: u16,
        j: int,
    )
        requires
            0 <= j,
        ensures
            forall|e: int|
                #[trigger] self.responses_status_from(p, method, code, j).contains(e) <==> (j <= e
                    && self.is_response_under_status(e, p, method, code)),
        decreases self.n() - j,
    {
        let s = self.responses_status_from(p, method, code, j);
        if 0 <= j < self.n() {
            self.lemma_responses_status_membership(p, method, code, j + 1);
            let rest = self.responses_status_from(p, method, code, j + 1);
            assert forall|e: int| #[trigger] s.contains(e) implies (j <= e
                && self.is_response_under_status(e, p, method, code)) by {
                let idx = choose|idx: int| 0 <= idx < s.len() && s[idx] == e;
                if self.is_response_under_status(j, p, method, code) {
                    if idx > 0 {
                        assert(rest[idx - 1] == e);
                        assert(rest.contains(e));
                    }
                } else {
                    assert(rest[idx] == e);
                    assert(rest.contains(e));
                }
            }
            assert forall|e: int|
                j <= e && self.is_response_under_status(e, p, method, code) implies #[trigger] s.contains(
                e,
            ) by {
                if e == j {
                    assert(s[0] == j);
                } else {
                    assert(rest.contains(e));
                    let idx = choose|idx: int| 0 <= idx < rest.len() && rest[idx] == e;
                    if self.is_response_under_status(j, p, method, code) {
                        assert(s[idx + 1] == e);
                    } else {
                        assert(s[idx] == e);
                    }
                }
            }
        } else {
            assert forall|e: int|
                j <= e && self.is_response_under_status(e, p, method, code) implies #[trigger] s.contains(
                e,
            ) by {
                assert(self.live(e));
                assert(false);
            }
        }
    }

    /// What the canonical path-resolution algorithm answers for `path`: the
    /// root path resolves to the root id; any other path is normalized,
    /// split, and matched against the path tree.
    pub open spec fn resolve_path_spec(self, path: Seq<char>) -> Option<Seq<char>> {
        if path == seq!['/'] {
            Some("root"@)
        } else {
            let comps = split_from(normalized_path(path), 0);
            match self.resolve_segments(comps.drop_first()) {
                Some(i) => self.id_view(i),
                None => None,
            }
        }
    }
}

/// Read-only query engine over one endpoint projection snapshot.
pub struct EndpointQueries<'a> {
    pub endpoint_projection: &'a EndpointProjection,
}

impl<'a> EndpointQueries<'a> {
    /// The projection the engine reads.
    pub open spec fn proj(self) -> EndpointProjection {
        *self.endpoint_projection
    }

    pub open spec fn wf(self) -> bool {
        self.proj().wf()
    }

    pub fn new(endpoint_projection: &'a EndpointProjection) -> (r: EndpointQueries<'a>)
        ensures
            r.endpoint_projection == endpoint_projection,
    {
        EndpointQueries { endpoint_projection }
    }

    /// Strip one trailing slash, leaving the bare root path alone.
    pub fn extract_normalized_path(path: &str) -> (r: &str)
        ensures
            r@ == normalized_path(path@),
    {
        let n = path.unicode_len();
        if n == 1 && path.get_char(0) == '/' {
            proof {
                assert(path@ =~= seq!['/']);
            }
            path
        } else if n > 0 && path.get_char(n - 1) == '/' {
            proof {
                assert(path@ != seq!['/']);
                assert(path@.subrange(0, n - 1 as int) =~= path@.drop_last());
            }
            path.substring_char(0, n - 1)
        } else {
            proof {
                if path@ == seq!['/'] {
                    assert(path@.len() == 1 && path@[0] == '/');
                }
            }
            path
        }
    }

    /// Split a path into its slash-separated segments.
    fn split_path_segments(path: &str) -> (r: Vec<String>)
        ensures
            r.deep_view() == split_from(path@, 0),
    {
        let n = path.unicode_len();
        let mut segs: Vec<String> = Vec::new();
        let mut start: usize = 0;
        let mut j: usize = 0;
        proof {
            lemma_split_from_len(path@, 0);
        }
        while j < n
            invariant
                0 <= start <= j <= n,
                n == path@.len(),
                split_from(path@, 0) =~= segs.deep_view() + (seq![
                    path@.subrange(start as int, j as int) + split_from(path@, j as int)[0],
                ] + split_from(path@, j as int).drop_first()),
                split_from(path@, j as int).len() >= 1,
            decreases n - j,
        {
            let ghost pre_segs = segs.deep_view();
            let c = path.get_char(j);
            proof {
                lemma_split_from_len(path@, j + 1);
            }
            if c == '/' {
                let seg = path.substring_char(start, j).to_owned();
                proof {
                    assert(seg@ == path@.subrange(start as int, j as int));
                }
                segs.push(seg);
                proof {
                    assert(segs.deep_view() =~= pre_segs + seq![
                        path@.subrange(start as int, j as int),
                    ]);
                }
                start = j + 1;
                proof {
                    assert(split_from(path@, j as int) =~= seq![Seq::<char>::empty()]
                        + split_from(path@, j + 1));
                    assert(path@.subrange(j + 1, j + 1) =~= Seq::<char>::empty());
                    assert(split_from(path@, 0) =~= segs.deep_view() + (seq![
                        path@.subrange(j + 1, j + 1) + split_from(path@, j + 1)[0],
                    ] + split_from(path@, j + 1).drop_first()));
                }
            } else {
                proof {
                    let rest = split_from(path@, j + 1);
                    assert(split_from(path@, j as int) =~= seq![seq![path@[j as int]] + rest[0]]
                        + rest.drop_first());
                    assert(path@.subrange(start as int, j + 1) =~= path@.subrange(
                        start as int,
                        j as int,
                    ) + seq![path@[j as int]]);
                    assert(path@.subrange(start as int, j as int) + split_from(
                        path@,
                        j as int,
                    )[0] =~= path@.subrange(start as int, j + 1) + rest[0]);
                    assert(split_from(path@, j as int).drop_first() =~= rest.drop_first());
                    assert(split_from(path@, 0) =~= segs.deep_view() + (seq![
                        path@.subrange(start as int, j + 1) + split_from(path@, j + 1)[0],
                    ] + split_from(path@, j + 1).drop_first()));
                }
            }
            j += 1;
        }
        let last = path.substring_char(start, n).to_owned();
        segs.push(last);
        proof {
            assert(split_from(path@, n as int)[0] =~= Seq::<char>::empty());
            assert(split_from(path@, n as int).drop_first() =~= Seq::<Seq<char>>::empty());
            assert(path@.subrange(start as int, n as int) + split_from(path@, n as int)[0]
                =~= path@.subrange(start as int, n as int));
            assert(segs.deep_view() =~= split_from(path@, 0));
        }
        segs
    }

    /// Append to `out` every candidate finishing a match of `segs[k..]`
    /// below node `i`, in discovery order.
    fn collect_cands(&self, segs: &Vec<String>, k: usize, i: usize, out: &mut Vec<usize>)
        requires
            self.wf(),
            k <= segs@.len(),
            i < self.proj().n(),
        ensures
            usizes(final(out)@) == usizes(old(out)@) + self.proj().cands(
                segs.deep_view(),
                k as int,
                i as int,
            ),
        decreases segs@.len() - k,
    {
        let ghost sv = segs.deep_view();
        let ghost init = usizes(out@);
        if k == segs.len() {
            out.push(i);
            proof {
                assert(self.proj().cands(sv, k as int, i as int) =~= seq![i as int]);
                assert(usizes(out@) =~= init + seq![i as int]);
            }
            return ;
        }
        let k1 = k + 1;
        let n = self.endpoint_projection.nodes.len();
        let mut j: usize = 0;
        while j < n
            invariant
                self.wf(),
                j <= n,
                n == self.proj().n(),
                (k as int) < sv.len(),
                k < segs@.len(),
                k1 == k + 1,
                sv == segs.deep_view(),
                i < n,
                init == usizes(old(out)@),
                usizes(out@) + self.proj().cands_scan(sv, k as int, i as int, j as int) =~= init
                    + self.proj().cands(sv, k as int, i as int),
            decreases n - j,
        {
            let ghost pre_out = usizes(out@);
            let entry = &self.endpoint_projection.nodes[j];
            let mut matched = false;
            if !entry.removed {
                if let Some(pp) = entry.parent {
                    if pp == i {
                        if let NodeKind::PathComponent { component } = &entry.kind {
                            if component.is_parameter || component.name.eq(&segs[k]) {
                                matched = true;
                            }
                        }
                    }
                }
            }
            proof {
                assert(sv[k as int] == segs@[k as int]@);
                assert(matched <==> (self.proj().live(j as int) && (self.proj().entry(
                    j as int,
                ).parent matches Some(p) && p as int == i as int) && self.proj().seg_matches(
                    j as int,
                    sv[k as int],
                )));
            }
            if matched {
                self.collect_cands(segs, k1, j, out);
            }
            proof {
                let pr = self.proj();
                let c: Seq<int> = if matched {
                    pr.cands(sv, k as int + 1, j as int)
                } else {
                    Seq::empty()
                };
                assert(pr.cands_scan(sv, k as int, i as int, j as int) =~= c + pr.cands_scan(
                    sv,
                    k as int,
                    i as int,
                    j as int + 1,
                ));
                assert(usizes(out@) =~= pre_out + c);
                assert(usizes(out@) + pr.cands_scan(sv, k as int, i as int, j as int + 1) =~= init
                    + pr.cands(sv, k as int, i as int));
            }
            j += 1;
        }
        proof {
            assert(self.proj().cands_scan(sv, k as int, i as int, n as int) =~= Seq::<
                int,
            >::empty());
            assert(usizes(out@) =~= init + self.proj().cands(sv, k as int, i as int));
        }
    }

    /// Resolve an interaction's request path with the canonical algorithm.
    pub fn resolve_interaction_path_v2(&self, interaction: &HttpInteraction) -> (r: Option<
        PathComponentId,
    >)
        requires
            self.wf(),
        ensures
            match r {
                Some(id) => self.proj().resolve_path_spec(interaction.request.path@) == Some(id@),
                None => self.proj().resolve_path_spec(interaction.request.path@) is None,
            },
    {
        self.resolve_path_v2(interaction.request.path.as_str())
    }

    /// The canonical, ambiguity-aware path resolution: visit every viable
    /// branch of the path tree, collect all candidates of full depth, then
    /// prefer a static match over a parameter match, else the first
    /// candidate discovered.
    pub fn resolve_path_v2(&self, path: &str) -> (r: Option<PathComponentId>)
        requires
            self.wf(),
        ensures
            match r {
                Some(id) => self.proj().resolve_path_spec(path@) == Some(id@),
                None => self.proj().resolve_path_spec(path@) is None,
            },
    {
        let n0 = path.unicode_len();
        if n0 == 1 && path.get_char(0) == '/' {
            proof {
                assert(path@ =~= seq!['/']);
            }
            return Some(ROOT_PATH_ID.to_owned());
        }
        proof {
            assert(path@ != seq!['/']);
        }
        let normalized = Self::extract_normalized_path(path);
        let mut segs = Self::split_path_segments(normalized);
        proof {
            lemma_split_from_len(normalized@, 0);
        }
        let _first = segs.remove(0);
        proof {
            assert(segs.deep_view() =~= split_from(normalized@, 0).drop_first());
        }
        if segs.len() == 0 {
            return None;
        }
        let mut cand: Vec<usize> = Vec::new();
        self.collect_cands(&segs, 0, 0, &mut cand);
        let ghost cs = usizes(cand@);
        proof {
            assert(cs =~= self.proj().cands(segs.deep_view(), 0, 0));
            self.proj().lemma_cands_path_nodes(segs.deep_view(), 0, 0);
        }
        if cand.len() == 0 {
            return None;
        }
        let m = cand.len();
        let mut k: usize = 0;
        while k < m
            invariant
                self.wf(),
                k <= m,
                0 < m,
                m == cand@.len(),
                cs == usizes(cand@),
                path@ != seq!['/'],
                segs.deep_view() == split_from(normalized_path(path@), 0).drop_first(),
                segs.deep_view().len() > 0,
                cs == self.proj().cands(segs.deep_view(), 0, 0),
                forall|l: int| 0 <= l < cs.len() ==> self.proj().live(#[trigger] cs[l])
                    && self.proj().entry(cs[l]).kind is PathComponent,
                forall|l: int| 0 <= l < k ==> self.proj().is_param_node(#[trigger] cs[l]),
            decreases m - k,
        {
            let ci = cand[k];
            proof {
                assert(cs[k as int] == ci as int);
            }
            let is_param = match &self.endpoint_projection.nodes[ci].kind {
                NodeKind::PathComponent { component } => component.is_parameter,
                _ => false,
            };
            if !is_param {
                proof {
                    self.proj().lemma_first_static_skip(cs, k as int);
                }
                if let Some(s) = &self.endpoint_projection.nodes[ci].id {
                    return Some(s.clone());
                }
                proof {
                    assert(false);
                }
                return None;
            }
            k += 1;
        }
        proof {
            self.proj().lemma_first_static_skip(cs, m as int);
        }
        let c0 = cand[0];
        proof {
            assert(cs[0] == c0 as int);
        }
        if let Some(s) = &self.endpoint_projection.nodes[c0].id {
            return Some(s.clone());
        }
        proof {
            assert(false);
        }
        None
    }

    /// Find the first live static child of node `i` whose name is `seg`.
    fn find_static_child(&self, i: usize, seg: &String) -> (r: Option<usize>)
        requires
            self.wf(),
        ensures
            match r {
                Some(c) => self.proj().first_static_child_from(i as int, seg@, 0) == Some(c as int)
                    && self.proj().live(c as int) && self.proj().entry(
                    c as int,
                ).kind is PathComponent,
                None => self.proj().first_static_child_from(i as int, seg@, 0) is None,
            },
    {
        let n = self.endpoint_projection.nodes.len();
        let mut j: usize = 0;
        while j < n
            invariant
                self.wf(),
                j <= n,
                n == self.proj().n(),
                self.proj().first_static_child_from(i as int, seg@, 0) == self.proj(
                ).first_static_child_from(i as int, seg@, j as int),
            decreases n - j,
        {
            let entry = &self.endpoint_projection.nodes[j];
            let mut hit = false;
            if !entry.removed {
                if let Some(pp) = entry.parent {
                    if pp == i {
                        if let NodeKind::PathComponent { component } = &entry.kind {
                            if !component.is_parameter && component.name.eq(seg) {
                                hit = true;
                            }
                        }
                    }
                }
            }
            if hit {
                return Some(j);
            }
            j += 1;
        }
        None
    }

    /// Find the first live parameter child of node `i`.
    fn find_param_child(&self, i: usize) -> (r: Option<usize>)
        requires
            self.wf(),
        ensures
            match r {
                Some(c) => self.proj().first_param_child_from(i as int, 0) == Some(c as int)
                    && self.proj().live(c as int) && self.proj().entry(
                    c as int,
                ).kind is PathComponent,
                None => self.proj().first_param_child_from(i as int, 0) is None,
            },
    {
        let n = self.endpoint_projection.nodes.len();
        let mut j: usize = 0;
        while j < n
            invariant
                self.wf(),
                j <= n,
                n == self.proj().n(),
                self.proj().first_param_child_from(i as int, 0) == self.proj(
                ).first_param_child_from(i as int, j as int),
            decreases n - j,
        {
            let entry = &self.endpoint_projection.nodes[j];
            let mut hit = false;
            if !entry.removed {
                if let Some(pp) = entry.parent {
                    if pp == i {
                        if let NodeKind::PathComponent { component } = &entry.kind {
                            if component.is_parameter {
                                hit = true;
                            }
                        }
                    }
                }
            }
            if hit {
                return Some(j);
            }
            j += 1;
        }
        None
    }

    /// Resolve an interaction's request path with the deprecated greedy
    /// algorithm; kept only for compatibility, see `resolve_interaction_path_v2`.
    pub fn resolve_interaction_path(&self, interaction: &HttpInteraction) -> (r: Option<
        PathComponentId,
    >)
        requires
            self.wf(),
        ensures
            match r {
                Some(id) => self.proj().resolve_path_spec_deprecated(interaction.request.path@)
                    == Some(id@),
                None => self.proj().resolve_path_spec_deprecated(interaction.request.path@)
                    is None,
            },
    {
        self.resolve_path(interaction.request.path.as_str())
    }

    /// The deprecated greedy resolution.  It commits to one branch per
    /// segment and never backtracks, so it answers wrongly when a spec holds
    /// several ambiguous parameterized sub-paths at one depth; kept only for
    /// compatibility, see `resolve_path_v2`.
    pub fn resolve_path(&self, path: &str) -> (r: Option<PathComponentId>)
        requires
            self.wf(),
        ensures
            match r {
                Some(id) => self.proj().resolve_path_spec_deprecated(path@) == Some(id@),
                None => self.proj().resolve_path_spec_deprecated(path@) is None,
            },
    {
        let n0 = path.unicode_len();
        if n0 == 1 && path.get_char(0) == '/' {
            proof {
                assert(path@ =~= seq!['/']);
            }
            return Some(ROOT_PATH_ID.to_owned());
        }
        proof {
            assert(path@ != seq!['/']);
        }
        let normalized = Self::extract_normalized_path(path);
        let mut segs = Self::split_path_segments(normalized);
        proof {
            lemma_split_from_len(normalized@, 0);
        }
        let _first = segs.remove(0);
        proof {
            assert(segs.deep_view() =~= split_from(normalized@, 0).drop_first());
        }
        let ghost sv = segs.deep_view();
        let m = segs.len();
        let mut k: usize = 0;
        let mut cur: usize = 0;
        while k < m
            invariant
                self.wf(),
                k <= m,
                m == segs@.len(),
                sv == segs.deep_view(),
                path@ != seq!['/'],
                sv == split_from(normalized_path(path@), 0).drop_first(),
                cur < self.proj().n(),
                self.proj().entry(cur as int).kind is Root || self.proj().entry(
                    cur as int,
                ).kind is PathComponent,
                self.proj().greedy_resolve(sv, 0, 0) == self.proj().greedy_resolve(
                    sv,
                    k as int,
                    cur as int,
                ),
            decreases m - k,
        {
            proof {
                assert(sv[k as int] == segs@[k as int]@);
            }
            let next = match self.find_static_child(cur, &segs[k]) {
                Some(c) => c,
                None => {
                    match self.find_param_child(cur) {
                        Some(c) => c,
                        None => {
                            return None;
                        },
                    }
                },
            };
            proof {
                assert(self.proj().live(next as int));
                assert(self.proj().entry(next as int).kind is PathComponent);
            }
            cur = next;
            k += 1;
        }
        if let Some(s) = &self.endpoint_projection.nodes[cur].id {
            return Some(s.clone());
        }
        proof {
            assert(false);
        }
        None
    }

    /// All declared operations (requests) under `path_id` and `method`, in
    /// insertion order; no match only when the path id is unknown.
    pub fn resolve_requests(&self, path_id: &str, method: &String) -> (r: Option<
        Vec<(RequestId, RequestDescriptor)>,
    >)
        requires
            self.wf(),
        ensures
            match r {
                Some(v) => {
                    let idxs = self.proj().requests_under(
                        self.proj().idx_of(path_id@),
                        method@,
                    );
                    &&& self.proj().has_live_id(path_id@)
                    &&& v@.len() == idxs.len()
                    &&& forall|l: int|
                        0 <= l < idxs.len() ==> ((#[trigger] v@[l]).0@ == self.proj().entry(
                            idxs[l],
                        ).id->0@ && v@[l].1 == self.proj().entry(idxs[l]).kind->request)
                },
                None => !self.proj().has_live_id(path_id@),
            },
    {
        let p = match self.find_index_of(path_id) {
            Some(p) => p,
            None => {
                return None;
            },
        };
        let ghost pp = p as int;
        let ghost mv = method@;
        let n = self.endpoint_projection.nodes.len();
        let mut out: Vec<(RequestId, RequestDescriptor)> = Vec::new();
        let ghost mut gidx: Seq<int> = Seq::empty();
        let mut j: usize = 0;
        while j < n
            invariant
                self.wf(),
                j <= n,
                n == self.proj().n(),
                pp == p as int,
                mv == method@,
                pp == self.proj().idx_of(path_id@),
                self.proj().has_live_id(path_id@),
                gidx + self.proj().requests_under_from(pp, mv, j as int) == self.proj(
                ).requests_under(pp, mv),
                out@.len() == gidx.len(),
                forall|l: int|
                    0 <= l < gidx.len() ==> (0 <= #[trigger] gidx[l] < n && (out@[l].0@
                        == self.proj().entry(gidx[l]).id->0@ && out@[l].1 == self.proj().entry(
                        gidx[l],
                    ).kind->request)),
            decreases n - j,
        {
            let ghost gidx0 = gidx;
            let hit = self.is_request_under_exec(j, p, method);
            if hit {
                let entry = &self.endpoint_projection.nodes[j];
                if let NodeKind::Request { request } = &entry.kind {
                    if let Some(id) = &entry.id {
                        out.push((id.clone(), dup_request_descriptor(request)));
                        proof {
                            gidx = gidx + seq![j as int];
                            assert(gidx =~= gidx0 + seq![j as int]);
                        }
                    } else {
                        proof {
                            assert(false);
                        }
                    }
                } else {
                    proof {
                        assert(false);
                    }
                }
            }
            proof {
                let jj = j as int;
                let c: Seq<int> = if self.proj().is_request_under(jj, pp, mv) {
                    seq![jj]
                } else {
                    Seq::empty()
                };
                assert(self.proj().requests_under_from(pp, mv, jj) =~= c + self.proj(
                ).requests_under_from(pp, mv, jj + 1));
                assert(gidx =~= gidx0 + c);
                assert(gidx + self.proj().requests_under_from(pp, mv, jj + 1) =~= self.proj(
                ).requests_under(pp, mv));
            }
            j += 1;
        }
        proof {
            assert(self.proj().requests_under_from(pp, mv, n as int) =~= Seq::<int>::empty());
            assert(gidx =~= self.proj().requests_under(pp, mv));
        }
        Some(out)
    }

    /// All declared responses under `path_id` and `method`, any status code,
    /// in insertion order; no match only when the path id is unknown.
    pub fn resolve_responses(&self, path_id: &String, method: &String) -> (r: Option<
        Vec<(ResponseId, ResponseBodyDescriptor)>,
    >)
        requires
            self.wf(),
        ensures
            match r {
                Some(v) => {
                    let idxs = self.proj().responses_under(
                        self.proj().idx_of(path_id@),
                        method@,
                    );
                    &&& self.proj().has_live_id(path_id@)
                    &&& v@.len() == idxs.len()
                    &&& forall|l: int|
                        0 <= l < idxs.len() ==> ((#[trigger] v@[l]).0@ == self.proj().entry(
                            idxs[l],
                        ).id->0@ && v@[l].1 == self.proj().entry(idxs[l]).kind->response)
                },
                None => !self.proj().has_live_id(path_id@),
            },
    {
        let p = match self.find_index_of(path_id.as_str()) {
            Some(p) => p,
            None => {
                return None;
            },
        };
        let ghost pp = p as int;
        let ghost mv = method@;
        let n = self.endpoint_projection.nodes.len();
        let mut out: Vec<(ResponseId, ResponseBodyDescriptor)> = Vec::new();
        let ghost mut gidx: Seq<int> = Seq::empty();
        let mut j: usize = 0;
        while j < n
            invariant
                self.wf(),
                j <= n,
                n == self.proj().n(),
                pp == p as int,
                mv == method@,
                pp == self.proj().idx_of(path_id@),
                self.proj().has_live_id(path_id@),
                gidx + self.proj().responses_under_from(pp, mv, j as int) == self.proj(
                ).responses_under(pp, mv),
                out@.len() == gidx.len(),
                forall|l: int|
                    0 <= l < gidx.len() ==> (0 <= #[trigger] gidx[l] < n && (out@[l].0@
                        == self.proj().entry(gidx[l]).id->0@ && out@[l].1 == self.proj().entry(
                        gidx[l],
                    ).kind->response)),
            decreases n - j,
        {
            let ghost gidx0 = gidx;
            let hit = self.is_response_under_exec(j, p, method);
            if hit {
                let entry = &self.endpoint_projection.nodes[j];
                if let NodeKind::Response { response } = &entry.kind {
                    if let Some(id) = &entry.id {
                        out.push((id.clone(), dup_response_descriptor(response)));
                        proof {
                            gidx = gidx + seq![j as int];
                            assert(gidx =~= gidx0 + seq![j as int]);
                        }
                    } else {
                        proof {
                            assert(false);
                        }
                    }
                } else {
                    proof {
                        assert(false);
                    }
                }
            }
            proof {
                let jj = j as int;
                let c: Seq<int> = if self.proj().is_response_under(jj, pp, mv) {
                    seq![jj]
                } else {
                    Seq::empty()
                };
                assert(self.proj().responses_under_from(pp, mv, jj) =~= c + self.proj(
                ).responses_under_from(pp, mv, jj + 1));
                assert(gidx =~= gidx0 + c);
                assert(gidx + self.proj().responses_under_from(pp, mv, jj + 1) =~= self.proj(
                ).responses_under(pp, mv));
            }
            j += 1;
        }
        proof {
            assert(self.proj().responses_under_from(pp, mv, n as int) =~= Seq::<int>::empty());
            assert(gidx =~= self.proj().responses_under(pp, mv));
        }
        Some(out)
    }

    /// Find the arena index of the live node carrying `id`.
    fn find_index_of(&self, id: &str) -> (r: Option<usize>)
        requires
            self.wf(),
        ensures
            match r {
                Some(i) => self.proj().live(i as int) && self.proj().id_view(i as int) == Some(id@)
                    && self.proj().has_live_id(id@) && i as int == self.proj().idx_of(id@),
                None => !self.proj().has_live_id(id@),
            },
    {
        match self.endpoint_projection.find_index(id) {
            Some(i) => {
                proof {
                    self.proj().lemma_idx_of_is(id@, i as int);
                }
                Some(i)
            },
            None => None,
        }
    }

    /// Does node `j` stand as a live request under path `p` and `method`?
    fn is_request_under_exec(&self, j: usize, p: usize, method: &String) -> (r: bool)
        requires
            self.wf(),
            j < self.proj().n(),
        ensures
            r == self.proj().is_request_under(j as int, p as int, method@),
    {
        let entry = &self.endpoint_projection.nodes[j];
        if entry.removed {
            return false;
        }
        if let NodeKind::Request { .. } = &entry.kind {
            if let Some(m) = entry.parent {
                proof {
                    assert(self.proj().entry(j as int).parent matches Some(q) && (q as int) < (
                    j as int));
                }
                let me = &self.endpoint_projection.nodes[m];
                if me.removed {
                    return false;
                }
                if let NodeKind::HttpMethod { http_method } = &me.kind {
                    if let Some(mp) = me.parent {
                        return mp == p && http_method.eq(method);
                    }
                }
            }
        }
        false
    }

    /// Does node `j` stand as a live response under path `p` and `method`?
    fn is_response_under_exec(&self, j: usize, p: usize, method: &String) -> (r: bool)
        requires
            self.wf(),
            j < self.proj().n(),
        ensures
            r == self.proj().is_response_under(j as int, p as int, method@),
    {
        let entry = &self.endpoint_projection.nodes[j];
        if entry.removed {
            return false;
        }
        if let NodeKind::Response { .. } = &entry.kind {
            if let Some(sc) = entry.parent {
                proof {
                    assert(self.proj().entry(j as int).parent matches Some(q) && (q as int) < (
                    j as int));
                }
                let se = &self.endpoint_projection.nodes[sc];
                if se.removed {
                    return false;
                }
                if let NodeKind::HttpStatusCode { .. } = &se.kind {
                    if let Some(m) = se.parent {
                        proof {
                            assert(self.proj().entry(sc as int).parent matches Some(q) && (
                            q as int) < (sc as int));
                        }
                        let me = &self.endpoint_projection.nodes[m];
                        if me.removed {
                            return false;
                        }
                        if let NodeKind::HttpMethod { http_method } = &me.kind {
                            if let Some(mp) = me.parent {
                                return mp == p && http_method.eq(method);
                            }
                        }
                    }
                }
            }
        }
        false
    }

    /// Does observed content type `ct` match declared body `body`?
    fn body_ct_matches(body: &Option<crate::projection::BodyDescriptor>, ct: Option<&String>) -> (r:
        bool)
        ensures
            r == EndpointProjection::ct_matches(*body, opt_str_view(ct)),
    {
        match ct {
            Some(c) => match body {
                Some(bd) => bd.http_content_type.eq(c),
                None => false,
            },
            None => body.is_none(),
        }
    }

    /// Does node `j` stand as a live response under path `p`, `method` and
    /// status `code`?
    fn is_response_status_under_exec(&self, j: usize, p: usize, method: &String, code: u16) -> (r:
        bool)
        requires
            self.wf(),
            j < self.proj().n(),
        ensures
            r == self.proj().is_response_under_status(j as int, p as int, method@, code),
    {
        let entry = &self.endpoint_projection.nodes[j];
        if entry.removed {
            return false;
        }
        if let NodeKind::Response { .. } = &entry.kind {
            if let Some(sc) = entry.parent {
                proof {
                    assert(self.proj().entry(j as int).parent matches Some(q) && (q as int) < (
                    j as int));
                }
                let se = &self.endpoint_projection.nodes[sc];
                if se.removed {
                    return false;
                }
                if let NodeKind::HttpStatusCode { http_status_code } = &se.kind {
                    if *http_status_code != code {
                        return false;
                    }
                    if let Some(m) = se.parent {
                        proof {
                            assert(self.proj().entry(sc as int).parent matches Some(q) && (
                            q as int) < (sc as int));
                        }
                        let me = &self.endpoint_projection.nodes[m];
                        if me.removed {
                            return false;
                        }
                        if let NodeKind::HttpMethod { http_method } = &me.kind {
                            if let Some(mp) = me.parent {
                                return mp == p && http_method.eq(method);
                            }
                        }
                    }
                }
            }
        }
        false
    }

    /// Does node `j` stand as live query parameters under path `p`, `method`?
    fn is_query_params_under_exec(&self, j: usize, p: usize, method: &String) -> (r: bool)
        requires
            self.wf(),
            j < self.proj().n(),
        ensures
            r == self.proj().is_query_params_under(j as int, p as int, method@),
    {
        let entry = &self.endpoint_projection.nodes[j];
        if entry.removed {
            return false;
        }
        if let NodeKind::QueryParameters { .. } = &entry.kind {
            if let Some(m) = entry.parent {
                proof {
                    assert(self.proj().entry(j as int).parent matches Some(q) && (q as int) < (
                    j as int));
                }
                let me = &self.endpoint_projection.nodes[m];
                if me.removed {
                    return false;
                }
                if let NodeKind::HttpMethod { http_method } = &me.kind {
                    if let Some(mp) = me.parent {
                        return mp == p && http_method.eq(method);
                    }
                }
            }
        }
        false
    }

    /// The operations declared under `path_id` for `method`; the path id
    /// must name a live node.
    pub fn resolve_operations_by_request_method(&self, method: &String, path_id: &str) -> (r: Vec<
        (RequestId, RequestDescriptor),
    >)
        requires
            self.wf(),
            self.proj().has_live_id(path_id@),
        ensures
            ({
                let idxs = self.proj().requests_under(self.proj().idx_of(path_id@), method@);
                &&& r@.len() == idxs.len()
                &&& forall|l: int|
                    0 <= l < idxs.len() ==> ((#[trigger] r@[l]).0@ == self.proj().entry(
                        idxs[l],
                    ).id->0@ && r@[l].1 == self.proj().entry(idxs[l]).kind->request)
            }),
    {
        match self.resolve_requests(path_id, method) {
            Some(v) => v,
            None => {
                proof {
                    assert(false);
                }
                Vec::new()
            },
        }
    }

    /// The operations matching an interaction's request method.
    pub fn resolve_operations(&self, interaction: &HttpInteraction, path_id: &str) -> (r: Vec<
        (RequestId, RequestDescriptor),
    >)
        requires
            self.wf(),
            self.proj().has_live_id(path_id@),
        ensures
            ({
                let idxs = self.proj().requests_under(
                    self.proj().idx_of(path_id@),
                    interaction.request.method@,
                );
                &&& r@.len() == idxs.len()
                &&& forall|l: int|
                    0 <= l < idxs.len() ==> ((#[trigger] r@[l]).0@ == self.proj().entry(
                        idxs[l],
                    ).id->0@ && r@[l].1 == self.proj().entry(idxs[l]).kind->request)
            }),
    {
        self.resolve_operations_by_request_method(&interaction.request.method, path_id)
    }

    /// The first declared operation under `path_id` and `method` whose body
    /// matches the observed request content type.
    pub fn resolve_request_by_method_and_content_type(
        &self,
        path_id: &str,
        method: &String,
        content_type: Option<&String>,
    ) -> (r: Option<(RequestId, RequestDescriptor)>)
        requires
            self.wf(),
        ensures
            match r {
                Some(pair) => self.proj().has_live_id(path_id@) && (exists|e: int|
                    self.proj().is_first_request_ct(
                        e,
                        self.proj().idx_of(path_id@),
                        method@,
                        opt_str_view(content_type),
                    ) && pair.0@ == self.proj().entry(e).id->0@ && pair.1 == self.proj().entry(
                        e,
                    ).kind->request),
                None => !self.proj().has_live_id(path_id@) || (forall|e: int|
                    !self.proj().is_request_ct(
                        e,
                        self.proj().idx_of(path_id@),
                        method@,
                        opt_str_view(content_type),
                    )),
            },
    {
        let p = match self.find_index_of(path_id) {
            Some(p) => p,
            None => {
                return None;
            },
        };
        let ghost pp = p as int;
        let ghost mv = method@;
        let ghost cv = opt_str_view(content_type);
        let n = self.endpoint_projection.nodes.len();
        let mut j: usize = 0;
        while j < n
            invariant
                self.wf(),
                j <= n,
                n == self.proj().n(),
                pp == p as int,
                mv == method@,
                cv == opt_str_view(content_type),
                pp == self.proj().idx_of(path_id@),
                self.proj().has_live_id(path_id@),
                forall|e: int| 0 <= e < j ==> !self.proj().is_request_ct(e, pp, mv, cv),
            decreases n - j,
        {
            if self.is_request_under_exec(j, p, method) {
                let entry = &self.endpoint_projection.nodes[j];
                if let NodeKind::Request { request } = &entry.kind {
                    if Self::body_ct_matches(&request.body, content_type) {
                        proof {
                            assert(self.proj().is_first_request_ct(j as int, pp, mv, cv));
                        }
                        if let Some(id) = &entry.id {
                            return Some((id.clone(), dup_request_descriptor(request)));
                        }
                        proof {
                            assert(false);
                        }
                    }
                } else {
                    proof {
                        assert(false);
                    }
                }
            }
            j += 1;
        }
        proof {
            assert forall|e: int| !self.proj().is_request_ct(e, pp, mv, cv) by {
                if 0 <= e < n {
                } else {
                    assert(!self.proj().live(e));
                }
            }
        }
        None
    }

    /// All declared responses for `method` and `status_code` under
    /// `path_id`, which must name a live node.
    pub fn resolve_responses_by_method_and_status_code(
        &self,
        method: &str,
        status_code: u16,
        path_id: &str,
    ) -> (r: Vec<(ResponseId, ResponseBodyDescriptor)>)
        requires
            self.wf(),
            self.proj().has_live_id(path_id@),
        ensures
            ({
                let idxs = self.proj().responses_under_status(
                    self.proj().idx_of(path_id@),
                    method@,
                    status_code,
                );
                &&& r@.len() == idxs.len()
                &&& forall|l: int|
                    0 <= l < idxs.len() ==> ((#[trigger] r@[l]).0@ == self.proj().entry(
                        idxs[l],
                    ).id->0@ && r@[l].1 == self.proj().entry(idxs[l]).kind->response)
            }),
    {
        let method_string: String = method.to_owned();
        let p = match self.find_index_of(path_id) {
            Some(p) => p,
            None => {
                proof {
                    assert(false);
                }
                return Vec::new();
            },
        };
        let ghost pp = p as int;
        let ghost mv = method@;
        let n = self.endpoint_projection.nodes.len();
        let mut out: Vec<(ResponseId, ResponseBodyDescriptor)> = Vec::new();
        let ghost mut gidx: Seq<int> = Seq::empty();
        let mut j: usize = 0;
        while j < n
            invariant
                self.wf(),
                j <= n,
                n == self.proj().n(),
                pp == p as int,
                mv == method@,
                method_string@ == method@,
                pp == self.proj().idx_of(path_id@),
                self.proj().has_live_id(path_id@),
                gidx + self.proj().responses_status_from(pp, mv, status_code, j as int)
                    == self.proj().responses_under_status(pp, mv, status_code),
                out@.len() == gidx.len(),
                forall|l: int|
                    0 <= l < gidx.len() ==> (0 <= #[trigger] gidx[l] < n && (out@[l].0@
                        == self.proj().entry(gidx[l]).id->0@ && out@[l].1 == self.proj().entry(
                        gidx[l],
                    ).kind->response)),
            decreases n - j,
        {
            let ghost gidx0 = gidx;
            let hit = self.is_response_status_under_exec(j, p, &method_string, status_code);
            if hit {
                let entry = &self.endpoint_projection.nodes[j];
                if let NodeKind::Response { response } = &entry.kind {
                    if let Some(id) = &entry.id {
                        out.push((id.clone(), dup_response_descriptor(response)));
                        proof {
                            gidx = gidx + seq![j as int];
                        }
                    } else {
                        proof {
                            assert(false);
                        }
                    }
                } else {
                    proof {
                        assert(false);
                    }
                }
            }
            proof {
                let jj = j as int;
                let c: Seq<int> = if self.proj().is_response_under_status(jj, pp, mv, status_code) {
                    seq![jj]
                } else {
                    Seq::empty()
                };
                assert(self.proj().responses_status_from(pp, mv, status_code, jj) =~= c
                    + self.proj().responses_status_from(pp, mv, status_code, jj + 1));
                assert(gidx =~= gidx0 + c);
                assert(gidx + self.proj().responses_status_from(pp, mv, status_code, jj + 1)
                    =~= self.proj().responses_under_status(pp, mv, status_code));
            }
            j += 1;
        }
        proof {
            assert(self.proj().responses_status_from(pp, mv, status_code, n as int) =~= Seq::<
                int,
            >::empty());
            assert(gidx =~= self.proj().responses_under_status(pp, mv, status_code));
        }
        out
    }

    /// The first declared response under `path_id`, `method` and
    /// `status_code` whose body matches the observed content type; the path
    /// id must name a live node.
    pub fn resolve_response_by_method_status_code_and_content_type(
        &self,
        path_id: &str,
        method: &str,
        status_code: u16,
        content_type: Option<&String>,
    ) -> (r: Option<(ResponseId, ResponseBodyDescriptor)>)
        requires
            self.wf(),
            self.proj().has_live_id(path_id@),
        ensures
            match r {
                Some(pair) => (exists|e: int|
                    self.proj().is_first_response_status_ct(
                        e,
                        self.proj().idx_of(path_id@),
                        method@,
                        status_code,
                        opt_str_view(content_type),
                    ) && pair.0@ == self.proj().entry(e).id->0@ && pair.1 == self.proj().entry(
                        e,
                    ).kind->response),
                None => forall|e: int|
                    !self.proj().is_response_status_ct(
                        e,
                        self.proj().idx_of(path_id@),
                        method@,
                        status_code,
                        opt_str_view(content_type),
                    ),
            },
    {
        let method_string: String = method.to_owned();
        let p = match self.find_index_of(path_id) {
            Some(p) => p,
            None => {
                proof {
                    assert(false);
                }
                return None;
            },
        };
        let ghost pp = p as int;
        let ghost mv = method@;
        let ghost cv = opt_str_view(content_type);
        let n = self.endpoint_projection.nodes.len();
        let mut j: usize = 0;
        while j < n
            invariant
                self.wf(),
                j <= n,
                n == self.proj().n(),
                pp == p as int,
                mv == method@,
                method_string@ == method@,
                cv == opt_str_view(content_type),
                pp == self.proj().idx_of(path_id@),
                self.proj().has_live_id(path_id@),
                forall|e: int|
                    0 <= e < j ==> !self.proj().is_response_status_ct(e, pp, mv, status_code, cv),
            decreases n - j,
        {
            if self.is_response_status_under_exec(j, p, &method_string, status_code) {
                let entry = &self.endpoint_projection.nodes[j];
                if let NodeKind::Response { response } = &entry.kind {
                    if Self::body_ct_matches(&response.body, content_type) {
                        proof {
                            assert(self.proj().is_first_response_status_ct(
                                j as int,
                                pp,
                                mv,
                                status_code,
                                cv,
                            ));
                        }
                        if let Some(id) = &entry.id {
                            return Some((id.clone(), dup_response_descriptor(response)));
                        }
                        proof {
                            assert(false);
                        }
                    }
                } else {
                    proof {
                        assert(false);
                    }
                }
            }
            j += 1;
        }
        proof {
            assert forall|e: int| !self.proj().is_response_status_ct(
                e,
                pp,
                mv,
                status_code,
                cv,
            ) by {
                if 0 <= e < n {
                } else {
                    assert(!self.proj().live(e));
                }
            }
        }
        None
    }

    /// The query-parameters node declared for the path-and-method pairing.
    pub fn resolve_endpoint_query_params(&self, path_id: &str, method: &String) -> (r: Option<
        (QueryParametersId, QueryParametersDescriptor),
    >)
        requires
            self.wf(),
        ensures
            match r {
                Some(pair) => self.proj().has_live_id(path_id@) && (exists|e: int|
                    self.proj().is_first_query_params(e, self.proj().idx_of(path_id@), method@)
                        && pair.0@ == self.proj().entry(e).id->0@ && pair.1 == self.proj().entry(
                        e,
                    ).kind->query_parameters),
                None => !self.proj().has_live_id(path_id@) || (forall|e: int|
                    !self.proj().is_query_params_under(
                        e,
                        self.proj().idx_of(path_id@),
                        method@,
                    )),
            },
    {
        let p = match self.find_index_of(path_id) {
            Some(p) => p,
            None => {
                return None;
            },
        };
        let ghost pp = p as int;
        let ghost mv = method@;
        let n = self.endpoint_projection.nodes.len();
        let mut j: usize = 0;
        while j < n
            invariant
                self.wf(),
                j <= n,
                n == self.proj().n(),
                pp == p as int,
                mv == method@,
                pp == self.proj().idx_of(path_id@),
                self.proj().has_live_id(path_id@),
                forall|e: int| 0 <= e < j ==> !self.proj().is_query_params_under(e, pp, mv),
            decreases n - j,
        {
            if self.is_query_params_under_exec(j, p, method) {
                let entry = &self.endpoint_projection.nodes[j];
                if let NodeKind::QueryParameters { query_parameters } = &entry.kind {
                    proof {
                        assert(self.proj().is_first_query_params(j as int, pp, mv));
                    }
                    if let Some(id) = &entry.id {
                        return Some((id.clone(), dup_query_params_descriptor(query_parameters)));
                    }
                    proof {
                        assert(false);
                    }
                } else {
                    proof {
                        assert(false);
                    }
                }
            }
            j += 1;
        }
        proof {
            assert forall|e: int| !self.proj().is_query_params_under(e, pp, mv) by {
                if 0 <= e < n {
                } else {
                    assert(!self.proj().live(e));
                }
            }
        }
        None
    }
}

impl<'a> EndpointQueries<'a> {
    /// The graph node carrying `node_id`; the id must name a live node —
    /// an id taken from the index but absent from the graph would mean the
    /// projection is corrupt.
    pub fn graph_get_node(&self, node_id: &str) -> (r: &crate::projection::NodeEntry)
        requires
            self.wf(),
            self.proj().has_live_id(node_id@),
        ensures
            *r == self.proj().entry(self.proj().idx_of(node_id@)),
    {
        match self.endpoint_projection.get_node(node_id) {
            Some(e) => e,
            None => {
                proof {
                    assert(false);
                }
                &self.endpoint_projection.nodes[0]
            },
        }
    }

    /// Does path node `i` have a directly declared endpoint?
    fn check_endpoint(&self, i: usize) -> (r: bool)
        requires
            self.wf(),
        ensures
            r == self.proj().has_endpoint(i as int),
    {
        let ghost ii = i as int;
        let n = self.endpoint_projection.nodes.len();
        let mut j: usize = 0;
        while j < n
            invariant
                self.wf(),
                ii == i as int,
                j <= n,
                n == self.proj().n(),
                forall|e: int| 0 <= e < j ==> !self.proj().endpoint_witness(e, ii),
            decreases n - j,
        {
            let entry = &self.endpoint_projection.nodes[j];
            let mut w = false;
            if !entry.removed {
                match &entry.kind {
                    NodeKind::Request { .. } => {
                        if let Some(m) = entry.parent {
                            proof {
                                assert(self.proj().entry(j as int).parent matches Some(q) && (
                                q as int) < (j as int));
                            }
                            let me = &self.endpoint_projection.nodes[m];
                            if !me.removed {
                                if let NodeKind::HttpMethod { .. } = &me.kind {
                                    if let Some(mp) = me.parent {
                                        if mp == i {
                                            w = true;
                                        }
                                    }
                                }
                            }
                        }
                    },
                    NodeKind::Response { .. } => {
                        if let Some(sc) = entry.parent {
                            proof {
                                assert(self.proj().entry(j as int).parent matches Some(q) && (
                                q as int) < (j as int));
                            }
                            let se = &self.endpoint_projection.nodes[sc];
                            if !se.removed {
                                if let NodeKind::HttpStatusCode { .. } = &se.kind {
                                    if let Some(m) = se.parent {
                                        proof {
                                            assert(self.proj().entry(sc as int).parent
                                                matches Some(q) && (q as int) < (sc as int));
                                        }
                                        let me = &self.endpoint_projection.nodes[m];
                                        if !me.removed {
                                            if let NodeKind::HttpMethod { .. } = &me.kind {
                                                if let Some(mp) = me.parent {
                                                    if mp == i {
                                                        w = true;
                                                    }
                                                }
                                            }
                                        }
                                    }
                                }
                            }
                        }
                    },
                    _ => {},
                }
            }
            if w {
                proof {
                    assert(self.proj().endpoint_witness(j as int, ii));
                }
                return true;
            }
            proof {
                assert(!self.proj().endpoint_witness(j as int, ii));
            }
            j += 1;
        }
        proof {
            assert forall|e: int| !self.proj().endpoint_witness(e, ii) by {
                if 0 <= e < n {
                } else {
                    assert(!self.proj().live(e));
                }
            }
        }
        false
    }

    /// Walk the subtree of path node `i`, appending its unused ids in
    /// post-order, and say whether `i` itself is unused.
    fn unused_collect(&self, i: usize, out: &mut Vec<PathComponentId>) -> (unused: bool)
        requires
            self.wf(),
            self.proj().is_path_node(i as int),
        ensures
            final(out).deep_view() == old(out).deep_view() + self.proj().unused_info(i as int).0,
            unused == self.proj().unused_info(i as int).1,
        decreases self.proj().n() - i,
    {
        let ghost ii = i as int;
        let ghost init = out.deep_view();
        let n = self.endpoint_projection.nodes.len();
        let mut any_child_used = false;
        let mut j: usize = i + 1;
        while j < n
            invariant
                self.wf(),
                ii == i as int,
                i < j <= n,
                n == self.proj().n(),
                self.proj().is_path_node(ii),
                init == old(out).deep_view(),
                out.deep_view() + self.proj().unused_scan(ii, j as int).0 == init + self.proj(
                ).unused_scan(ii, ii + 1).0,
                (any_child_used || self.proj().unused_scan(ii, j as int).1) == self.proj(
                ).unused_scan(ii, ii + 1).1,
            decreases n - j,
        {
            let ghost out0 = out.deep_view();
            let entry = &self.endpoint_projection.nodes[j];
            let mut is_child = false;
            if !entry.removed {
                if let Some(pp) = entry.parent {
                    if pp == i {
                        if let NodeKind::PathComponent { .. } = &entry.kind {
                            is_child = true;
                        }
                    }
                }
            }
            if is_child {
                let cu = self.unused_collect(j, out);
                if !cu {
                    any_child_used = true;
                }
            }
            proof {
                let jj = j as int;
                let pr = self.proj();
                let info = pr.unused_info(jj);
                if is_child {
                    assert(pr.unused_scan(ii, jj).0 =~= info.0 + pr.unused_scan(ii, jj + 1).0);
                    assert(pr.unused_scan(ii, jj).1 == (!info.1 || pr.unused_scan(ii, jj + 1).1));
                    assert(out.deep_view() =~= out0 + info.0);
                } else {
                    assert(pr.unused_scan(ii, jj).0 =~= pr.unused_scan(ii, jj + 1).0);
                    assert(pr.unused_scan(ii, jj).1 == pr.unused_scan(ii, jj + 1).1);
                    assert(out.deep_view() =~= out0);
                }
                assert(out.deep_view() + pr.unused_scan(ii, jj + 1).0 =~= init + pr.unused_scan(
                    ii,
                    ii + 1,
                ).0);
            }
            j += 1;
        }
        let has_ep = self.check_endpoint(i);
        let unused = !has_ep && !any_child_used;
        proof {
            assert(self.proj().unused_scan(ii, n as int).0 =~= Seq::<Seq<char>>::empty());
            assert(self.proj().unused_scan(ii, n as int).1 == false);
            assert(out.deep_view() =~= init + self.proj().unused_scan(ii, ii + 1).0);
            assert(any_child_used == self.proj().unused_scan(ii, ii + 1).1);
        }
        if unused {
            let ghost pre_push = out.deep_view();
            proof {
                assert(self.proj().unused_info(ii).0 =~= self.proj().unused_scan(ii, ii + 1).0
                    + seq![self.proj().id_view(ii)->0]);
            }
            let entry = &self.endpoint_projection.nodes[i];
            if let Some(id) = &entry.id {
                out.push(id.clone());
                proof {
                    assert(id@ == self.proj().id_view(ii)->0);
                    assert(out.deep_view() =~= pre_push + seq![self.proj().id_view(ii)->0]);
                    assert(out.deep_view() =~= init + self.proj().unused_info(ii).0);
                }
            } else {
                proof {
                    assert(false);
                }
            }
        } else {
            proof {
                assert(self.proj().unused_info(ii).0 =~= self.proj().unused_scan(ii, ii + 1).0);
                assert(out.deep_view() =~= init + self.proj().unused_info(ii).0);
            }
        }
        unused
    }

    /// The ordered sequence of path-component ids that have no endpoint and
    /// no used descendant path; the root is never reported.  The output
    /// follows the post-order finish order of a depth-first walk that
    /// visits children in insertion order.
    pub fn resolve_unused_paths(&self) -> (r: Vec<PathComponentId>)
        requires
            self.wf(),
        ensures
            r.deep_view() == self.proj().unused_paths_spec(),
    {
        let mut out: Vec<PathComponentId> = Vec::new();
        let n = self.endpoint_projection.nodes.len();
        let mut j: usize = 1;
        while j < n
            invariant
                self.wf(),
                1 <= j <= n,
                n == self.proj().n(),
                out.deep_view() + self.proj().unused_scan(0, j as int).0 == self.proj(
                ).unused_scan(0, 1).0,
            decreases n - j,
        {
            let ghost out0 = out.deep_view();
            let entry = &self.endpoint_projection.nodes[j];
            let mut is_child = false;
            if !entry.removed {
                if let Some(pp) = entry.parent {
                    if pp == 0 {
                        if let NodeKind::PathComponent { .. } = &entry.kind {
                            is_child = true;
                        }
                    }
                }
            }
            if is_child {
                let _ = self.unused_collect(j, &mut out);
            }
            proof {
                let jj = j as int;
                let pr = self.proj();
                let info = pr.unused_info(jj);
                if is_child {
                    assert(pr.unused_scan(0, jj).0 =~= info.0 + pr.unused_scan(0, jj + 1).0);
                    assert(out.deep_view() =~= out0 + info.0);
                } else {
                    assert(pr.unused_scan(0, jj).0 =~= pr.unused_scan(0, jj + 1).0);
                    assert(out.deep_view() =~= out0);
                }
                assert(out.deep_view() + pr.unused_scan(0, jj + 1).0 =~= pr.unused_scan(0, 1).0);
            }
            j += 1;
        }
        proof {
            assert(self.proj().unused_scan(0, n as int).0 =~= Seq::<Seq<char>>::empty());
            assert(out.deep_view() =~= self.proj().unused_paths_spec());
        }
        out
    }
}

/// The removal commands that clear one endpoint: request removals, then
/// response removals, then at most one query-parameters removal.
pub struct DeleteEndpointCommands {
    pub path_id: PathComponentId,
    pub method: HttpMethod,
    pub commands: Vec<SpecCommand>,
}

impl<'a> EndpointQueries<'a> {
    /// Synthesise the commands that delete everything declared under the
    /// path-and-method pairing; no match when the path id is unknown.
    pub fn delete_endpoint_commands(&self, path_id: &String, method: &String) -> (r: Option<
        DeleteEndpointCommands,
    >)
        requires
            self.wf(),
        ensures
            match r {
                Some(d) => {
                    let p = self.proj().idx_of(path_id@);
                    let reqs = self.proj().requests_under(p, method@);
                    let resps = self.proj().responses_under(p, method@);
                    let nq: int = if exists|q: int|
                        self.proj().is_query_params_under(q, p, method@) {
                        1
                    } else {
                        0
                    };
                    &&& self.proj().has_live_id(path_id@)
                    &&& d.path_id@ == path_id@
                    &&& d.method@ == method@
                    &&& d.commands@.len() == reqs.len() + resps.len() + nq
                    &&& forall|l: int|
                        0 <= l < reqs.len() ==> ((#[trigger] d.commands@[l]).endpoint_command()
                            matches EndpointCommand::RemoveRequest { request_id } && request_id@
                            == self.proj().entry(reqs[l]).id->0@)
                    &&& forall|l: int|
                        reqs.len() <= l < reqs.len() + resps.len() ==> ((
                        #[trigger] d.commands@[l]).endpoint_command()
                            matches EndpointCommand::RemoveResponse { response_id } && response_id@
                            == self.proj().entry(resps[l - reqs.len()]).id->0@)
                    &&& (nq == 1 ==> ((d.commands@[reqs.len() + resps.len() as int]).endpoint_command()
                        matches EndpointCommand::RemoveQueryParameters { query_parameters_id } && (
                    exists|q: int|
                        self.proj().is_first_query_params(q, p, method@) && query_parameters_id@
                            == self.proj().entry(q).id->0@)))
                },
                None => !self.proj().has_live_id(path_id@),
            },
    {
        let query_param = self.resolve_endpoint_query_params(path_id.as_str(), method);
        let requests = match self.resolve_requests(path_id.as_str(), method) {
            Some(v) => v,
            None => {
                return None;
            },
        };
        let responses = match self.resolve_responses(path_id, method) {
            Some(v) => v,
            None => {
                return None;
            },
        };
        let ghost pr = self.proj();
        let ghost p = pr.idx_of(path_id@);
        let ghost reqs = pr.requests_under(p, method@);
        let ghost resps = pr.responses_under(p, method@);
        let mut commands: Vec<SpecCommand> = Vec::new();
        let nr = requests.len();
        let mut l: usize = 0;
        while l < nr
            invariant
                l <= nr,
                pr == self.proj(),
                nr == requests@.len(),
                nr == reqs.len(),
                reqs == pr.requests_under(p, method@),
                forall|k: int|
                    0 <= k < nr ==> ((#[trigger] requests@[k]).0@ == pr.entry(reqs[k]).id->0@),
                commands@.len() == l,
                forall|k: int|
                    0 <= k < l ==> ((#[trigger] commands@[k]).endpoint_command()
                        matches EndpointCommand::RemoveRequest { request_id } && request_id@
                        == pr.entry(reqs[k]).id->0@),
            decreases nr - l,
        {
            let pair = &requests[l];
            commands.push(SpecCommand::from(EndpointCommand::remove_request(pair.0.clone())));
            l += 1;
        }
        let ns = responses.len();
        let mut l2: usize = 0;
        while l2 < ns
            invariant
                l2 <= ns,
                pr == self.proj(),
                ns == responses@.len(),
                ns == resps.len(),
                nr == reqs.len(),
                reqs == pr.requests_under(p, method@),
                resps == pr.responses_under(p, method@),
                forall|k: int|
                    0 <= k < ns ==> ((#[trigger] responses@[k]).0@ == pr.entry(resps[k]).id->0@),
                commands@.len() == nr + l2,
                forall|k: int|
                    0 <= k < nr ==> ((#[trigger] commands@[k]).endpoint_command()
                        matches EndpointCommand::RemoveRequest { request_id } && request_id@
                        == pr.entry(reqs[k]).id->0@),
                forall|k: int|
                    nr <= k < nr + l2 ==> ((#[trigger] commands@[k]).endpoint_command()
                        matches EndpointCommand::RemoveResponse { response_id } && response_id@
                        == pr.entry(resps[k - nr]).id->0@),
            decreases ns - l2,
        {
            let pair = &responses[l2];
            commands.push(SpecCommand::from(EndpointCommand::remove_response(pair.0.clone())));
            l2 += 1;
        }
        if let Some((query_param_id, _)) = query_param {
            commands.push(
                SpecCommand::from(EndpointCommand::remove_query_parameters(query_param_id)),
            );
        }
        Some(
            DeleteEndpointCommands {
                path_id: path_id.clone(),
                method: method.clone(),
                commands,
            },
        )
    }

    /// Synthesise the one command that deletes a path component, choosing
    /// the parameter or plain variant by the component's flag; no match when
    /// the id does not name a live path component.
    pub fn delete_path_commands(&self, path_id: &String) -> (r: Option<Vec<EndpointCommand>>)
        requires
            self.wf(),
        ensures
            match r {
                Some(v) => {
                    let i = self.proj().idx_of(path_id@);
                    &&& self.proj().has_live_id(path_id@)
                    &&& self.proj().entry(i).kind is PathComponent
                    &&& v@.len() == 1
                    &&& (self.proj().entry(i).kind->component.is_parameter ==> (v@[0]
                        matches EndpointCommand::RemovePathParameter { path_id: pid } && pid@
                        == path_id@))
                    &&& (!self.proj().entry(i).kind->component.is_parameter ==> (v@[0]
                        matches EndpointCommand::RemovePathComponent { path_id: pid } && pid@
                        == path_id@))
                },
                None => !self.proj().has_live_id(path_id@) || !(self.proj().entry(
                    self.proj().idx_of(path_id@),
                ).kind is PathComponent),
            },
    {
        let i = match self.find_index_of(path_id.as_str()) {
            Some(i) => i,
            None => {
                return None;
            },
        };
        let is_parameter = match &self.endpoint_projection.nodes[i].kind {
            NodeKind::PathComponent { component } => component.is_parameter,
            _ => {
                return None;
            },
        };
        let command = if is_parameter {
            EndpointCommand::remove_path_parameter(path_id.clone())
        } else {
            EndpointCommand::remove_path_component(path_id.clone())
        };
        let mut commands: Vec<EndpointCommand> = Vec::new();
        commands.push(command);
        Some(commands)
    }
}

/// The chain conditions of a removal-command fold: one snapshot per step,
/// all well formed, each step the successful fold of one removal command's
/// event into the one before.
pub open spec fn removal_chain(states: Seq<EndpointProjection>, cmds: Seq<EndpointCommand>) -> bool {
    &&& states.len() == cmds.len() + 1
    &&& forall|i: int| 0 <= i < states.len() ==> (#[trigger] states[i]).wf()
    &&& forall|i: int|
        0 <= i < cmds.len() ==> EndpointProjection::apply_ok(
            states[i],
            states[i + 1],
            (#[trigger] cmds[i]).event_for(),
        )
    &&& forall|i: int|
        0 <= i < cmds.len() ==> ((#[trigger] cmds[i]) is RemoveRequest || cmds[i]
            is RemoveResponse || cmds[i] is RemoveQueryParameters)
}

/// Along a removal chain the arena's structure never changes, and a node
/// live at step `j` was live at every step before it.
#[verifier::rlimit(100)]
#[verifier::spinoff_prover]
pub proof fn lemma_removal_chain_structure(
    states: Seq<EndpointProjection>,
    cmds: Seq<EndpointCommand>,
    j: int,
)
    requires
        removal_chain(states, cmds),
        0 <= j <= cmds.len(),
    ensures
        states[0].same_structure(states[j]),
        forall|k: int| states[j].live(k) ==> states[0].live(k),
    decreases j,
{
    if j > 0 {
        lemma_removal_chain_structure(states, cmds, j - 1);
        let pre = states[j - 1];
        let post = states[j];
        let c = cmds[j - 1];
        assert(EndpointProjection::apply_ok(pre, post, c.event_for()));
        assert(pre.same_structure(post));
        assert forall|k: int|
            0 <= k < states[0].n() implies {
            &&& (#[trigger] post.entry(k)).id == states[0].entry(k).id
            &&& post.entry(k).kind == states[0].entry(k).kind
            &&& post.entry(k).parent == states[0].entry(k).parent
        } by {
            assert(pre.entry(k).id == states[0].entry(k).id);
            assert(post.entry(k).id == pre.entry(k).id);
            assert(post.entry(k).kind == pre.entry(k).kind);
            assert(post.entry(k).parent == pre.entry(k).parent);
        }
        assert forall|k: int| post.live(k) implies states[0].live(k) by {
            assert(pre.live(k));
        }
    }
}

/// A node live at the end of a removal chain was live at every step.
pub proof fn lemma_removal_chain_live_back(
    states: Seq<EndpointProjection>,
    cmds: Seq<EndpointCommand>,
    k: int,
    j: int,
)
    requires
        removal_chain(states, cmds),
        0 <= j <= cmds.len(),
        states[cmds.len() as int].live(k),
    ensures
        states[j].live(k),
    decreases cmds.len() - j,
{
    if j < cmds.len() {
        lemma_removal_chain_live_back(states, cmds, k, j + 1);
        let pre = states[j];
        let post = states[j + 1];
        let c = cmds[j];
        assert(EndpointProjection::apply_ok(pre, post, c.event_for()));
        assert(post.live(k) ==> pre.live(k));
    }
}

/// One step of a removal chain kills the node carrying the command's
/// target id, and it stays dead to the end of the chain.
pub proof fn lemma_removal_chain_kills(
    states: Seq<EndpointProjection>,
    cmds: Seq<EndpointCommand>,
    l: int,
    e: int,
)
    requires
        removal_chain(states, cmds),
        0 <= l < cmds.len(),
        states[l].live(e),
        states[l].id_view(e) == Some(cmds[l].target_id()),
    ensures
        !states[cmds.len() as int].live(e),
{
    let pre = states[l];
    let post = states[l + 1];
    let c = cmds[l];
    assert(EndpointProjection::apply_ok(pre, post, c.event_for()));
    pre.lemma_idx_of_is(c.target_id(), e);
    assert(pre.in_subtree(e, e));
    assert(!post.live(e));
    if states[cmds.len() as int].live(e) {
        lemma_removal_chain_live_back(states, cmds, e, l + 1);
        assert(false);
    }
}

/// Deletion closure: execute every command `delete_endpoint_commands`
/// synthesised for one path-and-method pairing, fold each resulting
/// removal event in order, and the pairing is left with no requests, no
/// responses and no query parameters, while the path node itself stands.
///
/// The command-shape hypotheses restate what `delete_endpoint_commands`
/// ensures of its output; the chain hypotheses what `apply` ensures of
/// each fold.  A spec that declares more than one query-parameters node
/// for one pairing is left out: the synthesis removes only the first.
#[verifier::rlimit(100)]
#[verifier::spinoff_prover]
pub proof fn lemma_delete_endpoint_closure(
    states: Seq<EndpointProjection>,
    cmds: Seq<EndpointCommand>,
    path_id: Seq<char>,
    method: Seq<char>,
)
    requires
        removal_chain(states, cmds),
        states[0].has_live_id(path_id),
        ({
            let pre = states[0];
            let p = pre.idx_of(path_id);
            let reqs = pre.requests_under(p, method);
            let resps = pre.responses_under(p, method);
            let nq: int = if exists|q: int| pre.is_query_params_under(q, p, method) {
                1
            } else {
                0
            };
            &&& cmds.len() == reqs.len() + resps.len() + nq
            &&& forall|l: int|
                0 <= l < reqs.len() ==> ((#[trigger] cmds[l])
                    matches EndpointCommand::RemoveRequest { request_id } && request_id@
                    == pre.entry(reqs[l]).id->0@)
            &&& forall|l: int|
                reqs.len() <= l < reqs.len() + resps.len() ==> ((#[trigger] cmds[l])
                    matches EndpointCommand::RemoveResponse { response_id } && response_id@
                    == pre.entry(resps[l - reqs.len()]).id->0@)
            &&& (nq == 1 ==> (cmds[reqs.len() + resps.len() as int]
                matches EndpointCommand::RemoveQueryParameters { query_parameters_id } && (exists|
                q: int,
            |
                pre.is_first_query_params(q, p, method) && query_parameters_id@ == pre.entry(
                    q,
                ).id->0@)))
            &&& forall|q1: int, q2: int|
                #[trigger] pre.is_query_params_under(q1, p, method)
                    && #[trigger] pre.is_query_params_under(q2, p, method) ==> q1 == q2
        }),
    ensures
        ({
            let pre = states[0];
            let last = states[cmds.len() as int];
            let p = pre.idx_of(path_id);
            &&& forall|e: int| !last.is_request_under(e, p, method)
            &&& forall|e: int| !last.is_response_under(e, p, method)
            &&& forall|e: int| !last.is_query_params_under(e, p, method)
        }),
{
    let pre = states[0];
    let last = states[cmds.len() as int];
    let p = pre.idx_of(path_id);
    let reqs = pre.requests_under(p, method);
    let resps = pre.responses_under(p, method);
    lemma_removal_chain_structure(states, cmds, cmds.len() as int);
    pre.lemma_requests_under_membership(p, method, 0);
    pre.lemma_responses_under_membership(p, method, 0);
    assert forall|e: int| !last.is_request_under(e, p, method) by {
        if last.is_request_under(e, p, method) {
            let m = last.entry(e).parent->0 as int;
            assert(pre.live(e) && pre.live(m));
            assert(pre.entry(e).kind == last.entry(e).kind);
            assert(pre.entry(m).kind == last.entry(m).kind);
            assert(pre.entry(e).parent == last.entry(e).parent);
            assert(pre.entry(m).parent == last.entry(m).parent);
            assert(pre.is_request_under(e, p, method));
            assert(reqs.contains(e));
            let l = choose|l: int| 0 <= l < reqs.len() && reqs[l] == e;
            assert(cmds[l] matches EndpointCommand::RemoveRequest { request_id } && request_id@
                == pre.entry(e).id->0@);
            assert(pre.entry(e).id is Some);
            assert(cmds[l].target_id() == pre.entry(e).id->0@);
            lemma_removal_chain_live_back(states, cmds, e, l);
            lemma_removal_chain_structure(states, cmds, l);
            assert(states[l].entry(e).id == pre.entry(e).id);
            assert(states[l].id_view(e) == pre.id_view(e));
            lemma_removal_chain_kills(states, cmds, l, e);
            assert(false);
        }
    }
    assert forall|e: int| !last.is_response_under(e, p, method) by {
        if last.is_response_under(e, p, method) {
            let sc = last.entry(e).parent->0 as int;
            let m = last.entry(sc).parent->0 as int;
            assert(pre.live(e) && pre.live(sc) && pre.live(m));
            assert(pre.entry(e).kind == last.entry(e).kind);
            assert(pre.entry(sc).kind == last.entry(sc).kind);
            assert(pre.entry(m).kind == last.entry(m).kind);
            assert(pre.entry(e).parent == last.entry(e).parent);
            assert(pre.entry(sc).parent == last.entry(sc).parent);
            assert(pre.entry(m).parent == last.entry(m).parent);
            assert(pre.is_response_under(e, p, method));
            assert(resps.contains(e));
            let l0 = choose|l0: int| 0 <= l0 < resps.len() && resps[l0] == e;
            let l = l0 + reqs.len() as int;
            assert(cmds[l] matches EndpointCommand::RemoveResponse { response_id } && response_id@
                == pre.entry(e).id->0@);
            assert(pre.entry(e).id is Some);
            assert(cmds[l].target_id() == pre.entry(e).id->0@);
            lemma_removal_chain_live_back(states, cmds, e, l);
            lemma_removal_chain_structure(states, cmds, l);
            assert(states[l].entry(e).id == pre.entry(e).id);
            assert(states[l].id_view(e) == pre.id_view(e));
            lemma_removal_chain_kills(states, cmds, l, e);
            assert(false);
        }
    }
    assert forall|e: int| !last.is_query_params_under(e, p, method) by {
        if last.is_query_params_under(e, p, method) {
            let m = last.entry(e).parent->0 as int;
            assert(pre.live(e) && pre.live(m));
            assert(pre.entry(e).kind == last.entry(e).kind);
            assert(pre.entry(m).kind == last.entry(m).kind);
            assert(pre.entry(e).parent == last.entry(e).parent);
            assert(pre.entry(m).parent == last.entry(m).parent);
            assert(pre.is_query_params_under(e, p, method));
            let l = reqs.len() + resps.len() as int;
            assert(cmds[l] matches EndpointCommand::RemoveQueryParameters {
                query_parameters_id,
            } && (exists|q: int|
                pre.is_first_query_params(q, p, method) && query_parameters_id@ == pre.entry(
                    q,
                ).id->0@));
            let q = choose|q: int|
                pre.is_first_query_params(q, p, method) && cmds[l].target_id() == pre.entry(
                    q,
                ).id->0@;
            assert(pre.is_query_params_under(q, p, method));
            assert(q == e);
            assert(pre.entry(e).id is Some);
            assert(cmds[l].target_id() == pre.entry(e).id->0@);
            lemma_removal_chain_live_back(states, cmds, e, l);
            lemma_removal_chain_structure(states, cmds, l);
            assert(states[l].entry(e).id == pre.entry(e).id);
            assert(states[l].id_view(e) == pre.id_view(e));
            lemma_removal_chain_kills(states, cmds, l, e);
            assert(false);
        }
    }
}

/// Membership in a concatenation splits over its halves.
proof fn lemma_concat_contains<T>(a: Seq<T>, b: Seq<T>, x: T)
    ensures
        (a + b).contains(x) <==> a.contains(x) || b.contains(x),
{
    if (a + b).contains(x) {
        let idx = choose|idx: int| 0 <= idx < (a + b).len() && (a + b)[idx] == x;
        if idx < a.len() {
            assert(a[idx] == x);
        } else {
            assert(b[idx - a.len()] == x);
        }
    }
    if a.contains(x) {
        let idx = choose|idx: int| 0 <= idx < a.len() && a[idx] == x;
        assert((a + b)[idx] == x);
    }
    if b.contains(x) {
        let idx = choose|idx: int| 0 <= idx < b.len() && b[idx] == x;
        assert((a + b)[idx + a.len()] == x);
    }
}

/// A faithful copy of a request descriptor.
fn dup_request_descriptor(d: &RequestDescriptor) -> (r: RequestDescriptor)
    ensures
        r == *d,
{
    RequestDescriptor {
        body: match &d.body {
            Some(bd) => Some(
                crate::projection::BodyDescriptor {
                    http_content_type: bd.http_content_type.clone(),
                    root_shape_id: bd.root_shape_id.clone(),
                },
            ),
            None => None,
        },
    }
}

/// A faithful copy of a response descriptor.
fn dup_response_descriptor(d: &ResponseBodyDescriptor) -> (r: ResponseBodyDescriptor)
    ensures
        r == *d,
{
    ResponseBodyDescriptor {
        body: match &d.body {
            Some(bd) => Some(
                crate::projection::BodyDescriptor {
                    http_content_type: bd.http_content_type.clone(),
                    root_shape_id: bd.root_shape_id.clone(),
                },
            ),
            None => None,
        },
    }
}

/// A faithful copy of a query-parameters descriptor.
fn dup_query_params_descriptor(d: &QueryParametersDescriptor) -> (r: QueryParametersDescriptor)
    ensures
        r == *d,
{
    QueryParametersDescriptor {
        shape_id: match &d.shape_id {
            Some(s) => Some(s.clone()),
            None => None,
        },
    }
}

} // verus!
