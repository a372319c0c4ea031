//! The endpoint graph projection: an arena of nodes linked child-to-parent,
//! built by folding an ordered log of domain events.
//!
//! Every node sits in an append-only arena; an edge points from a child node
//! up to its parent, so "children of `i`" are the live entries whose `parent`
//! field is `i`.  Removal tombstones an entry (and its whole subtree) without
//! disturbing the indices of the survivors, which keeps handles stable across
//! folds.  A node's parent is always an earlier arena entry, so every walk
//! toward the leaves moves to strictly larger indices.

use vstd::prelude::*;

use crate::commands::{EndpointCommand, SpecCommand};
use crate::events::SpecEvent;
use crate::state::{HttpMethod, HttpStatusCode, ShapeId};

verus! {

/// Payload of a path-component node: one segment of a declared URL path.
pub struct PathComponentDescriptor {
    /// The literal segment name; ignored for matching when `is_parameter` is set.
    pub name: String,
    /// True when the segment is a parameter (wildcard) rather than a static name.
    pub is_parameter: bool,
    /// Shape reference attached by a `PathParameterShapeSet` event.
    pub shape_id: Option<ShapeId>,
}

/// Declared body of a request or response: a content type plus the root of
/// the declared shape describing the body's structure.
pub struct BodyDescriptor {
    pub http_content_type: String,
    pub root_shape_id: ShapeId,
}

/// Payload of a request node.
pub struct RequestDescriptor {
    pub body: Option<BodyDescriptor>,
}

/// Payload of a response node.
pub struct ResponseBodyDescriptor {
    pub body: Option<BodyDescriptor>,
}

/// Payload of a query-parameters node.
pub struct QueryParametersDescriptor {
    pub shape_id: Option<ShapeId>,
}

/// The tagged variants a graph node can take.
pub enum NodeKind {
    /// The unique root of the path tree.
    Root,
    /// A declared URL path segment, static or parameterized.
    PathComponent { component: PathComponentDescriptor },
    /// An HTTP method grouping node under a path component.
    HttpMethod { http_method: HttpMethod },
    /// A declared operation (request) under a method.
    Request { request: RequestDescriptor },
    /// A status-code grouping node under a method.
    HttpStatusCode { http_status_code: HttpStatusCode },
    /// A declared response under a status code.
    Response { response: ResponseBodyDescriptor },
    /// Declared query parameters of a path-and-method pairing.
    QueryParameters { query_parameters: QueryParametersDescriptor },
}

/// One arena entry: a node, its (single) parent edge, and a tombstone flag.
pub struct NodeEntry {
    /// Domain id; present exactly on Root, PathComponent, Request, Response
    /// and QueryParameters nodes.
    pub id: Option<String>,
    pub kind: NodeKind,
    /// Arena index of the parent; `None` only for the root entry.
    pub parent: Option<usize>,
    /// True once the node has been removed; tombstoned entries keep their
    /// slot so the other handles stay stable.
    pub removed: bool,
}

impl NodeKind {
    /// Node kinds that carry a stable domain id.
    pub open spec fn carries_id(self) -> bool {
        match self {
            NodeKind::Root => true,
            NodeKind::PathComponent { .. } => true,
            NodeKind::Request { .. } => true,
            NodeKind::Response { .. } => true,
            NodeKind::QueryParameters { .. } => true,
            NodeKind::HttpMethod { .. } => false,
            NodeKind::HttpStatusCode { .. } => false,
        }
    }

    /// Which parent kind each child kind may hang from.
    pub open spec fn parent_kind_ok(self, parent: NodeKind) -> bool {
        match self {
            NodeKind::Root => false,
            NodeKind::PathComponent { .. } => parent is Root || parent is PathComponent,
            NodeKind::HttpMethod { .. } => parent is Root || parent is PathComponent,
            NodeKind::Request { .. } => parent is HttpMethod,
            NodeKind::HttpStatusCode { .. } => parent is HttpMethod,
            NodeKind::Response { .. } => parent is HttpStatusCode,
            NodeKind::QueryParameters { .. } => parent is HttpMethod,
        }
    }
}

/// A sequence of arena indices as mathematical integers.
pub open spec fn usizes(s: Seq<usize>) -> Seq<int> {
    s.map_values(|u: usize| u as int)
}

/// Tombstoning a subtree keeps a well-formed projection well formed.
proof fn lemma_removal_preserves_wf(pre: EndpointProjection, post: EndpointProjection, t: int)
    requires
        pre.wf(),
        pre.live(t),
        1 <= t,
        pre.same_structure(post),
        forall|j: int|
            0 <= j < pre.n() ==> (post.live(j) <==> pre.live(j) && !pre.in_subtree(t, j)),
    ensures
        post.wf(),
{
    pre.lemma_subtree_below(t, 0);
    assert(post.live(0) <==> pre.live(0) && !pre.in_subtree(t, 0));
    assert(post.live(0));
    assert(!post.entry(0).removed);
    assert(post.entry(0).id == pre.entry(0).id);
    assert forall|k: int| 0 <= k < post.n() implies #[trigger] post.id_view(k) == pre.id_view(
        k,
    ) by {
        assert(post.entry(k).id == pre.entry(k).id);
    }
    assert forall|i: int| 1 <= i < post.n() implies !((#[trigger] post.entry(i)).kind
        is Root) by {
        assert(post.entry(i).kind == pre.entry(i).kind);
    }
    assert forall|i: int| 1 <= i < post.n() implies ((#[trigger] post.entry(i)).parent
        matches Some(p) && (p as int) < i) by {
        assert(post.entry(i).parent == pre.entry(i).parent);
    }
    assert forall|i: int| 0 <= i < post.n() implies ((#[trigger] post.entry(i)).id is Some
        <==> post.entry(i).kind.carries_id()) by {
        assert(post.entry(i).id == pre.entry(i).id);
        assert(post.entry(i).kind == pre.entry(i).kind);
    }
    assert forall|i: int| 1 <= i < post.n() && post.live(i) implies {
        let p = (#[trigger] post.entry(i)).parent->0 as int;
        post.live(p) && post.entry(i).kind.parent_kind_ok(post.entry(p).kind)
    } by {
        let p = pre.entry(i).parent->0 as int;
        assert(pre.live(i));
        assert(pre.live(p));
        assert(!pre.in_subtree(t, i));
        if pre.in_subtree(t, p) {
            assert(pre.in_subtree(t, i));
        }
        assert(post.entry(i).parent == pre.entry(i).parent);
        assert(post.entry(i).kind == pre.entry(i).kind);
        assert(post.entry(p).kind == pre.entry(p).kind);
    }
    assert forall|i: int, j: int|
        post.live(i) && post.live(j) && #[trigger] post.id_view(i) is Some && post.id_view(i)
            == #[trigger] post.id_view(j) implies i == j by {
        assert(pre.live(i) && pre.live(j));
        assert(pre.id_view(i) == post.id_view(i));
        assert(pre.id_view(j) == post.id_view(j));
    }
}

/// Appending a fresh, well-parented node keeps the projection well formed.
proof fn lemma_push_preserves_wf(pre: EndpointProjection, post: EndpointProjection, e: NodeEntry)
    requires
        pre.wf(),
        post.n() == pre.n() + 1,
        forall|j: int| 0 <= j < pre.n() ==> #[trigger] post.entry(j) == pre.entry(j),
        post.entry(pre.n()) == e,
        e.parent matches Some(p) && pre.live(p as int) && e.kind.parent_kind_ok(
            pre.entry(p as int).kind,
        ),
        !(e.kind is Root),
        e.id is Some <==> e.kind.carries_id(),
        e.id matches Some(s) ==> !pre.has_live_id(s@),
        !e.removed,
    ensures
        post.wf(),
{
    let n = pre.n();
    assert forall|j: int| 0 <= j < n implies #[trigger] post.live(j) == pre.live(j) by {
        assert(post.entry(j) == pre.entry(j));
    }
    assert(post.entry(0) == pre.entry(0));
    assert forall|i: int| 1 <= i < post.n() implies !((#[trigger] post.entry(i)).kind
        is Root) by {
        if i < n {
            assert(post.entry(i) == pre.entry(i));
        }
    }
    assert forall|i: int| 1 <= i < post.n() implies ((#[trigger] post.entry(i)).parent
        matches Some(p) && (p as int) < i) by {
        if i < n {
            assert(post.entry(i) == pre.entry(i));
        }
    }
    assert forall|i: int| 0 <= i < post.n() implies ((#[trigger] post.entry(i)).id is Some
        <==> post.entry(i).kind.carries_id()) by {
        if i < n {
            assert(post.entry(i) == pre.entry(i));
        }
    }
    assert forall|i: int| 1 <= i < post.n() && post.live(i) implies {
        let p = (#[trigger] post.entry(i)).parent->0 as int;
        post.live(p) && post.entry(i).kind.parent_kind_ok(post.entry(p).kind)
    } by {
        if i < n {
            assert(post.entry(i) == pre.entry(i));
            let p = pre.entry(i).parent->0 as int;
            assert(pre.live(i));
            assert(pre.live(p));
            assert(post.entry(p) == pre.entry(p));
        } else {
            let p = e.parent->0 as int;
            assert(post.entry(p) == pre.entry(p));
        }
    }
    assert forall|i: int, j: int|
        post.live(i) && post.live(j) && #[trigger] post.id_view(i) is Some && post.id_view(i)
            == #[trigger] post.id_view(j) implies i == j by {
        if i < n {
            assert(post.entry(i) == pre.entry(i));
            assert(post.id_view(i) == pre.id_view(i));
        }
        if j < n {
            assert(post.entry(j) == pre.entry(j));
            assert(post.id_view(j) == pre.id_view(j));
        }
        if i == n && j < n {
            let s = e.id->0;
            assert(post.id_view(i) == Some(s@));
            assert(pre.live(j) && pre.id_view(j) == Some(s@));
            assert(pre.has_live_id(s@));
            assert(false);
        }
        if j == n && i < n {
            let s = e.id->0;
            assert(post.id_view(j) == Some(s@));
            assert(pre.live(i) && pre.id_view(i) == Some(s@));
            assert(pre.has_live_id(s@));
            assert(false);
        }
    }
}

/// Extending the arena only with id-less nodes brings in no new domain id.
proof fn lemma_no_new_id(pre: EndpointProjection, post: EndpointProjection, id: Seq<char>)
    requires
        post.extends(pre),
        forall|k: int| pre.n() <= k < post.n() ==> (#[trigger] post.entry(k)).id is None,
        !pre.has_live_id(id),
    ensures
        !post.has_live_id(id),
{
    if post.has_live_id(id) {
        let w = choose|w: int| post.live(w) && post.id_view(w) == Some(id);
        if w < pre.n() {
            assert(post.entry(w) == pre.entry(w));
            assert(pre.live(w) && pre.id_view(w) == Some(id));
        } else {
            assert(post.entry(w).id is None);
        }
        assert(false);
    }
}

/// Replacing one node's payload — same variant family, same id, parent and
/// tombstone state — keeps the projection well formed.
proof fn lemma_update_kind_preserves_wf(pre: EndpointProjection, post: EndpointProjection, i: int)
    requires
        pre.wf(),
        1 <= i < pre.n(),
        post.n() == pre.n(),
        forall|j: int| 0 <= j < pre.n() && j != i ==> #[trigger] post.entry(j) == pre.entry(j),
        post.entry(i).id == pre.entry(i).id,
        post.entry(i).parent == pre.entry(i).parent,
        post.entry(i).removed == pre.entry(i).removed,
        post.entry(i).kind.carries_id() == pre.entry(i).kind.carries_id(),
        !(post.entry(i).kind is Root),
        forall|k: NodeKind| (#[trigger] post.entry(i).kind.parent_kind_ok(k)) == pre.entry(
            i,
        ).kind.parent_kind_ok(k),
        forall|k: NodeKind| (#[trigger] k.parent_kind_ok(post.entry(i).kind)) == k.parent_kind_ok(
            pre.entry(i).kind,
        ),
    ensures
        post.wf(),
{
    assert(post.entry(0) == pre.entry(0));
    assert forall|j: int| 0 <= j < post.n() implies #[trigger] post.live(j) == pre.live(j) by {
        if j != i {
            assert(post.entry(j) == pre.entry(j));
        }
    }
    assert forall|k: int| 0 <= k < post.n() implies #[trigger] post.id_view(k) == pre.id_view(
        k,
    ) by {
        if k != i {
            assert(post.entry(k) == pre.entry(k));
        }
    }
    assert forall|j: int| 1 <= j < post.n() implies !((#[trigger] post.entry(j)).kind
        is Root) by {
        if j != i {
            assert(post.entry(j) == pre.entry(j));
        }
    }
    assert forall|j: int| 1 <= j < post.n() implies ((#[trigger] post.entry(j)).parent
        matches Some(p) && (p as int) < j) by {
        if j != i {
            assert(post.entry(j) == pre.entry(j));
        }
    }
    assert forall|j: int| 0 <= j < post.n() implies ((#[trigger] post.entry(j)).id is Some
        <==> post.entry(j).kind.carries_id()) by {
        if j != i {
            assert(post.entry(j) == pre.entry(j));
        }
    }
    assert forall|j: int| 1 <= j < post.n() && post.live(j) implies {
        let p = (#[trigger] post.entry(j)).parent->0 as int;
        post.live(p) && post.entry(j).kind.parent_kind_ok(post.entry(p).kind)
    } by {
        let p = pre.entry(j).parent->0 as int;
        assert(pre.live(j));
        assert(pre.live(p));
        assert(pre.entry(j).kind.parent_kind_ok(pre.entry(p).kind));
        if j != i {
            assert(post.entry(j) == pre.entry(j));
        }
        if p != i {
            assert(post.entry(p) == pre.entry(p));
        }
    }
    assert forall|a: int, b: int|
        post.live(a) && post.live(b) && #[trigger] post.id_view(a) is Some && post.id_view(a)
            == #[trigger] post.id_view(b) implies a == b by {
        assert(pre.live(a) && pre.live(b));
        assert(pre.id_view(a) == post.id_view(a));
        assert(pre.id_view(b) == post.id_view(b));
    }
}

/// The distinct, fatal error class for events that contradict the projection:
/// folding them would corrupt the model, so they are never silently ignored.
#[derive(Clone, Copy, Debug, PartialEq, Eq, Structural)]
pub enum ProjectionError {
    /// An `Added` event names a domain id some live node already carries.
    DuplicateId,
    /// An event names a domain id no live node carries.
    UnknownTarget,
    /// An event names a live node of the wrong kind for the operation.
    KindMismatch,
}

/// The endpoint graph projection (see the crate docs).
pub struct EndpointProjection {
    pub nodes: Vec<NodeEntry>,
}

impl EndpointProjection {
    /// Number of arena entries, tombstoned ones included.
    pub open spec fn n(self) -> int {
        self.nodes@.len() as int
    }

    pub open spec fn entry(self, i: int) -> NodeEntry {
        self.nodes@[i]
    }

    /// Entry `i` exists and has not been removed.
    pub open spec fn live(self, i: int) -> bool {
        0 <= i < self.n() && !self.entry(i).removed
    }

    /// The domain id of entry `i`, as a sequence of characters.
    pub open spec fn id_view(self, i: int) -> Option<Seq<char>> {
        match self.entry(i).id {
            Some(s) => Some(s@),
            None => None,
        }
    }

    /// Some live node carries the domain id `id`.
    pub open spec fn has_live_id(self, id: Seq<char>) -> bool {
        exists|i: int| self.live(i) && self.id_view(i) == Some(id)
    }

    /// The index of the live node carrying `id` (unique under `wf`).
    pub open spec fn idx_of(self, id: Seq<char>) -> int {
        choose|i: int| self.live(i) && self.id_view(i) == Some(id)
    }

    /// Entry `i` is a live node of the path tree (the root or a component).
    pub open spec fn is_path_node(self, i: int) -> bool {
        self.live(i) && (self.entry(i).kind is Root || self.entry(i).kind is PathComponent)
    }

    /// Entry `m` is the live method node for token `method` under path `p`.
    pub open spec fn is_method_under(self, m: int, p: int, method: Seq<char>) -> bool {
        &&& self.live(m)
        &&& self.entry(m).kind matches NodeKind::HttpMethod { http_method } && http_method@
            == method
        &&& self.entry(m).parent matches Some(pp) && pp as int == p
    }

    /// Entry `s` is the live status-code node for `code` under method node `m`.
    pub open spec fn is_status_under(self, s: int, m: int, code: u16) -> bool {
        &&& self.live(s)
        &&& self.entry(s).kind matches NodeKind::HttpStatusCode { http_status_code }
            && http_status_code == code
        &&& self.entry(s).parent matches Some(mm) && mm as int == m
    }

    /// Entry `r` is a live request node under path `p` and method token `method`.
    pub open spec fn is_request_under(self, r: int, p: int, method: Seq<char>) -> bool {
        &&& self.live(r)
        &&& self.entry(r).kind is Request
        &&& self.entry(r).parent matches Some(m) && self.is_method_under(m as int, p, method)
    }

    /// Entry `r` is a live response node under path `p` and method token
    /// `method`, whatever its status code.
    pub open spec fn is_response_under(self, r: int, p: int, method: Seq<char>) -> bool {
        &&& self.live(r)
        &&& self.entry(r).kind is Response
        &&& self.entry(r).parent matches Some(s) && self.live(s as int) && self.entry(
            s as int,
        ).kind is HttpStatusCode && (self.entry(s as int).parent matches Some(m)
            && self.is_method_under(m as int, p, method))
    }

    /// Entry `r` is a live response node under path `p`, method `method` and
    /// status code `code`.
    pub open spec fn is_response_under_status(
        self,
        r: int,
        p: int,
        method: Seq<char>,
        code: u16,
    ) -> bool {
        &&& self.live(r)
        &&& self.entry(r).kind is Response
        &&& self.entry(r).parent matches Some(s) && (self.entry(s as int).parent matches Some(m)
            && self.is_status_under(s as int, m as int, code) && self.is_method_under(
            m as int,
            p,
            method,
        ))
    }

    /// Entry `q` is a live query-parameters node under path `p` and method
    /// token `method`.
    pub open spec fn is_query_params_under(self, q: int, p: int, method: Seq<char>) -> bool {
        &&& self.live(q)
        &&& self.entry(q).kind is QueryParameters
        &&& self.entry(q).parent matches Some(m) && self.is_method_under(m as int, p, method)
    }

    /// Well-formedness: the invariants of the data model.
    pub open spec fn wf(self) -> bool {
        &&& 1 <= self.n()
        &&& self.entry(0).kind is Root
        &&& self.entry(0).parent is None
        &&& !self.entry(0).removed
        &&& self.entry(0).id matches Some(rid) && rid@ == "root"@
        // the root is unique, and every other entry points at an earlier parent
        &&& forall|i: int| 1 <= i < self.n() ==> !((#[trigger] self.entry(i)).kind is Root)
        &&& forall|i: int|
            1 <= i < self.n() ==> ((#[trigger] self.entry(i)).parent matches Some(p) && (p as int)
                < i)
        // a live node's parent is live and of a compatible kind
        &&& forall|i: int|
            1 <= i < self.n() && self.live(i) ==> {
                let p = (#[trigger] self.entry(i)).parent->0 as int;
                &&& self.live(p)
                &&& self.entry(i).kind.parent_kind_ok(self.entry(p).kind)
            }
        // exactly the id-bearing kinds carry an id
        &&& forall|i: int|
            0 <= i < self.n() ==> ((#[trigger] self.entry(i)).id is Some <==> self.entry(
                i,
            ).kind.carries_id())
        // live domain ids are unique
        &&& forall|i: int, j: int|
            self.live(i) && self.live(j) && #[trigger] self.id_view(i) is Some && self.id_view(i)
                == #[trigger] self.id_view(j) ==> i == j
    }

    /// Entry `j` lies in the subtree rooted at entry `t` (following parent
    /// edges upward; `t` itself included).
    pub open spec fn in_subtree(self, t: int, j: int) -> bool
        decreases j,
    {
        if j == t {
            true
        } else if 0 < j < self.n() && self.entry(j).parent is Some && (self.entry(j).parent->0
            as int) < j {
            self.in_subtree(t, self.entry(j).parent->0 as int)
        } else {
            false
        }
    }

    /// Nothing below `t` in the arena is in `t`'s subtree.
    pub proof fn lemma_subtree_below(self, t: int, j: int)
        requires
            j < t,
        ensures
            !self.in_subtree(t, j),
        decreases j,
    {
        if 0 < j < self.n() && self.entry(j).parent is Some && (self.entry(j).parent->0 as int)
            < j {
            self.lemma_subtree_below(t, self.entry(j).parent->0 as int);
        }
    }

    /// The arenas have the same entries, tombstone flags aside.
    pub open spec fn same_structure(self, other: Self) -> bool {
        &&& other.n() == self.n()
        &&& forall|j: int|
            0 <= j < self.n() ==> {
                &&& (#[trigger] other.entry(j)).id == self.entry(j).id
                &&& other.entry(j).kind == self.entry(j).kind
                &&& other.entry(j).parent == self.entry(j).parent
            }
    }

    /// `self` extends `pre`: the old entries stand unchanged and new ones
    /// may follow.
    pub open spec fn extends(self, pre: Self) -> bool {
        &&& pre.n() <= self.n()
        &&& forall|j: int| 0 <= j < pre.n() ==> #[trigger] self.entry(j) == pre.entry(j)
    }

    /// Tombstone the node `t` and every dependent descendant.
    ///
    /// One forward pass suffices: a node's parent precedes it in the arena,
    /// so by the time `j` is visited its parent's final tombstone state is
    /// known, and under `wf` a node whose parent was already dead is dead
    /// itself.
    fn remove_subtree(&mut self, t: usize)
        requires
            old(self).wf(),
            old(self).live(t as int),
            1 <= t,
        ensures
            final(self).wf(),
            old(self).same_structure(*final(self)),
            forall|j: int|
                0 <= j < old(self).n() ==> (final(self).live(j) <==> old(self).live(j) && !old(
                    self,
                ).in_subtree(t as int, j)),
    {
        let ghost pre = *self;
        let n = self.nodes.len();
        self.nodes[t].removed = true;
        let mut j: usize = t + 1;
        proof {
            assert forall|k: int| 0 <= k < t implies !pre.in_subtree(t as int, k) by {
                pre.lemma_subtree_below(t as int, k);
            }
        }
        while j < n
            invariant
                t < j <= n,
                n == pre.n(),
                pre.wf(),
                pre.live(t as int),
                1 <= t,
                pre.same_structure(*self),
                forall|k: int|
                    0 <= k < j ==> ((#[trigger] self.entry(k)).removed <==> pre.entry(k).removed
                        || pre.in_subtree(t as int, k)),
                forall|k: int| j <= k < n ==> (#[trigger] self.entry(k)).removed == pre.entry(
                    k,
                ).removed,
            decreases n - j,
        {
            let ghost cur = *self;
            proof {
                let jj = j as int;
                assert(pre.entry(jj).parent matches Some(p) && (p as int) < jj);
                assert(cur.entry(jj).parent == pre.entry(jj).parent);
            }
            let parent_opt = self.nodes[j].parent;
            let mut dead = false;
            if let Some(p) = parent_opt {
                if self.nodes[p].removed {
                    dead = true;
                }
            }
            if dead {
                self.nodes[j].removed = true;
            }
            proof {
                let jj = j as int;
                let p = pre.entry(jj).parent->0 as int;
                assert(cur.entry(p).removed <==> pre.entry(p).removed || pre.in_subtree(
                    t as int,
                    p,
                ));
                assert(dead <==> cur.entry(p).removed);
                if pre.entry(jj).removed {
                    assert(cur.entry(jj).removed);
                    assert(self.entry(jj).removed);
                } else {
                    assert(pre.live(jj));
                    assert(pre.live(p));
                    assert(!pre.entry(p).removed);
                    assert(dead <==> pre.in_subtree(t as int, p));
                    assert(pre.in_subtree(t as int, jj) == pre.in_subtree(t as int, p));
                    assert(!cur.entry(jj).removed);
                    assert(self.entry(jj).removed <==> dead);
                    assert(self.entry(jj).removed <==> pre.in_subtree(t as int, jj));
                }
                assert forall|k: int|
                    0 <= k < jj + 1 implies ((#[trigger] self.entry(k)).removed <==> pre.entry(
                    k,
                ).removed || pre.in_subtree(t as int, k)) by {
                    if k < jj {
                        assert(cur.entry(k).removed <==> pre.entry(k).removed || pre.in_subtree(
                            t as int,
                            k,
                        ));
                        assert(self.entry(k) == cur.entry(k));
                    }
                }
                assert forall|k: int|
                    jj + 1 <= k < n implies (#[trigger] self.entry(k)).removed == pre.entry(
                    k,
                ).removed by {
                    assert(self.entry(k) == cur.entry(k));
                    assert(cur.entry(k).removed == pre.entry(k).removed);
                }
                assert forall|k: int|
                    0 <= k < n implies {
                        &&& (#[trigger] self.entry(k)).id == pre.entry(k).id
                        &&& self.entry(k).kind == pre.entry(k).kind
                        &&& self.entry(k).parent == pre.entry(k).parent
                    } by {
                    if k != jj {
                        assert(self.entry(k) == cur.entry(k));
                    }
                    assert(cur.entry(k).id == pre.entry(k).id);
                    assert(cur.entry(k).kind == pre.entry(k).kind);
                    assert(cur.entry(k).parent == pre.entry(k).parent);
                }
            }
            j += 1;
        }
        proof {
            lemma_removal_preserves_wf(pre, *self, t as int);
        }
    }


    /// Append a fresh live node under a live parent.
    fn push_node(&mut self, entry: NodeEntry) -> (idx: usize)
        requires
            old(self).wf(),
            entry.parent matches Some(p) && old(self).live(p as int) && entry.kind.parent_kind_ok(
                old(self).entry(p as int).kind,
            ),
            !(entry.kind is Root),
            entry.id is Some <==> entry.kind.carries_id(),
            entry.id matches Some(s) ==> !old(self).has_live_id(s@),
            !entry.removed,
        ensures
            final(self).wf(),
            final(self).extends(*old(self)),
            final(self).n() == old(self).n() + 1,
            idx as int == old(self).n(),
            final(self).entry(idx as int) == entry,
            final(self).live(idx as int),
    {
        let ghost e = entry;
        let idx = self.nodes.len();
        self.nodes.push(entry);
        proof {
            lemma_push_preserves_wf(*old(self), *self, e);
        }
        idx
    }

    /// `i` is the one live node carrying `id`, so `idx_of` picks it.
    pub proof fn lemma_idx_of_is(self, id: Seq<char>, i: int)
        requires
            self.wf(),
            self.live(i),
            self.id_view(i) == Some(id),
        ensures
            self.has_live_id(id),
            self.idx_of(id) == i,
    {
        assert(self.has_live_id(id));
        let c = self.idx_of(id);
        assert(self.live(c) && self.id_view(c) == Some(id));
    }

    /// What a successful fold of `event` did to the projection.
    pub open spec fn apply_ok(pre: Self, post: Self, event: SpecEvent) -> bool {
        match event {
            SpecEvent::PathComponentAdded { path_id, parent_path_id, name } => Self::path_added(
                pre,
                post,
                path_id@,
                parent_path_id@,
                name@,
                false,
            ),
            SpecEvent::PathParameterAdded { path_id, parent_path_id, name } => Self::path_added(
                pre,
                post,
                path_id@,
                parent_path_id@,
                name@,
                true,
            ),
            SpecEvent::PathComponentRemoved { path_id } => Self::node_removed(
                pre,
                post,
                path_id@,
            ) && (pre.entry(pre.idx_of(path_id@)).kind matches NodeKind::PathComponent { component }
                && !component.is_parameter),
            SpecEvent::PathParameterRemoved { path_id } => Self::node_removed(pre, post, path_id@)
                && (pre.entry(pre.idx_of(path_id@)).kind matches NodeKind::PathComponent {
                component,
            } && component.is_parameter),
            SpecEvent::PathParameterShapeSet { path_id, shape_id } => {
                let i = pre.idx_of(path_id@);
                &&& Self::payload_set(pre, post, path_id@)
                &&& pre.entry(i).kind matches NodeKind::PathComponent { component }
                    && component.is_parameter
                &&& post.entry(i).kind matches NodeKind::PathComponent { component }
                    && component.is_parameter && component.name == pre.entry(
                    i,
                ).kind->component.name && (component.shape_id matches Some(s) && s@ == shape_id@)
            },
            SpecEvent::RequestAdded { request_id, path_id, http_method } => Self::request_added(
                pre,
                post,
                request_id@,
                path_id@,
                http_method@,
            ),
            SpecEvent::RequestRemoved { request_id } => Self::node_removed(pre, post, request_id@)
                && pre.entry(pre.idx_of(request_id@)).kind is Request,
            SpecEvent::RequestBodySet { request_id, http_content_type, shape_id } => {
                let i = pre.idx_of(request_id@);
                &&& Self::payload_set(pre, post, request_id@)
                &&& pre.entry(i).kind is Request
                &&& post.entry(i).kind matches NodeKind::Request { request }
                    && (request.body matches Some(bd) && bd.http_content_type@
                    == http_content_type@ && bd.root_shape_id@ == shape_id@)
            },
            SpecEvent::ResponseAddedByPathAndMethod {
                response_id,
                path_id,
                http_method,
                http_status_code,
            } => Self::response_added(
                pre,
                post,
                response_id@,
                path_id@,
                http_method@,
                http_status_code,
            ),
            SpecEvent::ResponseRemoved { response_id } => Self::node_removed(
                pre,
                post,
                response_id@,
            ) && pre.entry(pre.idx_of(response_id@)).kind is Response,
            SpecEvent::ResponseBodySet { response_id, http_content_type, shape_id } => {
                let i = pre.idx_of(response_id@);
                &&& Self::payload_set(pre, post, response_id@)
                &&& pre.entry(i).kind is Response
                &&& post.entry(i).kind matches NodeKind::Response { response }
                    && (response.body matches Some(bd) && bd.http_content_type@
                    == http_content_type@ && bd.root_shape_id@ == shape_id@)
            },
            SpecEvent::QueryParametersAdded {
                query_parameters_id,
                path_id,
                http_method,
            } => Self::query_params_added(pre, post, query_parameters_id@, path_id@, http_method@),
            SpecEvent::QueryParametersRemoved { query_parameters_id } => Self::node_removed(
                pre,
                post,
                query_parameters_id@,
            ) && pre.entry(pre.idx_of(query_parameters_id@)).kind is QueryParameters,
            SpecEvent::QueryParametersShapeSet { query_parameters_id, shape_id } => {
                let i = pre.idx_of(query_parameters_id@);
                &&& Self::payload_set(pre, post, query_parameters_id@)
                &&& pre.entry(i).kind is QueryParameters
                &&& post.entry(i).kind matches NodeKind::QueryParameters { query_parameters }
                    && (query_parameters.shape_id matches Some(s) && s@ == shape_id@)
            },
            SpecEvent::ShapeAdded { .. } => post == pre,
        }
    }

    /// Effect of adding a path component or parameter.
    pub open spec fn path_added(
        pre: Self,
        post: Self,
        path_id: Seq<char>,
        parent_id: Seq<char>,
        name: Seq<char>,
        is_parameter: bool,
    ) -> bool {
        let p = pre.idx_of(parent_id);
        let new = pre.n();
        &&& !pre.has_live_id(path_id)
        &&& pre.has_live_id(parent_id)
        &&& pre.is_path_node(p)
        &&& post.extends(pre)
        &&& post.n() == new + 1
        &&& post.live(new)
        &&& post.id_view(new) == Some(path_id)
        &&& post.entry(new).kind matches NodeKind::PathComponent { component } && component.name@
            == name && component.is_parameter == is_parameter && component.shape_id is None
        &&& post.entry(new).parent matches Some(pp) && pp as int == p
    }

    /// Effect of adding a request under a path and method.
    pub open spec fn request_added(
        pre: Self,
        post: Self,
        request_id: Seq<char>,
        path_id: Seq<char>,
        method: Seq<char>,
    ) -> bool {
        let p = pre.idx_of(path_id);
        let r = post.n() - 1;
        &&& !pre.has_live_id(request_id)
        &&& pre.has_live_id(path_id)
        &&& pre.is_path_node(p)
        &&& post.extends(pre)
        &&& pre.n() + 1 <= post.n() <= pre.n() + 2
        &&& post.live(r)
        &&& post.id_view(r) == Some(request_id)
        &&& post.entry(r).kind matches NodeKind::Request { request } && request.body is None
        &&& post.is_request_under(r, p, method)
    }

    /// Effect of adding a response under a path, method and status code.
    pub open spec fn response_added(
        pre: Self,
        post: Self,
        response_id: Seq<char>,
        path_id: Seq<char>,
        method: Seq<char>,
        code: u16,
    ) -> bool {
        let p = pre.idx_of(path_id);
        let r = post.n() - 1;
        &&& !pre.has_live_id(response_id)
        &&& pre.has_live_id(path_id)
        &&& pre.is_path_node(p)
        &&& post.extends(pre)
        &&& pre.n() + 1 <= post.n() <= pre.n() + 3
        &&& post.live(r)
        &&& post.id_view(r) == Some(response_id)
        &&& post.entry(r).kind matches NodeKind::Response { response } && response.body is None
        &&& post.is_response_under_status(r, p, method, code)
    }

    /// Effect of adding a query-parameters node under a path and method.
    pub open spec fn query_params_added(
        pre: Self,
        post: Self,
        query_parameters_id: Seq<char>,
        path_id: Seq<char>,
        method: Seq<char>,
    ) -> bool {
        let p = pre.idx_of(path_id);
        let q = post.n() - 1;
        &&& !pre.has_live_id(query_parameters_id)
        &&& pre.has_live_id(path_id)
        &&& pre.is_path_node(p)
        &&& post.extends(pre)
        &&& pre.n() + 1 <= post.n() <= pre.n() + 2
        &&& post.live(q)
        &&& post.id_view(q) == Some(query_parameters_id)
        &&& post.entry(q).kind matches NodeKind::QueryParameters { query_parameters }
            && query_parameters.shape_id is None
        &&& post.is_query_params_under(q, p, method)
    }

    /// Effect of removing the node carrying `id` and its whole subtree.
    pub open spec fn node_removed(pre: Self, post: Self, id: Seq<char>) -> bool {
        let t = pre.idx_of(id);
        &&& pre.has_live_id(id)
        &&& pre.same_structure(post)
        &&& forall|j: int|
            0 <= j < pre.n() ==> (post.live(j) <==> pre.live(j) && !pre.in_subtree(t, j))
    }

    /// Frame of a payload-only mutation of the node carrying `id`.
    pub open spec fn payload_set(pre: Self, post: Self, id: Seq<char>) -> bool {
        let i = pre.idx_of(id);
        &&& pre.has_live_id(id)
        &&& post.n() == pre.n()
        &&& forall|j: int| 0 <= j < pre.n() && j != i ==> #[trigger] post.entry(j) == pre.entry(j)
        &&& post.entry(i).id == pre.entry(i).id
        &&& post.entry(i).parent == pre.entry(i).parent
        &&& post.entry(i).removed == pre.entry(i).removed
    }

    /// Why a fold of `event` was refused, the projection left untouched.
    pub open spec fn apply_err(pre: Self, event: SpecEvent, e: ProjectionError) -> bool {
        match event {
            SpecEvent::PathComponentAdded { path_id, parent_path_id, .. } => Self::added_err(
                pre,
                path_id@,
                parent_path_id@,
                e,
            ),
            SpecEvent::PathParameterAdded { path_id, parent_path_id, .. } => Self::added_err(
                pre,
                path_id@,
                parent_path_id@,
                e,
            ),
            SpecEvent::RequestAdded { request_id, path_id, .. } => Self::added_err(
                pre,
                request_id@,
                path_id@,
                e,
            ),
            SpecEvent::ResponseAddedByPathAndMethod { response_id, path_id, .. } => Self::added_err(
                pre,
                response_id@,
                path_id@,
                e,
            ),
            SpecEvent::QueryParametersAdded {
                query_parameters_id,
                path_id,
                ..
            } => Self::added_err(pre, query_parameters_id@, path_id@, e),
            SpecEvent::PathComponentRemoved { path_id } => Self::target_err(
                pre,
                path_id@,
                e,
                |k: NodeKind|
                    k matches NodeKind::PathComponent { component } && !component.is_parameter,
            ),
            SpecEvent::PathParameterRemoved { path_id } => Self::target_err(
                pre,
                path_id@,
                e,
                |k: NodeKind|
                    k matches NodeKind::PathComponent { component } && component.is_parameter,
            ),
            SpecEvent::PathParameterShapeSet { path_id, .. } => Self::target_err(
                pre,
                path_id@,
                e,
                |k: NodeKind|
                    k matches NodeKind::PathComponent { component } && component.is_parameter,
            ),
            SpecEvent::RequestRemoved { request_id } => Self::target_err(
                pre,
                request_id@,
                e,
                |k: NodeKind| k is Request,
            ),
            SpecEvent::RequestBodySet { request_id, .. } => Self::target_err(
                pre,
                request_id@,
                e,
                |k: NodeKind| k is Request,
            ),
            SpecEvent::ResponseRemoved { response_id } => Self::target_err(
                pre,
                response_id@,
                e,
                |k: NodeKind| k is Response,
            ),
            SpecEvent::ResponseBodySet { response_id, .. } => Self::target_err(
                pre,
                response_id@,
                e,
                |k: NodeKind| k is Response,
            ),
            SpecEvent::QueryParametersRemoved { query_parameters_id } => Self::target_err(
                pre,
                query_parameters_id@,
                e,
                |k: NodeKind| k is QueryParameters,
            ),
            SpecEvent::QueryParametersShapeSet { query_parameters_id, .. } => Self::target_err(
                pre,
                query_parameters_id@,
                e,
                |k: NodeKind| k is QueryParameters,
            ),
            SpecEvent::ShapeAdded { .. } => false,
        }
    }

    /// The error conditions an `Added` event can hit, each if and only if.
    pub open spec fn added_err(
        pre: Self,
        new_id: Seq<char>,
        parent_id: Seq<char>,
        e: ProjectionError,
    ) -> bool {
        match e {
            ProjectionError::DuplicateId => pre.has_live_id(new_id),
            ProjectionError::UnknownTarget => !pre.has_live_id(new_id) && !pre.has_live_id(
                parent_id,
            ),
            ProjectionError::KindMismatch => !pre.has_live_id(new_id) && pre.has_live_id(parent_id)
                && !pre.is_path_node(pre.idx_of(parent_id)),
        }
    }

    /// The error conditions a `Removed` or `Set` event can hit.
    pub open spec fn target_err(
        pre: Self,
        id: Seq<char>,
        e: ProjectionError,
        kind_ok: spec_fn(NodeKind) -> bool,
    ) -> bool {
        match e {
            ProjectionError::DuplicateId => false,
            ProjectionError::UnknownTarget => !pre.has_live_id(id),
            ProjectionError::KindMismatch => pre.has_live_id(id) && !kind_ok(
                pre.entry(pre.idx_of(id)).kind,
            ),
        }
    }

    /// The live children of entry `i`, from index `j` on, in insertion
    /// order.
    pub open spec fn children_from(self, i: int, j: int) -> Seq<int>
        decreases self.n() - j,
    {
        if 0 <= j < self.n() {
            (if self.live(j) && (self.entry(j).parent matches Some(p) && p as int == i) {
                seq![j]
            } else {
                Seq::empty()
            }) + self.children_from(i, j + 1)
        } else {
            Seq::empty()
        }
    }

    /// All live children of entry `i`, in insertion order.
    pub open spec fn children_of(self, i: int) -> Seq<int> {
        self.children_from(i, 0)
    }

    /// The node carrying the domain id `id`.
    pub fn get_node(&self, id: &str) -> (r: Option<&NodeEntry>)
        requires
            self.wf(),
        ensures
            match r {
                Some(e) => self.has_live_id(id@) && *e == self.entry(self.idx_of(id@)),
                None => !self.has_live_id(id@),
            },
    {
        match self.find_index(id) {
            Some(i) => {
                proof {
                    self.lemma_idx_of_is(id@, i as int);
                }
                Some(&self.nodes[i])
            },
            None => None,
        }
    }

    /// The arena handle of the parent of the node carrying `id`.
    pub fn get_parent(&self, id: &str) -> (r: Option<usize>)
        requires
            self.wf(),
        ensures
            match r {
                Some(p) => self.has_live_id(id@) && self.entry(self.idx_of(id@)).parent == Some(p)
                    && self.live(p as int),
                None => !self.has_live_id(id@) || self.entry(self.idx_of(id@)).parent is None,
            },
    {
        let i = match self.find_index(id) {
            Some(i) => i,
            None => {
                return None;
            },
        };
        proof {
            self.lemma_idx_of_is(id@, i as int);
        }
        match self.nodes[i].parent {
            Some(p) => {
                proof {
                    if i as int >= 1 {
                        assert(self.entry(i as int).parent matches Some(q) && (q as int) < (
                        i as int));
                    }
                }
                Some(p)
            },
            None => None,
        }
    }

    /// The arena handles of the live children of the node carrying `id`,
    /// in insertion order (children point up at their parent, so these are
    /// the entries whose parent edge lands on it).
    pub fn get_children(&self, id: &str) -> (r: Option<Vec<usize>>)
        requires
            self.wf(),
        ensures
            match r {
                Some(v) => self.has_live_id(id@) && usizes(v@) == self.children_of(
                    self.idx_of(id@),
                ),
                None => !self.has_live_id(id@),
            },
    {
        let i = match self.find_index(id) {
            Some(i) => i,
            None => {
                return None;
            },
        };
        proof {
            self.lemma_idx_of_is(id@, i as int);
        }
        let ghost ii = i as int;
        let n = self.nodes.len();
        let mut out: Vec<usize> = Vec::new();
        let mut j: usize = 0;
        while j < n
            invariant
                self.wf(),
                j <= n,
                n == self.n(),
                ii == i as int,
                usizes(out@) + self.children_from(ii, j as int) == self.children_of(ii),
            decreases n - j,
        {
            let ghost pre_out = usizes(out@);
            let entry = &self.nodes[j];
            let mut hit = false;
            if !entry.removed {
                if let Some(pp) = entry.parent {
                    if pp == i {
                        hit = true;
                    }
                }
            }
            if hit {
                out.push(j);
            }
            proof {
                let jj = j as int;
                let c: Seq<int> = if self.live(jj) && (self.entry(jj).parent matches Some(p) && p
                    as int == ii) {
                    seq![jj]
                } else {
                    Seq::empty()
                };
                assert(self.children_from(ii, jj) =~= c + self.children_from(ii, jj + 1));
                assert(usizes(out@) =~= pre_out + c);
                assert(usizes(out@) + self.children_from(ii, jj + 1) =~= self.children_of(ii));
            }
            j += 1;
        }
        proof {
            assert(self.children_from(ii, n as int) =~= Seq::<int>::empty());
            assert(usizes(out@) =~= self.children_of(ii));
        }
        Some(out)
    }

    /// Find the live method node for `method` under node `p`.
    fn find_method_node(&self, p: usize, method: &String) -> (r: Option<usize>)
        requires
            self.wf(),
        ensures
            match r {
                Some(m) => self.is_method_under(m as int, p as int, method@),
                None => forall|m: int| !self.is_method_under(m, p as int, method@),
            },
    {
        let n = self.nodes.len();
        let mut j: usize = 0;
        while j < n
            invariant
                n == self.n(),
                j <= n,
                self.wf(),
                forall|m: int| 0 <= m < j ==> !self.is_method_under(m, p as int, method@),
            decreases n - j,
        {
            let entry = &self.nodes[j];
            if !entry.removed {
                if let NodeKind::HttpMethod { http_method } = &entry.kind {
                    if let Some(pp) = entry.parent {
                        if pp == p && *http_method == *method {
                            return Some(j);
                        }
                    }
                }
            }
            j += 1;
        }
        None
    }

    /// Find the live status-code node for `code` under method node `m`.
    fn find_status_node(&self, m: usize, code: u16) -> (r: Option<usize>)
        requires
            self.wf(),
        ensures
            match r {
                Some(s) => self.is_status_under(s as int, m as int, code),
                None => forall|s: int| !self.is_status_under(s, m as int, code),
            },
    {
        let n = self.nodes.len();
        let mut j: usize = 0;
        while j < n
            invariant
                n == self.n(),
                j <= n,
                self.wf(),
                forall|s: int| 0 <= s < j ==> !self.is_status_under(s, m as int, code),
            decreases n - j,
        {
            let entry = &self.nodes[j];
            if !entry.removed {
                if let NodeKind::HttpStatusCode { http_status_code } = &entry.kind {
                    if let Some(pp) = entry.parent {
                        if pp == m && *http_status_code == code {
                            return Some(j);
                        }
                    }
                }
            }
            j += 1;
        }
        None
    }

    /// Find the live node carrying `id`, or say that none does.
    fn find_target(&self, id: &String) -> (r: Result<usize, ProjectionError>)
        requires
            self.wf(),
        ensures
            match r {
                Ok(i) => self.has_live_id(id@) && i as int == self.idx_of(id@) && self.live(i as int)
                    && self.id_view(i as int) == Some(id@),
                Err(e) => e == ProjectionError::UnknownTarget && !self.has_live_id(id@),
            },
    {
        match self.find_index(id.as_str()) {
            Some(i) => {
                proof {
                    self.lemma_idx_of_is(id@, i as int);
                }
                Ok(i)
            },
            None => Err(ProjectionError::UnknownTarget),
        }
    }

    /// Fold a `PathComponentAdded` or `PathParameterAdded` event.
    fn add_path(
        &mut self,
        path_id: &String,
        parent_path_id: &String,
        name: &String,
        is_parameter: bool,
    ) -> (r: Result<(), ProjectionError>)
        requires
            old(self).wf(),
        ensures
            final(self).wf(),
            match r {
                Ok(()) => Self::path_added(
                    *old(self),
                    *final(self),
                    path_id@,
                    parent_path_id@,
                    name@,
                    is_parameter,
                ),
                Err(e) => *final(self) == *old(self) && Self::added_err(
                    *old(self),
                    path_id@,
                    parent_path_id@,
                    e,
                ),
            },
    {
        if self.find_index(path_id.as_str()).is_some() {
            return Err(ProjectionError::DuplicateId);
        }
        let p = match self.find_index(parent_path_id.as_str()) {
            Some(i) => i,
            None => {
                return Err(ProjectionError::UnknownTarget);
            },
        };
        proof {
            self.lemma_idx_of_is(parent_path_id@, p as int);
        }
        let ok_kind = match &self.nodes[p].kind {
            NodeKind::Root => true,
            NodeKind::PathComponent { .. } => true,
            _ => false,
        };
        if !ok_kind {
            return Err(ProjectionError::KindMismatch);
        }
        let entry = NodeEntry {
            id: Some(path_id.clone()),
            kind: NodeKind::PathComponent {
                component: PathComponentDescriptor {
                    name: name.clone(),
                    is_parameter,
                    shape_id: None,
                },
            },
            parent: Some(p),
            removed: false,
        };
        self.push_node(entry);
        Ok(())
    }

    /// Resolve the method node for `method` under `p`, creating it if absent.
    fn method_node_for(&mut self, p: usize, http_method: &String) -> (m: usize)
        requires
            old(self).wf(),
            old(self).is_path_node(p as int),
        ensures
            final(self).wf(),
            final(self).extends(*old(self)),
            old(self).n() <= final(self).n() <= old(self).n() + 1,
            forall|k: int|
                old(self).n() <= k < final(self).n() ==> (#[trigger] final(self).entry(k)).id
                    is None,
            final(self).is_method_under(m as int, p as int, http_method@),
    {
        match self.find_method_node(p, http_method) {
            Some(m) => m,
            None => {
                let me = NodeEntry {
                    id: None,
                    kind: NodeKind::HttpMethod { http_method: http_method.clone() },
                    parent: Some(p),
                    removed: false,
                };
                self.push_node(me)
            },
        }
    }

    /// Fold a `RequestAdded` event.
    fn add_request(&mut self, request_id: &String, path_id: &String, http_method: &String) -> (r:
        Result<(), ProjectionError>)
        requires
            old(self).wf(),
        ensures
            final(self).wf(),
            match r {
                Ok(()) => Self::request_added(
                    *old(self),
                    *final(self),
                    request_id@,
                    path_id@,
                    http_method@,
                ),
                Err(e) => *final(self) == *old(self) && Self::added_err(
                    *old(self),
                    request_id@,
                    path_id@,
                    e,
                ),
            },
    {
        if self.find_index(request_id.as_str()).is_some() {
            return Err(ProjectionError::DuplicateId);
        }
        let p = match self.find_index(path_id.as_str()) {
            Some(i) => i,
            None => {
                return Err(ProjectionError::UnknownTarget);
            },
        };
        proof {
            self.lemma_idx_of_is(path_id@, p as int);
        }
        let ok_kind = match &self.nodes[p].kind {
            NodeKind::Root => true,
            NodeKind::PathComponent { .. } => true,
            _ => false,
        };
        if !ok_kind {
            return Err(ProjectionError::KindMismatch);
        }
        let ghost pre = *self;
        let m = self.method_node_for(p, http_method);
        proof {
            lemma_no_new_id(pre, *self, request_id@);
        }
        let ghost mid = *self;
        let entry = NodeEntry {
            id: Some(request_id.clone()),
            kind: NodeKind::Request { request: RequestDescriptor { body: None } },
            parent: Some(m),
            removed: false,
        };
        let r_idx = self.push_node(entry);
        proof {
            assert(self.entry(m as int) == mid.entry(m as int));
            assert(self.is_method_under(m as int, p as int, http_method@));
            assert forall|j: int| 0 <= j < pre.n() implies #[trigger] self.entry(j) == pre.entry(
                j,
            ) by {
                assert(self.entry(j) == mid.entry(j));
            }
        }
        Ok(())
    }

    /// Fold a `ResponseAddedByPathAndMethod` event.
    fn add_response(
        &mut self,
        response_id: &String,
        path_id: &String,
        http_method: &String,
        http_status_code: u16,
    ) -> (r: Result<(), ProjectionError>)
        requires
            old(self).wf(),
        ensures
            final(self).wf(),
            match r {
                Ok(()) => Self::response_added(
                    *old(self),
                    *final(self),
                    response_id@,
                    path_id@,
                    http_method@,
                    http_status_code,
                ),
                Err(e) => *final(self) == *old(self) && Self::added_err(
                    *old(self),
                    response_id@,
                    path_id@,
                    e,
                ),
            },
    {
        if self.find_index(response_id.as_str()).is_some() {
            return Err(ProjectionError::DuplicateId);
        }
        let p = match self.find_index(path_id.as_str()) {
            Some(i) => i,
            None => {
                return Err(ProjectionError::UnknownTarget);
            },
        };
        proof {
            self.lemma_idx_of_is(path_id@, p as int);
        }
        let ok_kind = match &self.nodes[p].kind {
            NodeKind::Root => true,
            NodeKind::PathComponent { .. } => true,
            _ => false,
        };
        if !ok_kind {
            return Err(ProjectionError::KindMismatch);
        }
        let ghost pre = *self;
        let m = self.method_node_for(p, http_method);
        proof {
            lemma_no_new_id(pre, *self, response_id@);
        }
        let ghost mid = *self;
        let s = match self.find_status_node(m, http_status_code) {
            Some(s) => s,
            None => {
                let se = NodeEntry {
                    id: None,
                    kind: NodeKind::HttpStatusCode { http_status_code },
                    parent: Some(m),
                    removed: false,
                };
                self.push_node(se)
            },
        };
        proof {
            lemma_no_new_id(mid, *self, response_id@);
            assert(self.entry(m as int) == mid.entry(m as int));
            assert(self.is_method_under(m as int, p as int, http_method@));
            assert(self.is_status_under(s as int, m as int, http_status_code));
        }
        let ghost mid2 = *self;
        let entry = NodeEntry {
            id: Some(response_id.clone()),
            kind: NodeKind::Response { response: ResponseBodyDescriptor { body: None } },
            parent: Some(s),
            removed: false,
        };
        let r_idx = self.push_node(entry);
        proof {
            assert(self.entry(m as int) == mid2.entry(m as int));
            assert(self.entry(s as int) == mid2.entry(s as int));
            assert(self.is_method_under(m as int, p as int, http_method@));
            assert(self.is_status_under(s as int, m as int, http_status_code));
            assert forall|j: int| 0 <= j < pre.n() implies #[trigger] self.entry(j) == pre.entry(
                j,
            ) by {
                assert(self.entry(j) == mid2.entry(j));
                assert(mid2.entry(j) == mid.entry(j));
            }
        }
        Ok(())
    }

    /// Fold a `QueryParametersAdded` event.
    fn add_query_params(
        &mut self,
        query_parameters_id: &String,
        path_id: &String,
        http_method: &String,
    ) -> (r: Result<(), ProjectionError>)
        requires
            old(self).wf(),
        ensures
            final(self).wf(),
            match r {
                Ok(()) => Self::query_params_added(
                    *old(self),
                    *final(self),
                    query_parameters_id@,
                    path_id@,
                    http_method@,
                ),
                Err(e) => *final(self) == *old(self) && Self::added_err(
                    *old(self),
                    query_parameters_id@,
                    path_id@,
                    e,
                ),
            },
    {
        if self.find_index(query_parameters_id.as_str()).is_some() {
            return Err(ProjectionError::DuplicateId);
        }
        let p = match self.find_index(path_id.as_str()) {
            Some(i) => i,
            None => {
                return Err(ProjectionError::UnknownTarget);
            },
        };
        proof {
            self.lemma_idx_of_is(path_id@, p as int);
        }
        let ok_kind = match &self.nodes[p].kind {
            NodeKind::Root => true,
            NodeKind::PathComponent { .. } => true,
            _ => false,
        };
        if !ok_kind {
            return Err(ProjectionError::KindMismatch);
        }
        let ghost pre = *self;
        let m = self.method_node_for(p, http_method);
        proof {
            lemma_no_new_id(pre, *self, query_parameters_id@);
        }
        let ghost mid = *self;
        let entry = NodeEntry {
            id: Some(query_parameters_id.clone()),
            kind: NodeKind::QueryParameters {
                query_parameters: QueryParametersDescriptor { shape_id: None },
            },
            parent: Some(m),
            removed: false,
        };
        let q_idx = self.push_node(entry);
        proof {
            assert(self.entry(m as int) == mid.entry(m as int));
            assert(self.is_method_under(m as int, p as int, http_method@));
            assert forall|j: int| 0 <= j < pre.n() implies #[trigger] self.entry(j) == pre.entry(
                j,
            ) by {
                assert(self.entry(j) == mid.entry(j));
            }
        }
        Ok(())
    }

    /// Fold one domain event into the graph, maintaining every invariant.
    ///
    /// Each event's effect is atomic: on an error the projection is exactly
    /// as it was.  A removal that precedes its add, like any event naming an
    /// id the model cannot honour, is a fatal inconsistency reported as a
    /// `ProjectionError`, never silently ignored.
    #[verifier::rlimit(60)]
    #[verifier::spinoff_prover]
    pub fn apply(&mut self, event: &SpecEvent) -> (r: Result<(), ProjectionError>)
        requires
            old(self).wf(),
        ensures
            final(self).wf(),
            match r {
                Ok(()) => Self::apply_ok(*old(self), *final(self), *event),
                Err(e) => *final(self) == *old(self) && Self::apply_err(*old(self), *event, e),
            },
    {
        match event {
            SpecEvent::PathComponentAdded { path_id, parent_path_id, name } => self.add_path(
                path_id,
                parent_path_id,
                name,
                false,
            ),
            SpecEvent::PathParameterAdded { path_id, parent_path_id, name } => self.add_path(
                path_id,
                parent_path_id,
                name,
                true,
            ),
            SpecEvent::RequestAdded { request_id, path_id, http_method } => self.add_request(
                request_id,
                path_id,
                http_method,
            ),
            SpecEvent::ResponseAddedByPathAndMethod {
                response_id,
                path_id,
                http_method,
                http_status_code,
            } => self.add_response(response_id, path_id, http_method, *http_status_code),
            SpecEvent::QueryParametersAdded {
                query_parameters_id,
                path_id,
                http_method,
            } => self.add_query_params(query_parameters_id, path_id, http_method),
            SpecEvent::PathComponentRemoved { path_id } => {
                let t = match self.find_target(path_id) {
                    Ok(t) => t,
                    Err(e) => {
                        return Err(e);
                    },
                };
                let ok = match &self.nodes[t].kind {
                    NodeKind::PathComponent { component } => !component.is_parameter,
                    _ => false,
                };
                if !ok {
                    return Err(ProjectionError::KindMismatch);
                }
                self.remove_subtree(t);
                Ok(())
            },
            SpecEvent::PathParameterRemoved { path_id } => {
                let t = match self.find_target(path_id) {
                    Ok(t) => t,
                    Err(e) => {
                        return Err(e);
                    },
                };
                let ok = match &self.nodes[t].kind {
                    NodeKind::PathComponent { component } => component.is_parameter,
                    _ => false,
                };
                if !ok {
                    return Err(ProjectionError::KindMismatch);
                }
                self.remove_subtree(t);
                Ok(())
            },
            SpecEvent::RequestRemoved { request_id } => {
                let t = match self.find_target(request_id) {
                    Ok(t) => t,
                    Err(e) => {
                        return Err(e);
                    },
                };
                let ok = match &self.nodes[t].kind {
                    NodeKind::Request { .. } => true,
                    _ => false,
                };
                if !ok {
                    return Err(ProjectionError::KindMismatch);
                }
                self.remove_subtree(t);
                Ok(())
            },
            SpecEvent::ResponseRemoved { response_id } => {
                let t = match self.find_target(response_id) {
                    Ok(t) => t,
                    Err(e) => {
                        return Err(e);
                    },
                };
                let ok = match &self.nodes[t].kind {
                    NodeKind::Response { .. } => true,
                    _ => false,
                };
                if !ok {
                    return Err(ProjectionError::KindMismatch);
                }
                self.remove_subtree(t);
                Ok(())
            },
            SpecEvent::QueryParametersRemoved { query_parameters_id } => {
                let t = match self.find_target(query_parameters_id) {
                    Ok(t) => t,
                    Err(e) => {
                        return Err(e);
                    },
                };
                let ok = match &self.nodes[t].kind {
                    NodeKind::QueryParameters { .. } => true,
                    _ => false,
                };
                if !ok {
                    return Err(ProjectionError::KindMismatch);
                }
                self.remove_subtree(t);
                Ok(())
            },
            SpecEvent::RequestBodySet { request_id, http_content_type, shape_id } => {
                let t = match self.find_target(request_id) {
                    Ok(t) => t,
                    Err(e) => {
                        return Err(e);
                    },
                };
                let ok = match &self.nodes[t].kind {
                    NodeKind::Request { .. } => true,
                    _ => false,
                };
                if !ok {
                    return Err(ProjectionError::KindMismatch);
                }
                let ghost pre = *self;
                self.nodes[t].kind = NodeKind::Request {
                    request: RequestDescriptor {
                        body: Some(
                            BodyDescriptor {
                                http_content_type: http_content_type.clone(),
                                root_shape_id: shape_id.clone(),
                            },
                        ),
                    },
                };
                proof {
                    self.lemma_payload_update(pre, t as int);
                }
                Ok(())
            },
            SpecEvent::ResponseBodySet { response_id, http_content_type, shape_id } => {
                let t = match self.find_target(response_id) {
                    Ok(t) => t,
                    Err(e) => {
                        return Err(e);
                    },
                };
                let ok = match &self.nodes[t].kind {
                    NodeKind::Response { .. } => true,
                    _ => false,
                };
                if !ok {
                    return Err(ProjectionError::KindMismatch);
                }
                let ghost pre = *self;
                self.nodes[t].kind = NodeKind::Response {
                    response: ResponseBodyDescriptor {
                        body: Some(
                            BodyDescriptor {
                                http_content_type: http_content_type.clone(),
                                root_shape_id: shape_id.clone(),
                            },
                        ),
                    },
                };
                proof {
                    self.lemma_payload_update(pre, t as int);
                }
                Ok(())
            },
            SpecEvent::PathParameterShapeSet { path_id, shape_id } => {
                let t = match self.find_target(path_id) {
                    Ok(t) => t,
                    Err(e) => {
                        return Err(e);
                    },
                };
                let new_kind = match &self.nodes[t].kind {
                    NodeKind::PathComponent { component } => {
                        if !component.is_parameter {
                            return Err(ProjectionError::KindMismatch);
                        }
                        NodeKind::PathComponent {
                            component: PathComponentDescriptor {
                                name: component.name.clone(),
                                is_parameter: true,
                                shape_id: Some(shape_id.clone()),
                            },
                        }
                    },
                    _ => {
                        return Err(ProjectionError::KindMismatch);
                    },
                };
                let ghost pre = *self;
                self.nodes[t].kind = new_kind;
                proof {
                    self.lemma_payload_update(pre, t as int);
                }
                Ok(())
            },
            SpecEvent::QueryParametersShapeSet { query_parameters_id, shape_id } => {
                let t = match self.find_target(query_parameters_id) {
                    Ok(t) => t,
                    Err(e) => {
                        return Err(e);
                    },
                };
                let ok = match &self.nodes[t].kind {
                    NodeKind::QueryParameters { .. } => true,
                    _ => false,
                };
                if !ok {
                    return Err(ProjectionError::KindMismatch);
                }
                let ghost pre = *self;
                self.nodes[t].kind = NodeKind::QueryParameters {
                    query_parameters: QueryParametersDescriptor {
                        shape_id: Some(shape_id.clone()),
                    },
                };
                proof {
                    self.lemma_payload_update(pre, t as int);
                }
                Ok(())
            },
            SpecEvent::ShapeAdded { .. } => Ok(()),
        }
    }

    /// Wrap `lemma_update_kind_preserves_wf` for a payload-only mutation of
    /// entry `i`, discharging its variant-shaped side conditions.
    proof fn lemma_payload_update(self, pre: Self, i: int)
        requires
            pre.wf(),
            1 <= i < pre.n(),
            self.n() == pre.n(),
            forall|j: int| 0 <= j < pre.n() && j != i ==> #[trigger] self.entry(j) == pre.entry(j),
            self.entry(i).id == pre.entry(i).id,
            self.entry(i).parent == pre.entry(i).parent,
            self.entry(i).removed == pre.entry(i).removed,
            !(self.entry(i).kind is Root),
            !(pre.entry(i).kind is Root),
            self.entry(i).kind.carries_id() == pre.entry(i).kind.carries_id(),
            forall|k: NodeKind| (#[trigger] self.entry(i).kind.parent_kind_ok(k)) == pre.entry(
                i,
            ).kind.parent_kind_ok(k),
            forall|k: NodeKind| (#[trigger] k.parent_kind_ok(self.entry(i).kind))
                == k.parent_kind_ok(pre.entry(i).kind),
        ensures
            self.wf(),
    {
        lemma_update_kind_preserves_wf(pre, self, i);
    }

    /// A fresh projection: the root node alone.
    pub fn new() -> (r: EndpointProjection)
        ensures
            r.wf(),
            r.n() == 1,
            r.entry(0).kind is Root,
    {
        let root = NodeEntry {
            id: Some(String::from_str("root")),
            kind: NodeKind::Root,
            parent: None,
            removed: false,
        };
        let mut nodes: Vec<NodeEntry> = Vec::new();
        nodes.push(root);
        EndpointProjection { nodes }
    }

    /// Find the arena index of the live node carrying the domain id `id`.
    pub fn find_index(&self, id: &str) -> (r: Option<usize>)
        requires
            self.wf(),
        ensures
            match r {
                Some(i) => self.live(i as int) && self.id_view(i as int) == Some(id@)
                    && self.has_live_id(id@),
                None => !self.has_live_id(id@),
            },
    {
        let key: String = id.to_owned();
        let n = self.nodes.len();
        let mut j: usize = 0;
        while j < n
            invariant
                n == self.n(),
                j <= n,
                self.wf(),
                key@ == id@,
                forall|k: int| 0 <= k < j ==> !(self.live(k) && self.id_view(k) == Some(id@)),
            decreases n - j,
        {
            let entry = &self.nodes[j];
            if !entry.removed {
                if let Some(node_id) = &entry.id {
                    if *node_id == key {
                        return Some(j);
                    }
                }
            }
            j += 1;
        }
        None
    }
}

impl EndpointCommand {
    /// The domain id the command targets.
    pub open spec fn target_id(self) -> Seq<char> {
        match self {
            EndpointCommand::RemoveRequest { request_id } => request_id@,
            EndpointCommand::RemoveResponse { response_id } => response_id@,
            EndpointCommand::RemoveQueryParameters { query_parameters_id } => query_parameters_id@,
            EndpointCommand::RemovePathComponent { path_id } => path_id@,
            EndpointCommand::RemovePathParameter { path_id } => path_id@,
        }
    }

    /// The node kind the command may lawfully remove.
    pub open spec fn kind_ok(self, k: NodeKind) -> bool {
        match self {
            EndpointCommand::RemoveRequest { .. } => k is Request,
            EndpointCommand::RemoveResponse { .. } => k is Response,
            EndpointCommand::RemoveQueryParameters { .. } => k is QueryParameters,
            EndpointCommand::RemovePathComponent { .. } => k matches NodeKind::PathComponent {
                component,
            } && !component.is_parameter,
            EndpointCommand::RemovePathParameter { .. } => k matches NodeKind::PathComponent {
                component,
            } && component.is_parameter,
        }
    }

    /// The command names a live node of the right kind.
    pub open spec fn valid_on(self, proj: EndpointProjection) -> bool {
        proj.has_live_id(self.target_id()) && self.kind_ok(
            proj.entry(proj.idx_of(self.target_id())).kind,
        )
    }
}

/// The whole derived spec model.  The endpoint projection is the component
/// modelled here; the shape projection lives with the external shape engine.
pub struct SpecProjection {
    pub endpoint: EndpointProjection,
}

impl SpecProjection {
    pub open spec fn wf(self) -> bool {
        self.endpoint.wf()
    }

    /// An empty spec: the endpoint graph holds the root alone.
    pub fn new() -> (r: SpecProjection)
        ensures
            r.wf(),
    {
        SpecProjection { endpoint: EndpointProjection::new() }
    }

    /// `states` is the snapshot chain of folding `events` in order: it
    /// starts from the fresh one-node projection, and each event's
    /// successful fold links one snapshot to the next.
    pub open spec fn fold_chain(states: Seq<EndpointProjection>, events: Seq<SpecEvent>) -> bool {
        &&& states.len() == events.len() + 1
        &&& states[0].wf()
        &&& states[0].n() == 1
        &&& forall|k: int|
            0 <= k < events.len() ==> EndpointProjection::apply_ok(
                states[k],
                states[k + 1],
                #[trigger] events[k],
            )
    }

    /// Build a projection by folding an ordered event log; the first event
    /// the model cannot honour aborts the fold with its error.
    pub fn from_events(events: &Vec<SpecEvent>) -> (r: Result<SpecProjection, ProjectionError>)
        ensures
            match r {
                Ok(p) => {
                    &&& p.wf()
                    &&& exists|states: Seq<EndpointProjection>|
                        #[trigger] Self::fold_chain(states, events@) && p.endpoint
                            == states.last()
                },
                Err(e) => exists|states: Seq<EndpointProjection>, j: int|
                    {
                        &&& #[trigger] Self::fold_chain(states, events@.take(j))
                        &&& 0 <= j < events@.len()
                        &&& states[j].wf()
                        &&& EndpointProjection::apply_err(states[j], events@[j], e)
                    },
            },
    {
        let mut endpoint = EndpointProjection::new();
        let ghost mut chain: Seq<EndpointProjection> = seq![endpoint];
        let n = events.len();
        let mut i: usize = 0;
        while i < n
            invariant
                endpoint.wf(),
                i <= n,
                n == events@.len(),
                chain.len() == i + 1,
                Self::fold_chain(chain, events@.take(i as int)),
                chain[i as int] == endpoint,
            decreases n - i,
        {
            let ghost pre = endpoint;
            match endpoint.apply(&events[i]) {
                Ok(()) => {},
                Err(e) => {
                    proof {
                        assert(EndpointProjection::apply_err(chain[i as int], events@[i as int], e));
                    }
                    return Err(e);
                },
            }
            proof {
                chain = chain.push(endpoint);
                assert(events@.take(i + 1).len() == i + 1);
                assert forall|k: int|
                    0 <= k < i + 1 implies EndpointProjection::apply_ok(
                    chain[k],
                    chain[k + 1],
                    #[trigger] events@.take(i + 1)[k],
                ) by {
                    assert(events@.take(i + 1)[k] == events@[k]);
                    if k < i {
                        assert(events@.take(i as int)[k] == events@[k]);
                    }
                }
                assert(Self::fold_chain(chain, events@.take(i + 1)));
            }
            i += 1;
        }
        proof {
            assert(events@.take(n as int) =~= events@);
        }
        Ok(SpecProjection { endpoint })
    }

    /// Read access to the endpoint projection.
    pub fn endpoint(&self) -> (r: &EndpointProjection)
        ensures
            r == &self.endpoint,
    {
        &self.endpoint
    }

    /// Fold one domain event; see `EndpointProjection::apply`.
    pub fn apply(&mut self, event: &SpecEvent) -> (r: Result<(), ProjectionError>)
        requires
            old(self).wf(),
        ensures
            final(self).wf(),
            match r {
                Ok(()) => EndpointProjection::apply_ok(
                    old(self).endpoint,
                    final(self).endpoint,
                    *event,
                ),
                Err(e) => *final(self) == *old(self) && EndpointProjection::apply_err(
                    old(self).endpoint,
                    *event,
                    e,
                ),
            },
    {
        self.endpoint.apply(event)
    }

    /// Validate a removal command against the model and answer with the
    /// domain event that carries it out; the projection itself is untouched.
    pub fn execute(&self, command: &SpecCommand) -> (r: Result<SpecEvent, ProjectionError>)
        requires
            self.wf(),
        ensures
            match r {
                Ok(ev) => ev == self.spec_command_of(*command).event_for() && self.spec_command_of(
                    *command,
                ).valid_on(self.endpoint),
                Err(e) => {
                    let c = self.spec_command_of(*command);
                    EndpointProjection::target_err(
                        self.endpoint,
                        c.target_id(),
                        e,
                        |k: NodeKind| c.kind_ok(k),
                    )
                },
            },
    {
        let SpecCommand::Endpoint { command } = command;
        let (id, ev): (&String, SpecEvent) = match command {
            EndpointCommand::RemoveRequest { request_id } => (
                request_id,
                SpecEvent::RequestRemoved { request_id: request_id.clone() },
            ),
            EndpointCommand::RemoveResponse { response_id } => (
                response_id,
                SpecEvent::ResponseRemoved { response_id: response_id.clone() },
            ),
            EndpointCommand::RemoveQueryParameters { query_parameters_id } => (
                query_parameters_id,
                SpecEvent::QueryParametersRemoved {
                    query_parameters_id: query_parameters_id.clone(),
                },
            ),
            EndpointCommand::RemovePathComponent { path_id } => (
                path_id,
                SpecEvent::PathComponentRemoved { path_id: path_id.clone() },
            ),
            EndpointCommand::RemovePathParameter { path_id } => (
                path_id,
                SpecEvent::PathParameterRemoved { path_id: path_id.clone() },
            ),
        };
        let t = match self.endpoint.find_target(id) {
            Ok(t) => t,
            Err(e) => {
                return Err(e);
            },
        };
        let ok = match (command, &self.endpoint.nodes[t].kind) {
            (EndpointCommand::RemoveRequest { .. }, NodeKind::Request { .. }) => true,
            (EndpointCommand::RemoveResponse { .. }, NodeKind::Response { .. }) => true,
            (
                EndpointCommand::RemoveQueryParameters { .. },
                NodeKind::QueryParameters { .. },
            ) => true,
            (
                EndpointCommand::RemovePathComponent { .. },
                NodeKind::PathComponent { component },
            ) => !component.is_parameter,
            (
                EndpointCommand::RemovePathParameter { .. },
                NodeKind::PathComponent { component },
            ) => component.is_parameter,
            _ => false,
        };
        if !ok {
            return Err(ProjectionError::KindMismatch);
        }
        Ok(ev)
    }

    /// The endpoint command inside `c`, at the spec level.
    pub open spec fn spec_command_of(self, c: SpecCommand) -> EndpointCommand {
        c.endpoint_command()
    }
}

} // verus!
