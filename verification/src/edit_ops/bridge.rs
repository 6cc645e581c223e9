//! Bridging two chains of boundary edges with a strip of quads.
use vstd::prelude::*;

use crate::edit_ops::dissolve::outgoing_of;
use crate::edit_ops::{check_quad_walks, make_quad, quad_made, quad_walks_within, EditError};
use crate::halfedge::{closes_within, HalfEdgeId, MeshConnectivity, MeshView, VertexId, WalkKind};
use crate::mesh::HalfEdgeMesh;
use crate::traversals::{first_to, AnyTraversal, HalfedgeTraversalHelpers, TraversalError, VertexTraversalHelpers};
use crate::utils::{rotate_iter, rotated};

verus! {

/// What is wrong with the edge from `v` to `w` as a side of a bridge: a
/// fan around `v` that does not close within as many steps as the mesh has
/// half-edges, a failed walk, no half-edge from `v` to `w`, or one that is
/// on a face.
pub open spec fn window_error(m: MeshView, v: VertexId, w: VertexId) -> Option<EditError> {
    let lim = m.halfedges.dom().len();
    if m.vertices[v.0].halfedge matches Some(h) && !closes_within(m, WalkKind::Fan, h.0, lim) {
        Some(EditError::OpenLoop)
    } else {
        match outgoing_of(m, v) {
            Err(e) => Some(EditError::Traversal(e)),
            Ok(s) => match first_to(m, s, w) {
                None => Some(EditError::Traversal(TraversalError::NoHalfedgeTo(w))),
                Some(h) => if m.halfedges[h.0].face is None {
                    None
                } else {
                    Some(EditError::BridgeNotBoundary)
                },
            },
        }
    }
}

/// The first error among the first `k` edges of the chain `c`.
pub open spec fn windows_error(m: MeshView, c: Seq<VertexId>, k: int) -> Option<EditError>
    decreases k,
{
    if k <= 0 {
        None
    } else {
        match windows_error(m, c, k - 1) {
            Some(e) => Some(e),
            None => window_error(m, c[k - 1], c[k]),
        }
    }
}

/// A vertex of `c1` is also in `c2`.
pub open spec fn chains_share(c1: Seq<VertexId>, c2: Seq<VertexId>) -> bool {
    exists|i: int| 0 <= i < c1.len() && c2.contains(#[trigger] c1[i])
}

/// Why two chains cannot be bridged, checked before any edit: different
/// lengths, no vertices, a side that is no boundary edge, or a vertex in
/// both chains.
pub open spec fn bridge_precheck(m: MeshView, c1: Seq<VertexId>, c2: Seq<VertexId>) -> Option<EditError> {
    if c1.len() != c2.len() {
        Some(EditError::BridgeLengths)
    } else if c1.len() == 0 {
        Some(EditError::BridgeEmpty)
    } else if windows_error(m, c1, c1.len() - 1) is Some {
        windows_error(m, c1, c1.len() - 1)
    } else if windows_error(m, c2, c2.len() - 1) is Some {
        windows_error(m, c2, c2.len() - 1)
    } else if chains_share(c1, c2) {
        Some(EditError::BridgeSameLoop)
    } else {
        None
    }
}

/// The quads of a bridge: the first chain rotated by `shift` (when closed)
/// pairs with the second chain reversed, edge by edge; a closed bridge also
/// joins the last vertices to the first.
pub open spec fn bridge_quads(c1: Seq<VertexId>, c2: Seq<VertexId>, closed: bool, shift: int) -> Seq<Seq<VertexId>> {
    let n = c1.len() as int;
    let rot = rotated(c1, if closed { shift } else { 0 }, n);
    let rev = c2.reverse();
    let k = if closed {
        n
    } else {
        n - 1
    };
    Seq::new(
        k as nat,
        |i: int|
            {
                let j = (i + 1) % n;
                seq![rot[i], rot[j], rev[j], rev[i]]
            },
    )
}

/// One quad of a bridge, from `m` to `m2` with result `r`: refused when the
/// mesh is full or a walk would not close, else what `make_quad` does.
pub open spec fn quad_step(m: MeshView, q: Seq<VertexId>, r: Result<(), EditError>, m2: MeshView) -> bool {
    if !(m.faces.dom().len() + 3 < 0x1_0000_0000 && m.halfedges.dom().len() + 11 < 0x1_0000_0000) {
        r == Err::<(), EditError>(EditError::CapacityExceeded) && m2 == m
    } else if !quad_walks_within(m, q, m.halfedges.dom().len()) {
        r == Err::<(), EditError>(EditError::OpenLoop) && m2 == m
    } else {
        quad_made(m, q, r, m2)
    }
}

/// The quads `qs` made one after the other from `m0`, through the meshes
/// `ms` with results `rs`, up to the first failure, ending in `m1` with
/// result `r`.
pub open spec fn bridge_steps(
    m0: MeshView,
    m1: MeshView,
    ms: Seq<MeshView>,
    rs: Seq<Result<(), EditError>>,
    qs: Seq<Seq<VertexId>>,
    r: Result<(), EditError>,
) -> bool {
    &&& ms.len() == rs.len() + 1
    &&& rs.len() <= qs.len()
    &&& ms[0] == m0
    &&& ms.last() == m1
    &&& forall|t: int| 0 <= t < rs.len() ==> #[trigger] quad_step(ms[t], qs[t], rs[t], ms[t + 1])
    &&& forall|t: int| 0 <= t < rs.len() - 1 ==> (#[trigger] rs[t]) is Ok
    &&& if rs.len() > 0 && rs.last() is Err {
        r == rs.last()
    } else {
        rs.len() == qs.len() && r is Ok
    }
}

/// `m1` and `r` are what making the quads `qs` one after the other from
/// `m0` gives.
pub open spec fn bridged(m0: MeshView, m1: MeshView, qs: Seq<Seq<VertexId>>, r: Result<(), EditError>) -> bool {
    exists|ms: Seq<MeshView>, rs: Seq<Result<(), EditError>>| #[trigger] bridge_steps(m0, m1, ms, rs, qs, r)
}

/// The half-edge `first_to` picks is one of those it looks at.
proof fn lemma_first_to_in(m: MeshView, s: Seq<HalfEdgeId>, w: VertexId)
    ensures
        first_to(m, s, w) matches Some(h) ==> s.contains(h),
    decreases s.len(),
{
    if s.len() > 0 && first_to(m, s, w) != Some(s[0]) {
        lemma_first_to_in(m, s.drop_first(), w);
        if let Some(h) = first_to(m, s.drop_first(), w) {
            let i = choose|i: int| 0 <= i < s.drop_first().len() && s.drop_first()[i] == h;
            assert(s[i + 1] == h);
        }
    }
}

/// Whether the edge from `v` to `w` can be a side of a bridge.
fn window_check(conn: &MeshConnectivity, v: VertexId, w: VertexId) -> (r: Option<EditError>)
    requires
        conn.well_formed(),
        conn@.links_valid(),
        conn@.has_vertex(v),
    ensures
        r == window_error(conn@, v, w),
{
    let ghost m = conn@;
    proof {
        assert(m.opt_halfedge_ok(m.vertices[v.0].halfedge));
    }
    match conn.vertex(v).halfedge {
        Some(h) => {
            let lim = conn.num_halfedges();
            if !conn.walk_closes_within(WalkKind::Fan, h, lim) {
                return Some(EditError::OpenLoop);
            }
        },
        None => {},
    }
    let tv = conn.at_vertex(v);
    let out = match tv.outgoing_halfedges() {
        Ok(o) => o,
        Err(e) => {
            return Some(EditError::Traversal(e));
        },
    };
    let th = tv.halfedge_to(w);
    proof {
        lemma_first_to_in(m, out@, w);
    }
    match th.is_boundary() {
        Err(e) => Some(EditError::Traversal(e)),
        Ok(true) => None,
        Ok(false) => Some(EditError::BridgeNotBoundary),
    }
}

/// The first error among the edges of the chain `c`.
fn windows_check(conn: &MeshConnectivity, c: &[VertexId]) -> (r: Option<EditError>)
    requires
        conn.well_formed(),
        conn@.links_valid(),
        c@.len() >= 1,
        forall|i: int| 0 <= i < c@.len() ==> conn@.has_vertex(#[trigger] c@[i]),
    ensures
        r == windows_error(conn@, c@, c@.len() - 1),
{
    let ghost m = conn@;
    let mut k: usize = 0;
    while k < c.len() - 1
        invariant
            m == conn@,
            conn.well_formed(),
            m.links_valid(),
            c@.len() >= 1,
            k + 1 <= c@.len(),
            forall|i: int| 0 <= i < c@.len() ==> m.has_vertex(#[trigger] c@[i]),
            windows_error(m, c@, k as int) is None,
        decreases c@.len() - k,
    {
        match window_check(conn, c[k], c[k + 1]) {
            Some(e) => {
                proof {
                    lemma_windows_error_sticks(m, c@, k as int + 1, c@.len() - 1);
                }
                return Some(e);
            },
            None => {},
        }
        k += 1;
    }
    None
}

/// Once an edge of a chain fails, the chain fails with its error.
proof fn lemma_windows_error_sticks(m: MeshView, c: Seq<VertexId>, k: int, n: int)
    requires
        1 <= k <= n,
        windows_error(m, c, k) is Some,
    ensures
        windows_error(m, c, n) == windows_error(m, c, k),
    decreases n - k,
{
    if n > k {
        lemma_windows_error_sticks(m, c, k, n - 1);
    }
}

/// Whether a vertex of `c1` is also in `c2`.
fn chains_share_check(c1: &[VertexId], c2: &[VertexId]) -> (r: bool)
    ensures
        r == chains_share(c1@, c2@),
{
    let mut i: usize = 0;
    while i < c1.len()
        invariant
            i <= c1@.len(),
            forall|t: int| 0 <= t < i ==> !c2@.contains(#[trigger] c1@[t]),
        decreases c1@.len() - i,
    {
        let mut j: usize = 0;
        while j < c2.len()
            invariant
                i < c1@.len(),
                j <= c2@.len(),
                forall|u: int| 0 <= u < j ==> c2@[u] != c1@[i as int],
            decreases c2@.len() - j,
        {
            if c2[j].0 == c1[i].0 {
                proof {
                    assert(c2@[j as int] == c1@[i as int]);
                    assert(c2@.contains(c1@[i as int]));
                }
                return true;
            }
            j += 1;
        }
        i += 1;
    }
    false
}

/// Connects two chains of boundary edges, of the same length, with a strip
/// of quads: the first chain, with each vertex moved `chain_1_shift` places
/// forward when the chains are closed, is paired vertex by vertex with the
/// second chain counted from its end. Fails before any edit when the chains differ in length, are
/// empty, have a side that is not a boundary edge, or share a vertex; a
/// quad that fails stops the bridge there.
pub fn bridge_chains(
    mesh: &mut HalfEdgeMesh,
    chain_1: &[VertexId],
    chain_2: &[VertexId],
    is_closed: bool,
    chain_1_shift: usize,
) -> (r: Result<(), EditError>)
    requires
        old(mesh).well_formed(),
        old(mesh).connectivity@.links_valid(),
        forall|i: int| 0 <= i < chain_1@.len() ==> old(mesh).connectivity@.has_vertex(#[trigger] chain_1@[i]),
        forall|i: int| 0 <= i < chain_2@.len() ==> old(mesh).connectivity@.has_vertex(#[trigger] chain_2@[i]),
    ensures
        final(mesh).well_formed(),
        final(mesh).connectivity@.links_valid(),
        final(mesh).positions == old(mesh).positions,
        final(mesh).vertex_groups == old(mesh).vertex_groups,
        final(mesh).face_groups == old(mesh).face_groups,
        final(mesh).halfedge_groups == old(mesh).halfedge_groups,
        final(mesh).vertex_vectors == old(mesh).vertex_vectors,
        match bridge_precheck(old(mesh).connectivity@, chain_1@, chain_2@) {
            Some(e) => r == Err::<(), EditError>(e) && final(mesh).connectivity@ == old(mesh).connectivity@,
            None => bridged(
                old(mesh).connectivity@,
                final(mesh).connectivity@,
                bridge_quads(chain_1@, chain_2@, is_closed, chain_1_shift as int),
                r,
            ),
        },
{
    let ghost m0 = mesh.connectivity@;
    if chain_1.len() != chain_2.len() {
        return Err(EditError::BridgeLengths);
    }
    if chain_1.len() == 0 {
        return Err(EditError::BridgeEmpty);
    }
    match windows_check(&mesh.connectivity, chain_1) {
        Some(e) => {
            return Err(e);
        },
        None => {},
    }
    match windows_check(&mesh.connectivity, chain_2) {
        Some(e) => {
            return Err(e);
        },
        None => {},
    }
    if chains_share_check(chain_1, chain_2) {
        return Err(EditError::BridgeSameLoop);
    }
    let n = chain_1.len();
    let shift = if is_closed {
        chain_1_shift
    } else {
        0
    };
    let rot = rotate_iter(chain_1, shift, n);
    let mut rev: Vec<VertexId> = Vec::new();
    let mut t: usize = n;
    while t > 0
        invariant
            t <= n,
            n == chain_2@.len(),
            rev@.len() == n - t,
            forall|u: int| 0 <= u < rev@.len() ==> rev@[u] == chain_2@[n - 1 - u],
        decreases t,
    {
        t -= 1;
        rev.push(chain_2[t]);
    }
    let ghost qs = bridge_quads(chain_1@, chain_2@, is_closed, chain_1_shift as int);
    proof {
        assert(rev@ =~= chain_2@.reverse());
    }
    let k: usize = if is_closed {
        n
    } else {
        n - 1
    };
    let ghost mut ms: Seq<MeshView> = seq![m0];
    let ghost mut rs: Seq<Result<(), EditError>> = Seq::empty();
    let mut i: usize = 0;
    while i < k
        invariant
            mesh.well_formed(),
            mesh.connectivity@.links_valid(),
            mesh.connectivity@.vertices.dom() == m0.vertices.dom(),
            mesh.positions == old(mesh).positions,
            mesh.vertex_groups == old(mesh).vertex_groups,
            mesh.face_groups == old(mesh).face_groups,
            mesh.halfedge_groups == old(mesh).halfedge_groups,
            mesh.vertex_vectors == old(mesh).vertex_vectors,
            m0 == old(mesh).connectivity@,
            bridge_precheck(m0, chain_1@, chain_2@) is None,
            n == chain_1@.len(),
            n == chain_2@.len(),
            n >= 1,
            k == qs.len(),
            k <= n,
            qs == bridge_quads(chain_1@, chain_2@, is_closed, chain_1_shift as int),
            rot@ == rotated(chain_1@, shift as int, n as int),
            shift == (if is_closed { chain_1_shift } else { 0 }),
            rev@ == chain_2@.reverse(),
            forall|u: int| 0 <= u < n ==> m0.has_vertex(#[trigger] chain_1@[u]),
            forall|u: int| 0 <= u < n ==> m0.has_vertex(#[trigger] chain_2@[u]),
            i <= k,
            ms.len() == i + 1,
            rs.len() == i,
            ms[0] == m0,
            ms.last() == mesh.connectivity@,
            forall|u: int| 0 <= u < i ==> #[trigger] quad_step(ms[u], qs[u], rs[u], ms[u + 1]),
            forall|u: int| 0 <= u < i ==> (#[trigger] rs[u]) is Ok,
        decreases k - i,
    {
        let j = (i + 1) % n;
        let quad = [rot[i], rot[j], rev[j], rev[i]];
        let ghost before = mesh.connectivity@;
        proof {
            assert(rot@.len() == n);
            assert(quad@ =~= qs[i as int]);
            assert forall|u: int| 0 <= u < 4 implies before.has_vertex(#[trigger] quad@[u]) by {
                if u == 0 || u == 1 {
                    let x = if u == 0 { i as int } else { j as int };
                    assert(rot@[x] == chain_1@[(x - shift) % (n as int)]);
                    assert(m0.has_vertex(chain_1@[(x - shift) % (n as int)]));
                } else {
                    let x = if u == 3 { i as int } else { j as int };
                    assert(rev@[x] == chain_2@[n - 1 - x]);
                    assert(m0.has_vertex(chain_2@[n - 1 - x]));
                }
            }
        }
        let nf = mesh.connectivity.num_faces();
        let nh = mesh.connectivity.num_halfedges();
        if !(nf < 4294967293 && nh < 4294967285) {
            proof {
                rs = rs.push(Err(EditError::CapacityExceeded));
                ms = ms.push(before);
                assert(bridge_steps(m0, mesh.connectivity@, ms, rs, qs, Err(EditError::CapacityExceeded)));
            }
            return Err(EditError::CapacityExceeded);
        }
        if !check_quad_walks(&mesh.connectivity, &quad) {
            proof {
                rs = rs.push(Err(EditError::OpenLoop));
                ms = ms.push(before);
                assert(bridge_steps(m0, mesh.connectivity@, ms, rs, qs, Err(EditError::OpenLoop)));
            }
            return Err(EditError::OpenLoop);
        }
        let res = make_quad(&mut mesh.connectivity, &quad);
        proof {
            rs = rs.push(res);
            ms = ms.push(mesh.connectivity@);
            assert(quad_step(ms[i as int], qs[i as int], rs[i as int], ms[i + 1]));
        }
        match res {
            Err(e) => {
                proof {
                    assert(bridge_steps(m0, mesh.connectivity@, ms, rs, qs, Err(e)));
                }
                return Err(e);
            },
            Ok(()) => {},
        }
        i += 1;
    }
    proof {
        assert(bridge_steps(m0, mesh.connectivity@, ms, rs, qs, Ok(())));
    }
    Ok(())
}

} // verus!
