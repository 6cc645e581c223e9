//! Lines: a chain of edges through given points, with a normal and a
//! tangent stored for each vertex.
use vstd::prelude::*;

use crate::edit_ops::curve::{polyline_elements, polyline_links};
use crate::halfedge::{Face, HalfEdge, HalfEdgeId, MeshView, Vertex, VertexId};
use crate::mesh::{HalfEdgeMesh, VectorChannel};
use crate::positions::Positions;
use crate::primitives::BuildError;
use glam::Vec3;

verus! {

/// A line through points given by position, normal and tangent.
pub struct Line;

/// The vectors of `p` at the vertices `vs` are `vals`, and `p` stores a
/// vector for the vertices of `c` and no other key.
pub open spec fn vectors_at(p: Positions, vs: Seq<VertexId>, vals: Seq<Vec3>, c: MeshView) -> bool {
    &&& forall|i: int| 0 <= i < vs.len() ==> p.values()[(#[trigger] vs[i]).0] == vals[i]
    &&& forall|k: u64| #[trigger] p.values().dom().contains(k) <==> c.vertices.dom().contains(k)
}

/// Each vertex of a line holds its forward half-edge; the last vertex holds
/// its backward one.
pub open spec fn line_vertex_links(vm: Map<u64, Vertex>, vs: Seq<VertexId>, f: Seq<HalfEdgeId>, b: Seq<HalfEdgeId>) -> bool {
    &&& forall|i: int| 0 <= i < f.len() ==> vm[(#[trigger] vs[i]).0] == Vertex { halfedge: Some(f[i]) }
    &&& vm[vs[f.len() as int].0] == Vertex { halfedge: Some(b[f.len() - 1]) }
}

/// `m` is the line through `pts` on the vertices `vs`, forward half-edges
/// `f` and backward half-edges `b`, with the channels `tangent` and
/// `normal`, in that order, holding `tng` and `nrm`.
pub open spec fn line_at(
    m: HalfEdgeMesh,
    pts: Seq<Vec3>,
    nrm: Seq<Vec3>,
    tng: Seq<Vec3>,
    vs: Seq<VertexId>,
    f: Seq<HalfEdgeId>,
    b: Seq<HalfEdgeId>,
) -> bool {
    let c = m.connectivity@;
    &&& vs.len() == pts.len()
    &&& polyline_links(c.halfedges, vs, f, b)
    &&& polyline_elements(c, vs, f, b)
    &&& line_vertex_links(c.vertices, vs, f, b)
    &&& vectors_at(m.positions, vs, pts, c)
    &&& m.vertex_vectors@.len() == 2
    &&& m.vertex_vectors@[0].name@ == "tangent"@
    &&& vectors_at(m.vertex_vectors@[0].values, vs, tng, c)
    &&& m.vertex_vectors@[1].name@ == "normal"@
    &&& vectors_at(m.vertex_vectors@[1].values, vs, nrm, c)
}

/// `m` holds the single vertex `v` at `p`, and nothing else.
pub open spec fn single_vertex_at(m: HalfEdgeMesh, v: VertexId, p: Vec3) -> bool {
    &&& m.connectivity@.vertices == Map::<u64, Vertex>::empty().insert(v.0, Vertex { halfedge: None })
    &&& m.connectivity@.halfedges == Map::<u64, HalfEdge>::empty()
    &&& m.connectivity@.faces == Map::<u64, Face>::empty()
    &&& m.positions.values() == Map::<u64, Vec3>::empty().insert(v.0, p)
    &&& m.vertex_vectors@.len() == 0
}

/// The forward half-edge `f[t]` of a line.
pub open spec fn forward_he(vs: Seq<VertexId>, f: Seq<HalfEdgeId>, b: Seq<HalfEdgeId>, t: int) -> HalfEdge {
    HalfEdge {
        twin: Some(b[t]),
        next: Some(if t + 1 < f.len() { f[t + 1] } else { b[t] }),
        vertex: Some(vs[t]),
        face: None,
    }
}

/// The backward half-edge `b[t]` of a line.
pub open spec fn backward_he(vs: Seq<VertexId>, f: Seq<HalfEdgeId>, b: Seq<HalfEdgeId>, t: int) -> HalfEdge {
    HalfEdge {
        twin: Some(f[t]),
        next: Some(if t > 0 { b[t - 1] } else { f[0] }),
        vertex: Some(vs[t + 1]),
        face: None,
    }
}

/// The state after the vertices are placed: one vertex per point, with no
/// half-edge, its position and vectors stored, and nothing else.
pub open spec fn vertices_placed(
    m: HalfEdgeMesh,
    tang: Positions,
    norm: Positions,
    pts: Seq<Vec3>,
    nrm: Seq<Vec3>,
    tng: Seq<Vec3>,
    vs: Seq<VertexId>,
) -> bool {
    let c = m.connectivity@;
    &&& forall|i: int, j: int| 0 <= i < j < vs.len() ==> #[trigger] vs[i] != #[trigger] vs[j]
    &&& forall|k: u64| #[trigger] c.vertices.dom().contains(k) <==> exists|i: int| 0 <= i < vs.len() && vs[i].0 == k
    &&& forall|i: int| 0 <= i < vs.len() ==> c.vertices.dom().contains((#[trigger] vs[i]).0)
    &&& forall|i: int| 0 <= i < vs.len() ==> c.vertices[(#[trigger] vs[i]).0] == Vertex { halfedge: None }
    &&& vectors_at(m.positions, vs, pts, c)
    &&& vectors_at(tang, vs, tng, c)
    &&& vectors_at(norm, vs, nrm, c)
}

/// Storing `x` for a new vertex `v` extends the vectors at `vs` by `x`.
proof fn lemma_vectors_grow(
    p0: Positions,
    p1: Positions,
    vs: Seq<VertexId>,
    v: VertexId,
    vals: Seq<Vec3>,
    x: Vec3,
    c0: MeshView,
    c1: MeshView,
)
    requires
        vs.len() == vals.len(),
        vectors_at(p0, vs, vals, c0),
        p1.values() == p0.values().insert(v.0, x),
        c1.vertices.dom() == c0.vertices.dom().insert(v.0),
        forall|t: int| 0 <= t < vs.len() ==> (#[trigger] vs[t]) != v,
    ensures
        vectors_at(p1, vs.push(v), vals.push(x), c1),
{
    let vs2 = vs.push(v);
    assert forall|t: int| 0 <= t < vs2.len() implies p1.values()[(#[trigger] vs2[t]).0] == vals.push(x)[t] by {
        if t < vs.len() {
            assert(vs2[t] == vs[t]);
            assert(vs[t].0 != v.0);
        }
    }
}

/// The half-edge with no pointer set.
pub open spec fn unlinked() -> HalfEdge {
    HalfEdge { twin: None, next: None, vertex: None, face: None }
}

/// The half-edges `hs` are exactly the distinct `f` and `b`, none linked.
pub open spec fn unlinked_pairs(hs: Map<u64, HalfEdge>, f: Seq<HalfEdgeId>, b: Seq<HalfEdgeId>) -> bool {
    &&& f.len() == b.len()
    &&& forall|i: int, j: int| 0 <= i < j < f.len() ==> #[trigger] f[i] != #[trigger] f[j]
    &&& forall|i: int, j: int| 0 <= i < j < b.len() ==> #[trigger] b[i] != #[trigger] b[j]
    &&& forall|i: int, j: int| 0 <= i < f.len() && 0 <= j < b.len() ==> #[trigger] f[i] != #[trigger] b[j]
    &&& forall|i: int| 0 <= i < f.len() ==> hs.dom().contains((#[trigger] f[i]).0) && hs[f[i].0] == unlinked()
    &&& forall|i: int| 0 <= i < b.len() ==> hs.dom().contains((#[trigger] b[i]).0) && hs[b[i].0] == unlinked()
    &&& forall|k: u64| #[trigger] hs.dom().contains(k) <==> exists|i: int| 0 <= i < f.len() && (f[i].0 == k || b[i].0 == k)
}

/// Two more unlinked half-edges extend the pairs.
proof fn lemma_unlinked_grow(h0: Map<u64, HalfEdge>, h1: Map<u64, HalfEdge>, f: Seq<HalfEdgeId>, b: Seq<HalfEdgeId>, x: HalfEdgeId, y: HalfEdgeId)
    requires
        unlinked_pairs(h0, f, b),
        !h0.dom().contains(x.0),
        !h0.insert(x.0, unlinked()).dom().contains(y.0),
        h1 == h0.insert(x.0, unlinked()).insert(y.0, unlinked()),
    ensures
        unlinked_pairs(h1, f.push(x), b.push(y)),
{
    let f2 = f.push(x);
    let b2 = b.push(y);
    assert forall|i: int| 0 <= i < f.len() implies h0.dom().contains((#[trigger] f[i]).0) && f[i] != x && f[i] != y by {}
    assert forall|i: int| 0 <= i < b.len() implies h0.dom().contains((#[trigger] b[i]).0) && b[i] != x && b[i] != y by {}
    assert forall|i: int, j: int| 0 <= i < j < f2.len() implies #[trigger] f2[i] != #[trigger] f2[j] by {
        assert(f2[i] == f[i]);
        if j < f.len() {
            assert(f2[j] == f[j]);
        }
    }
    assert forall|i: int, j: int| 0 <= i < j < b2.len() implies #[trigger] b2[i] != #[trigger] b2[j] by {
        assert(b2[i] == b[i]);
        if j < b.len() {
            assert(b2[j] == b[j]);
        }
    }
    assert forall|i: int, j: int| 0 <= i < f2.len() && 0 <= j < b2.len() implies #[trigger] f2[i] != #[trigger] b2[j] by {
        if i < f.len() {
            assert(f2[i] == f[i]);
        }
        if j < b.len() {
            assert(b2[j] == b[j]);
        }
    }
    assert forall|i: int| 0 <= i < f2.len() implies h1.dom().contains((#[trigger] f2[i]).0) && h1[f2[i].0] == unlinked() by {
        if i < f.len() {
            assert(f2[i] == f[i]);
        }
    }
    assert forall|i: int| 0 <= i < b2.len() implies h1.dom().contains((#[trigger] b2[i]).0) && h1[b2[i].0] == unlinked() by {
        if i < b.len() {
            assert(b2[i] == b[i]);
        }
    }
    assert forall|k: u64| #[trigger] h1.dom().contains(k) <==> exists|i: int| 0 <= i < f2.len() && (f2[i].0 == k || b2[i].0 == k) by {
        if h1.dom().contains(k) {
            if k == x.0 {
                assert(f2[f.len() as int].0 == k);
            } else if k == y.0 {
                assert(b2[b.len() as int].0 == k);
            } else {
                assert(h0.dom().contains(k));
                let i = choose|i: int| 0 <= i < f.len() && (f[i].0 == k || b[i].0 == k);
                assert(f2[i] == f[i] && b2[i] == b[i]);
            }
        }
        if exists|i: int| 0 <= i < f2.len() && (f2[i].0 == k || b2[i].0 == k) {
            let i = choose|i: int| 0 <= i < f2.len() && (f2[i].0 == k || b2[i].0 == k);
            if i < f.len() {
                assert(f2[i] == f[i] && b2[i] == b[i]);
            }
        }
    }
}

impl Line {
    /// The line through `points`, whose vertex `i` has the normal
    /// `normals[i]` and the tangent `tangents[i]`. With a single point, a
    /// mesh of one vertex and no channels.
    #[verifier::spinoff_prover]
    #[verifier::rlimit(80)]
    pub fn build_with_normals(points: &[Vec3], normals: &[Vec3], tangents: &[Vec3]) -> (r: Result<HalfEdgeMesh, BuildError>)
        requires
            1 <= points@.len() < 0x1000_0000,
            normals@.len() == points@.len(),
            tangents@.len() == points@.len(),
        ensures
            r matches Ok(m) && m.well_formed() && m.connectivity@.links_valid(),
            points@.len() == 1 ==> (r matches Ok(m) && exists|v: VertexId| #[trigger] single_vertex_at(m, v, points@[0])),
            points@.len() >= 2 ==> (r matches Ok(m) && exists|vs: Seq<VertexId>, f: Seq<HalfEdgeId>, b: Seq<HalfEdgeId>|
                #[trigger] line_at(m, points@, normals@, tangents@, vs, f, b)),
    {
        let mut mesh = HalfEdgeMesh::new();
        if points.len() == 1 {
            let v = mesh.alloc_vertex_at(points[0]);
            proof {
                assert(mesh.connectivity@.vertices =~= Map::<u64, Vertex>::empty().insert(v.0, Vertex { halfedge: None }));
                assert(mesh.positions.values() =~= Map::<u64, Vec3>::empty().insert(v.0, points@[0]));
                assert(single_vertex_at(mesh, v, points@[0]));
            }
            return Ok(mesh);
        }
        let mut tang = Positions::new();
        let mut norm = Positions::new();
        let mut verts: Vec<VertexId> = Vec::new();
        let mut i: usize = 0;
        proof {
            assert(mesh.connectivity@.vertices.dom() =~= Set::<u64>::empty());
        }
        while i < points.len()
            invariant
                i <= points@.len(),
                points@.len() < 0x1000_0000,
                normals@.len() == points@.len(),
                tangents@.len() == points@.len(),
                mesh.well_formed(),
                mesh.connectivity@.links_valid(),
                verts@.len() == i,
                mesh.connectivity@.vertices.dom().len() == i,
                mesh.vertex_vectors@.len() == 0,
                vertices_placed(mesh, tang, norm, points@.take(i as int), normals@.take(i as int), tangents@.take(i as int), verts@),
                mesh.connectivity@.halfedges == Map::<u64, HalfEdge>::empty(),
                mesh.connectivity@.faces == Map::<u64, Face>::empty(),
            decreases points@.len() - i,
        {
            let ghost before = mesh;
            let ghost c0 = mesh.connectivity@;
            let ghost tang0 = tang;
            let ghost norm0 = norm;
            let ghost vs0 = verts@;
            let v = mesh.alloc_vertex_at(points[i]);
            proof {
                assert forall|j: u64| crate::halfedge::key_slot(j) == crate::halfedge::key_slot(v.0) && j != v.0
                    implies !tang.values().dom().contains(j) && !norm.values().dom().contains(j) by {
                    if tang.values().dom().contains(j) || norm.values().dom().contains(j) {
                        assert(c0.vertices.dom().contains(j));
                    }
                }
            }
            tang.set(v.0, tangents[i]);
            norm.set(v.0, normals[i]);
            verts.push(v);
            proof {
                let c = mesh.connectivity@;
                let vs = verts@;
                assert(vs.drop_last() =~= vs0);
                assert forall|t: int| 0 <= t < vs0.len() implies c0.vertices.dom().contains((#[trigger] vs0[t]).0) && vs0[t] != v by {
                    assert(c0.vertices.dom().contains(vs0[t].0));
                }
                assert forall|x: int, y: int| 0 <= x < y < vs.len() implies #[trigger] vs[x] != #[trigger] vs[y] by {
                    if y < vs0.len() {
                        assert(vs0[x] != vs0[y]);
                    } else {
                        assert(vs[x] == vs0[x]);
                    }
                }
                assert forall|k: u64| #[trigger] c.vertices.dom().contains(k) <==> exists|t: int| 0 <= t < vs.len() && vs[t].0 == k by {
                    if c.vertices.dom().contains(k) && k != v.0 {
                        assert(c0.vertices.dom().contains(k));
                        let t = choose|t: int| 0 <= t < vs0.len() && vs0[t].0 == k;
                        assert(vs[t].0 == k);
                    }
                    if k == v.0 {
                        assert(vs[vs.len() - 1].0 == k);
                    }
                    if exists|t: int| 0 <= t < vs.len() && vs[t].0 == k {
                        let t = choose|t: int| 0 <= t < vs.len() && vs[t].0 == k;
                        if t < vs0.len() {
                            assert(vs0[t].0 == k);
                        }
                    }
                }
                assert forall|t: int| 0 <= t < vs.len() implies c.vertices[(#[trigger] vs[t]).0] == Vertex { halfedge: None } by {
                    if t < vs0.len() {
                        assert(vs0[t] == vs[t]);
                    }
                }
                assert(c.vertices.dom() =~= c0.vertices.dom().insert(v.0));
                lemma_vectors_grow(before.positions, mesh.positions, vs0, v, points@.take(i as int), points@[i as int], c0, c);
                assert(points@.take(i as int).push(points@[i as int]) =~= points@.take(i + 1));
                lemma_vectors_grow(tang0, tang, vs0, v, tangents@.take(i as int), tangents@[i as int], c0, c);
                assert(tangents@.take(i as int).push(tangents@[i as int]) =~= tangents@.take(i + 1));
                lemma_vectors_grow(norm0, norm, vs0, v, normals@.take(i as int), normals@[i as int], c0, c);
                assert(normals@.take(i as int).push(normals@[i as int]) =~= normals@.take(i + 1));
                assert(vs == vs0.push(v));
            }
            i += 1;
        }
        proof {
            assert(points@.take(points@.len() as int) =~= points@);
            assert(normals@.take(points@.len() as int) =~= normals@);
            assert(tangents@.take(points@.len() as int) =~= tangents@);
        }
        let n = points.len() - 1;
        let ghost vs = verts@;
        let ghost vmap = mesh.connectivity@.vertices;
        let ghost pos = mesh.positions;
        let mut fwd: Vec<HalfEdgeId> = Vec::new();
        let mut bwd: Vec<HalfEdgeId> = Vec::new();
        let mut t: usize = 0;
        proof {
            assert(mesh.connectivity@.halfedges.dom() =~= Set::<u64>::empty());
        }
        while t < n
            invariant
                n == points@.len() - 1,
                points@.len() < 0x1000_0000,
                t <= n,
                mesh.well_formed(),
                mesh.connectivity@.links_valid(),
                mesh.vertex_vectors@.len() == 0,
                verts@ == vs,
                vs.len() == n + 1,
                mesh.connectivity@.vertices == vmap,
                mesh.connectivity@.faces == Map::<u64, Face>::empty(),
                mesh.positions == pos,
                vertices_placed(mesh, tang, norm, points@, normals@, tangents@, vs),
                fwd@.len() == t,
                bwd@.len() == t,
                unlinked_pairs(mesh.connectivity@.halfedges, fwd@, bwd@),
                mesh.connectivity@.halfedges.dom().len() == 2 * t,
            decreases n - t,
        {
            let ghost h0 = mesh.connectivity@.halfedges;
            let ghost f0 = fwd@;
            let ghost b0 = bwd@;
            let a = mesh.connectivity.alloc_halfedge(HalfEdge::new_unlinked());
            let b = mesh.connectivity.alloc_halfedge(HalfEdge::new_unlinked());
            fwd.push(a);
            bwd.push(b);
            proof {
                lemma_unlinked_grow(h0, mesh.connectivity@.halfedges, f0, b0, a, b);
                assert(mesh.connectivity@.halfedges.dom() =~= h0.dom().insert(a.0).insert(b.0));
            }
            t += 1;
        }
        let ghost f = fwd@;
        let ghost b = bwd@;
        let ghost h2 = mesh.connectivity@.halfedges;
        let mut t: usize = 0;
        while t < n
            invariant
                n == points@.len() - 1,
                n >= 1,
                t <= n,
                mesh.well_formed(),
                mesh.connectivity@.links_valid(),
                mesh.vertex_vectors@.len() == 0,
                verts@ == vs,
                fwd@ == f,
                bwd@ == b,
                vs.len() == n + 1,
                f.len() == n,
                mesh.connectivity@.vertices.dom() == vmap.dom(),
                mesh.connectivity@.faces == Map::<u64, Face>::empty(),
                mesh.connectivity@.halfedges.dom() == h2.dom(),
                mesh.positions == pos,
                vectors_at(pos, vs, points@, mesh.connectivity@),
                vectors_at(tang, vs, tangents@, mesh.connectivity@),
                vectors_at(norm, vs, normals@, mesh.connectivity@),
                forall|i: int| 0 <= i < vs.len() ==> vmap.dom().contains((#[trigger] vs[i]).0),
                forall|i: int, j: int| 0 <= i < j < vs.len() ==> #[trigger] vs[i] != #[trigger] vs[j],
                unlinked_pairs(h2, f, b),
                forall|s: int| #![trigger mesh.connectivity@.halfedges[f[s].0]] 0 <= s < t ==> mesh.connectivity@.halfedges[f[s].0] == forward_he(vs, f, b, s),
                forall|s: int| #![trigger mesh.connectivity@.halfedges[b[s].0]] 0 <= s < t ==> mesh.connectivity@.halfedges[b[s].0] == backward_he(vs, f, b, s),
                forall|s: int| #![trigger mesh.connectivity@.halfedges[f[s].0]] t <= s < n ==> mesh.connectivity@.halfedges[f[s].0] == unlinked(),
                forall|s: int| #![trigger mesh.connectivity@.halfedges[b[s].0]] t <= s < n ==> mesh.connectivity@.halfedges[b[s].0] == unlinked(),
                forall|s: int| 0 <= s < t ==> mesh.connectivity@.vertices[(#[trigger] vs[s]).0] == (Vertex { halfedge: Some(f[s]) }),
                forall|s: int| t <= s <= n ==> mesh.connectivity@.vertices[(#[trigger] vs[s]).0] == (Vertex { halfedge: None }),
            decreases n - t,
        {
            let ghost c0 = mesh.connectivity@;
            let nx = if t + 1 < n { fwd[t + 1] } else { bwd[t] };
            let pb = if t > 0 { bwd[t - 1] } else { fwd[0] };
            assert(c0.halfedges[f[t as int].0] == unlinked());
            assert(c0.halfedges[b[t as int].0] == unlinked());
            mesh.connectivity.set_halfedge(fwd[t], HalfEdge { twin: Some(bwd[t]), next: Some(nx), vertex: Some(verts[t]), face: None });
            mesh.connectivity.set_halfedge(bwd[t], HalfEdge { twin: Some(fwd[t]), next: Some(pb), vertex: Some(verts[t + 1]), face: None });
            mesh.connectivity.set_vertex(verts[t], Vertex { halfedge: Some(fwd[t]) });
            proof {
                let c = mesh.connectivity@;
                let ti = t as int;
                assert(c.halfedges == c0.halfedges.insert(f[ti].0, forward_he(vs, f, b, ti)).insert(b[ti].0, backward_he(vs, f, b, ti)));
                assert forall|s: int| #![trigger c.halfedges[f[s].0]] 0 <= s < n && s != ti implies c.halfedges[f[s].0] == c0.halfedges[f[s].0] by {
                    assert(f[s] != f[ti]);
                    assert(f[s] != b[ti]);
                }
                assert forall|s: int| #![trigger c.halfedges[b[s].0]] 0 <= s < n && s != ti implies c.halfedges[b[s].0] == c0.halfedges[b[s].0] by {
                    assert(b[s] != f[ti]);
                    assert(b[s] != b[ti]);
                }
                assert forall|s: int| 0 <= s <= n && s != ti implies c.vertices[(#[trigger] vs[s]).0] == c0.vertices[vs[s].0] by {
                    assert(vs[s] != vs[ti]);
                }
                assert(c.halfedges.dom() =~= h2.dom());
                assert(c.vertices.dom() =~= vmap.dom());
            }
            t += 1;
        }
        proof {
            assert(mesh.connectivity@.vertices[vs[n as int].0] == Vertex { halfedge: None });
        }
        mesh.connectivity.set_vertex(verts[n], Vertex { halfedge: Some(bwd[n - 1]) });
        mesh.vertex_vectors.push(VectorChannel { name: String::from_str("tangent"), values: tang });
        mesh.vertex_vectors.push(VectorChannel { name: String::from_str("normal"), values: norm });
        proof {
            let c = mesh.connectivity@;
            assert forall|s: int| 0 <= s < n implies c.vertices[(#[trigger] vs[s]).0] == Vertex { halfedge: Some(f[s]) } by {
                assert(vs[s] != vs[n as int]);
            }
            assert(line_vertex_links(c.vertices, vs, f, b));
            assert forall|s: int| #![trigger c.halfedges[f[s].0]] 0 <= s < n implies c.halfedges.dom().contains(f[s].0) && c.halfedges[f[s].0] == HalfEdge {
                twin: Some(b[s]),
                next: Some(if s + 1 < n { f[s + 1] } else { b[s] }),
                vertex: Some(vs[s]),
                face: None,
            } by {
                assert(h2.dom().contains(f[s].0));
                assert(c.halfedges[f[s].0] == forward_he(vs, f, b, s));
            }
            assert forall|s: int| #![trigger c.halfedges[b[s].0]] 0 <= s < n implies c.halfedges.dom().contains(b[s].0) && c.halfedges[b[s].0] == HalfEdge {
                twin: Some(f[s]),
                next: Some(if s > 0 { b[s - 1] } else { f[0] }),
                vertex: Some(vs[s + 1]),
                face: None,
            } by {
                assert(h2.dom().contains(b[s].0));
                assert(c.halfedges[b[s].0] == backward_he(vs, f, b, s));
            }
            assert(polyline_links(c.halfedges, vs, f, b));
            assert forall|k: u64| #[trigger] c.vertices.dom().contains(k) <==> exists|i: int| 0 <= i < vs.len() && vs[i].0 == k by {
                assert(c.vertices.dom().contains(k) <==> vmap.dom().contains(k));
            }
            assert forall|k: u64| #[trigger] c.halfedges.dom().contains(k) <==> exists|i: int| 0 <= i < f.len() && (f[i].0 == k || b[i].0 == k) by {
                assert(c.halfedges.dom().contains(k) <==> h2.dom().contains(k));
            }
            assert(polyline_elements(c, vs, f, b));
            assert(vectors_at(mesh.positions, vs, points@, c));
            assert(vectors_at(mesh.vertex_vectors@[0].values, vs, tangents@, c));
            assert(vectors_at(mesh.vertex_vectors@[1].values, vs, normals@, c));
            assert(line_at(mesh, points@, normals@, tangents@, vs, f, b));
        }
        Ok(mesh)
    }
}

} // verus!
