//! Grids: disconnected vertices at given points.
use vstd::prelude::*;

use crate::halfedge::{Face, HalfEdge, Vertex, VertexId};
use crate::mesh::HalfEdgeMesh;
use crate::primitives::line::vectors_at;
use glam::Vec3;

verus! {

/// A grid of disconnected vertices.
pub struct Grid;

/// `m` holds one vertex per point, the distinct `vs`, each with no half-edge
/// and at its point, and nothing else.
pub open spec fn points_placed(m: HalfEdgeMesh, pts: Seq<Vec3>, vs: Seq<VertexId>) -> bool {
    let c = m.connectivity@;
    &&& vs.len() == pts.len()
    &&& forall|i: int, j: int| 0 <= i < j < vs.len() ==> #[trigger] vs[i] != #[trigger] vs[j]
    &&& forall|k: u64| #[trigger] c.vertices.dom().contains(k) <==> exists|i: int| 0 <= i < vs.len() && vs[i].0 == k
    &&& forall|i: int| 0 <= i < vs.len() ==> c.vertices.dom().contains((#[trigger] vs[i]).0)
    &&& forall|i: int| 0 <= i < vs.len() ==> c.vertices[(#[trigger] vs[i]).0] == Vertex { halfedge: None }
    &&& vectors_at(m.positions, vs, pts, c)
    &&& c.halfedges == Map::<u64, HalfEdge>::empty()
    &&& c.faces == Map::<u64, Face>::empty()
    &&& m.vertex_vectors@.len() == 0
}

impl Grid {
    /// A mesh with a disconnected vertex at each of `points`, in order.
    pub fn build(points: &[Vec3]) -> (r: HalfEdgeMesh)
        requires
            points@.len() < 0x1000_0000,
        ensures
            r.well_formed(),
            r.connectivity@.links_valid(),
            exists|vs: Seq<VertexId>| #[trigger] points_placed(r, points@, vs),
    {
        let mut mesh = HalfEdgeMesh::new();
        let mut verts: Vec<VertexId> = Vec::new();
        let mut i: usize = 0;
        proof {
            assert(mesh.connectivity@.vertices.dom() =~= Set::<u64>::empty());
            assert(points_placed(mesh, points@.take(0), verts@));
        }
        while i < points.len()
            invariant
                i <= points@.len(),
                points@.len() < 0x1000_0000,
                mesh.well_formed(),
                mesh.connectivity@.links_valid(),
                mesh.connectivity@.vertices.dom().len() == i,
                points_placed(mesh, points@.take(i as int), verts@),
            decreases points@.len() - i,
        {
            let ghost before = mesh;
            let ghost c0 = mesh.connectivity@;
            let ghost vs0 = verts@;
            let v = mesh.alloc_vertex_at(points[i]);
            verts.push(v);
            proof {
                let c = mesh.connectivity@;
                let vs = verts@;
                let pts = points@.take(i + 1);
                assert(points@.take(i as int).push(points@[i as int]) =~= pts);
                assert forall|t: int| 0 <= t < vs0.len() implies c0.vertices.dom().contains((#[trigger] vs0[t]).0) && vs0[t] != v by {}
                assert forall|x: int, y: int| 0 <= x < y < vs.len() implies #[trigger] vs[x] != #[trigger] vs[y] by {
                    if y < vs0.len() {
                        assert(vs0[x] != vs0[y]);
                    } else {
                        assert(vs[x] == vs0[x]);
                    }
                }
                assert forall|k: u64| #[trigger] c.vertices.dom().contains(k) <==> exists|t: int| 0 <= t < vs.len() && vs[t].0 == k by {
                    if c.vertices.dom().contains(k) && k != v.0 {
                        assert(c0.vertices.dom().contains(k));
                        let t = choose|t: int| 0 <= t < vs0.len() && vs0[t].0 == k;
                        assert(vs[t].0 == k);
                    }
                    if k == v.0 {
                        assert(vs[vs.len() - 1].0 == k);
                    }
                    if exists|t: int| 0 <= t < vs.len() && vs[t].0 == k {
                        let t = choose|t: int| 0 <= t < vs.len() && vs[t].0 == k;
                        if t < vs0.len() {
                            assert(vs0[t].0 == k);
                        }
                    }
                }
                assert forall|t: int| 0 <= t < vs.len() implies c.vertices[(#[trigger] vs[t]).0] == Vertex { halfedge: None } by {
                    if t < vs0.len() {
                        assert(vs0[t] == vs[t]);
                    }
                }
                assert forall|t: int| 0 <= t < vs.len() implies mesh.positions.values()[(#[trigger] vs[t]).0] == pts[t] by {
                    if t < vs0.len() {
                        assert(vs0[t] == vs[t]);
                        assert(vs0[t].0 != v.0);
                    }
                }
                assert(c.vertices.dom() =~= c0.vertices.dom().insert(v.0));
                assert(points_placed(mesh, pts, vs));
            }
            i += 1;
        }
        proof {
            assert(points@.take(points@.len() as int) =~= points@);
        }
        mesh
    }
}

} // verus!
