//! Building meshes from polygon lists, and the connectivity of the primitive
//! shapes. Positions are `glam::Vec3` values computed by the caller.
use vstd::prelude::*;

pub mod line;
pub mod grid;

pub use line::Line;
pub use grid::Grid;

use std::collections::HashMap;

use crate::halfedge::{Face, FaceId, HalfEdge, HalfEdgeId, MeshView, Vertex, VertexId};
use crate::mesh::HalfEdgeMesh;
use glam::Vec3;

verus! {

broadcast use vstd::std_specs::hash::group_hash_axioms;

/// Why a list of polygons does not make a mesh.
#[derive(Clone, Copy, Debug, PartialEq, Eq, Structural)]
pub enum BuildError {
    /// The polygon at this position has fewer than three corners.
    PolygonTooSmall(usize),
    /// The polygon at this position names a vertex past the last position.
    IndexOutOfRange(usize),
    /// Two polygons, or one twice, run along this edge in the same direction.
    NonManifoldEdge(u32, u32),
    /// The shape has more elements than the mesh's 32-bit ids can number.
    TooLarge,
}

/// The corner after corner `k` of polygon `j`.
pub open spec fn nxt(p: Seq<Seq<u32>>, j: int, k: int) -> int {
    if k + 1 < p[j].len() {
        k + 1
    } else {
        0
    }
}

/// Edge `k` of polygon `j` exists.
pub open spec fn is_edge(p: Seq<Seq<u32>>, j: int, k: int) -> bool {
    0 <= j < p.len() && 0 <= k < p[j].len()
}

/// The vertex an edge leaves.
pub open spec fn src(p: Seq<Seq<u32>>, j: int, k: int) -> u32 {
    p[j][k]
}

/// The vertex an edge reaches.
pub open spec fn dst(p: Seq<Seq<u32>>, j: int, k: int) -> u32 {
    p[j][nxt(p, j, k)]
}

/// Edge `(j2, k2)` comes before edge `(j, k)`.
pub open spec fn lex_before(j2: int, k2: int, j: int, k: int) -> bool {
    j2 < j || (j2 == j && k2 < k)
}

/// An earlier edge runs from the same vertex to the same vertex as `(j, k)`.
pub open spec fn dup_at(p: Seq<Seq<u32>>, j: int, k: int) -> bool {
    exists|j2: int, k2: int|
        #![trigger src(p, j2, k2), dst(p, j2, k2)]
        is_edge(p, j2, k2) && lex_before(j2, k2, j, k) && src(p, j2, k2) == src(p, j, k) && dst(p, j2, k2) == dst(p, j, k)
}

/// Some edge runs the other way along `(j, k)`.
pub open spec fn has_reverse(p: Seq<Seq<u32>>, j: int, k: int) -> bool {
    exists|j2: int, k2: int|
        #![trigger src(p, j2, k2), dst(p, j2, k2)]
        is_edge(p, j2, k2) && src(p, j2, k2) == dst(p, j, k) && dst(p, j2, k2) == src(p, j, k)
}

/// Some edge without a reverse reaches vertex `a`: a boundary half-edge
/// leaves `a`.
pub open spec fn open_into(p: Seq<Seq<u32>>, a: u32) -> bool {
    exists|j: int, k: int| #![trigger dst(p, j, k)] is_edge(p, j, k) && dst(p, j, k) == a && !has_reverse(p, j, k)
}

/// Some edge leaves vertex `i`.
pub open spec fn used_vertex(p: Seq<Seq<u32>>, i: int) -> bool {
    exists|j: int, k: int| #![trigger src(p, j, k)] is_edge(p, j, k) && src(p, j, k) == i
}

/// The first polygon, among the first `jj`, that is too small or names a
/// missing vertex.
pub open spec fn first_bad_polygon(n: nat, p: Seq<Seq<u32>>, jj: int) -> Option<BuildError>
    decreases jj,
{
    if jj <= 0 {
        None
    } else {
        match first_bad_polygon(n, p, jj - 1) {
            Some(e) => Some(e),
            None => {
                let j = jj - 1;
                if p[j].len() < 3 {
                    Some(BuildError::PolygonTooSmall(j as usize))
                } else if exists|k: int| 0 <= k < p[j].len() && #[trigger] p[j][k] >= n {
                    Some(BuildError::IndexOutOfRange(j as usize))
                } else {
                    None
                }
            },
        }
    }
}

/// The first repeated edge among the first `kk` edges of polygon `j`.
pub open spec fn first_dup_in(p: Seq<Seq<u32>>, j: int, kk: int) -> Option<BuildError>
    decreases kk,
{
    if kk <= 0 {
        None
    } else {
        match first_dup_in(p, j, kk - 1) {
            Some(e) => Some(e),
            None => if dup_at(p, j, kk - 1) {
                Some(BuildError::NonManifoldEdge(src(p, j, kk - 1), dst(p, j, kk - 1)))
            } else {
                None
            },
        }
    }
}

/// The first repeated edge among the edges of the first `jj` polygons.
pub open spec fn first_dup(p: Seq<Seq<u32>>, jj: int) -> Option<BuildError>
    decreases jj,
{
    if jj <= 0 {
        None
    } else {
        match first_dup(p, jj - 1) {
            Some(e) => Some(e),
            None => first_dup_in(p, jj - 1, p[jj - 1].len() as int),
        }
    }
}

/// Why `p` over `n` positions makes no mesh, if it does not.
pub open spec fn build_error(n: nat, p: Seq<Seq<u32>>) -> Option<BuildError> {
    match first_bad_polygon(n, p, p.len() as int) {
        Some(e) => Some(e),
        None => first_dup(p, p.len() as int),
    }
}

/// The polygons as sequences of corner indices.
pub open spec fn polygons_view(polygons: Seq<Vec<u32>>) -> Seq<Seq<u32>> {
    polygons.map_values(|v: Vec<u32>| v@)
}

/// The half-edge `t` twinned with interior edge `(j, k)` is right: the
/// interior edge that runs the other way, or a boundary half-edge from the
/// edge's end back to its start, outside any face, whose `next` is a
/// boundary half-edge leaving the edge's start where one exists.
pub open spec fn twin_ok(m: MeshView, p: Seq<Seq<u32>>, vids: Seq<VertexId>, hids: Seq<Seq<HalfEdgeId>>, j: int, k: int, t: HalfEdgeId) -> bool {
    if has_reverse(p, j, k) {
        exists|j2: int, k2: int|
            #![trigger hids[j2][k2]]
            is_edge(p, j2, k2) && src(p, j2, k2) == dst(p, j, k) && dst(p, j2, k2) == src(p, j, k) && t == hids[j2][k2]
    } else {
        let bt = m.halfedges[t.0];
        &&& m.halfedges.dom().contains(t.0)
        &&& bt.vertex == Some(vids[dst(p, j, k) as int])
        &&& bt.face is None
        &&& bt.twin == Some(hids[j][k])
        &&& (bt.next is None <==> !open_into(p, src(p, j, k)))
        &&& (bt.next matches Some(nb) ==> exists|j2: int, k2: int|
            #![trigger hids[j2][k2]]
            is_edge(p, j2, k2) && dst(p, j2, k2) == src(p, j, k) && !has_reverse(p, j2, k2)
                && m.halfedges[hids[j2][k2].0].twin == Some(nb))
    }
}

/// The half-edge of interior edge `(j, k)` is right: it leaves the edge's
/// start, lies in polygon `j`'s face, goes on to the polygon's next edge,
/// and is twinned as `twin_ok` says.
pub open spec fn interior_ok(m: MeshView, p: Seq<Seq<u32>>, vids: Seq<VertexId>, fids: Seq<FaceId>, hids: Seq<Seq<HalfEdgeId>>, j: int, k: int) -> bool {
    let he = m.halfedges[hids[j][k].0];
    &&& m.halfedges.dom().contains(hids[j][k].0)
    &&& he.vertex == Some(vids[src(p, j, k) as int])
    &&& he.face == Some(fids[j])
    &&& he.next == Some(hids[j][nxt(p, j, k)])
    &&& he.twin matches Some(t) && twin_ok(m, p, vids, hids, j, k, t)
}

/// `mesh` is the mesh of the polygons `p` over `pos`, with vertices `vids`
/// (one per position, in order), faces `fids` (one per polygon) and interior
/// half-edges `hids` (one per polygon edge); its other half-edges are the
/// boundary twins.
pub open spec fn built_as(mesh: HalfEdgeMesh, pos: Seq<Vec3>, p: Seq<Seq<u32>>, vids: Seq<VertexId>, fids: Seq<FaceId>, hids: Seq<Seq<HalfEdgeId>>) -> bool {
    let m = mesh.connectivity@;
    &&& vids.len() == pos.len()
    &&& fids.len() == p.len()
    &&& hids.len() == p.len()
    &&& forall|j: int| 0 <= j < p.len() ==> (#[trigger] hids[j]).len() == p[j].len()
    &&& forall|i: int, i2: int| 0 <= i < i2 < vids.len() ==> vids[i] != vids[i2]
    &&& forall|i: int| 0 <= i < vids.len() ==> m.vertices.dom().contains((#[trigger] vids[i]).0)
    &&& forall|x: u64| m.vertices.dom().contains(x) ==> exists|i: int| 0 <= i < vids.len() && #[trigger] vids[i].0 == x
    &&& forall|i: int| 0 <= i < vids.len() ==> mesh.positions.values().get((#[trigger] vids[i]).0) == Some(pos[i])
    &&& forall|i: int| 0 <= i < vids.len() ==> (m.vertices[(#[trigger] vids[i]).0].halfedge matches Some(h) ==> exists|j: int, k: int|
        #![trigger hids[j][k]]
        is_edge(p, j, k) && src(p, j, k) == i && h == hids[j][k])
    &&& forall|i: int| 0 <= i < vids.len() ==> (m.vertices[(#[trigger] vids[i]).0].halfedge is None <==> !used_vertex(p, i))
    &&& forall|j: int, j2: int| 0 <= j < j2 < fids.len() ==> fids[j] != fids[j2]
    &&& forall|j: int| 0 <= j < fids.len() ==> m.faces.dom().contains((#[trigger] fids[j]).0)
    &&& forall|x: u64| m.faces.dom().contains(x) ==> exists|j: int| 0 <= j < fids.len() && #[trigger] fids[j].0 == x
    &&& forall|j: int| 0 <= j < fids.len() ==> m.faces[(#[trigger] fids[j]).0].halfedge == Some(hids[j][0])
    &&& forall|j: int, k: int, j2: int, k2: int|
        is_edge(p, j, k) && is_edge(p, j2, k2) && (j != j2 || k != k2) ==> #[trigger] hids[j][k] != #[trigger] hids[j2][k2]
    &&& forall|j: int, k: int| is_edge(p, j, k) ==> #[trigger] interior_ok(m, p, vids, fids, hids, j, k)
    &&& forall|x: u64| #[trigger] m.halfedges.dom().contains(x) ==> exists|j: int, k: int|
        #![trigger hids[j][k]]
        is_edge(p, j, k) && (hids[j][k].0 == x || (!has_reverse(p, j, k) && m.halfedges[hids[j][k].0].twin == Some(HalfEdgeId(x))))
}

proof fn lemma_first_bad_stays(n: nat, p: Seq<Seq<u32>>, jj: int, j2: int)
    requires
        0 <= jj <= j2,
        first_bad_polygon(n, p, jj) is Some,
    ensures
        first_bad_polygon(n, p, j2) == first_bad_polygon(n, p, jj),
    decreases j2 - jj,
{
    if j2 > jj {
        lemma_first_bad_stays(n, p, jj, j2 - 1);
    }
}

proof fn lemma_first_dup_in_stays(p: Seq<Seq<u32>>, j: int, kk: int, k2: int)
    requires
        0 <= kk <= k2,
        first_dup_in(p, j, kk) is Some,
    ensures
        first_dup_in(p, j, k2) == first_dup_in(p, j, kk),
    decreases k2 - kk,
{
    if k2 > kk {
        lemma_first_dup_in_stays(p, j, kk, k2 - 1);
    }
}

proof fn lemma_first_dup_stays(p: Seq<Seq<u32>>, jj: int, j2: int)
    requires
        0 <= jj <= j2,
        first_dup(p, jj) is Some,
    ensures
        first_dup(p, j2) == first_dup(p, jj),
    decreases j2 - jj,
{
    if j2 > jj {
        lemma_first_dup_stays(p, jj, j2 - 1);
    }
}

/// The first polygon that is too small or names a missing vertex.
fn check_polygons(n: usize, polygons: &[Vec<u32>]) -> (r: Option<BuildError>)
    ensures
        r == first_bad_polygon(n as nat, polygons_view(polygons@), polygons@.len() as int),
{
    let ghost p = polygons_view(polygons@);
    let mut j: usize = 0;
    while j < polygons.len()
        invariant
            j <= polygons@.len(),
            p == polygons_view(polygons@),
            first_bad_polygon(n as nat, p, j as int) is None,
        decreases polygons@.len() - j,
    {
        let poly = &polygons[j];
        assert(p[j as int] == poly@);
        if poly.len() < 3 {
            proof {
                assert(first_bad_polygon(n as nat, p, j + 1) == Some(BuildError::PolygonTooSmall(j)));
                lemma_first_bad_stays(n as nat, p, j + 1, p.len() as int);
            }
            return Some(BuildError::PolygonTooSmall(j));
        }
        let mut k: usize = 0;
        while k < poly.len()
            invariant
                k <= poly@.len(),
                j < polygons@.len(),
                p == polygons_view(polygons@),
                p[j as int] == poly@,
                poly@.len() >= 3,
                first_bad_polygon(n as nat, p, j as int) is None,
                forall|k2: int| 0 <= k2 < k ==> #[trigger] poly@[k2] < n,
            decreases poly@.len() - k,
        {
            if poly[k] as usize >= n {
                proof {
                    assert(p[j as int][k as int] >= n);
                    assert(first_bad_polygon(n as nat, p, j + 1) == Some(BuildError::IndexOutOfRange(j)));
                    lemma_first_bad_stays(n as nat, p, j + 1, p.len() as int);
                }
                return Some(BuildError::IndexOutOfRange(j));
            }
            k += 1;
        }
        assert(!exists|k: int| 0 <= k < p[j as int].len() && #[trigger] p[j as int][k] >= n);
        j += 1;
    }
    None
}

/// The key of the directed vertex pair `(a, b)`.
pub open spec fn pack(a: u32, b: u32) -> u64 {
    (a * 0x1_0000_0000 + b) as u64
}

proof fn lemma_pack(a: u32, b: u32, c: u32, d: u32)
    ensures
        a * 0x1_0000_0000 + b < 0x1_0000_0000_0000_0000,
        pack(a, b) == pack(c, d) ==> a == c && b == d,
{
    assert(a * 0x1_0000_0000 + b < 0x1_0000_0000_0000_0000) by (nonlinear_arith)
        requires
            a < 0x1_0000_0000,
            b < 0x1_0000_0000,
    ;
    assert(c * 0x1_0000_0000 + d < 0x1_0000_0000_0000_0000) by (nonlinear_arith)
        requires
            c < 0x1_0000_0000,
            d < 0x1_0000_0000,
    ;
    assert(a * 0x1_0000_0000 + b == c * 0x1_0000_0000 + d ==> a == c && b == d) by (nonlinear_arith)
        requires
            a < 0x1_0000_0000,
            b < 0x1_0000_0000,
            c < 0x1_0000_0000,
            d < 0x1_0000_0000,
    ;
}

fn pack_exec(a: u32, b: u32) -> (r: u64)
    ensures
        r == pack(a, b),
{
    proof {
        lemma_pack(a, b, a, b);
    }
    (a as u64) * 0x1_0000_0000u64 + (b as u64)
}

/// Adds a vertex for each position, in order, to a mesh with no elements.
fn alloc_positions(mesh: &mut HalfEdgeMesh, positions: &[Vec3]) -> (vids: Vec<VertexId>)
    requires
        old(mesh).well_formed(),
        old(mesh).connectivity@.links_valid(),
        old(mesh).connectivity@.vertices.dom().len() == 0,
        forall|k: u64| !old(mesh).positions.values().dom().contains(k),
        positions@.len() + 3 < 0x1_0000_0000,
    ensures
        final(mesh).well_formed(),
        final(mesh).connectivity@.links_valid(),
        final(mesh).connectivity@.faces == old(mesh).connectivity@.faces,
        final(mesh).connectivity@.halfedges == old(mesh).connectivity@.halfedges,
        final(mesh).vertex_groups == old(mesh).vertex_groups,
        final(mesh).face_groups == old(mesh).face_groups,
        final(mesh).halfedge_groups == old(mesh).halfedge_groups,
        vids@.len() == positions@.len(),
        forall|i: int, i2: int| 0 <= i < i2 < vids@.len() ==> vids@[i] != vids@[i2],
        forall|i: int| 0 <= i < vids@.len() ==> final(mesh).connectivity@.vertices.dom().contains((#[trigger] vids@[i]).0),
        forall|x: u64| final(mesh).connectivity@.vertices.dom().contains(x) ==> exists|i: int| 0 <= i < vids@.len() && #[trigger] vids@[i].0 == x,
        forall|i: int| 0 <= i < vids@.len() ==> final(mesh).connectivity@.vertices[(#[trigger] vids@[i]).0].halfedge is None,
        forall|i: int| 0 <= i < vids@.len() ==> final(mesh).positions.values().get((#[trigger] vids@[i]).0) == Some(positions@[i]),
        final(mesh).connectivity@.vertices.dom().len() == positions@.len(),
{
    let mut vids: Vec<VertexId> = Vec::new();
    let mut i: usize = 0;
    while i < positions.len()
        invariant
            i <= positions@.len(),
            positions@.len() + 3 < 0x1_0000_0000,
            mesh.well_formed(),
            mesh.connectivity@.links_valid(),
            mesh.connectivity@.faces == old(mesh).connectivity@.faces,
            mesh.connectivity@.halfedges == old(mesh).connectivity@.halfedges,
            mesh.vertex_groups == old(mesh).vertex_groups,
            mesh.face_groups == old(mesh).face_groups,
            mesh.halfedge_groups == old(mesh).halfedge_groups,
            vids@.len() == i,
            mesh.connectivity@.vertices.dom().len() == i,
            forall|a: int, b: int| 0 <= a < b < vids@.len() ==> vids@[a] != vids@[b],
            forall|a: int| 0 <= a < vids@.len() ==> mesh.connectivity@.vertices.dom().contains((#[trigger] vids@[a]).0),
            forall|x: u64| mesh.connectivity@.vertices.dom().contains(x) ==> exists|a: int| 0 <= a < vids@.len() && #[trigger] vids@[a].0 == x,
            forall|a: int| 0 <= a < vids@.len() ==> mesh.connectivity@.vertices[(#[trigger] vids@[a]).0].halfedge is None,
            forall|a: int| 0 <= a < vids@.len() ==> mesh.positions.values().get((#[trigger] vids@[a]).0) == Some(positions@[a]),
            forall|k: u64| mesh.positions.values().dom().contains(k) ==> mesh.connectivity@.vertices.dom().contains(k),
        decreases positions@.len() - i,
    {
        let ghost before = mesh.connectivity@;
        let ghost pb = mesh.positions.values();
        let v = mesh.alloc_vertex_at(positions[i]);
        let ghost vs0 = vids@;
        vids.push(v);
        proof {
            assert forall|x: u64| mesh.connectivity@.vertices.dom().contains(x) implies exists|a: int| 0 <= a < vids@.len() && #[trigger] vids@[a].0 == x by {
                if x == v.0 {
                    assert(vids@[i as int].0 == x);
                } else {
                    assert(before.vertices.dom().contains(x));
                    let a = choose|a: int| 0 <= a < vs0.len() && #[trigger] vs0[a].0 == x;
                    assert(vids@[a].0 == x);
                }
            }
            assert forall|a: int| 0 <= a < vids@.len() implies mesh.positions.values().get((#[trigger] vids@[a]).0) == Some(positions@[a]) by {
                if a < i {
                    assert(before.vertices.dom().contains(vids@[a].0));
                }
            }
        }
        i += 1;
    }
    vids
}

/// The number of edges of the first `jj` polygons.
pub open spec fn total_edges(p: Seq<Seq<u32>>, jj: int) -> nat
    decreases jj,
{
    if jj <= 0 {
        0
    } else {
        total_edges(p, jj - 1) + p[jj - 1].len()
    }
}

proof fn lemma_total_edges_mono(p: Seq<Seq<u32>>, j: int, j2: int)
    requires
        0 <= j <= j2,
    ensures
        total_edges(p, j) <= total_edges(p, j2),
    decreases j2 - j,
{
    if j2 > j {
        lemma_total_edges_mono(p, j, j2 - 1);
    }
}

/// Edge `(j2, k2)` has been handled when the cursor is at `(j, k)`.
pub open spec fn seen(p: Seq<Seq<u32>>, j2: int, k2: int, j: int, k: int) -> bool {
    is_edge(p, j2, k2) && lex_before(j2, k2, j, k)
}

/// Some handled edge leaves vertex `i`.
pub open spec fn seen_from(p: Seq<Seq<u32>>, i: int, j: int, k: int) -> bool {
    exists|j2: int, k2: int| #![trigger src(p, j2, k2)] seen(p, j2, k2, j, k) && src(p, j2, k2) == i
}

/// The half-edge of edge `(j, k)` as first made: no twin, no next.
pub open spec fn bare_he(p: Seq<Seq<u32>>, vids: Seq<VertexId>, fids: Seq<FaceId>, j: int, k: int) -> HalfEdge {
    HalfEdge { twin: None, next: None, vertex: Some(vids[src(p, j, k) as int]), face: Some(fids[j]) }
}

/// The half-edges of the edges handled up to `(j, k)` exist, bare, and
/// nothing else does; `pm` maps each handled edge's vertex pair to it; each
/// vertex points to one of its handled outgoing edges, if it has any.
pub open spec fn interior_state(m: MeshView, pm: Map<u64, HalfEdgeId>, p: Seq<Seq<u32>>, vids: Seq<VertexId>, fids: Seq<FaceId>, g: Seq<Seq<HalfEdgeId>>, j: int, k: int) -> bool {
    &&& forall|j2: int, k2: int, j3: int, k3: int|
        seen(p, j2, k2, j, k) && seen(p, j3, k3, j, k) && (j2 != j3 || k2 != k3) ==> #[trigger] g[j2][k2] != #[trigger] g[j3][k3]
    &&& forall|j2: int, k2: int| seen(p, j2, k2, j, k) ==> m.halfedges.dom().contains((#[trigger] g[j2][k2]).0)
        && m.halfedges[g[j2][k2].0] == bare_he(p, vids, fids, j2, k2)
    &&& forall|x: u64| #[trigger] m.halfedges.dom().contains(x) ==> exists|j2: int, k2: int|
        #![trigger g[j2][k2]]
        seen(p, j2, k2, j, k) && g[j2][k2].0 == x
    &&& forall|j2: int, k2: int| seen(p, j2, k2, j, k) ==> #[trigger] pm.contains_key(pack(src(p, j2, k2), dst(p, j2, k2)))
        && pm[pack(src(p, j2, k2), dst(p, j2, k2))] == g[j2][k2]
    &&& forall|key: u64| #[trigger] pm.contains_key(key) ==> exists|j2: int, k2: int|
        #![trigger g[j2][k2]]
        seen(p, j2, k2, j, k) && pack(src(p, j2, k2), dst(p, j2, k2)) == key
    &&& forall|i: int| 0 <= i < vids.len() ==> (m.vertices[(#[trigger] vids[i]).0].halfedge is None <==> !seen_from(p, i, j, k))
    &&& forall|i: int| 0 <= i < vids.len() ==> (m.vertices[(#[trigger] vids[i]).0].halfedge matches Some(h) ==> exists|j2: int, k2: int|
        #![trigger g[j2][k2]]
        seen(p, j2, k2, j, k) && src(p, j2, k2) == i && h == g[j2][k2])
    &&& m.halfedges.dom().len() == total_edges(p, j) + k
}

proof fn lemma_first_dup_found(p: Seq<Seq<u32>>, j: int, kk: int)
    requires
        0 <= j < p.len(),
        0 <= kk <= p[j].len(),
        first_dup(p, j) is None,
        first_dup_in(p, j, kk) is Some,
    ensures
        first_dup(p, p.len() as int) == first_dup_in(p, j, kk),
{
    lemma_first_dup_in_stays(p, j, kk, p[j].len() as int);
    assert(first_dup(p, j + 1) == first_dup_in(p, j, kk));
    lemma_first_dup_stays(p, j + 1, p.len() as int);
}

/// The contents of a list of half-edge lists.
pub open spec fn nested_view(h: Seq<Vec<HalfEdgeId>>) -> Seq<Seq<HalfEdgeId>> {
    h.map_values(|v: Vec<HalfEdgeId>| v@)
}

/// What the vertex phase leaves: the vertices `vids`, one per position,
/// none with a half-edge.
pub open spec fn vertices_state(m: MeshView, vids: Seq<VertexId>) -> bool {
    &&& forall|i: int, i2: int| 0 <= i < i2 < vids.len() ==> vids[i] != vids[i2]
    &&& forall|i: int| 0 <= i < vids.len() ==> m.vertices.dom().contains((#[trigger] vids[i]).0)
    &&& forall|x: u64| m.vertices.dom().contains(x) ==> exists|i: int| 0 <= i < vids.len() && #[trigger] vids[i].0 == x
}

/// The faces `fids`, distinct, are all the faces, none with a half-edge yet.
pub open spec fn bare_faces(m: MeshView, fids: Seq<FaceId>) -> bool {
    &&& forall|j: int, j2: int| 0 <= j < j2 < fids.len() ==> fids[j] != fids[j2]
    &&& forall|j: int| 0 <= j < fids.len() ==> m.faces.dom().contains((#[trigger] fids[j]).0)
    &&& forall|x: u64| m.faces.dom().contains(x) ==> exists|j: int| 0 <= j < fids.len() && #[trigger] fids[j].0 == x
    &&& forall|j: int| 0 <= j < fids.len() ==> m.faces[(#[trigger] fids[j]).0].halfedge is None
    &&& m.faces.dom().len() == fids.len()
}

/// Adds a face for each polygon and a bare half-edge for each polygon edge,
/// and maps each edge's vertex pair to its half-edge; fails at the first
/// edge that repeats an earlier one.
fn alloc_interior(mesh: &mut HalfEdgeMesh, polygons: &[Vec<u32>], vids: &Vec<VertexId>) -> (r: Result<(Vec<FaceId>, Vec<Vec<HalfEdgeId>>, HashMap<u64, HalfEdgeId>), BuildError>)
    requires
        old(mesh).well_formed(),
        old(mesh).connectivity@.links_valid(),
        old(mesh).connectivity@.faces.dom().len() == 0,
        old(mesh).connectivity@.halfedges.dom().len() == 0,
        vertices_state(old(mesh).connectivity@, vids@),
        forall|i: int| 0 <= i < vids@.len() ==> old(mesh).connectivity@.vertices[(#[trigger] vids@[i]).0].halfedge is None,
        first_bad_polygon(vids@.len(), polygons_view(polygons@), polygons@.len() as int) is None,
        polygons@.len() + 3 < 0x1_0000_0000,
        2 * total_edges(polygons_view(polygons@), polygons@.len() as int) + 3 < 0x1_0000_0000,
    ensures
        final(mesh).well_formed(),
        final(mesh).connectivity@.links_valid(),
        final(mesh).connectivity@.vertices.dom() == old(mesh).connectivity@.vertices.dom(),
        final(mesh).positions == old(mesh).positions,
        final(mesh).vertex_groups == old(mesh).vertex_groups,
        final(mesh).face_groups == old(mesh).face_groups,
        final(mesh).halfedge_groups == old(mesh).halfedge_groups,
        match r {
            Err(e) => first_dup(polygons_view(polygons@), polygons@.len() as int) == Some(e),
            Ok((fids, hids, pm)) => {
                let p = polygons_view(polygons@);
                let m = final(mesh).connectivity@;
                &&& first_dup(p, p.len() as int) is None
                &&& fids@.len() == p.len()
                &&& hids@.len() == p.len()
                &&& forall|j: int| 0 <= j < p.len() ==> (#[trigger] hids@[j])@.len() == p[j].len()
                &&& bare_faces(m, fids@)
                &&& interior_state(m, pm@, p, vids@, fids@, nested_view(hids@), p.len() as int, 0)
            },
        },
{
    let ghost p = polygons_view(polygons@);
    let ghost n = vids@.len();
    let mut fids: Vec<FaceId> = Vec::new();
    let mut hids: Vec<Vec<HalfEdgeId>> = Vec::new();
    let mut pairs: HashMap<u64, HalfEdgeId> = HashMap::new();
    let mut j: usize = 0;
    proof {
        assert forall|i: int| 0 <= i < vids@.len() implies !seen_from(p, i, 0, 0) by {}
        assert(mesh.connectivity@.halfedges.dom() =~= Set::<u64>::empty()) by {
            assert forall|x: u64| !mesh.connectivity@.halfedges.dom().contains(x) by {
                if mesh.connectivity@.halfedges.dom().contains(x) {
                    assert(mesh.connectivity@.halfedges.dom().remove(x).len() < 0);
                }
            }
        }
    }
    while j < polygons.len()
        invariant
            j <= polygons@.len(),
            p == polygons_view(polygons@),
            n == vids@.len(),
            mesh.well_formed(),
            mesh.connectivity@.links_valid(),
            mesh.connectivity@.vertices.dom() == old(mesh).connectivity@.vertices.dom(),
            mesh.positions == old(mesh).positions,
            mesh.vertex_groups == old(mesh).vertex_groups,
            mesh.face_groups == old(mesh).face_groups,
            mesh.halfedge_groups == old(mesh).halfedge_groups,
            vertices_state(mesh.connectivity@, vids@),
            first_bad_polygon(n, p, p.len() as int) is None,
            polygons@.len() + 3 < 0x1_0000_0000,
            2 * total_edges(p, p.len() as int) + 3 < 0x1_0000_0000,
            first_dup(p, j as int) is None,
            fids@.len() == j,
            hids@.len() == j,
            forall|j2: int| 0 <= j2 < j ==> (#[trigger] hids@[j2])@.len() == p[j2].len(),
            bare_faces(mesh.connectivity@, fids@),
            interior_state(mesh.connectivity@, pairs@, p, vids@, fids@, nested_view(hids@), j as int, 0),
        decreases polygons@.len() - j,
    {
        proof {
            lemma_poly_ok(n, p, j as int);
        }
        let poly = &polygons[j];
        assert(p[j as int] == poly@);
        let f = mesh.connectivity.alloc_face(None);
        let ghost fs0 = fids@;
        fids.push(f);
        proof {
            assert forall|x: u64| mesh.connectivity@.faces.dom().contains(x) implies exists|j2: int| 0 <= j2 < fids@.len() && #[trigger] fids@[j2].0 == x by {
                if x == f.0 {
                    assert(fids@[j as int].0 == x);
                } else {
                    let j2 = choose|j2: int| 0 <= j2 < fs0.len() && #[trigger] fs0[j2].0 == x;
                    assert(fids@[j2].0 == x);
                }
            }
            assert forall|j2: int, k2: int| seen(p, j2, k2, j as int, 0) implies mesh.connectivity@.halfedges[(#[trigger] nested_view(hids@)[j2][k2]).0] == bare_he(p, vids@, fids@, j2, k2) by {
                assert(bare_he(p, vids@, fids@, j2, k2) == bare_he(p, vids@, fs0, j2, k2));
            }
        }
        let mut hs: Vec<HalfEdgeId> = Vec::new();
        proof {
            lemma_interior_regroup(mesh.connectivity@, pairs@, p, vids@, fids@, nested_view(hids@), nested_view(hids@).push(hs@), j as int, 0);
        }
        let mut k: usize = 0;
        while k < poly.len()
            invariant
                j < polygons@.len(),
                p == polygons_view(polygons@),
                p[j as int] == poly@,
                poly@.len() >= 3,
                forall|k2: int| 0 <= k2 < poly@.len() ==> #[trigger] poly@[k2] < n,
                n == vids@.len(),
                k <= poly@.len(),
                mesh.well_formed(),
                mesh.connectivity@.links_valid(),
                mesh.connectivity@.vertices.dom() == old(mesh).connectivity@.vertices.dom(),
                mesh.positions == old(mesh).positions,
                mesh.vertex_groups == old(mesh).vertex_groups,
                mesh.face_groups == old(mesh).face_groups,
                mesh.halfedge_groups == old(mesh).halfedge_groups,
                vertices_state(mesh.connectivity@, vids@),
                first_bad_polygon(n, p, p.len() as int) is None,
                polygons@.len() + 3 < 0x1_0000_0000,
                2 * total_edges(p, p.len() as int) + 3 < 0x1_0000_0000,
                first_dup(p, j as int) is None,
                first_dup_in(p, j as int, k as int) is None,
                fids@.len() == j + 1,
                fids@[j as int] == f,
                hids@.len() == j,
                hs@.len() == k,
                forall|j2: int| 0 <= j2 < j ==> (#[trigger] hids@[j2])@.len() == p[j2].len(),
                bare_faces(mesh.connectivity@, fids@),
                interior_state(mesh.connectivity@, pairs@, p, vids@, fids@, nested_view(hids@).push(hs@), j as int, k as int),
            decreases poly@.len() - k,
        {
            let k1: usize = if k + 1 < poly.len() {
                k + 1
            } else {
                0
            };
            let a = poly[k];
            let b = poly[k1];
            let ghost g = nested_view(hids@).push(hs@);
            assert(src(p, j as int, k as int) == a && dst(p, j as int, k as int) == b);
            let key = pack_exec(a, b);
            if pairs.contains_key(&key) {
                proof {
                    let (j2, k2) = choose|j2: int, k2: int|
                        #![trigger g[j2][k2]]
                        seen(p, j2, k2, j as int, k as int) && pack(src(p, j2, k2), dst(p, j2, k2)) == key;
                    lemma_pack(src(p, j2, k2), dst(p, j2, k2), a, b);
                    assert(dup_at(p, j as int, k as int));
                    assert(first_dup_in(p, j as int, k + 1) == Some(BuildError::NonManifoldEdge(a, b)));
                    lemma_first_dup_found(p, j as int, k + 1);
                }
                return Err(BuildError::NonManifoldEdge(a, b));
            }
            proof {
                assert(!dup_at(p, j as int, k as int)) by {
                    if dup_at(p, j as int, k as int) {
                        let (j2, k2) = choose|j2: int, k2: int|
                            #![trigger src(p, j2, k2), dst(p, j2, k2)]
                            is_edge(p, j2, k2) && lex_before(j2, k2, j as int, k as int) && src(p, j2, k2) == src(p, j as int, k as int)
                                && dst(p, j2, k2) == dst(p, j as int, k as int);
                        assert(pairs@.contains_key(pack(src(p, j2, k2), dst(p, j2, k2))));
                    }
                }
                lemma_total_edges_mono(p, j + 1, p.len() as int);
            }
            let ghost m0 = mesh.connectivity@;
            let ghost pm0 = pairs@;
            let ghost hs0 = hs@;
            let va = vids[a as usize];
            let h = mesh.connectivity.alloc_halfedge(HalfEdge { twin: None, next: None, vertex: Some(va), face: Some(f) });
            pairs.insert(key, h);
            mesh.connectivity.set_vertex(va, Vertex { halfedge: Some(h) });
            hs.push(h);
            proof {
                lemma_interior_step(m0, mesh.connectivity@, pm0, pairs@, p, vids@, fids@, nested_view(hids@), hs0, hs@, j as int, k as int, h, a as int);
            }
            k += 1;
        }
        proof {
            assert(first_dup(p, j + 1) is None);
            assert(nested_view(hids@).push(hs@) == nested_view(hids@.push(hs)));
            lemma_interior_next_polygon(mesh.connectivity@, pairs@, p, vids@, fids@, nested_view(hids@.push(hs)), j as int);
        }
        hids.push(hs);
        j += 1;
    }
    Ok((fids, hids, pairs))
}

proof fn lemma_poly_ok(n: nat, p: Seq<Seq<u32>>, j: int)
    requires
        0 <= j < p.len(),
        first_bad_polygon(n, p, p.len() as int) is None,
    ensures
        p[j].len() >= 3,
        forall|k: int| 0 <= k < p[j].len() ==> #[trigger] p[j][k] < n,
{
    if first_bad_polygon(n, p, j + 1) is Some {
        lemma_first_bad_stays(n, p, j + 1, p.len() as int);
    }
}

proof fn lemma_interior_step(
    m0: MeshView,
    m1: MeshView,
    pm0: Map<u64, HalfEdgeId>,
    pm1: Map<u64, HalfEdgeId>,
    p: Seq<Seq<u32>>,
    vids: Seq<VertexId>,
    fids: Seq<FaceId>,
    hh: Seq<Seq<HalfEdgeId>>,
    hs0: Seq<HalfEdgeId>,
    hs1: Seq<HalfEdgeId>,
    j: int,
    k: int,
    h: HalfEdgeId,
    a: int,
)
    requires
        interior_state(m0, pm0, p, vids, fids, hh.push(hs0), j, k),
        is_edge(p, j, k),
        hh.len() == j,
        hs0.len() == k,
        hs1 == hs0.push(h),
        a == src(p, j, k),
        0 <= a < vids.len(),
        forall|i: int, i2: int| 0 <= i < i2 < vids.len() ==> vids[i] != vids[i2],
        !m0.halfedges.dom().contains(h.0),
        m1.halfedges == m0.halfedges.insert(h.0, bare_he(p, vids, fids, j, k)),
        m1.vertices == m0.vertices.insert(vids[a].0, Vertex { halfedge: Some(h) }),
        m0.halfedges.dom().finite(),
        !dup_at(p, j, k),
        pm1 == pm0.insert(pack(src(p, j, k), dst(p, j, k)), h),
    ensures
        interior_state(m1, pm1, p, vids, fids, hh.push(hs1), j, k + 1),
{
    let g0 = hh.push(hs0);
    let g1 = hh.push(hs1);
    assert forall|j2: int, k2: int| seen(p, j2, k2, j, k) implies #[trigger] g1[j2][k2] == g0[j2][k2] by {
        if j2 < j {
        } else {
            assert(hs1[k2] == hs0[k2]);
        }
    }
    assert(g1[j][k] == h);
    assert forall|j2: int, k2: int, j3: int, k3: int|
        seen(p, j2, k2, j, k + 1) && seen(p, j3, k3, j, k + 1) && (j2 != j3 || k2 != k3) implies #[trigger] g1[j2][k2] != #[trigger] g1[j3][k3] by {
        if seen(p, j2, k2, j, k) {
            assert(m0.halfedges.dom().contains(g0[j2][k2].0));
        }
        if seen(p, j3, k3, j, k) {
            assert(m0.halfedges.dom().contains(g0[j3][k3].0));
        }
    }
    assert forall|x: u64| #[trigger] m1.halfedges.dom().contains(x) implies exists|j2: int, k2: int|
        #![trigger g1[j2][k2]]
        seen(p, j2, k2, j, k + 1) && g1[j2][k2].0 == x by {
        if x == h.0 {
            assert(seen(p, j, k, j, k + 1) && g1[j][k].0 == x);
        } else {
            let (j2, k2) = choose|j2: int, k2: int| #![trigger g0[j2][k2]] seen(p, j2, k2, j, k) && g0[j2][k2].0 == x;
            assert(g1[j2][k2] == g0[j2][k2]);
        }
    }
    assert forall|j2: int, k2: int| seen(p, j2, k2, j, k + 1) implies #[trigger] pm1.contains_key(pack(src(p, j2, k2), dst(p, j2, k2)))
        && pm1[pack(src(p, j2, k2), dst(p, j2, k2))] == g1[j2][k2] by {
        if seen(p, j2, k2, j, k) {
            lemma_pack(src(p, j2, k2), dst(p, j2, k2), src(p, j, k), dst(p, j, k));
            assert(g1[j2][k2] == g0[j2][k2]);
            if pack(src(p, j2, k2), dst(p, j2, k2)) == pack(src(p, j, k), dst(p, j, k)) {
                assert(dup_at(p, j, k));
            }
        }
    }
    assert forall|key: u64| #[trigger] pm1.contains_key(key) implies exists|j2: int, k2: int|
        #![trigger g1[j2][k2]]
        seen(p, j2, k2, j, k + 1) && pack(src(p, j2, k2), dst(p, j2, k2)) == key by {
        if key == pack(src(p, j, k), dst(p, j, k)) {
            assert(seen(p, j, k, j, k + 1) && g1[j][k] == h);
        } else {
            let (j2, k2) = choose|j2: int, k2: int|
                #![trigger g0[j2][k2]]
                seen(p, j2, k2, j, k) && pack(src(p, j2, k2), dst(p, j2, k2)) == key;
            assert(g1[j2][k2] == g0[j2][k2]);
        }
    }
    assert forall|i: int| 0 <= i < vids.len() implies (m1.vertices[(#[trigger] vids[i]).0].halfedge is None <==> !seen_from(p, i, j, k + 1)) by {
        if i == a {
            assert(seen(p, j, k, j, k + 1) && src(p, j, k) == i);
        } else {
            assert(vids[i] != vids[a]);
            if seen_from(p, i, j, k + 1) {
                let (j2, k2) = choose|j2: int, k2: int| #![trigger src(p, j2, k2)] seen(p, j2, k2, j, k + 1) && src(p, j2, k2) == i;
                assert(seen(p, j2, k2, j, k));
            }
            if seen_from(p, i, j, k) {
                let (j2, k2) = choose|j2: int, k2: int| #![trigger src(p, j2, k2)] seen(p, j2, k2, j, k) && src(p, j2, k2) == i;
                assert(seen(p, j2, k2, j, k + 1));
            }
        }
    }
    assert forall|i: int| 0 <= i < vids.len() implies (m1.vertices[(#[trigger] vids[i]).0].halfedge matches Some(hv) ==> exists|j2: int, k2: int|
        #![trigger g1[j2][k2]]
        seen(p, j2, k2, j, k + 1) && src(p, j2, k2) == i && hv == g1[j2][k2]) by {
        if i == a {
            assert(seen(p, j, k, j, k + 1) && g1[j][k] == h);
        } else {
            assert(vids[i] != vids[a]);
            if let Some(hv) = m0.vertices[vids[i].0].halfedge {
                let (j2, k2) = choose|j2: int, k2: int|
                    #![trigger g0[j2][k2]]
                    seen(p, j2, k2, j, k) && src(p, j2, k2) == i && hv == g0[j2][k2];
                assert(g1[j2][k2] == g0[j2][k2]);
            }
        }
    }
}

proof fn lemma_interior_next_polygon(m: MeshView, pm: Map<u64, HalfEdgeId>, p: Seq<Seq<u32>>, vids: Seq<VertexId>, fids: Seq<FaceId>, g: Seq<Seq<HalfEdgeId>>, j: int)
    requires
        0 <= j < p.len(),
        interior_state(m, pm, p, vids, fids, g, j, p[j].len() as int),
    ensures
        interior_state(m, pm, p, vids, fids, g, j + 1, 0),
{
    assert forall|j2: int, k2: int| seen(p, j2, k2, j, p[j].len() as int) <==> seen(p, j2, k2, j + 1, 0) by {}
    assert forall|i: int| seen_from(p, i, j, p[j].len() as int) <==> seen_from(p, i, j + 1, 0) by {
        if seen_from(p, i, j, p[j].len() as int) {
            let (j2, k2) = choose|j2: int, k2: int| #![trigger src(p, j2, k2)] seen(p, j2, k2, j, p[j].len() as int) && src(p, j2, k2) == i;
            assert(seen(p, j2, k2, j + 1, 0));
        }
        if seen_from(p, i, j + 1, 0) {
            let (j2, k2) = choose|j2: int, k2: int| #![trigger src(p, j2, k2)] seen(p, j2, k2, j + 1, 0) && src(p, j2, k2) == i;
            assert(seen(p, j2, k2, j, p[j].len() as int));
        }
    }
}

proof fn lemma_interior_regroup(m: MeshView, pm: Map<u64, HalfEdgeId>, p: Seq<Seq<u32>>, vids: Seq<VertexId>, fids: Seq<FaceId>, g: Seq<Seq<HalfEdgeId>>, g2: Seq<Seq<HalfEdgeId>>, j: int, k: int)
    requires
        interior_state(m, pm, p, vids, fids, g, j, k),
        forall|j2: int, k2: int| seen(p, j2, k2, j, k) ==> #[trigger] g2[j2][k2] == g[j2][k2],
    ensures
        interior_state(m, pm, p, vids, fids, g2, j, k),
{
    assert forall|x: u64| #[trigger] m.halfedges.dom().contains(x) implies exists|j2: int, k2: int|
        #![trigger g2[j2][k2]]
        seen(p, j2, k2, j, k) && g2[j2][k2].0 == x by {
        let (j2, k2) = choose|j2: int, k2: int| #![trigger g[j2][k2]] seen(p, j2, k2, j, k) && g[j2][k2].0 == x;
        assert(g2[j2][k2] == g[j2][k2]);
    }
    assert forall|key: u64| #[trigger] pm.contains_key(key) implies exists|j2: int, k2: int|
        #![trigger g2[j2][k2]]
        seen(p, j2, k2, j, k) && pack(src(p, j2, k2), dst(p, j2, k2)) == key by {
        let (j2, k2) = choose|j2: int, k2: int|
            #![trigger g[j2][k2]]
            seen(p, j2, k2, j, k) && pack(src(p, j2, k2), dst(p, j2, k2)) == key;
        assert(g2[j2][k2] == g[j2][k2]);
    }
    assert forall|i: int| 0 <= i < vids.len() implies (m.vertices[(#[trigger] vids[i]).0].halfedge matches Some(hv) ==> exists|j2: int, k2: int|
        #![trigger g2[j2][k2]]
        seen(p, j2, k2, j, k) && src(p, j2, k2) == i && hv == g2[j2][k2]) by {
        if let Some(hv) = m.vertices[vids[i].0].halfedge {
            let (j2, k2) = choose|j2: int, k2: int|
                #![trigger g[j2][k2]]
                seen(p, j2, k2, j, k) && src(p, j2, k2) == i && hv == g[j2][k2];
            assert(g2[j2][k2] == g[j2][k2]);
        }
    }
    assert forall|j2: int, k2: int, j3: int, k3: int|
        seen(p, j2, k2, j, k) && seen(p, j3, k3, j, k) && (j2 != j3 || k2 != k3) implies #[trigger] g2[j2][k2] != #[trigger] g2[j3][k3] by {
        assert(g2[j2][k2] == g[j2][k2]);
        assert(g2[j3][k3] == g[j3][k3]);
    }
}

/// The half-edge of edge `(j, k)` once it is linked to the polygon's next
/// edge.
pub open spec fn linked_he(p: Seq<Seq<u32>>, vids: Seq<VertexId>, fids: Seq<FaceId>, g: Seq<Seq<HalfEdgeId>>, j: int, k: int) -> HalfEdge {
    HalfEdge { twin: None, next: Some(g[j][nxt(p, j, k)]), vertex: Some(vids[src(p, j, k) as int]), face: Some(fids[j]) }
}

/// The interior half-edges `g` are distinct and all exist.
pub open spec fn distinct_edges(m: MeshView, p: Seq<Seq<u32>>, g: Seq<Seq<HalfEdgeId>>) -> bool {
    &&& forall|j2: int, k2: int, j3: int, k3: int|
        is_edge(p, j2, k2) && is_edge(p, j3, k3) && (j2 != j3 || k2 != k3) ==> #[trigger] g[j2][k2] != #[trigger] g[j3][k3]
    &&& forall|j2: int, k2: int| is_edge(p, j2, k2) ==> m.halfedges.dom().contains((#[trigger] g[j2][k2]).0)
}

/// Links each interior half-edge to the next edge of its polygon, and each
/// face to its polygon's first half-edge.
fn link_interior(mesh: &mut HalfEdgeMesh, polygons: &[Vec<u32>], vids: &Vec<VertexId>, fids: &Vec<FaceId>, hids: &Vec<Vec<HalfEdgeId>>)
    requires
        old(mesh).well_formed(),
        old(mesh).connectivity@.links_valid(),
        fids@.len() == polygons@.len(),
        hids@.len() == polygons@.len(),
        forall|j: int| 0 <= j < polygons@.len() ==> (#[trigger] hids@[j])@.len() == polygons@[j]@.len(),
        forall|j: int| 0 <= j < polygons@.len() ==> (#[trigger] polygons@[j])@.len() >= 3,
        bare_faces(old(mesh).connectivity@, fids@),
        distinct_edges(old(mesh).connectivity@, polygons_view(polygons@), nested_view(hids@)),
        forall|j: int, k: int| is_edge(polygons_view(polygons@), j, k) ==> old(mesh).connectivity@.halfedges[(#[trigger] nested_view(hids@)[j][k]).0]
            == bare_he(polygons_view(polygons@), vids@, fids@, j, k),
    ensures
        final(mesh).well_formed(),
        final(mesh).connectivity@.links_valid(),
        final(mesh).connectivity@.vertices == old(mesh).connectivity@.vertices,
        final(mesh).connectivity@.halfedges.dom() == old(mesh).connectivity@.halfedges.dom(),
        final(mesh).connectivity@.faces.dom() == old(mesh).connectivity@.faces.dom(),
        final(mesh).positions == old(mesh).positions,
        final(mesh).vertex_groups == old(mesh).vertex_groups,
        final(mesh).face_groups == old(mesh).face_groups,
        final(mesh).halfedge_groups == old(mesh).halfedge_groups,
        forall|j: int, k: int| is_edge(polygons_view(polygons@), j, k) ==> final(mesh).connectivity@.halfedges[(#[trigger] nested_view(hids@)[j][k]).0]
            == linked_he(polygons_view(polygons@), vids@, fids@, nested_view(hids@), j, k),
        forall|j: int| 0 <= j < fids@.len() ==> final(mesh).connectivity@.faces[(#[trigger] fids@[j]).0].halfedge == Some(nested_view(hids@)[j][0]),
        forall|x: u64| #![trigger final(mesh).connectivity@.halfedges.dom().contains(x)] final(mesh).connectivity@.halfedges.dom().contains(x)
            && !(exists|j: int, k: int| #![trigger nested_view(hids@)[j][k]] is_edge(polygons_view(polygons@), j, k) && nested_view(hids@)[j][k].0 == x)
            ==> final(mesh).connectivity@.halfedges[x] == old(mesh).connectivity@.halfedges[x],
{
    let ghost p = polygons_view(polygons@);
    let ghost g = nested_view(hids@);
    let ghost m0 = mesh.connectivity@;
    let mut j: usize = 0;
    while j < polygons.len()
        invariant
            j <= polygons@.len(),
            p == polygons_view(polygons@),
            g == nested_view(hids@),
            fids@.len() == polygons@.len(),
            hids@.len() == polygons@.len(),
            forall|j2: int| 0 <= j2 < polygons@.len() ==> (#[trigger] hids@[j2])@.len() == polygons@[j2]@.len(),
            forall|j2: int| 0 <= j2 < polygons@.len() ==> (#[trigger] polygons@[j2])@.len() >= 3,
            m0 == old(mesh).connectivity@,
            bare_faces(m0, fids@),
            distinct_edges(m0, p, g),
            mesh.well_formed(),
            mesh.connectivity@.links_valid(),
            mesh.connectivity@.vertices == m0.vertices,
            mesh.connectivity@.halfedges.dom() == m0.halfedges.dom(),
            mesh.connectivity@.faces.dom() == m0.faces.dom(),
            mesh.positions == old(mesh).positions,
            mesh.vertex_groups == old(mesh).vertex_groups,
            mesh.face_groups == old(mesh).face_groups,
            mesh.halfedge_groups == old(mesh).halfedge_groups,
            forall|j2: int, k2: int| is_edge(p, j2, k2) ==> mesh.connectivity@.halfedges[(#[trigger] g[j2][k2]).0]
                == if j2 < j { linked_he(p, vids@, fids@, g, j2, k2) } else { bare_he(p, vids@, fids@, j2, k2) },
            forall|j2: int| 0 <= j2 < fids@.len() ==> mesh.connectivity@.faces[(#[trigger] fids@[j2]).0].halfedge
                == if j2 < j { Some(g[j2][0]) } else { None },
            forall|x: u64| #![trigger mesh.connectivity@.halfedges.dom().contains(x)] mesh.connectivity@.halfedges.dom().contains(x)
                && !(exists|j2: int, k2: int| #![trigger g[j2][k2]] is_edge(p, j2, k2) && g[j2][k2].0 == x)
                ==> mesh.connectivity@.halfedges[x] == m0.halfedges[x],
        decreases polygons@.len() - j,
    {
        let hs = &hids[j];
        let len = hs.len();
        assert(hs@ == g[j as int]);
        let ghost fstart = mesh.connectivity@.faces;
        let mut k: usize = 0;
        while k < len
            invariant
                j < polygons@.len(),
                len == hs@.len(),
                hs@ == g[j as int],
                len == p[j as int].len(),
                len >= 3,
                p == polygons_view(polygons@),
                g == nested_view(hids@),
                fids@.len() == polygons@.len(),
                m0 == old(mesh).connectivity@,
                distinct_edges(m0, p, g),
                mesh.well_formed(),
                mesh.connectivity@.links_valid(),
                mesh.connectivity@.vertices == m0.vertices,
                mesh.connectivity@.halfedges.dom() == m0.halfedges.dom(),
                mesh.connectivity@.faces == fstart,
                mesh.positions == old(mesh).positions,
                mesh.vertex_groups == old(mesh).vertex_groups,
                mesh.face_groups == old(mesh).face_groups,
                mesh.halfedge_groups == old(mesh).halfedge_groups,
                forall|j2: int, k2: int| is_edge(p, j2, k2) ==> mesh.connectivity@.halfedges[(#[trigger] g[j2][k2]).0]
                    == if lex_before(j2, k2, j as int, k as int) { linked_he(p, vids@, fids@, g, j2, k2) } else { bare_he(p, vids@, fids@, j2, k2) },
                forall|x: u64| #![trigger mesh.connectivity@.halfedges.dom().contains(x)] mesh.connectivity@.halfedges.dom().contains(x)
                    && !(exists|j2: int, k2: int| #![trigger g[j2][k2]] is_edge(p, j2, k2) && g[j2][k2].0 == x)
                    ==> mesh.connectivity@.halfedges[x] == m0.halfedges[x],
            decreases len - k,
        {
            let k1: usize = if k + 1 < len {
                k + 1
            } else {
                0
            };
            let h = hs[k];
            let hn = hs[k1];
            let ghost before = mesh.connectivity@;
            let old_he = mesh.connectivity.halfedge(h);
            proof {
                assert(g[j as int][k as int] == h);
                assert(g[j as int][k1 as int] == hn);
                assert(m0.halfedges.dom().contains(hn.0));
            }
            mesh.connectivity.set_halfedge(h, HalfEdge { next: Some(hn), ..old_he });
            proof {
                assert forall|j2: int, k2: int| is_edge(p, j2, k2) implies mesh.connectivity@.halfedges[(#[trigger] g[j2][k2]).0]
                    == if lex_before(j2, k2, j as int, k + 1) { linked_he(p, vids@, fids@, g, j2, k2) } else { bare_he(p, vids@, fids@, j2, k2) } by {
                    if j2 != j || k2 != k {
                        assert(g[j2][k2] != g[j as int][k as int]);
                    }
                }
                assert forall|x: u64| #![trigger mesh.connectivity@.halfedges.dom().contains(x)] mesh.connectivity@.halfedges.dom().contains(x)
                    && !(exists|j2: int, k2: int| #![trigger g[j2][k2]] is_edge(p, j2, k2) && g[j2][k2].0 == x)
                    implies mesh.connectivity@.halfedges[x] == m0.halfedges[x] by {
                    if x == h.0 {
                        assert(is_edge(p, j as int, k as int) && g[j as int][k as int].0 == x);
                    }
                    assert(before.halfedges.dom().contains(x));
                }
            }
            k += 1;
        }
        let h0 = hs[0];
        proof {
            assert(g[j as int][0] == h0);
            assert(m0.halfedges.dom().contains(h0.0));
            assert(m0.faces.dom().contains(fids@[j as int].0));
        }
        let ghost fb = mesh.connectivity@.faces;
        assert(fb == fstart);
        mesh.connectivity.set_face(fids[j], Face { halfedge: Some(h0) });
        proof {
            lemma_face_set(fb, mesh.connectivity@.faces, fids@, g, j as int, h0);
        }
        j += 1;
    }
}

proof fn lemma_face_set(fb: Map<u64, Face>, fa: Map<u64, Face>, fids: Seq<FaceId>, g: Seq<Seq<HalfEdgeId>>, j: int, h0: HalfEdgeId)
    requires
        0 <= j < fids.len(),
        forall|j2: int, j3: int| 0 <= j2 < j3 < fids.len() ==> fids[j2] != fids[j3],
        forall|j2: int| 0 <= j2 < fids.len() ==> fb[(#[trigger] fids[j2]).0].halfedge == if j2 < j {
            Some(g[j2][0])
        } else {
            None
        },
        fa == fb.insert(fids[j].0, Face { halfedge: Some(h0) }),
        g[j][0] == h0,
    ensures
        forall|j2: int| 0 <= j2 < fids.len() ==> fa[(#[trigger] fids[j2]).0].halfedge == if j2 < j + 1 {
            Some(g[j2][0])
        } else {
            None
        },
{
    assert forall|j2: int| 0 <= j2 < fids.len() implies fa[(#[trigger] fids[j2]).0].halfedge == if j2 < j + 1 {
        Some(g[j2][0])
    } else {
        None
    } by {
        if j2 < j {
            assert(fids[j2] != fids[j]);
        } else if j2 > j {
            assert(fids[j] != fids[j2]);
        }
    }
}

/// `t` is the twin that edge `(j, k)` gets: the interior half-edge of the
/// reverse edge, or the boundary half-edge made for it.
pub open spec fn twin_of(p: Seq<Seq<u32>>, g: Seq<Seq<HalfEdgeId>>, bnd: Seq<HalfEdgeId>, bj: Seq<(int, int)>, j: int, k: int, t: HalfEdgeId) -> bool {
    if has_reverse(p, j, k) {
        exists|j2: int, k2: int|
            #![trigger g[j2][k2]]
            is_edge(p, j2, k2) && src(p, j2, k2) == dst(p, j, k) && dst(p, j2, k2) == src(p, j, k) && t == g[j2][k2]
    } else {
        exists|b: int| 0 <= b < bnd.len() && #[trigger] bj[b] == (j, k) && t == bnd[b]
    }
}

/// The boundary half-edge made for the edge `e`, reaching back from the
/// edge's end to its start, with no `next` yet.
pub open spec fn bare_boundary(p: Seq<Seq<u32>>, vids: Seq<VertexId>, g: Seq<Seq<HalfEdgeId>>, e: (int, int)) -> HalfEdge {
    HalfEdge { twin: Some(g[e.0][e.1]), next: None, vertex: Some(vids[dst(p, e.0, e.1) as int]), face: None }
}

/// The edges handled up to `(j, k)` have their twins; the boundary
/// half-edges `bnd`, made for the edges `bj` that have no reverse, exist
/// and are, with the interior ones, all the half-edges.
pub open spec fn twin_state(
    m: MeshView,
    p: Seq<Seq<u32>>,
    vids: Seq<VertexId>,
    fids: Seq<FaceId>,
    g: Seq<Seq<HalfEdgeId>>,
    bnd: Seq<HalfEdgeId>,
    bsrc: Seq<u32>,
    btgt: Seq<u32>,
    bj: Seq<(int, int)>,
    j: int,
    k: int,
) -> bool {
    &&& forall|j2: int, k2: int| is_edge(p, j2, k2) ==> if seen(p, j2, k2, j, k) {
        &&& m.halfedges[(#[trigger] g[j2][k2]).0].twin matches Some(t) && twin_of(p, g, bnd, bj, j2, k2, t)
        &&& m.halfedges[g[j2][k2].0] == HalfEdge { twin: m.halfedges[g[j2][k2].0].twin, ..linked_he(p, vids, fids, g, j2, k2) }
    } else {
        m.halfedges[g[j2][k2].0] == linked_he(p, vids, fids, g, j2, k2)
    }
    &&& bsrc.len() == bnd.len()
    &&& btgt.len() == bnd.len()
    &&& bj.len() == bnd.len()
    &&& forall|b: int| 0 <= b < bnd.len() ==> {
        let e = #[trigger] bj[b];
        &&& seen(p, e.0, e.1, j, k)
        &&& !has_reverse(p, e.0, e.1)
        &&& bsrc[b] == dst(p, e.0, e.1)
        &&& btgt[b] == src(p, e.0, e.1)
        &&& m.halfedges.dom().contains(bnd[b].0)
        &&& m.halfedges[bnd[b].0] == bare_boundary(p, vids, g, e)
    }
    &&& forall|b: int, b2: int| 0 <= b < b2 < bnd.len() ==> bj[b] != bj[b2] && bnd[b] != bnd[b2]
    &&& forall|b: int, j2: int, k2: int| 0 <= b < bnd.len() && is_edge(p, j2, k2) ==> #[trigger] bnd[b] != #[trigger] g[j2][k2]
    &&& forall|x: u64| #[trigger] m.halfedges.dom().contains(x) ==> (exists|j2: int, k2: int| #![trigger g[j2][k2]] is_edge(p, j2, k2) && g[j2][k2].0 == x)
        || (exists|b: int| 0 <= b < bnd.len() && #[trigger] bnd[b].0 == x)
    &&& m.halfedges.dom().len() == total_edges(p, p.len() as int) + bnd.len()
    &&& bnd.len() <= total_edges(p, j) + k
}

/// `pm` maps the vertex pair of each edge to the edge's half-edge, and holds
/// nothing else.
pub open spec fn pairs_state(pm: Map<u64, HalfEdgeId>, p: Seq<Seq<u32>>, g: Seq<Seq<HalfEdgeId>>) -> bool {
    &&& forall|j2: int, k2: int| is_edge(p, j2, k2) ==> #[trigger] pm.contains_key(pack(src(p, j2, k2), dst(p, j2, k2)))
        && pm[pack(src(p, j2, k2), dst(p, j2, k2))] == g[j2][k2]
    &&& forall|key: u64| #[trigger] pm.contains_key(key) ==> exists|j2: int, k2: int|
        #![trigger g[j2][k2]]
        is_edge(p, j2, k2) && pack(src(p, j2, k2), dst(p, j2, k2)) == key
}

proof fn lemma_twin_regroup(
    m: MeshView,
    p: Seq<Seq<u32>>,
    vids: Seq<VertexId>,
    fids: Seq<FaceId>,
    g: Seq<Seq<HalfEdgeId>>,
    bnd: Seq<HalfEdgeId>,
    bsrc: Seq<u32>,
    btgt: Seq<u32>,
    bj: Seq<(int, int)>,
    j: int,
)
    requires
        0 <= j < p.len(),
        twin_state(m, p, vids, fids, g, bnd, bsrc, btgt, bj, j, p[j].len() as int),
    ensures
        twin_state(m, p, vids, fids, g, bnd, bsrc, btgt, bj, j + 1, 0),
{
    assert forall|j2: int, k2: int| seen(p, j2, k2, j, p[j].len() as int) <==> seen(p, j2, k2, j + 1, 0) by {}
}

proof fn lemma_twin_step(
    m0: MeshView,
    m1: MeshView,
    p: Seq<Seq<u32>>,
    vids: Seq<VertexId>,
    fids: Seq<FaceId>,
    g: Seq<Seq<HalfEdgeId>>,
    bnd0: Seq<HalfEdgeId>,
    bsrc0: Seq<u32>,
    btgt0: Seq<u32>,
    bj0: Seq<(int, int)>,
    bnd1: Seq<HalfEdgeId>,
    bsrc1: Seq<u32>,
    btgt1: Seq<u32>,
    bj1: Seq<(int, int)>,
    j: int,
    k: int,
    t: HalfEdgeId,
)
    requires
        twin_state(m0, p, vids, fids, g, bnd0, bsrc0, btgt0, bj0, j, k),
        is_edge(p, j, k),
        distinct_edges(m0, p, g),
        m0.halfedges.dom().finite(),
        has_reverse(p, j, k) ==> {
            &&& (exists|j2: int, k2: int|
                #![trigger g[j2][k2]]
                is_edge(p, j2, k2) && src(p, j2, k2) == dst(p, j, k) && dst(p, j2, k2) == src(p, j, k) && t == g[j2][k2])
            &&& bnd1 == bnd0 && bsrc1 == bsrc0 && btgt1 == btgt0 && bj1 == bj0
            &&& m1.halfedges == m0.halfedges.insert(g[j][k].0, HalfEdge { twin: Some(t), ..linked_he(p, vids, fids, g, j, k) })
        },
        !has_reverse(p, j, k) ==> {
            &&& !m0.halfedges.dom().contains(t.0)
            &&& bnd1 == bnd0.push(t) && bsrc1 == bsrc0.push(dst(p, j, k)) && btgt1 == btgt0.push(src(p, j, k)) && bj1 == bj0.push((j, k))
            &&& m1.halfedges == m0.halfedges.insert(t.0, bare_boundary(p, vids, g, (j, k))).insert(
                g[j][k].0,
                HalfEdge { twin: Some(t), ..linked_he(p, vids, fids, g, j, k) },
            )
        },
    ensures
        twin_state(m1, p, vids, fids, g, bnd1, bsrc1, btgt1, bj1, j, k + 1),
        distinct_edges(m1, p, g),
{
    let h = g[j][k];
    assert(m0.halfedges.dom().contains(h.0));
    if !has_reverse(p, j, k) {
        assert forall|j2: int, k2: int| is_edge(p, j2, k2) implies #[trigger] g[j2][k2] != t by {
            assert(m0.halfedges.dom().contains(g[j2][k2].0));
        }
        assert forall|b: int| 0 <= b < bnd0.len() implies bnd0[b] != t by {
            assert(bj0[b] == bj0[b]);
            assert(m0.halfedges.dom().contains(bnd0[b].0));
        }
        assert(m1.halfedges.dom() =~= m0.halfedges.dom().insert(t.0));
    } else {
        assert(m1.halfedges.dom() =~= m0.halfedges.dom());
    }
    assert forall|j2: int, k2: int| is_edge(p, j2, k2) implies if seen(p, j2, k2, j, k + 1) {
        &&& m1.halfedges[(#[trigger] g[j2][k2]).0].twin matches Some(tt) && twin_of(p, g, bnd1, bj1, j2, k2, tt)
        &&& m1.halfedges[g[j2][k2].0] == HalfEdge { twin: m1.halfedges[g[j2][k2].0].twin, ..linked_he(p, vids, fids, g, j2, k2) }
    } else {
        m1.halfedges[g[j2][k2].0] == linked_he(p, vids, fids, g, j2, k2)
    } by {
        if j2 == j && k2 == k {
            if !has_reverse(p, j, k) {
                assert(bj1[bnd0.len() as int] == (j, k));
            }
        } else {
            assert(g[j2][k2] != h);
            if !has_reverse(p, j, k) {
                assert(g[j2][k2] != t);
            }
            if seen(p, j2, k2, j, k) {
                let tt = m0.halfedges[g[j2][k2].0].twin->Some_0;
                assert(twin_of(p, g, bnd0, bj0, j2, k2, tt));
                if !has_reverse(p, j2, k2) {
                    let b = choose|b: int| 0 <= b < bnd0.len() && #[trigger] bj0[b] == (j2, k2) && tt == bnd0[b];
                    assert(bj1[b] == bj0[b] && bnd1[b] == bnd0[b]);
                }
            }
        }
    }
    assert forall|b: int| 0 <= b < bnd1.len() implies {
        let e = #[trigger] bj1[b];
        &&& seen(p, e.0, e.1, j, k + 1)
        &&& !has_reverse(p, e.0, e.1)
        &&& bsrc1[b] == dst(p, e.0, e.1)
        &&& btgt1[b] == src(p, e.0, e.1)
        &&& m1.halfedges.dom().contains(bnd1[b].0)
        &&& m1.halfedges[bnd1[b].0] == bare_boundary(p, vids, g, e)
    } by {
        if b < bnd0.len() {
            assert(bj1[b] == bj0[b]);
            let e = bj0[b];
            assert(bnd0[b] != h) by {
                assert(is_edge(p, j, k));
            }
            if !has_reverse(p, j, k) {
                assert(bnd0[b] != t) by {
                    assert(m0.halfedges.dom().contains(bnd0[b].0));
                }
            }
        }
    }
    assert forall|b: int, b2: int| 0 <= b < b2 < bnd1.len() implies bj1[b] != bj1[b2] && bnd1[b] != bnd1[b2] by {
        if b2 == bnd0.len() && !has_reverse(p, j, k) {
            assert(bj1[b] == bj0[b]);
            let e = bj0[b];
            assert(seen(p, e.0, e.1, j, k));
            assert(m0.halfedges.dom().contains(bnd0[b].0));
            assert(bj1[b2] == (j, k));
            assert(bnd1[b2] == t);
        } else {
            assert(bj1[b] == bj0[b] && bj1[b2] == bj0[b2]);
        }
    }
    assert forall|b: int, j2: int, k2: int| 0 <= b < bnd1.len() && is_edge(p, j2, k2) implies #[trigger] bnd1[b] != #[trigger] g[j2][k2] by {
        if b == bnd0.len() && !has_reverse(p, j, k) {
            assert(m0.halfedges.dom().contains(g[j2][k2].0));
        } else {
            assert(bnd1[b] == bnd0[b]);
        }
    }
    assert forall|x: u64| #[trigger] m1.halfedges.dom().contains(x) implies (exists|j2: int, k2: int| #![trigger g[j2][k2]] is_edge(p, j2, k2) && g[j2][k2].0 == x)
        || (exists|b: int| 0 <= b < bnd1.len() && #[trigger] bnd1[b].0 == x) by {
        if !has_reverse(p, j, k) && x == t.0 {
            assert(bnd1[bnd0.len() as int].0 == x);
        } else {
            assert(m0.halfedges.dom().contains(x));
            if exists|b: int| 0 <= b < bnd0.len() && #[trigger] bnd0[b].0 == x {
                let b = choose|b: int| 0 <= b < bnd0.len() && #[trigger] bnd0[b].0 == x;
                assert(bnd1[b].0 == x);
            }
        }
    }
}

/// Gives each interior half-edge its twin: the half-edge of the reverse
/// edge where there is one, else a new boundary half-edge.
fn link_twins(
    mesh: &mut HalfEdgeMesh,
    polygons: &[Vec<u32>],
    vids: &Vec<VertexId>,
    fids: &Vec<FaceId>,
    hids: &Vec<Vec<HalfEdgeId>>,
    pairs: &HashMap<u64, HalfEdgeId>,
) -> (r: (Vec<HalfEdgeId>, Vec<u32>, Vec<u32>, Ghost<Seq<(int, int)>>))
    requires
        old(mesh).well_formed(),
        old(mesh).connectivity@.links_valid(),
        first_bad_polygon(vids@.len(), polygons_view(polygons@), polygons@.len() as int) is None,
        vertices_state(old(mesh).connectivity@, vids@),
        fids@.len() == polygons@.len(),
        hids@.len() == polygons@.len(),
        forall|j: int| 0 <= j < polygons@.len() ==> (#[trigger] hids@[j])@.len() == polygons@[j]@.len(),
        distinct_edges(old(mesh).connectivity@, polygons_view(polygons@), nested_view(hids@)),
        forall|j: int, k: int| is_edge(polygons_view(polygons@), j, k) ==> old(mesh).connectivity@.halfedges[(#[trigger] nested_view(hids@)[j][k]).0]
            == linked_he(polygons_view(polygons@), vids@, fids@, nested_view(hids@), j, k),
        forall|x: u64| #[trigger] old(mesh).connectivity@.halfedges.dom().contains(x) ==> exists|j: int, k: int|
            #![trigger nested_view(hids@)[j][k]]
            is_edge(polygons_view(polygons@), j, k) && nested_view(hids@)[j][k].0 == x,
        old(mesh).connectivity@.halfedges.dom().len() == total_edges(polygons_view(polygons@), polygons@.len() as int),
        pairs_state(pairs@, polygons_view(polygons@), nested_view(hids@)),
        2 * total_edges(polygons_view(polygons@), polygons@.len() as int) + 3 < 0x1_0000_0000,
    ensures
        final(mesh).well_formed(),
        final(mesh).connectivity@.links_valid(),
        final(mesh).connectivity@.vertices == old(mesh).connectivity@.vertices,
        final(mesh).connectivity@.faces == old(mesh).connectivity@.faces,
        final(mesh).positions == old(mesh).positions,
        final(mesh).vertex_groups == old(mesh).vertex_groups,
        final(mesh).face_groups == old(mesh).face_groups,
        final(mesh).halfedge_groups == old(mesh).halfedge_groups,
        distinct_edges(final(mesh).connectivity@, polygons_view(polygons@), nested_view(hids@)),
        twin_state(final(mesh).connectivity@, polygons_view(polygons@), vids@, fids@, nested_view(hids@), r.0@, r.1@, r.2@, r.3@, polygons@.len() as int, 0),
{
    let ghost p = polygons_view(polygons@);
    let ghost g = nested_view(hids@);
    let ghost n = vids@.len();
    let mut bnd: Vec<HalfEdgeId> = Vec::new();
    let mut bsrc: Vec<u32> = Vec::new();
    let mut btgt: Vec<u32> = Vec::new();
    let ghost mut bj: Seq<(int, int)> = Seq::empty();
    proof {
        assert forall|x: u64| #[trigger] mesh.connectivity@.halfedges.dom().contains(x) implies (exists|j2: int, k2: int| #![trigger g[j2][k2]] is_edge(p, j2, k2) && g[j2][k2].0 == x)
            || (exists|b: int| 0 <= b < bnd@.len() && #[trigger] bnd@[b].0 == x) by {}
        assert forall|j2: int, k2: int| is_edge(p, j2, k2) implies !seen(p, j2, k2, 0, 0) by {}
    }
    let mut j: usize = 0;
    while j < polygons.len()
        invariant
            j <= polygons@.len(),
            p == polygons_view(polygons@),
            g == nested_view(hids@),
            n == vids@.len(),
            first_bad_polygon(n, p, p.len() as int) is None,
            vertices_state(mesh.connectivity@, vids@),
            fids@.len() == polygons@.len(),
            hids@.len() == polygons@.len(),
            forall|j2: int| 0 <= j2 < polygons@.len() ==> (#[trigger] hids@[j2])@.len() == polygons@[j2]@.len(),
            pairs_state(pairs@, p, g),
            2 * total_edges(p, p.len() as int) + 3 < 0x1_0000_0000,
            mesh.well_formed(),
            mesh.connectivity@.links_valid(),
            mesh.connectivity@.vertices == old(mesh).connectivity@.vertices,
            mesh.connectivity@.faces == old(mesh).connectivity@.faces,
            mesh.positions == old(mesh).positions,
            mesh.vertex_groups == old(mesh).vertex_groups,
            mesh.face_groups == old(mesh).face_groups,
            mesh.halfedge_groups == old(mesh).halfedge_groups,
            distinct_edges(mesh.connectivity@, p, g),
            twin_state(mesh.connectivity@, p, vids@, fids@, g, bnd@, bsrc@, btgt@, bj, j as int, 0),
        decreases polygons@.len() - j,
    {
        proof {
            lemma_poly_ok(n, p, j as int);
            lemma_total_edges_mono(p, j + 1, p.len() as int);
        }
        let poly = &polygons[j];
        let hs = &hids[j];
        assert(p[j as int] == poly@);
        assert(g[j as int] == hs@);
        let mut k: usize = 0;
        while k < poly.len()
            invariant
                j < polygons@.len(),
                p == polygons_view(polygons@),
                g == nested_view(hids@),
                p[j as int] == poly@,
                g[j as int] == hs@,
                hs@.len() == poly@.len(),
                poly@.len() >= 3,
                forall|k2: int| 0 <= k2 < poly@.len() ==> #[trigger] poly@[k2] < n,
                n == vids@.len(),
                k <= poly@.len(),
                total_edges(p, j + 1) <= total_edges(p, p.len() as int),
                vertices_state(mesh.connectivity@, vids@),
                pairs_state(pairs@, p, g),
                2 * total_edges(p, p.len() as int) + 3 < 0x1_0000_0000,
                mesh.well_formed(),
                mesh.connectivity@.links_valid(),
                mesh.connectivity@.vertices == old(mesh).connectivity@.vertices,
                mesh.connectivity@.faces == old(mesh).connectivity@.faces,
                mesh.positions == old(mesh).positions,
                mesh.vertex_groups == old(mesh).vertex_groups,
                mesh.face_groups == old(mesh).face_groups,
                mesh.halfedge_groups == old(mesh).halfedge_groups,
                distinct_edges(mesh.connectivity@, p, g),
                twin_state(mesh.connectivity@, p, vids@, fids@, g, bnd@, bsrc@, btgt@, bj, j as int, k as int),
            decreases poly@.len() - k,
        {
            let k1: usize = if k + 1 < poly.len() {
                k + 1
            } else {
                0
            };
            let a = poly[k];
            let b = poly[k1];
            let h = hs[k];
            assert(src(p, j as int, k as int) == a && dst(p, j as int, k as int) == b);
            assert(g[j as int][k as int] == h);
            let key = pack_exec(b, a);
            let ghost m0 = mesh.connectivity@;
            let ghost bnd0 = bnd@;
            let ghost bsrc0 = bsrc@;
            let ghost btgt0 = btgt@;
            let ghost bj0 = bj;
            proof {
                assert(mesh.connectivity@.halfedges.dom().contains(h.0));
            }
            let he = mesh.connectivity.halfedge(h);
            let found = pairs.get(&key);
            let t = match found {
                Some(t) => {
                    let t = *t;
                    proof {
                        let (j2, k2) = choose|j2: int, k2: int|
                            #![trigger g[j2][k2]]
                            is_edge(p, j2, k2) && pack(src(p, j2, k2), dst(p, j2, k2)) == key;
                        lemma_pack(src(p, j2, k2), dst(p, j2, k2), b, a);
                        assert(has_reverse(p, j as int, k as int));
                        assert(pairs@[pack(src(p, j2, k2), dst(p, j2, k2))] == g[j2][k2]);
                        assert(m0.halfedges.dom().contains(t.0));
                    }
                    mesh.connectivity.set_halfedge(h, HalfEdge { twin: Some(t), ..he });
                    t
                },
                None => {
                    proof {
                        assert(!has_reverse(p, j as int, k as int)) by {
                            if has_reverse(p, j as int, k as int) {
                                let (j2, k2) = choose|j2: int, k2: int|
                                    #![trigger src(p, j2, k2), dst(p, j2, k2)]
                                    is_edge(p, j2, k2) && src(p, j2, k2) == dst(p, j as int, k as int) && dst(p, j2, k2) == src(p, j as int, k as int);
                                assert(pairs@.contains_key(pack(src(p, j2, k2), dst(p, j2, k2))));
                            }
                        }
                        assert(m0.vertices.dom().contains(vids@[b as int].0));
                    }
                    let t = mesh.connectivity.alloc_halfedge(HalfEdge { twin: Some(h), next: None, vertex: Some(vids[b as usize]), face: None });
                    mesh.connectivity.set_halfedge(h, HalfEdge { twin: Some(t), ..he });
                    bnd.push(t);
                    bsrc.push(b);
                    btgt.push(a);
                    proof {
                        bj = bj.push((j as int, k as int));
                    }
                    t
                },
            };
            proof {
                if has_reverse(p, j as int, k as int) {
                    assert(bnd@ == bnd0 && bsrc@ == bsrc0 && btgt@ == btgt0 && bj == bj0);
                }
                lemma_twin_step(m0, mesh.connectivity@, p, vids@, fids@, g, bnd0, bsrc0, btgt0, bj0, bnd@, bsrc@, btgt@, bj, j as int, k as int, t);
            }
            k += 1;
        }
        proof {
            lemma_twin_regroup(mesh.connectivity@, p, vids@, fids@, g, bnd@, bsrc@, btgt@, bj, j as int);
        }
        j += 1;
    }
    (bnd, bsrc, btgt, Ghost(bj))
}

/// `nx` is a right `next` for boundary half-edge `b`: a boundary half-edge
/// leaving the vertex `b` reaches, or none where there is none.
pub open spec fn bnext_ok(bnd: Seq<HalfEdgeId>, bsrc: Seq<u32>, btgt: Seq<u32>, b: int, nx: Option<HalfEdgeId>) -> bool {
    match nx {
        Some(x) => exists|b2: int| 0 <= b2 < bnd.len() && #[trigger] bsrc[b2] == btgt[b] && x == bnd[b2],
        None => forall|b2: int| 0 <= b2 < bnd.len() ==> #[trigger] bsrc[b2] != btgt[b],
    }
}

/// The first boundary half-edge leaving vertex `a`.
fn find_leaving(bnd: &Vec<HalfEdgeId>, bsrc: &Vec<u32>, a: u32) -> (r: Option<HalfEdgeId>)
    requires
        bsrc@.len() == bnd@.len(),
    ensures
        match r {
            Some(x) => exists|b2: int| 0 <= b2 < bnd@.len() && #[trigger] bsrc@[b2] == a && x == bnd@[b2],
            None => forall|b2: int| 0 <= b2 < bnd@.len() ==> #[trigger] bsrc@[b2] != a,
        },
{
    let mut i: usize = 0;
    while i < bsrc.len()
        invariant
            bsrc@.len() == bnd@.len(),
            i <= bsrc@.len(),
            forall|b2: int| 0 <= b2 < i ==> #[trigger] bsrc@[b2] != a,
        decreases bsrc@.len() - i,
    {
        if bsrc[i] == a {
            return Some(bnd[i]);
        }
        i += 1;
    }
    None
}

/// Links each boundary half-edge to a boundary half-edge leaving the vertex
/// it reaches, where there is one.
fn link_boundary(mesh: &mut HalfEdgeMesh, bnd: &Vec<HalfEdgeId>, bsrc: &Vec<u32>, btgt: &Vec<u32>)
    requires
        old(mesh).well_formed(),
        old(mesh).connectivity@.links_valid(),
        bsrc@.len() == bnd@.len(),
        btgt@.len() == bnd@.len(),
        forall|b: int| 0 <= b < bnd@.len() ==> old(mesh).connectivity@.halfedges.dom().contains((#[trigger] bnd@[b]).0),
        forall|b: int, b2: int| 0 <= b < b2 < bnd@.len() ==> bnd@[b] != bnd@[b2],
    ensures
        final(mesh).well_formed(),
        final(mesh).connectivity@.links_valid(),
        final(mesh).connectivity@.vertices == old(mesh).connectivity@.vertices,
        final(mesh).connectivity@.faces == old(mesh).connectivity@.faces,
        final(mesh).connectivity@.halfedges.dom() == old(mesh).connectivity@.halfedges.dom(),
        final(mesh).positions == old(mesh).positions,
        final(mesh).vertex_groups == old(mesh).vertex_groups,
        final(mesh).face_groups == old(mesh).face_groups,
        final(mesh).halfedge_groups == old(mesh).halfedge_groups,
        forall|b: int| 0 <= b < bnd@.len() ==> {
            let he = final(mesh).connectivity@.halfedges[(#[trigger] bnd@[b]).0];
            &&& bnext_ok(bnd@, bsrc@, btgt@, b, he.next)
            &&& he == HalfEdge { next: he.next, ..old(mesh).connectivity@.halfedges[bnd@[b].0] }
        },
        forall|x: u64| #![trigger final(mesh).connectivity@.halfedges[x]] !(exists|b: int| 0 <= b < bnd@.len() && #[trigger] bnd@[b].0 == x)
            ==> final(mesh).connectivity@.halfedges[x] == old(mesh).connectivity@.halfedges[x],
{
    let ghost m0 = mesh.connectivity@;
    let mut c: usize = 0;
    while c < bnd.len()
        invariant
            c <= bnd@.len(),
            bsrc@.len() == bnd@.len(),
            btgt@.len() == bnd@.len(),
            m0 == old(mesh).connectivity@,
            forall|b: int| 0 <= b < bnd@.len() ==> m0.halfedges.dom().contains((#[trigger] bnd@[b]).0),
            forall|b: int, b2: int| 0 <= b < b2 < bnd@.len() ==> bnd@[b] != bnd@[b2],
            mesh.well_formed(),
            mesh.connectivity@.links_valid(),
            mesh.connectivity@.vertices == m0.vertices,
            mesh.connectivity@.faces == m0.faces,
            mesh.connectivity@.halfedges.dom() == m0.halfedges.dom(),
            mesh.positions == old(mesh).positions,
            mesh.vertex_groups == old(mesh).vertex_groups,
            mesh.face_groups == old(mesh).face_groups,
            mesh.halfedge_groups == old(mesh).halfedge_groups,
            forall|b: int| 0 <= b < bnd@.len() ==> {
                let he = mesh.connectivity@.halfedges[(#[trigger] bnd@[b]).0];
                &&& b < c ==> bnext_ok(bnd@, bsrc@, btgt@, b, he.next)
                &&& he == HalfEdge { next: if b < c { he.next } else { m0.halfedges[bnd@[b].0].next }, ..m0.halfedges[bnd@[b].0] }
            },
            forall|x: u64| #![trigger mesh.connectivity@.halfedges[x]] !(exists|b: int| 0 <= b < bnd@.len() && #[trigger] bnd@[b].0 == x)
                ==> mesh.connectivity@.halfedges[x] == m0.halfedges[x],
        decreases bnd@.len() - c,
    {
        let nx = find_leaving(bnd, bsrc, btgt[c]);
        let h = bnd[c];
        proof {
            assert(mesh.connectivity@.halfedges.dom().contains(h.0));
            if let Some(x) = nx {
                let b2 = choose|b2: int| 0 <= b2 < bnd@.len() && #[trigger] bsrc@[b2] == btgt@[c as int] && x == bnd@[b2];
                assert(mesh.connectivity@.halfedges.dom().contains(bnd@[b2].0));
            }
        }
        let he = mesh.connectivity.halfedge(h);
        let ghost before = mesh.connectivity@;
        mesh.connectivity.set_halfedge(h, HalfEdge { next: nx, ..he });
        proof {
            assert forall|b: int| 0 <= b < bnd@.len() implies {
                let he = mesh.connectivity@.halfedges[(#[trigger] bnd@[b]).0];
                &&& b < c + 1 ==> bnext_ok(bnd@, bsrc@, btgt@, b, he.next)
                &&& he == HalfEdge { next: if b < c + 1 { he.next } else { m0.halfedges[bnd@[b].0].next }, ..m0.halfedges[bnd@[b].0] }
            } by {
                if b != c {
                    if b < c {
                        assert(bnd@[b] != bnd@[c as int]);
                    } else {
                        assert(bnd@[c as int] != bnd@[b]);
                    }
                }
            }
            assert forall|x: u64| #![trigger mesh.connectivity@.halfedges[x]] !(exists|b: int| 0 <= b < bnd@.len() && #[trigger] bnd@[b].0 == x)
                implies mesh.connectivity@.halfedges[x] == m0.halfedges[x] by {
                if x == h.0 {
                    assert(bnd@[c as int].0 == x);
                }
                assert(before.halfedges[x] == m0.halfedges[x]);
            }
        }
        c += 1;
    }
}

/// The boundary half-edge of an edge without a reverse, after its `next`
/// is linked, is as `twin_ok` says.
proof fn lemma_boundary_ok(
    m: MeshView,
    p: Seq<Seq<u32>>,
    vids: Seq<VertexId>,
    fids: Seq<FaceId>,
    g: Seq<Seq<HalfEdgeId>>,
    bnd: Seq<HalfEdgeId>,
    bsrc: Seq<u32>,
    btgt: Seq<u32>,
    bj: Seq<(int, int)>,
    m3: MeshView,
    j: int,
    k: int,
)
    requires
        twin_state(m3, p, vids, fids, g, bnd, bsrc, btgt, bj, p.len() as int, 0),
        is_edge(p, j, k),
        !has_reverse(p, j, k),
        forall|b: int| 0 <= b < bnd.len() ==> {
            let he = m.halfedges[(#[trigger] bnd[b]).0];
            &&& bnext_ok(bnd, bsrc, btgt, b, he.next)
            &&& he == HalfEdge { next: he.next, ..m3.halfedges[bnd[b].0] }
        },
        forall|x: u64| #![trigger m.halfedges[x]] !(exists|b: int| 0 <= b < bnd.len() && #[trigger] bnd[b].0 == x) ==> m.halfedges[x] == m3.halfedges[x],
        m.halfedges.dom() == m3.halfedges.dom(),
    ensures
        m.halfedges[g[j][k].0].twin matches Some(t) && twin_ok(m, p, vids, g, j, k, t),
{
    assert(seen(p, j, k, p.len() as int, 0));
    assert(!(exists|b: int| 0 <= b < bnd.len() && #[trigger] bnd[b].0 == g[j][k].0)) by {
        if exists|b: int| 0 <= b < bnd.len() && #[trigger] bnd[b].0 == g[j][k].0 {
            let b = choose|b: int| 0 <= b < bnd.len() && #[trigger] bnd[b].0 == g[j][k].0;
            assert(bnd[b] != g[j][k]);
        }
    }
    assert(m.halfedges[g[j][k].0] == m3.halfedges[g[j][k].0]);
    let t = m3.halfedges[g[j][k].0].twin->Some_0;
    assert(twin_of(p, g, bnd, bj, j, k, t));
    let b = choose|b: int| 0 <= b < bnd.len() && #[trigger] bj[b] == (j, k) && t == bnd[b];
    let bt = m.halfedges[t.0];
    assert(bt == HalfEdge { next: bt.next, ..bare_boundary(p, vids, g, (j, k)) });
    assert(btgt[b] == src(p, j, k));
    match bt.next {
        Some(nb) => {
            let b2 = choose|b2: int| 0 <= b2 < bnd.len() && #[trigger] bsrc[b2] == btgt[b] && nb == bnd[b2];
            let e2 = bj[b2];
            assert(seen(p, e2.0, e2.1, p.len() as int, 0));
            assert(!(exists|b3: int| 0 <= b3 < bnd.len() && #[trigger] bnd[b3].0 == g[e2.0][e2.1].0)) by {
                if exists|b3: int| 0 <= b3 < bnd.len() && #[trigger] bnd[b3].0 == g[e2.0][e2.1].0 {
                    let b3 = choose|b3: int| 0 <= b3 < bnd.len() && #[trigger] bnd[b3].0 == g[e2.0][e2.1].0;
                    assert(bnd[b3] != g[e2.0][e2.1]);
                }
            }
            let t2 = m3.halfedges[g[e2.0][e2.1].0].twin->Some_0;
            assert(twin_of(p, g, bnd, bj, e2.0, e2.1, t2));
            let b3 = choose|b3: int| 0 <= b3 < bnd.len() && #[trigger] bj[b3] == (e2.0, e2.1) && t2 == bnd[b3];
            if b3 != b2 {
                if b3 < b2 {
                    assert(bj[b3] != bj[b2]);
                } else {
                    assert(bj[b2] != bj[b3]);
                }
            }
            assert(is_edge(p, e2.0, e2.1) && dst(p, e2.0, e2.1) == src(p, j, k) && !has_reverse(p, e2.0, e2.1)
                && m.halfedges[g[e2.0][e2.1].0].twin == Some(nb));
            assert(open_into(p, src(p, j, k)));
        },
        None => {
            if open_into(p, src(p, j, k)) {
                let (j2, k2) = choose|j2: int, k2: int| #![trigger dst(p, j2, k2)] is_edge(p, j2, k2) && dst(p, j2, k2) == src(p, j, k) && !has_reverse(p, j2, k2);
                assert(seen(p, j2, k2, p.len() as int, 0));
                let t2 = m3.halfedges[g[j2][k2].0].twin->Some_0;
                assert(twin_of(p, g, bnd, bj, j2, k2, t2));
                let b2 = choose|b2: int| 0 <= b2 < bnd.len() && #[trigger] bj[b2] == (j2, k2) && t2 == bnd[b2];
                assert(bsrc[b2] == btgt[b]);
            }
        },
    }
}

/// `r` is what building the polygons `p` over the positions `pos` gives: the
/// first reason they make no mesh, or their mesh.
pub open spec fn build_outcome(r: Result<HalfEdgeMesh, BuildError>, pos: Seq<Vec3>, p: Seq<Seq<u32>>) -> bool {
    match build_error(pos.len(), p) {
        Some(e) => r == Err::<HalfEdgeMesh, BuildError>(e),
        None => r matches Ok(mesh) && {
            &&& mesh.well_formed()
            &&& mesh.connectivity@.links_valid()
            &&& exists|vids: Seq<VertexId>, fids: Seq<FaceId>, hids: Seq<Seq<HalfEdgeId>>|
                #[trigger] built_as(mesh, pos, p, vids, fids, hids)
        },
    }
}

proof fn lemma_built(
    mesh: HalfEdgeMesh,
    pos: Seq<Vec3>,
    p: Seq<Seq<u32>>,
    vids: Seq<VertexId>,
    fids: Seq<FaceId>,
    g: Seq<Seq<HalfEdgeId>>,
    bnd: Seq<HalfEdgeId>,
    bsrc: Seq<u32>,
    btgt: Seq<u32>,
    bj: Seq<(int, int)>,
    m1: MeshView,
    m3: MeshView,
    pm: Map<u64, HalfEdgeId>,
)
    requires
        vids.len() == pos.len(),
        fids.len() == p.len(),
        g.len() == p.len(),
        forall|j: int| 0 <= j < p.len() ==> (#[trigger] g[j]).len() == p[j].len(),
        vertices_state(mesh.connectivity@, vids),
        forall|i: int| 0 <= i < vids.len() ==> mesh.positions.values().get((#[trigger] vids[i]).0) == Some(pos[i]),
        mesh.connectivity@.vertices == m1.vertices,
        interior_state(m1, pm, p, vids, fids, g, p.len() as int, 0),
        bare_faces(m1, fids),
        mesh.connectivity@.faces.dom() == m1.faces.dom(),
        forall|j: int| 0 <= j < fids.len() ==> mesh.connectivity@.faces[(#[trigger] fids[j]).0].halfedge == Some(g[j][0]),
        distinct_edges(m3, p, g),
        twin_state(m3, p, vids, fids, g, bnd, bsrc, btgt, bj, p.len() as int, 0),
        forall|b: int| 0 <= b < bnd.len() ==> {
            let he = mesh.connectivity@.halfedges[(#[trigger] bnd[b]).0];
            &&& bnext_ok(bnd, bsrc, btgt, b, he.next)
            &&& he == HalfEdge { next: he.next, ..m3.halfedges[bnd[b].0] }
        },
        forall|x: u64| #![trigger mesh.connectivity@.halfedges[x]] !(exists|b: int| 0 <= b < bnd.len() && #[trigger] bnd[b].0 == x)
            ==> mesh.connectivity@.halfedges[x] == m3.halfedges[x],
        mesh.connectivity@.halfedges.dom() == m3.halfedges.dom(),
    ensures
        built_as(mesh, pos, p, vids, fids, g),
{
    let m = mesh.connectivity@;
    assert forall|j: int, k: int| is_edge(p, j, k) implies #[trigger] interior_ok(m, p, vids, fids, g, j, k) by {
        assert(seen(p, j, k, p.len() as int, 0));
        assert(!(exists|b: int| 0 <= b < bnd.len() && #[trigger] bnd[b].0 == g[j][k].0)) by {
            if exists|b: int| 0 <= b < bnd.len() && #[trigger] bnd[b].0 == g[j][k].0 {
                let b = choose|b: int| 0 <= b < bnd.len() && #[trigger] bnd[b].0 == g[j][k].0;
                assert(bnd[b] != g[j][k]);
            }
        }
        assert(m.halfedges[g[j][k].0] == m3.halfedges[g[j][k].0]);
        if !has_reverse(p, j, k) {
            lemma_boundary_ok(m, p, vids, fids, g, bnd, bsrc, btgt, bj, m3, j, k);
        } else {
            let t = m3.halfedges[g[j][k].0].twin->Some_0;
            assert(twin_of(p, g, bnd, bj, j, k, t));
        }
    }
    assert forall|i: int| 0 <= i < vids.len() implies (m.vertices[(#[trigger] vids[i]).0].halfedge is None <==> !used_vertex(p, i)) by {
        assert(m1.vertices[vids[i].0].halfedge is None <==> !seen_from(p, i, p.len() as int, 0));
        if used_vertex(p, i) {
            let (j, k) = choose|j: int, k: int| #![trigger src(p, j, k)] is_edge(p, j, k) && src(p, j, k) == i;
            assert(seen(p, j, k, p.len() as int, 0));
        }
        if seen_from(p, i, p.len() as int, 0) {
            let (j, k) = choose|j: int, k: int| #![trigger src(p, j, k)] seen(p, j, k, p.len() as int, 0) && src(p, j, k) == i;
            assert(is_edge(p, j, k));
        }
    }
    assert forall|x: u64| m.faces.dom().contains(x) implies exists|j: int| 0 <= j < fids.len() && #[trigger] fids[j].0 == x by {
        assert(m1.faces.dom().contains(x));
    }
    assert forall|x: u64| #[trigger] m.halfedges.dom().contains(x) implies exists|j: int, k: int|
        #![trigger g[j][k]]
        is_edge(p, j, k) && (g[j][k].0 == x || (!has_reverse(p, j, k) && m.halfedges[g[j][k].0].twin == Some(HalfEdgeId(x)))) by {
        assert(m3.halfedges.dom().contains(x));
        if !(exists|j: int, k: int| #![trigger g[j][k]] is_edge(p, j, k) && g[j][k].0 == x) {
            let b = choose|b: int| 0 <= b < bnd.len() && #[trigger] bnd[b].0 == x;
            let e = bj[b];
            assert(seen(p, e.0, e.1, p.len() as int, 0));
            assert(interior_ok(m, p, vids, fids, g, e.0, e.1));
            assert(!(exists|b3: int| 0 <= b3 < bnd.len() && #[trigger] bnd[b3].0 == g[e.0][e.1].0)) by {
                if exists|b3: int| 0 <= b3 < bnd.len() && #[trigger] bnd[b3].0 == g[e.0][e.1].0 {
                    let b3 = choose|b3: int| 0 <= b3 < bnd.len() && #[trigger] bnd[b3].0 == g[e.0][e.1].0;
                    assert(bnd[b3] != g[e.0][e.1]);
                }
            }
            let t = m3.halfedges[g[e.0][e.1].0].twin->Some_0;
            assert(twin_of(p, g, bnd, bj, e.0, e.1, t));
            let b3 = choose|b3: int| 0 <= b3 < bnd.len() && #[trigger] bj[b3] == (e.0, e.1) && t == bnd[b3];
            if b3 != b {
                if b3 < b {
                    assert(bj[b3] != bj[b]);
                } else {
                    assert(bj[b] != bj[b3]);
                }
            }
            assert(is_edge(p, e.0, e.1) && !has_reverse(p, e.0, e.1) && m.halfedges[g[e.0][e.1].0].twin == Some(HalfEdgeId(x)));
        }
    }
    assert forall|i: int| 0 <= i < vids.len() implies (m.vertices[(#[trigger] vids[i]).0].halfedge matches Some(h) ==> exists|j: int, k: int|
        #![trigger g[j][k]]
        is_edge(p, j, k) && src(p, j, k) == i && h == g[j][k]) by {
        if let Some(h) = m1.vertices[vids[i].0].halfedge {
            let (j, k) = choose|j: int, k: int| #![trigger g[j][k]] seen(p, j, k, p.len() as int, 0) && src(p, j, k) == i && h == g[j][k];
            assert(is_edge(p, j, k));
        }
    }
}

impl HalfEdgeMesh {
    /// Builds a mesh from `positions` and `polygons`, each polygon listing
    /// the indices of its corners in order. Polygons that share an edge run
    /// along it in opposite directions and become neighbours; an edge that
    /// only one polygon has gets a boundary half-edge outside any face.
    pub fn build_from_polygons(positions: &[Vec3], polygons: &[Vec<u32>]) -> (r: Result<HalfEdgeMesh, BuildError>)
        requires
            positions@.len() + 3 < 0x1_0000_0000,
            polygons@.len() + 3 < 0x1_0000_0000,
            2 * total_edges(polygons_view(polygons@), polygons@.len() as int) + 3 < 0x1_0000_0000,
        ensures
            build_outcome(r, positions@, polygons_view(polygons@)),
    {
        let ghost p = polygons_view(polygons@);
        match check_polygons(positions.len(), polygons) {
            Some(e) => {
                return Err(e);
            },
            None => {},
        }
        let mut mesh = HalfEdgeMesh::new();
        proof {
            assert(mesh.connectivity@.vertices.dom() =~= Set::<u64>::empty());
        }
        let vids = alloc_positions(&mut mesh, positions);
        proof {
            assert(mesh.connectivity@.faces.dom() =~= Set::<u64>::empty());
            assert(mesh.connectivity@.halfedges.dom() =~= Set::<u64>::empty());
        }
        let (fids, hids, pairs) = match alloc_interior(&mut mesh, polygons, &vids) {
            Ok(x) => x,
            Err(e) => {
                return Err(e);
            },
        };
        let ghost g = nested_view(hids@);
        let ghost m1 = mesh.connectivity@;
        proof {
            assert forall|j: int| 0 <= j < polygons@.len() implies (#[trigger] polygons@[j])@.len() >= 3 by {
                lemma_poly_ok(vids@.len(), p, j);
            }
            assert forall|j2: int, k2: int| is_edge(p, j2, k2) implies seen(p, j2, k2, p.len() as int, 0) by {}
            assert(distinct_edges(m1, p, g));
            assert(pairs_state(pairs@, p, g));
        }
        link_interior(&mut mesh, polygons, &vids, &fids, &hids);
        let ghost m2 = mesh.connectivity@;
        proof {
            assert forall|x: u64| #[trigger] m2.halfedges.dom().contains(x) implies exists|j: int, k: int|
                #![trigger g[j][k]]
                is_edge(p, j, k) && g[j][k].0 == x by {
                assert(m1.halfedges.dom().contains(x));
            }
            assert(vertices_state(m2, vids@));
        }
        let (bnd, bsrc, btgt, Ghost(bj)) = link_twins(&mut mesh, polygons, &vids, &fids, &hids, &pairs);
        let ghost m3 = mesh.connectivity@;
        proof {
            assert forall|b: int| 0 <= b < bnd@.len() implies m3.halfedges.dom().contains((#[trigger] bnd@[b]).0) by {
                assert(bj[b] == bj[b]);
            }
        }
        link_boundary(&mut mesh, &bnd, &bsrc, &btgt);
        proof {
            assert(vertices_state(mesh.connectivity@, vids@));
            lemma_built(mesh, positions@, p, vids@, fids@, g, bnd@, bsrc@, btgt@, bj, m1, m3, pairs@);
        }
        Ok(mesh)
    }
}

proof fn lemma_total_edges_bound(p: Seq<Seq<u32>>, c: nat, jj: int)
    requires
        0 <= jj <= p.len(),
        forall|j: int| 0 <= j < p.len() ==> (#[trigger] p[j]).len() <= c,
    ensures
        total_edges(p, jj) <= c * jj,
    decreases jj,
{
    if jj > 0 {
        lemma_total_edges_bound(p, c, jj - 1);
        assert(c * (jj - 1) + c == c * jj) by (nonlinear_arith);
    }
}

/// A polygon with corners `a`, `b`, `c`.
fn tri(a: u32, b: u32, c: u32) -> (r: Vec<u32>)
    ensures
        r@ == seq![a, b, c],
{
    let mut v: Vec<u32> = Vec::new();
    v.push(a);
    v.push(b);
    v.push(c);
    v
}

/// A polygon with corners `a`, `b`, `c`, `d`.
fn quad(a: u32, b: u32, c: u32, d: u32) -> (r: Vec<u32>)
    ensures
        r@ == seq![a, b, c, d],
{
    let mut v: Vec<u32> = Vec::new();
    v.push(a);
    v.push(b);
    v.push(c);
    v.push(d);
    v
}

/// The faces of a box over its corners: bottom, top, front, back, left and
/// right.
pub open spec fn box_polygons() -> Seq<Seq<u32>> {
    seq![
        seq![0u32, 1, 2, 3],
        seq![4u32, 5, 6, 7],
        seq![4u32, 7, 1, 0],
        seq![3u32, 2, 6, 5],
        seq![5u32, 4, 0, 3],
        seq![6u32, 2, 1, 7],
    ]
}

/// An axis-aligned box.
pub struct Box;

impl Box {
    /// Builds a box over its eight `corners`: the four of the bottom, then
    /// the four of the top.
    pub fn build(corners: &[Vec3]) -> (r: Result<HalfEdgeMesh, BuildError>)
        requires
            corners@.len() + 3 < 0x1_0000_0000,
        ensures
            build_outcome(r, corners@, box_polygons()),
    {
        let mut polys: Vec<Vec<u32>> = Vec::new();
        polys.push(quad(0, 1, 2, 3));
        polys.push(quad(4, 5, 6, 7));
        polys.push(quad(4, 7, 1, 0));
        polys.push(quad(3, 2, 6, 5));
        polys.push(quad(5, 4, 0, 3));
        polys.push(quad(6, 2, 1, 7));
        proof {
            assert(polygons_view(polys@) =~= box_polygons());
            lemma_total_edges_bound(box_polygons(), 4, 6);
        }
        HalfEdgeMesh::build_from_polygons(corners, &polys)
    }
}

/// The twenty triangles of an icosahedron over its twelve corners.
pub open spec fn icosahedron_polygons() -> Seq<Seq<u32>> {
    seq![
        seq![0u32, 1, 3],
        seq![0u32, 2, 1],
        seq![1u32, 2, 4],
        seq![1u32, 5, 3],
        seq![1u32, 4, 5],
        seq![0u32, 3, 6],
        seq![0u32, 7, 2],
        seq![0u32, 6, 7],
        seq![2u32, 8, 4],
        seq![2u32, 7, 8],
        seq![3u32, 9, 6],
        seq![3u32, 5, 9],
        seq![4u32, 10, 5],
        seq![6u32, 11, 7],
        seq![4u32, 8, 10],
        seq![5u32, 10, 9],
        seq![6u32, 9, 11],
        seq![7u32, 11, 8],
        seq![8u32, 11, 10],
        seq![9u32, 10, 11],
    ]
}

/// A regular icosahedron.
pub struct Icosahedron;

impl Icosahedron {
    /// Builds an icosahedron over its twelve `corners`.
    pub fn build(corners: &[Vec3]) -> (r: Result<HalfEdgeMesh, BuildError>)
        requires
            corners@.len() + 3 < 0x1_0000_0000,
        ensures
            build_outcome(r, corners@, icosahedron_polygons()),
    {
        let mut polys: Vec<Vec<u32>> = Vec::new();
        polys.push(tri(0, 1, 3));
        polys.push(tri(0, 2, 1));
        polys.push(tri(1, 2, 4));
        polys.push(tri(1, 5, 3));
        polys.push(tri(1, 4, 5));
        polys.push(tri(0, 3, 6));
        polys.push(tri(0, 7, 2));
        polys.push(tri(0, 6, 7));
        polys.push(tri(2, 8, 4));
        polys.push(tri(2, 7, 8));
        polys.push(tri(3, 9, 6));
        polys.push(tri(3, 5, 9));
        polys.push(tri(4, 10, 5));
        polys.push(tri(6, 11, 7));
        polys.push(tri(4, 8, 10));
        polys.push(tri(5, 10, 9));
        polys.push(tri(6, 9, 11));
        polys.push(tri(7, 11, 8));
        polys.push(tri(8, 11, 10));
        polys.push(tri(9, 10, 11));
        proof {
            assert(polygons_view(polys@) =~= icosahedron_polygons());
            lemma_total_edges_bound(icosahedron_polygons(), 3, 20);
        }
        HalfEdgeMesh::build_from_polygons(corners, &polys)
    }
}

/// The polygon over the first `n` points, in order.
pub open spec fn ring_polygon(n: nat) -> Seq<u32> {
    Seq::new(n, |i: int| i as u32)
}

/// The polygon `0, 1, .., n - 1`.
fn ring(n: usize) -> (r: Vec<u32>)
    requires
        n < 0x1_0000_0000,
    ensures
        r@ == ring_polygon(n as nat),
{
    let mut v: Vec<u32> = Vec::new();
    let mut i: usize = 0;
    while i < n
        invariant
            i <= n,
            n < 0x1_0000_0000,
            v@ == ring_polygon(i as nat),
        decreases n - i,
    {
        v.push(i as u32);
        i += 1;
        assert(v@ =~= ring_polygon(i as nat));
    }
    v
}

/// A single quad.
pub struct Quad;

impl Quad {
    /// Builds a quad over its four `corners`, in order.
    pub fn build(corners: &[Vec3]) -> (r: Result<HalfEdgeMesh, BuildError>)
        requires
            corners@.len() + 3 < 0x1_0000_0000,
        ensures
            build_outcome(r, corners@, seq![seq![0u32, 1, 2, 3]]),
    {
        let mut polys: Vec<Vec<u32>> = Vec::new();
        polys.push(quad(0, 1, 2, 3));
        proof {
            assert(polygons_view(polys@) =~= seq![seq![0u32, 1, 2, 3]]);
            reveal_with_fuel(total_edges, 2);
        }
        HalfEdgeMesh::build_from_polygons(corners, &polys)
    }
}

/// A circle.
pub struct Circle;

impl Circle {
    /// Builds a filled circle over `verts`, its points in order: one face.
    pub fn build(verts: &[Vec3]) -> (r: Result<HalfEdgeMesh, BuildError>)
        requires
            verts@.len() + 3 < 0x8000_0000,
        ensures
            build_outcome(r, verts@, seq![ring_polygon(verts@.len())]),
    {
        let mut polys: Vec<Vec<u32>> = Vec::new();
        polys.push(ring(verts.len()));
        proof {
            assert(polygons_view(polys@) =~= seq![ring_polygon(verts@.len())]);
            reveal_with_fuel(total_edges, 2);
        }
        HalfEdgeMesh::build_from_polygons(verts, &polys)
    }
}

/// A single polygon.
pub struct Polygon;

impl Polygon {
    /// Builds one polygon over `points`, in order.
    pub fn build_from_points(points: &[Vec3]) -> (r: Result<HalfEdgeMesh, BuildError>)
        requires
            points@.len() + 3 < 0x8000_0000,
        ensures
            build_outcome(r, points@, seq![ring_polygon(points@.len())]),
    {
        Circle::build(points)
    }
}

/// The polygon `n - 1, .., 1, 0`.
pub open spec fn reversed_ring(n: nat) -> Seq<u32> {
    Seq::new(n, |i: int| (n - 1 - i) as u32)
}

/// The polygon `n, n + 1, .., 2n - 1`.
pub open spec fn shifted_ring(n: nat) -> Seq<u32> {
    Seq::new(n, |i: int| (n + i) as u32)
}

/// The side quad of a truncated cone between bottom corners `v`, `v + 1`
/// and the top corners above them.
pub open spec fn side_quad(n: nat, v: int) -> Seq<u32> {
    let v2 = (v + 1) % (n as int);
    seq![v as u32, v2 as u32, (n + v2) as u32, (n + v) as u32]
}

/// The side triangle of a cone between bottom corners `v`, `v + 1` and the
/// apex `n`.
pub open spec fn side_tri(n: nat, v: int) -> Seq<u32> {
    seq![v as u32, ((v + 1) % (n as int)) as u32, n as u32]
}

/// The faces of a truncated cone with `n` corners around: bottom, top, sides.
pub open spec fn truncated_cone_polygons(n: nat) -> Seq<Seq<u32>> {
    seq![reversed_ring(n), shifted_ring(n)] + Seq::new(n, |v: int| side_quad(n, v))
}

/// The faces of a cone with `n` corners around: bottom, sides.
pub open spec fn cone_polygons(n: nat) -> Seq<Seq<u32>> {
    seq![reversed_ring(n)] + Seq::new(n, |v: int| side_tri(n, v))
}

proof fn lemma_total_edges_tail(p: Seq<Seq<u32>>, s: int, c: nat, m: int)
    requires
        0 <= s,
        0 <= m,
        s + m <= p.len(),
        forall|j: int| s <= j < p.len() ==> (#[trigger] p[j]).len() == c,
    ensures
        total_edges(p, s + m) == total_edges(p, s) + c * m,
    decreases m,
{
    if m > 0 {
        lemma_total_edges_tail(p, s, c, m - 1);
        let j = s + m - 1;
        assert(total_edges(p, j + 1) == total_edges(p, j) + p[j].len());
        assert(p[j].len() == c);
        assert(c * (m - 1) + c == c * m) by (nonlinear_arith);
        assert(j + 1 == s + m);
    } else {
        assert(c * m == 0) by (nonlinear_arith)
            requires
                m == 0,
        ;
    }
}

/// The polygon `n - 1, .., 0`.
fn reversed(n: usize) -> (r: Vec<u32>)
    requires
        n < 0x1_0000_0000,
    ensures
        r@ == reversed_ring(n as nat),
{
    let mut v: Vec<u32> = Vec::new();
    let mut i: usize = 0;
    while i < n
        invariant
            i <= n,
            n < 0x1_0000_0000,
            v@ == reversed_ring(n as nat).take(i as int),
        decreases n - i,
    {
        v.push((n - 1 - i) as u32);
        i += 1;
        assert(v@ =~= reversed_ring(n as nat).take(i as int));
    }
    assert(v@ =~= reversed_ring(n as nat));
    v
}

/// The polygon `n, .., 2n - 1`.
fn shifted(n: usize) -> (r: Vec<u32>)
    requires
        n < 0x8000_0000,
    ensures
        r@ == shifted_ring(n as nat),
{
    let mut v: Vec<u32> = Vec::new();
    let mut i: usize = 0;
    while i < n
        invariant
            i <= n,
            n < 0x8000_0000,
            v@ == shifted_ring(n as nat).take(i as int),
        decreases n - i,
    {
        v.push((n + i) as u32);
        i += 1;
        assert(v@ =~= shifted_ring(n as nat).take(i as int));
    }
    assert(v@ =~= shifted_ring(n as nat));
    v
}

/// A cone, and a cone with its top cut off.
pub struct Cone;

impl Cone {
    /// Builds a cone over `verts`: `num_vertices` corners around the bottom,
    /// then the apex.
    pub fn build_cone(verts: &[Vec3], num_vertices: usize) -> (r: Result<HalfEdgeMesh, BuildError>)
        requires
            verts@.len() + 3 < 0x1_0000_0000,
            num_vertices < 0x1000_0000,
        ensures
            build_outcome(r, verts@, cone_polygons(num_vertices as nat)),
    {
        let n = num_vertices;
        let ghost ns = n as nat;
        let mut polys: Vec<Vec<u32>> = Vec::new();
        polys.push(reversed(n));
        let mut v: usize = 0;
        assert(polygons_view(polys@) =~= seq![reversed_ring(ns)] + Seq::new(0, |i: int| side_tri(ns, i)));
        while v < n
            invariant
                v <= n,
                n == num_vertices,
                ns == n as nat,
                n < 0x1000_0000,
                polygons_view(polys@) == seq![reversed_ring(ns)] + Seq::new(v as nat, |i: int| side_tri(ns, i)),
            decreases n - v,
        {
            let v2: usize = if v + 1 < n {
                v + 1
            } else {
                0
            };
            proof {
                if v + 1 < n {
                    vstd::arithmetic::div_mod::lemma_small_mod((v + 1) as nat, n as nat);
                } else {
                    vstd::arithmetic::div_mod::lemma_mod_self_0(n as int);
                }
            }
            assert(v2 == (v + 1) % (n as int));
            let t = tri(v as u32, v2 as u32, n as u32);
            assert(t@ =~= side_tri(ns, v as int));
            let ghost pv0 = polygons_view(polys@);
            polys.push(t);
            assert(polygons_view(polys@) =~= pv0.push(t@));
            assert(Seq::new((v + 1) as nat, |i: int| side_tri(ns, i)) =~= Seq::new(v as nat, |i: int| side_tri(ns, i)).push(side_tri(ns, v as int)));
            v += 1;
            assert(polygons_view(polys@) =~= seq![reversed_ring(ns)] + Seq::new(v as nat, |i: int| side_tri(ns, i)));
        }
        proof {
            let p = cone_polygons(ns);
            assert(polygons_view(polys@) == p);
            lemma_total_edges_tail(p, 1, 3, ns as int);
            reveal_with_fuel(total_edges, 2);
        }
        HalfEdgeMesh::build_from_polygons(verts, &polys)
    }

    /// Builds a truncated cone over `verts`: `num_vertices` corners around
    /// the bottom, then as many around the top.
    pub fn build_truncated_cone(verts: &[Vec3], num_vertices: usize) -> (r: Result<HalfEdgeMesh, BuildError>)
        requires
            verts@.len() + 3 < 0x1_0000_0000,
            num_vertices < 0x1000_0000,
        ensures
            build_outcome(r, verts@, truncated_cone_polygons(num_vertices as nat)),
    {
        let n = num_vertices;
        let ghost ns = n as nat;
        let mut polys: Vec<Vec<u32>> = Vec::new();
        polys.push(reversed(n));
        polys.push(shifted(n));
        let mut v: usize = 0;
        assert(polygons_view(polys@) =~= seq![reversed_ring(ns), shifted_ring(ns)] + Seq::new(0, |i: int| side_quad(ns, i)));
        while v < n
            invariant
                v <= n,
                n == num_vertices,
                ns == n as nat,
                n < 0x1000_0000,
                polygons_view(polys@) == seq![reversed_ring(ns), shifted_ring(ns)] + Seq::new(v as nat, |i: int| side_quad(ns, i)),
            decreases n - v,
        {
            let v2: usize = if v + 1 < n {
                v + 1
            } else {
                0
            };
            proof {
                if v + 1 < n {
                    vstd::arithmetic::div_mod::lemma_small_mod((v + 1) as nat, n as nat);
                } else {
                    vstd::arithmetic::div_mod::lemma_mod_self_0(n as int);
                }
            }
            assert(v2 == (v + 1) % (n as int));
            let q = quad(v as u32, v2 as u32, (n + v2) as u32, (n + v) as u32);
            assert(q@ =~= side_quad(ns, v as int));
            let ghost pv0 = polygons_view(polys@);
            polys.push(q);
            assert(polygons_view(polys@) =~= pv0.push(q@));
            assert(Seq::new((v + 1) as nat, |i: int| side_quad(ns, i)) =~= Seq::new(v as nat, |i: int| side_quad(ns, i)).push(side_quad(ns, v as int)));
            v += 1;
            assert(polygons_view(polys@) =~= seq![reversed_ring(ns), shifted_ring(ns)] + Seq::new(v as nat, |i: int| side_quad(ns, i)));
        }
        proof {
            let p = truncated_cone_polygons(ns);
            assert(polygons_view(polys@) == p);
            lemma_total_edges_tail(p, 2, 4, ns as int);
            reveal_with_fuel(total_edges, 3);
        }
        HalfEdgeMesh::build_from_polygons(verts, &polys)
    }
}

/// A cylinder.
pub struct Cylinder;

impl Cylinder {
    /// Builds a cylinder over `verts`: `num_vertices` corners around the
    /// bottom, then as many around the top.
    pub fn build(verts: &[Vec3], num_vertices: usize) -> (r: Result<HalfEdgeMesh, BuildError>)
        requires
            verts@.len() + 3 < 0x1_0000_0000,
            num_vertices < 0x1000_0000,
        ensures
            build_outcome(r, verts@, truncated_cone_polygons(num_vertices as nat)),
    {
        Cone::build_truncated_cone(verts, num_vertices)
    }
}

/// The top triangle `i` of a UV sphere with `s` segments.
pub open spec fn uv_top(s: nat, i: int) -> Seq<u32> {
    seq![0u32, ((i + 1) % (s as int) + 1) as u32, (i + 1) as u32]
}

/// The bottom triangle `i` of a UV sphere with `s` segments and `r` rings.
pub open spec fn uv_bottom(s: nat, r: nat, i: int) -> Seq<u32> {
    let base = s * (r - 2) + 1;
    seq![(1 + (r - 1) * s) as u32, (i + base) as u32, ((i + 1) % (s as int) + base) as u32]
}

/// The quad `i` of band `j` of a UV sphere with `s` segments.
pub open spec fn uv_quad(s: nat, j: int, i: int) -> Seq<u32> {
    let j0 = j * s + 1;
    let j1 = (j + 1) * s + 1;
    seq![(j0 + i) as u32, (j0 + (i + 1) % (s as int)) as u32, (j1 + (i + 1) % (s as int)) as u32, (j1 + i) as u32]
}

/// The quads of the first `jj` bands.
pub open spec fn uv_bands(s: nat, jj: int) -> Seq<Seq<u32>>
    decreases jj,
{
    if jj <= 0 {
        Seq::empty()
    } else {
        uv_bands(s, jj - 1) + Seq::new(s, |i: int| uv_quad(s, jj - 1, i))
    }
}

/// The faces of a UV sphere with `s` segments and `r` rings over its
/// vertices: the top, then `r - 1` rings of `s`, then the bottom. Top
/// triangles, bottom triangles, then the bands of quads.
pub open spec fn uv_sphere_polygons(s: nat, r: nat) -> Seq<Seq<u32>> {
    Seq::new(s, |i: int| uv_top(s, i)) + Seq::new(s, |i: int| uv_bottom(s, r, i)) + uv_bands(s, r - 2)
}

proof fn lemma_uv_bands_len(s: nat, jj: int)
    requires
        jj >= 0,
    ensures
        uv_bands(s, jj).len() == s * jj,
        forall|k: int| 0 <= k < uv_bands(s, jj).len() ==> (#[trigger] uv_bands(s, jj)[k]).len() == 4,
    decreases jj,
{
    if jj > 0 {
        lemma_uv_bands_len(s, jj - 1);
        assert(s * (jj - 1) + s == s * jj) by (nonlinear_arith);
        assert forall|k: int| 0 <= k < uv_bands(s, jj).len() implies (#[trigger] uv_bands(s, jj)[k]).len() == 4 by {
            if k >= uv_bands(s, jj - 1).len() {
                assert(uv_bands(s, jj)[k] == uv_quad(s, jj - 1, k - uv_bands(s, jj - 1).len()));
            } else {
                assert(uv_bands(s, jj)[k] == uv_bands(s, jj - 1)[k]);
            }
        }
    } else {
        assert(s * jj == 0) by (nonlinear_arith)
            requires
                jj == 0,
        ;
    }
}

/// Vertex `i` of ring `j` of a UV sphere with `s` segments: the rings come
/// after the top vertex, `s` vertices each.
pub open spec fn ring_v(s: nat, j: int, i: int) -> u32 {
    (j * s + 1 + i) as u32
}

/// Quad `i` of band `j` is polygon `j * s + i` of the bands.
proof fn lemma_uv_bands_at(s: nat, jj: int, j: int, i: int)
    requires
        0 <= j < jj,
        0 <= i < s,
    ensures
        uv_bands(s, jj).len() == s * jj,
        uv_bands(s, jj)[j * s + i] == uv_quad(s, j, i),
    decreases jj,
{
    lemma_uv_bands_len(s, jj);
    lemma_uv_bands_len(s, jj - 1);
    assert(s * (jj - 1) == (jj - 1) * s) by (nonlinear_arith);
    if j < jj - 1 {
        lemma_uv_bands_at(s, jj - 1, j, i);
        assert(j * s + i < (jj - 1) * s) by (nonlinear_arith)
            requires
                j < jj - 1,
                i < s,
        ;
    } else {
        assert(j * s == s * (jj - 1)) by (nonlinear_arith)
            requires
                j == jj - 1,
        ;
    }
}

/// The polygons of a UV sphere, by kind: top triangles, bottom triangles,
/// then the quads band after band, over the ring vertices.
proof fn lemma_uv_layout(s: nat, r: nat)
    requires
        s >= 3,
        r >= 2,
    ensures
        uv_sphere_polygons(s, r).len() == s * r,
        forall|i: int|
            0 <= i < s ==> #[trigger] uv_sphere_polygons(s, r)[i] == seq![0u32, ring_v(s, 0, (i + 1) % (s as int)), ring_v(s, 0, i)],
        forall|i: int|
            0 <= i < s ==> #[trigger] uv_sphere_polygons(s, r)[s + i] == seq![
                (1 + (r - 1) * s) as u32,
                ring_v(s, r - 2, i),
                ring_v(s, r - 2, (i + 1) % (s as int)),
            ],
        forall|j: int, i: int|
            0 <= j < r - 2 && 0 <= i < s ==> #[trigger] uv_sphere_polygons(s, r)[2 * s + j * s + i] == seq![
                ring_v(s, j, i),
                ring_v(s, j, (i + 1) % (s as int)),
                ring_v(s, j + 1, (i + 1) % (s as int)),
                ring_v(s, j + 1, i),
            ],
{
    let p = uv_sphere_polygons(s, r);
    lemma_uv_bands_len(s, r - 2);
    assert(2 * s + s * (r - 2) == s * r) by (nonlinear_arith);
    assert forall|i: int| 0 <= i < s implies #[trigger] p[i] == seq![0u32, ring_v(s, 0, (i + 1) % (s as int)), ring_v(s, 0, i)] by {
        assert(p[i] == uv_top(s, i));
        assert(0 * s == 0);
    }
    assert forall|i: int| 0 <= i < s implies #[trigger] p[s + i] == seq![
        (1 + (r - 1) * s) as u32,
        ring_v(s, r - 2, i),
        ring_v(s, r - 2, (i + 1) % (s as int)),
    ] by {
        assert(p[s + i] == uv_bottom(s, r, i));
        assert(s * (r - 2) == (r - 2) * s) by (nonlinear_arith);
    }
    assert forall|j: int, i: int| 0 <= j < r - 2 && 0 <= i < s implies #[trigger] p[2 * s + j * s + i] == seq![
        ring_v(s, j, i),
        ring_v(s, j, (i + 1) % (s as int)),
        ring_v(s, j + 1, (i + 1) % (s as int)),
        ring_v(s, j + 1, i),
    ] by {
        lemma_uv_bands_at(s, r - 2, j, i);
        assert(0 <= j * s + i < s * (r - 2)) by (nonlinear_arith)
            requires
                0 <= j < r - 2,
                0 <= i < s,
        ;
        assert(p[2 * s + j * s + i] == uv_bands(s, r - 2)[j * s + i]);
        assert((j + 1) * s == j * s + s) by (nonlinear_arith);
    }
}

/// Quad `i` of band `jj` lies among the polygons of the sphere.
proof fn lemma_quad_index(s: nat, r: nat, jj: int, i: int)
    requires
        0 <= jj < r - 2,
        0 <= i < s,
    ensures
        0 <= 2 * s + jj * s + i < s * r,
{
    assert(2 * s + jj * s + i < s * r) by (nonlinear_arith)
        requires
            0 <= jj < r - 2,
            0 <= i < s,
    ;
    assert(0 <= jj * s) by (nonlinear_arith)
        requires
            0 <= jj,
    ;
}

/// Stepping back one place round a ring of `s` and then forward again
/// comes back.
proof fn lemma_ring_back(s: nat, i: int)
    requires
        s >= 3,
        0 <= i < s,
    ensures
        0 <= (i + s - 1) % (s as int) < s,
        ((i + s - 1) % (s as int) + 1) % (s as int) == i,
        0 <= (i + 1) % (s as int) < s,
{
    let si = s as int;
    if i == 0 {
        vstd::arithmetic::div_mod::lemma_small_mod((si - 1) as nat, s);
        vstd::arithmetic::div_mod::lemma_mod_self_0(si);
    } else {
        vstd::arithmetic::div_mod::lemma_mod_add_multiples_vanish(i - 1, si);
        vstd::arithmetic::div_mod::lemma_small_mod((i - 1) as nat, s);
        vstd::arithmetic::div_mod::lemma_small_mod(i as nat, s);
    }
    vstd::arithmetic::div_mod::lemma_mod_bound(i + 1, si);
}

/// The vertex at level `l` of a UV sphere (the top at level 0, ring `l - 1`
/// in between, the bottom at level `r`), place `i` round its ring.
spec fn level_v(s: nat, r: nat, l: int, i: int) -> u32 {
    if l == 0 {
        0u32
    } else if l == r {
        (1 + (r - 1) * s) as u32
    } else {
        ring_v(s, l - 1, i)
    }
}

/// `(l, i)` names a vertex of the sphere.
spec fn level_ok(s: nat, r: nat, l: int, i: int) -> bool {
    ||| l == 0 && i == 0
    ||| l == r && i == 0
    ||| 1 <= l <= r - 1 && 0 <= i < s
}

/// Different levels and places are different vertices.
proof fn lemma_level_inj(s: nat, r: nat, l1: int, i1: int, l2: int, i2: int)
    requires
        s >= 3,
        r >= 2,
        s * r < 0x1000_0000,
        level_ok(s, r, l1, i1),
        level_ok(s, r, l2, i2),
        level_v(s, r, l1, i1) == level_v(s, r, l2, i2),
    ensures
        l1 == l2 && i1 == i2,
{
    assert((r - 1) * s < 0x1000_0000) by (nonlinear_arith)
        requires
            s * r < 0x1000_0000,
            r >= 2,
    ;
    if 1 <= l1 <= r - 1 {
        assert(0 <= (l1 - 1) * s <= (r - 2) * s) by (nonlinear_arith)
            requires
                1 <= l1 <= r - 1,
        ;
        assert((r - 2) * s + s == (r - 1) * s) by (nonlinear_arith);
    }
    if 1 <= l2 <= r - 1 {
        assert(0 <= (l2 - 1) * s <= (r - 2) * s) by (nonlinear_arith)
            requires
                1 <= l2 <= r - 1,
        ;
        assert((r - 2) * s + s == (r - 1) * s) by (nonlinear_arith);
    }
    if 1 <= l1 <= r - 1 && 1 <= l2 <= r - 1 {
        assert((l1 - 1) * s + i1 == (l2 - 1) * s + i2);
        assert(l1 == l2) by (nonlinear_arith)
            requires
                (l1 - 1) * s + i1 == (l2 - 1) * s + i2,
                0 <= i1 < s,
                0 <= i2 < s,
                1 <= l1,
                1 <= l2,
        ;
    }
}

/// One step round a ring of at least three places: distinct places step
/// to distinct places, and two places never step onto each other.
proof fn lemma_ring_step(s: nat)
    requires
        s >= 3,
    ensures
        forall|a: int, b: int|
            #![trigger (a + 1) % (s as int), (b + 1) % (s as int)]
            0 <= a < s && 0 <= b < s && (a + 1) % (s as int) == (b + 1) % (s as int) ==> a == b,
        forall|a: int, b: int|
            #![trigger (a + 1) % (s as int), (b + 1) % (s as int)]
            0 <= a < s && 0 <= b < s && (a + 1) % (s as int) == b ==> (b + 1) % (s as int) != a,
{
    let si = s as int;
    assert forall|a: int| 0 <= a < si implies #[trigger] ((a + 1) % si) == (if a + 1 == si { 0 } else { a + 1 }) by {
        if a + 1 == si {
            vstd::arithmetic::div_mod::lemma_mod_self_0(si);
        } else {
            vstd::arithmetic::div_mod::lemma_small_mod((a + 1) as nat, s);
        }
    }
}

/// The levels and places of the ends of edge `k` of polygon `j`.
spec fn edge_key(s: nat, r: nat, j: int, k: int) -> (int, int, int, int) {
    let si = s as int;
    if j < si {
        let i = j;
        let i1 = (i + 1) % si;
        if k == 0 {
            (0, 0, 1, i1)
        } else if k == 1 {
            (1, i1, 1, i)
        } else {
            (1, i, 0, 0)
        }
    } else if j < 2 * si {
        let i = j - si;
        let i1 = (i + 1) % si;
        if k == 0 {
            (r as int, 0, r - 1, i)
        } else if k == 1 {
            (r - 1, i, r - 1, i1)
        } else {
            (r - 1, i1, r as int, 0)
        }
    } else {
        let q = j - 2 * si;
        let jj = q / si;
        let i = q % si;
        let i1 = (i + 1) % si;
        if k == 0 {
            (jj + 1, i, jj + 1, i1)
        } else if k == 1 {
            (jj + 1, i1, jj + 2, i1)
        } else if k == 2 {
            (jj + 2, i1, jj + 2, i)
        } else {
            (jj + 2, i, jj + 1, i)
        }
    }
}

/// Each edge runs between the vertices its key names.
proof fn lemma_edge_key(s: nat, r: nat, j: int, k: int)
    requires
        s >= 3,
        r >= 2,
        is_edge(uv_sphere_polygons(s, r), j, k),
    ensures
        ({
            let e = edge_key(s, r, j, k);
            let p = uv_sphere_polygons(s, r);
            &&& level_ok(s, r, e.0, e.1)
            &&& level_ok(s, r, e.2, e.3)
            &&& src(p, j, k) == level_v(s, r, e.0, e.1)
            &&& dst(p, j, k) == level_v(s, r, e.2, e.3)
            &&& (j >= 2 * s ==> 0 <= (j - 2 * s) / (s as int) < r - 2 && j == 2 * s + ((j - 2 * s) / (s as int)) * s + (j - 2 * s) % (s as int))
        }),
{
    let p = uv_sphere_polygons(s, r);
    let si = s as int;
    lemma_uv_layout(s, r);
    if j < si {
        lemma_ring_back(s, j);
        assert(p[j] == seq![0u32, ring_v(s, 0, (j + 1) % si), ring_v(s, 0, j)]);
    } else if j < 2 * si {
        let i = j - si;
        lemma_ring_back(s, i);
        assert(p[si + i] == seq![(1 + (r - 1) * s) as u32, ring_v(s, r - 2, i), ring_v(s, r - 2, (i + 1) % si)]);
    } else {
        let q0 = j - 2 * si;
        let jj = q0 / si;
        let i = q0 % si;
        vstd::arithmetic::div_mod::lemma_fundamental_div_mod(q0, si);
        vstd::arithmetic::div_mod::lemma_mod_bound(q0, si);
        assert(q0 < si * (r - 2)) by {
            assert(2 * s + s * (r - 2) == s * r) by (nonlinear_arith);
        }
        assert(0 <= jj < r - 2) by (nonlinear_arith)
            requires
                q0 == si * jj + i,
                0 <= i < si,
                0 <= q0 < si * (r - 2),
                si >= 3,
        ;
        assert(j == 2 * si + jj * si + i) by (nonlinear_arith)
            requires
                q0 == si * jj + i,
                q0 == j - 2 * si,
        ;
        lemma_ring_back(s, i);
        assert(p[j] == seq![ring_v(s, jj, i), ring_v(s, jj, (i + 1) % si), ring_v(s, jj + 1, (i + 1) % si), ring_v(s, jj + 1, i)]);
    }
}

/// No two edges of a UV sphere run from the same vertex to the same vertex.
proof fn lemma_uv_edges_distinct(s: nat, r: nat, j: int, k: int, j2: int, k2: int)
    requires
        s >= 3,
        r >= 2,
        s * r < 0x1000_0000,
        is_edge(uv_sphere_polygons(s, r), j, k),
        is_edge(uv_sphere_polygons(s, r), j2, k2),
        src(uv_sphere_polygons(s, r), j, k) == src(uv_sphere_polygons(s, r), j2, k2),
        dst(uv_sphere_polygons(s, r), j, k) == dst(uv_sphere_polygons(s, r), j2, k2),
    ensures
        j == j2 && k == k2,
{
    lemma_edge_key(s, r, j, k);
    lemma_edge_key(s, r, j2, k2);
    let e = edge_key(s, r, j, k);
    let e2 = edge_key(s, r, j2, k2);
    lemma_level_inj(s, r, e.0, e.1, e2.0, e2.1);
    lemma_level_inj(s, r, e.2, e.3, e2.2, e2.3);
    lemma_ring_step(s);
    lemma_uv_layout(s, r);
    let p = uv_sphere_polygons(s, r);
    assert(p[j].len() == 3 || p[j].len() == 4);
}

/// Every vertex that a level and place name is one of the first
/// `(r - 1) * s + 2`.
proof fn lemma_level_bound(s: nat, r: nat, l: int, i: int)
    requires
        s >= 3,
        r >= 2,
        s * r < 0x1000_0000,
        level_ok(s, r, l, i),
    ensures
        (level_v(s, r, l, i) as int) < (r - 1) * s + 2,
{
    assert((r - 1) * s < 0x1000_0000) by (nonlinear_arith)
        requires
            s * r < 0x1000_0000,
            r >= 2,
    ;
    if 1 <= l <= r - 1 {
        assert(0 <= (l - 1) * s <= (r - 2) * s) by (nonlinear_arith)
            requires
                1 <= l <= r - 1,
        ;
        assert((r - 2) * s + s == (r - 1) * s) by (nonlinear_arith);
    }
}

/// With no edge repeated, the first `kk` edges of polygon `j` hold no
/// repeated edge.
proof fn lemma_first_dup_in_none(p: Seq<Seq<u32>>, j: int, kk: int)
    requires
        0 <= j < p.len(),
        0 <= kk <= p[j].len(),
        forall|j2: int, k2: int| #[trigger] is_edge(p, j2, k2) ==> !dup_at(p, j2, k2),
    ensures
        first_dup_in(p, j, kk) is None,
    decreases kk,
{
    if kk > 0 {
        lemma_first_dup_in_none(p, j, kk - 1);
        assert(is_edge(p, j, kk - 1));
    }
}

/// With no edge repeated, the first `jj` polygons hold no repeated edge.
proof fn lemma_first_dup_none(p: Seq<Seq<u32>>, jj: int)
    requires
        0 <= jj <= p.len(),
        forall|j2: int, k2: int| #[trigger] is_edge(p, j2, k2) ==> !dup_at(p, j2, k2),
    ensures
        first_dup(p, jj) is None,
    decreases jj,
{
    if jj > 0 {
        lemma_first_dup_none(p, jj - 1);
        lemma_first_dup_in_none(p, jj - 1, p[jj - 1].len() as int);
    }
}

/// The first `jj` polygons of a UV sphere are large enough and name only
/// vertices below `n`.
proof fn lemma_uv_polygons_fit(s: nat, r: nat, n: nat, jj: int)
    requires
        s >= 3,
        r >= 2,
        s * r < 0x1000_0000,
        n >= (r - 1) * s + 2,
        0 <= jj <= s * r,
    ensures
        first_bad_polygon(n, uv_sphere_polygons(s, r), jj) is None,
    decreases jj,
{
    if jj > 0 {
        lemma_uv_polygons_fit(s, r, n, jj - 1);
        let p = uv_sphere_polygons(s, r);
        let j = jj - 1;
        let si = s as int;
        lemma_uv_layout(s, r);
        lemma_uv_bands_len(s, r - 2);
        if j < si {
            assert(p[j] == seq![0u32, ring_v(s, 0, (j + 1) % si), ring_v(s, 0, j)]);
        } else if j < 2 * si {
            assert(p[si + (j - si)] == seq![
                (1 + (r - 1) * s) as u32,
                ring_v(s, r - 2, j - si),
                ring_v(s, r - 2, (j - si + 1) % si),
            ]);
        } else {
            assert(p[j] == uv_bands(s, r - 2)[j - 2 * si]);
        }
        assert(p[j].len() >= 3);
        assert forall|k: int| 0 <= k < p[j].len() implies #[trigger] p[j][k] < n by {
            lemma_edge_key(s, r, j, k);
            let e = edge_key(s, r, j, k);
            lemma_level_bound(s, r, e.0, e.1);
        }
    }
}

/// A UV sphere of at least three segments and two rings makes a mesh over
/// any positions that reach its last vertex: no polygon is too small or
/// names a missing vertex, and no edge is run twice in the same direction.
pub proof fn lemma_uv_sphere_builds(s: nat, r: nat, n: nat)
    requires
        s >= 3,
        r >= 2,
        s * r < 0x1000_0000,
        n >= (r - 1) * s + 2,
    ensures
        build_error(n, uv_sphere_polygons(s, r)) is None,
{
    let p = uv_sphere_polygons(s, r);
    lemma_uv_layout(s, r);
    lemma_uv_polygons_fit(s, r, n, (s * r) as int);
    assert forall|j: int, k: int| #[trigger] is_edge(p, j, k) implies !dup_at(p, j, k) by {
        if dup_at(p, j, k) {
            let (j2, k2) = choose|j2: int, k2: int|
                #![trigger src(p, j2, k2), dst(p, j2, k2)]
                is_edge(p, j2, k2) && lex_before(j2, k2, j, k) && src(p, j2, k2) == src(p, j, k) && dst(p, j2, k2) == dst(p, j, k);
            lemma_uv_edges_distinct(s, r, j, k, j2, k2);
        }
    }
    lemma_first_dup_none(p, p.len() as int);
}

/// A UV sphere is closed: every edge of its polygons is run the other way
/// by another polygon, so the sphere has no boundary; and it has one
/// polygon per segment and ring.
pub proof fn lemma_uv_sphere_closed(s: nat, r: nat)
    requires
        s >= 3,
        r >= 2,
    ensures
        uv_sphere_polygons(s, r).len() == s * r,
        forall|j: int, k: int| #[trigger] is_edge(uv_sphere_polygons(s, r), j, k) ==> has_reverse(uv_sphere_polygons(s, r), j, k),
{
    let p = uv_sphere_polygons(s, r);
    let si = s as int;
    lemma_uv_layout(s, r);
    assert forall|j: int, k: int| #[trigger] is_edge(p, j, k) implies has_reverse(p, j, k) by {
        if j < si {
            let i = j;
            lemma_ring_back(s, i);
            let i1 = (i + 1) % si;
            let i0 = (i + si - 1) % si;
            assert(p[i] == seq![0u32, ring_v(s, 0, i1), ring_v(s, 0, i)]);
            assert(p[i1] == seq![0u32, ring_v(s, 0, (i1 + 1) % si), ring_v(s, 0, i1)]);
            assert(p[i0] == seq![0u32, ring_v(s, 0, (i0 + 1) % si), ring_v(s, 0, i0)]);
            if k == 0 {
                assert(is_edge(p, i1, 2) && src(p, i1, 2) == dst(p, j, k) && dst(p, i1, 2) == src(p, j, k));
            } else if k == 1 {
                if r == 2 {
                    assert(p[si + i] == seq![(1 + (r - 1) * s) as u32, ring_v(s, 0, i), ring_v(s, 0, i1)]);
                    assert(is_edge(p, si + i, 1) && src(p, si + i, 1) == dst(p, j, k) && dst(p, si + i, 1) == src(p, j, k));
                } else {
                    let q = 2 * si + 0 * si + i;
                    lemma_quad_index(s, r, 0, i);
                    assert(p[q] == seq![ring_v(s, 0, i), ring_v(s, 0, i1), ring_v(s, 1, i1), ring_v(s, 1, i)]);
                    assert(is_edge(p, q, 0) && src(p, q, 0) == dst(p, j, k) && dst(p, q, 0) == src(p, j, k));
                }
            } else {
                assert(is_edge(p, i0, 0) && src(p, i0, 0) == dst(p, j, k) && dst(p, i0, 0) == src(p, j, k));
            }
        } else if j < 2 * si {
            let i = j - si;
            lemma_ring_back(s, i);
            let i1 = (i + 1) % si;
            let i0 = (i + si - 1) % si;
            let bt = (1 + (r - 1) * s) as u32;
            assert(p[si + i] == seq![bt, ring_v(s, r - 2, i), ring_v(s, r - 2, i1)]);
            assert(p[si + i1] == seq![bt, ring_v(s, r - 2, i1), ring_v(s, r - 2, (i1 + 1) % si)]);
            assert(p[si + i0] == seq![bt, ring_v(s, r - 2, i0), ring_v(s, r - 2, (i0 + 1) % si)]);
            if k == 0 {
                assert(is_edge(p, si + i0, 2) && src(p, si + i0, 2) == dst(p, j, k) && dst(p, si + i0, 2) == src(p, j, k));
            } else if k == 1 {
                if r == 2 {
                    assert(p[i] == seq![0u32, ring_v(s, 0, i1), ring_v(s, 0, i)]);
                    assert(is_edge(p, i, 1) && src(p, i, 1) == dst(p, j, k) && dst(p, i, 1) == src(p, j, k));
                } else {
                    let jj = r - 3;
                    let q = 2 * si + jj * si + i;
                    lemma_quad_index(s, r, jj, i);
                    assert(p[q] == seq![ring_v(s, jj, i), ring_v(s, jj, i1), ring_v(s, jj + 1, i1), ring_v(s, jj + 1, i)]);
                    assert(is_edge(p, q, 2) && src(p, q, 2) == dst(p, j, k) && dst(p, q, 2) == src(p, j, k));
                }
            } else {
                assert(is_edge(p, si + i1, 0) && src(p, si + i1, 0) == dst(p, j, k) && dst(p, si + i1, 0) == src(p, j, k));
            }
        } else {
            let q0 = j - 2 * si;
            let jj = q0 / si;
            let i = q0 % si;
            vstd::arithmetic::div_mod::lemma_fundamental_div_mod(q0, si);
            vstd::arithmetic::div_mod::lemma_mod_bound(q0, si);
            assert(q0 < si * (r - 2)) by {
                assert(2 * s + s * (r - 2) == s * r) by (nonlinear_arith);
            }
            assert(0 <= jj < r - 2) by (nonlinear_arith)
                requires
                    q0 == si * jj + i,
                    0 <= i < si,
                    0 <= q0 < si * (r - 2),
                    si >= 3,
            ;
            assert(j == 2 * si + jj * si + i) by (nonlinear_arith)
                requires
                    q0 == si * jj + i,
                    q0 == j - 2 * si,
            ;
            lemma_ring_back(s, i);
            let i1 = (i + 1) % si;
            let i0 = (i + si - 1) % si;
            assert(p[j] == seq![ring_v(s, jj, i), ring_v(s, jj, i1), ring_v(s, jj + 1, i1), ring_v(s, jj + 1, i)]);
            if k == 0 {
                if jj == 0 {
                    assert(p[i] == seq![0u32, ring_v(s, 0, i1), ring_v(s, 0, i)]);
                    assert(is_edge(p, i, 1) && src(p, i, 1) == dst(p, j, k) && dst(p, i, 1) == src(p, j, k));
                } else {
                    let q = 2 * si + (jj - 1) * si + i;
                    lemma_quad_index(s, r, (jj - 1), i);
                    assert(p[q] == seq![ring_v(s, jj - 1, i), ring_v(s, jj - 1, i1), ring_v(s, jj - 1 + 1, i1), ring_v(s, jj - 1 + 1, i)]);
                    assert(is_edge(p, q, 2) && src(p, q, 2) == dst(p, j, k) && dst(p, q, 2) == src(p, j, k));
                }
            } else if k == 1 {
                let q = 2 * si + jj * si + i1;
                lemma_quad_index(s, r, jj, i1);
                assert(p[q] == seq![ring_v(s, jj, i1), ring_v(s, jj, (i1 + 1) % si), ring_v(s, jj + 1, (i1 + 1) % si), ring_v(s, jj + 1, i1)]);
                assert(is_edge(p, q, 3) && src(p, q, 3) == dst(p, j, k) && dst(p, q, 3) == src(p, j, k));
            } else if k == 2 {
                if jj + 1 == r - 2 {
                    let bt = (1 + (r - 1) * s) as u32;
                    assert(p[si + i] == seq![bt, ring_v(s, r - 2, i), ring_v(s, r - 2, i1)]);
                    assert(is_edge(p, si + i, 1) && src(p, si + i, 1) == dst(p, j, k) && dst(p, si + i, 1) == src(p, j, k));
                } else {
                    let q = 2 * si + (jj + 1) * si + i;
                    lemma_quad_index(s, r, (jj + 1), i);
                    assert(p[q] == seq![ring_v(s, jj + 1, i), ring_v(s, jj + 1, i1), ring_v(s, jj + 1 + 1, i1), ring_v(s, jj + 1 + 1, i)]);
                    assert(is_edge(p, q, 0) && src(p, q, 0) == dst(p, j, k) && dst(p, q, 0) == src(p, j, k));
                }
            } else {
                let q = 2 * si + jj * si + i0;
                lemma_quad_index(s, r, jj, i0);
                assert(p[q] == seq![ring_v(s, jj, i0), ring_v(s, jj, (i0 + 1) % si), ring_v(s, jj + 1, (i0 + 1) % si), ring_v(s, jj + 1, i0)]);
                assert(is_edge(p, q, 1) && src(p, q, 1) == dst(p, j, k) && dst(p, q, 1) == src(p, j, k));
            }
        }
    }
}

/// A UV sphere.
pub struct UVSphere;

impl UVSphere {
    /// Builds a UV sphere with `segments` around and `rings` from pole to
    /// pole over `verts`: the top, then `rings - 1` rings of `segments`
    /// vertices, then the bottom.
    pub fn build(verts: &[Vec3], segments: u32, rings: u32) -> (r: Result<HalfEdgeMesh, BuildError>)
        requires
            verts@.len() + 3 < 0x1_0000_0000,
            rings >= 2,
            segments * rings < 0x1000_0000,
        ensures
            build_outcome(r, verts@, uv_sphere_polygons(segments as nat, rings as nat)),
            uv_sphere_polygons(segments as nat, rings as nat).len() == segments * rings,
            segments >= 3 && verts@.len() >= (rings - 1) * segments + 2 ==> r is Ok,
            segments >= 3 ==> forall|j: int, k: int|
                #[trigger] is_edge(uv_sphere_polygons(segments as nat, rings as nat), j, k) ==> has_reverse(
                    uv_sphere_polygons(segments as nat, rings as nat),
                    j,
                    k,
                ),
    {
        proof {
            if segments >= 3 {
                lemma_uv_sphere_closed(segments as nat, rings as nat);
                if verts@.len() >= (rings - 1) * segments + 2 {
                    lemma_uv_sphere_builds(segments as nat, rings as nat, verts@.len());
                }
            } else {
                lemma_uv_bands_len(segments as nat, rings - 2);
                assert(2 * segments + segments * (rings - 2) == segments * rings) by (nonlinear_arith);
            }
        }
        let s = segments;
        let ghost sn = s as nat;
        let ghost rn = rings as nat;
        proof {
            assert(sn < 0x800_0000) by (nonlinear_arith)
                requires
                    sn * rn < 0x1000_0000,
                    rn >= 2,
            ;
            assert((rn - 1) * sn <= sn * rn) by (nonlinear_arith)
                requires
                    rn >= 2,
            ;
            assert(sn * (rn - 2) <= sn * rn) by (nonlinear_arith)
                requires
                    rn >= 2,
            ;
            assert((rn - 1) * sn == sn * (rn - 2) + sn) by (nonlinear_arith);
        }
        let mut polys: Vec<Vec<u32>> = Vec::new();
        let mut i: u32 = 0;
        while i < s
            invariant
                i <= s,
                s == segments,
                sn == s as nat,
                sn < 0x800_0000,
                polygons_view(polys@) == Seq::new(i as nat, |k: int| uv_top(sn, k)),
            decreases s - i,
        {
            let i1: u32 = if i + 1 < s {
                i + 1
            } else {
                0
            };
            proof {
                if i + 1 < s {
                    vstd::arithmetic::div_mod::lemma_small_mod((i + 1) as nat, sn);
                } else {
                    vstd::arithmetic::div_mod::lemma_mod_self_0(sn as int);
                }
            }
            let t = tri(0, i1 + 1, i + 1);
            assert(t@ =~= uv_top(sn, i as int));
            let ghost pv0 = polygons_view(polys@);
            polys.push(t);
            assert(polygons_view(polys@) =~= pv0.push(t@));
            i += 1;
            assert(polygons_view(polys@) =~= Seq::new(i as nat, |k: int| uv_top(sn, k)));
        }
        let ghost tops = polygons_view(polys@);
        let bottom = 1 + (rings - 1) * s;
        let base = s * (rings - 2) + 1;
        let mut i: u32 = 0;
        while i < s
            invariant
                i <= s,
                s == segments,
                sn == s as nat,
                rn == rings as nat,
                rn >= 2,
                sn < 0x800_0000,
                sn * rn < 0x1000_0000,
                bottom == 1 + (rn - 1) * sn,
                base == sn * (rn - 2) + 1,
                base <= bottom,
                bottom == base + sn,
                bottom <= 0x1000_0000,
                tops == Seq::new(sn, |k: int| uv_top(sn, k)),
                polygons_view(polys@) == tops + Seq::new(i as nat, |k: int| uv_bottom(sn, rn, k)),
            decreases s - i,
        {
            let i1: u32 = if i + 1 < s {
                i + 1
            } else {
                0
            };
            proof {
                if i + 1 < s {
                    vstd::arithmetic::div_mod::lemma_small_mod((i + 1) as nat, sn);
                } else {
                    vstd::arithmetic::div_mod::lemma_mod_self_0(sn as int);
                }
            }
            let t = tri(bottom, i + base, i1 + base);
            assert(t@ =~= uv_bottom(sn, rn, i as int));
            let ghost pv0 = polygons_view(polys@);
            polys.push(t);
            assert(polygons_view(polys@) =~= pv0.push(t@));
            i += 1;
            assert(polygons_view(polys@) =~= tops + Seq::new(i as nat, |k: int| uv_bottom(sn, rn, k)));
        }
        let ghost caps = polygons_view(polys@);
        let mut j: u32 = 0;
        while j + 2 < rings
            invariant
                j + 2 <= rings,
                s == segments,
                sn == s as nat,
                rn == rings as nat,
                rn >= 2,
                sn < 0x800_0000,
                sn * rn < 0x1000_0000,
                caps == Seq::new(sn, |k: int| uv_top(sn, k)) + Seq::new(sn, |k: int| uv_bottom(sn, rn, k)),
                polygons_view(polys@) == caps + uv_bands(sn, j as int),
            decreases rings - j,
        {
            proof {
                assert((j + 2) * sn <= sn * rn) by (nonlinear_arith)
                    requires
                        j + 2 <= rn,
                ;
                assert(j * sn + sn == (j + 1) * sn) by (nonlinear_arith);
                assert((j + 1) * sn + sn == (j + 2) * sn) by (nonlinear_arith);
            }
            let j0 = j * s + 1;
            let j1 = (j + 1) * s + 1;
            let ghost before = polygons_view(polys@);
            let mut i: u32 = 0;
            while i < s
                invariant
                    i <= s,
                    s == segments,
                    sn == s as nat,
                    sn < 0x800_0000,
                    j0 == j * sn + 1,
                    j1 == (j + 1) * sn + 1,
                    j1 + sn <= 0x1000_0000,
                    j0 + sn == j1,
                    polygons_view(polys@) == before + Seq::new(i as nat, |k: int| uv_quad(sn, j as int, k)),
                decreases s - i,
            {
                let i1: u32 = if i + 1 < s {
                    i + 1
                } else {
                    0
                };
                proof {
                    if i + 1 < s {
                        vstd::arithmetic::div_mod::lemma_small_mod((i + 1) as nat, sn);
                    } else {
                        vstd::arithmetic::div_mod::lemma_mod_self_0(sn as int);
                    }
                }
                let q = quad(j0 + i, j0 + i1, j1 + i1, j1 + i);
                assert(q@ =~= uv_quad(sn, j as int, i as int));
                let ghost pv0 = polygons_view(polys@);
                polys.push(q);
                assert(polygons_view(polys@) =~= pv0.push(q@));
                i += 1;
                assert(polygons_view(polys@) =~= before + Seq::new(i as nat, |k: int| uv_quad(sn, j as int, k)));
            }
            proof {
                assert(uv_bands(sn, j + 1) == uv_bands(sn, j as int) + Seq::new(sn, |k: int| uv_quad(sn, j as int, k)));
                assert(polygons_view(polys@) =~= caps + uv_bands(sn, j + 1));
            }
            j += 1;
        }
        proof {
            let p = uv_sphere_polygons(sn, rn);
            assert(polygons_view(polys@) =~= p);
            lemma_uv_bands_len(sn, rn - 2);
            assert forall|k: int| 0 <= k < p.len() implies (#[trigger] p[k]).len() <= 4 by {
                if k >= 2 * sn {
                    assert(p[k] == uv_bands(sn, rn - 2)[k - 2 * sn]);
                }
            }
            lemma_total_edges_bound(p, 4, p.len() as int);
            assert(4 * p.len() < 0x1000_0000 * 4) by (nonlinear_arith)
                requires
                    p.len() == 2 * sn + sn * (rn - 2),
                    sn * rn < 0x1000_0000,
                    rn >= 2,
            ;
        }
        HalfEdgeMesh::build_from_polygons(verts, &polys)
    }
}

} // verus!
