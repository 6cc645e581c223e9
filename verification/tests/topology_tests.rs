use blackjack::edit_ops::lua_fns;
use blackjack::edit_ops::{add_edge_chain, bridge_chains};
use blackjack::edit_ops::{bevel_edges_connectivity, chamfer_vertex, extrude_faces_connectivity};
use blackjack::edit_ops::curve::polyline_mesh;
use blackjack::edit_ops::{collapse_edge, cut_face, dissolve_vertex, make_quad, sort_bag_of_edges, EditError};
use blackjack::halfedge::{HalfEdgeId, VertexId};
use blackjack::mesh::HalfEdgeMesh;
use blackjack::primitives::{Box, Icosahedron, Quad};
use blackjack::selection::SelectionExpression;
use glam::Vec3;

fn box_mesh() -> HalfEdgeMesh {
    let corners: Vec<Vec3> = (0..8).map(|i| Vec3::new(i as f32, 0.0, 0.0)).collect();
    Box::build(&corners).unwrap()
}

fn icosahedron_mesh() -> HalfEdgeMesh {
    let corners: Vec<Vec3> = (0..12).map(|i| Vec3::new(0.0, i as f32, 0.0)).collect();
    Icosahedron::build(&corners).unwrap()
}

fn counts(mesh: &HalfEdgeMesh) -> (usize, usize, usize) {
    let c = mesh.read_connectivity();
    (c.num_vertices(), c.num_faces(), c.num_halfedges())
}

#[test]
fn collapse_box_edge() {
    let mut mesh = box_mesh();
    let h = mesh.read_connectivity().iter_halfedges()[0];
    let v0 = mesh.read_connectivity().iter_vertices()[0];
    // The first half-edge runs from the first vertex to the second.
    assert_eq!(mesh.read_connectivity().halfedge(h).vertex, Some(v0));
    let r = collapse_edge(&mut mesh.connectivity, h);
    assert_eq!(r, Ok(v0));
    // One vertex and the edge's two half-edges go; both sides were quads.
    assert_eq!(counts(&mesh), (7, 6, 22));
}

#[test]
fn collapse_icosahedron_edge() {
    let mut mesh = icosahedron_mesh();
    let h = mesh.read_connectivity().iter_halfedges()[0];
    let he = mesh.read_connectivity().halfedge(h);
    let t = he.twin.unwrap();
    let w = mesh.read_connectivity().halfedge(he.next.unwrap()).vertex.unwrap();
    let r = collapse_edge(&mut mesh.connectivity, h);
    assert_eq!(r, Ok(he.vertex.unwrap()));
    // Both sides were triangles, which become single edges.
    assert_eq!(counts(&mesh), (11, 18, 54));
    // The edge's end, the edge's half-edges go.
    let conn = mesh.read_connectivity();
    assert!(!conn.contains_vertex(w));
    assert!(!conn.contains_halfedge(h));
    assert!(!conn.contains_halfedge(t));
    assert!(conn.links_check());
}

#[test]
fn dissolve_box_corner() {
    let mut mesh = box_mesh();
    let v0 = mesh.read_connectivity().iter_vertices()[0];
    let f = dissolve_vertex(&mut mesh.connectivity, v0).unwrap();
    // The three faces around the corner become one.
    assert_eq!(counts(&mesh), (7, 4, 18));
    let edges = mesh.read_connectivity().face_edges(f);
    assert_eq!(edges.len(), 6);
}

#[test]
fn cut_box_face() {
    let mut mesh = box_mesh();
    let vs = mesh.read_connectivity().iter_vertices();
    let h = cut_face(&mut mesh.connectivity, vs[0], vs[2]).unwrap();
    assert_eq!(counts(&mesh), (8, 7, 26));
    assert_eq!(mesh.read_connectivity().halfedge(h).vertex, Some(vs[0]));
    let twin = mesh.read_connectivity().halfedge(h).twin.unwrap();
    assert_eq!(mesh.read_connectivity().halfedge(twin).vertex, Some(vs[2]));
}

#[test]
fn cut_face_errors() {
    let mut mesh = box_mesh();
    let vs = mesh.read_connectivity().iter_vertices();
    assert_eq!(cut_face(&mut mesh.connectivity, vs[0], vs[1]), Err(EditError::AlreadyAdjacent));
    assert_eq!(cut_face(&mut mesh.connectivity, vs[0], vs[6]), Err(EditError::NoSharedFace));
    assert_eq!(counts(&mesh), (8, 6, 24));
}

fn quad_mesh() -> (HalfEdgeMesh, Vec<VertexId>, Vec<HalfEdgeId>) {
    let corners = vec![Vec3::ZERO, Vec3::X, Vec3::X + Vec3::Z, Vec3::Z];
    let mesh = Quad::build(&corners).unwrap();
    let vs = mesh.read_connectivity().iter_vertices();
    let f = mesh.read_connectivity().iter_faces()[0];
    let hs = mesh.read_connectivity().face_edges(f);
    (mesh, vs, hs)
}

#[test]
fn sort_open_chain() {
    let (mesh, vs, hs) = quad_mesh();
    let r = sort_bag_of_edges(mesh.read_connectivity(), &hs[0..3]).unwrap();
    assert_eq!(r, (vec![vs[0], vs[1], vs[2], vs[3]], false));
}

#[test]
fn sort_closed_loop() {
    let (mesh, vs, hs) = quad_mesh();
    let r = sort_bag_of_edges(mesh.read_connectivity(), &hs).unwrap();
    // The loop is broken at the smallest edge of the smallest vertex.
    assert_eq!(r, (vec![vs[0], vs[3], vs[2], vs[1]], true));
}

#[test]
fn sort_errors() {
    let (mesh, _, hs) = quad_mesh();
    assert_eq!(sort_bag_of_edges(mesh.read_connectivity(), &[]), Err(EditError::EmptyBag));
    // Two edges that do not touch: the walk ends before covering both.
    let r = sort_bag_of_edges(mesh.read_connectivity(), &[hs[0], hs[2]]).unwrap();
    assert_eq!(r.0.len(), 2);
}

fn four_points() -> (HalfEdgeMesh, Vec<VertexId>) {
    let mut mesh = HalfEdgeMesh::new();
    for p in [Vec3::ZERO, Vec3::X, Vec3::X + Vec3::Z, Vec3::Z] {
        mesh.add_vertex(p).unwrap();
    }
    let vs = mesh.read_connectivity().iter_vertices();
    (mesh, vs)
}

#[test]
fn make_quad_on_points() {
    let (mut mesh, vs) = four_points();
    assert_eq!(make_quad(&mut mesh.connectivity, &vs), Ok(()));
    assert_eq!(counts(&mesh), (4, 1, 8));
    // The half-edges of the quad now have a face.
    assert!(matches!(make_quad(&mut mesh.connectivity, &vs), Err(EditError::NotInBoundary(_))));
    assert_eq!(make_quad(&mut mesh.connectivity, &vs[0..3]), Err(EditError::NotAQuad));
}

#[test]
fn lua_make_quad() {
    let (mut mesh, _) = four_points();
    let sel = |s: &str| SelectionExpression::parse(s).unwrap();
    let r = lua_fns::make_quad(&mut mesh, sel("0"), sel("1"), sel("2"), sel("3"));
    assert_eq!(r, Ok(()));
    assert_eq!(counts(&mesh), (4, 1, 8));
    let (mut mesh, _) = four_points();
    let r = lua_fns::make_quad(&mut mesh, sel("0"), sel(""), sel("2"), sel("3"));
    assert_eq!(r, Err(EditError::EmptySelection));
}

#[test]
fn polyline_through_points() {
    let pts: Vec<Vec3> = (0..4).map(|i| Vec3::new(i as f32, 0.0, 0.0)).collect();
    let mesh = polyline_mesh(&pts).unwrap();
    assert_eq!(counts(&mesh), (4, 0, 6));
    let conn = mesh.read_connectivity();
    // The first vertex is at the first point and leads along the curve.
    let v0 = conn.iter_vertices()[0];
    assert_eq!(mesh.vertex_position(v0), pts[0]);
    let h = conn.vertex(v0).halfedge.unwrap();
    let mut walked = vec![v0];
    let mut cur = h;
    for _ in 0..3 {
        let next = conn.halfedge(cur).next.unwrap();
        walked.push(conn.halfedge(next).vertex.unwrap());
        cur = next;
    }
    let positions: Vec<Vec3> = walked.iter().map(|v| mesh.vertex_position(*v)).collect();
    assert_eq!(positions, pts);
    assert!(matches!(polyline_mesh(&pts[..1]), Err(EditError::TooFewPoints)));
}

#[test]
fn edge_chain_needs_a_tip() {
    let mut mesh = HalfEdgeMesh::new();
    let (h_src, h_dst) = mesh.add_edge(Vec3::ZERO, Vec3::X).unwrap();
    let tip = mesh.read_connectivity().halfedge(h_dst).vertex.unwrap();
    let v = add_edge_chain(&mut mesh, tip, Vec3::Y).unwrap();
    assert_eq!(mesh.vertex_position(v), Vec3::Y);
    assert_eq!(counts(&mesh), (3, 0, 4));
    // The old edge now leads into the new one.
    let into_new = mesh.read_connectivity().halfedge(h_src).next.unwrap();
    assert_eq!(mesh.read_connectivity().halfedge(into_new).vertex, Some(tip));
    // A box corner has three edges: it is no curve tip.
    let mut b = box_mesh();
    let corner = b.read_connectivity().iter_vertices()[0];
    assert!(matches!(add_edge_chain(&mut b, corner, Vec3::Z), Err(EditError::NotOneIncoming(_))));
}

fn two_squares() -> HalfEdgeMesh {
    let positions: Vec<Vec3> = vec![
        Vec3::new(0.0, 0.0, 0.0),
        Vec3::new(1.0, 0.0, 0.0),
        Vec3::new(1.0, 0.0, 1.0),
        Vec3::new(0.0, 0.0, 1.0),
        Vec3::new(0.0, 1.0, 0.0),
        Vec3::new(1.0, 1.0, 0.0),
        Vec3::new(1.0, 1.0, 1.0),
        Vec3::new(0.0, 1.0, 1.0),
    ];
    HalfEdgeMesh::build_from_polygons(&positions, &[vec![0, 1, 2, 3], vec![4, 5, 6, 7]]).unwrap()
}

#[test]
fn bridge_two_boundary_edges() {
    let mut mesh = two_squares();
    let vs = mesh.read_connectivity().iter_vertices();
    assert_eq!(counts(&mesh), (8, 2, 16));
    bridge_chains(&mut mesh, &[vs[1], vs[0]], &[vs[5], vs[4]], false, 0).unwrap();
    // One quad between the two squares: a face and two new edges.
    assert_eq!(counts(&mesh), (8, 3, 20));
}

#[test]
fn bridge_refusals() {
    let mut mesh = two_squares();
    let vs = mesh.read_connectivity().iter_vertices();
    assert!(matches!(
        bridge_chains(&mut mesh, &[vs[1], vs[0]], &[vs[5]], false, 0),
        Err(EditError::BridgeLengths)
    ));
    assert!(matches!(bridge_chains(&mut mesh, &[], &[], false, 0), Err(EditError::BridgeEmpty)));
    assert!(matches!(
        bridge_chains(&mut mesh, &[vs[0], vs[1]], &[vs[5], vs[4]], false, 0),
        Err(EditError::BridgeNotBoundary)
    ));
    assert!(matches!(
        bridge_chains(&mut mesh, &[vs[1], vs[0]], &[vs[0], vs[3]], false, 0),
        Err(EditError::BridgeSameLoop)
    ));
    // Nothing was changed by the refusals.
    assert_eq!(counts(&mesh), (8, 2, 16));
}

#[test]
fn chamfer_box_corner() {
    let mut mesh = box_mesh();
    let v0 = mesh.read_connectivity().iter_vertices()[0];
    let (face, new_verts) = chamfer_vertex(&mut mesh.connectivity, v0).unwrap();
    // Three edges leave the corner: three new vertices, joined in a new
    // triangle that takes the corner's place.
    assert_eq!(new_verts.len(), 3);
    let conn = mesh.read_connectivity();
    assert!(face.is_some());
    assert!(!conn.contains_vertex(v0));
    assert_eq!(conn.face_vertices(face.unwrap()).len(), 3);
    assert_eq!(counts(&mesh), (10, 7, 30));
    assert!(mesh.read_connectivity().links_check());
}

#[test]
fn bevel_box_edge() {
    let mut mesh = box_mesh();
    let h = mesh.read_connectivity().iter_halfedges()[0];
    let t = mesh.read_connectivity().halfedge(h).twin.unwrap();
    let old_faces = mesh.read_connectivity().iter_faces();
    let s = bevel_edges_connectivity(&mut mesh.connectivity, &[h]).unwrap();
    let mut expected = vec![h, t];
    expected.sort();
    assert_eq!(s, expected);
    assert!(mesh.read_connectivity().links_check());
    // The twin of each half-edge that took part lies on a new face.
    let conn = mesh.read_connectivity();
    for x in &s {
        let tw = conn.halfedge(*x).twin.unwrap();
        let f = conn.halfedge(tw).face.unwrap();
        assert!(!old_faces.contains(&f));
    }
    let (_, f, _) = counts(&mesh);
    assert!(f > 6);
}

#[test]
fn extrude_box_face() {
    let mut mesh = box_mesh();
    let f = mesh.read_connectivity().iter_faces()[0];
    let s = extrude_faces_connectivity(&mut mesh.connectivity, &[f]).unwrap();
    // The four edges of the face and their twins.
    assert_eq!(s.len(), 8);
    assert!(mesh.read_connectivity().contains_face(f));
    assert!(mesh.read_connectivity().links_check());
}
