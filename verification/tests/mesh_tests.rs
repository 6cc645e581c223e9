use blackjack::channels::{ChannelError, ChannelGroup, ChannelKeyType};
use blackjack::compact_mesh::{CompactMesh, MeshCounts};
use blackjack::edit_ops::{dissolve_edge, divide_edge, duplicate_edge, make_group, EditError};
use blackjack::id_types::{face_id_to_string, halfedge_id_to_string, vertex_id_to_string};
use blackjack::halfedge::{HalfEdgeId, VertexId};
use blackjack::mesh::HalfEdgeMesh;
use blackjack::primitives::{Box, Quad};
use blackjack::selection::SelectionExpression;
use blackjack::utils::{join_str, rotate_iter};
use glam::Vec3;
use slotmap::KeyData;

fn box_mesh() -> HalfEdgeMesh {
    let corners: Vec<Vec3> = (0..8).map(|i| Vec3::new(i as f32, 1.0, 2.0)).collect();
    Box::build(&corners).unwrap()
}

fn counts(mesh: &HalfEdgeMesh) -> (usize, usize, usize) {
    let c = mesh.read_connectivity();
    (c.num_vertices(), c.num_faces(), c.num_halfedges())
}

fn sel(s: &str) -> SelectionExpression {
    SelectionExpression::parse(s).unwrap()
}

#[test]
fn duplicate_then_dissolve_edge() {
    let mut mesh = box_mesh();
    let h = mesh.read_connectivity().iter_halfedges()[0];
    let a = duplicate_edge(&mut mesh.connectivity, h).unwrap();
    // A two-sided face inside the edge.
    assert_eq!(counts(&mesh), (8, 7, 26));
    let b = mesh.read_connectivity().halfedge(a).next.unwrap();
    assert_eq!(mesh.read_connectivity().halfedge(b).next, Some(a));
    assert_eq!(mesh.read_connectivity().halfedge(h).twin, Some(b));
    // Dissolving one of its edges merges it back into a neighbour.
    assert_eq!(dissolve_edge(&mut mesh.connectivity, a), Ok(()));
    assert_eq!(counts(&mesh), (8, 6, 24));
}

#[test]
fn dissolve_box_edge() {
    let mut mesh = box_mesh();
    let h = mesh.read_connectivity().iter_halfedges()[0];
    assert_eq!(dissolve_edge(&mut mesh.connectivity, h), Ok(()));
    // Two quads become one hexagon.
    assert_eq!(counts(&mesh), (8, 5, 22));
}

#[test]
fn divide_box_edge() {
    let mut mesh = box_mesh();
    let h = mesh.read_connectivity().iter_halfedges()[0];
    let v = divide_edge(&mut mesh.connectivity, h).unwrap();
    assert_eq!(counts(&mesh), (9, 6, 26));
    // `h` now leaves the new vertex.
    assert_eq!(mesh.read_connectivity().halfedge(h).vertex, Some(v));
}

#[test]
fn groups_from_selections() {
    let mut mesh = box_mesh();
    assert_eq!(make_group(&mut mesh, ChannelKeyType::VertexId, &sel("0..3"), "bottom"), Ok(()));
    let r = make_group(&mut mesh, ChannelKeyType::VertexId, &sel("1"), "bottom");
    assert_eq!(r, Err(EditError::Channel(ChannelError::AlreadyExists("bottom".to_string()))));
    let picked = mesh.resolve_vertex_selection_full(&sel("@bottom")).unwrap();
    let all = mesh.read_connectivity().iter_vertices();
    assert_eq!(picked, all[0..3].to_vec());
    assert_eq!(mesh.resolve_vertex_selection_full(&sel("*")).unwrap(), all);
    assert_eq!(mesh.resolve_vertex_selection_full(&sel("")).unwrap(), vec![]);
    assert_eq!(
        mesh.resolve_vertex_selection_full(&sel("@missing")),
        Err(ChannelError::NotFound("missing".to_string()))
    );
    let faces = mesh.resolve_face_selection_full(&sel("1, 4..6")).unwrap();
    assert_eq!(faces.len(), 3);
}

#[test]
fn point_cloud_and_edges() {
    let mesh = box_mesh();
    let cloud = mesh.point_cloud(sel("0..4")).unwrap();
    assert_eq!(counts(&cloud), (4, 0, 0));
    // The cloud's vertices come in the order of the resolved selection.
    let vs = mesh.read_connectivity().iter_vertices();
    let picked = mesh.point_cloud(sel("3, 1")).unwrap();
    let cvs = picked.read_connectivity().iter_vertices();
    assert_eq!(cvs.len(), 2);
    let resolved = mesh.resolve_vertex_selection_full(&sel("3, 1")).unwrap();
    assert_eq!(resolved, vec![vs[1], vs[3]]);
    assert_eq!(picked.vertex_position(cvs[0]), mesh.vertex_position(vs[1]));
    assert_eq!(picked.vertex_position(cvs[1]), mesh.vertex_position(vs[3]));
    let mut mesh = HalfEdgeMesh::new();
    let (a, b) = mesh.add_edge(Vec3::ZERO, Vec3::X).unwrap();
    assert_eq!(counts(&mesh), (2, 0, 2));
    assert_eq!(mesh.read_connectivity().halfedge(a).twin, Some(b));
    mesh.add_vertex(Vec3::Y).unwrap();
    assert_eq!(counts(&mesh), (3, 0, 2));
}

#[test]
fn positions_are_kept() {
    let mesh = box_mesh();
    let vs = mesh.read_connectivity().iter_vertices();
    assert_eq!(mesh.vertex_position(vs[3]), Vec3::new(3.0, 1.0, 2.0));
}

#[test]
fn channel_groups() {
    let mut g = ChannelGroup::new();
    let c = g.create_channel("sel").unwrap();
    assert_eq!(g.channel_id("sel"), Some(c));
    assert_eq!(g.channel_id("other"), None);
    assert_eq!(g.create_channel("sel"), Err(ChannelError::AlreadyExists("sel".to_string())));
    let k = KeyData::from_ffi((1u64 << 32) | 1).as_ffi();
    assert!(!g.read(c, k));
    g.write(c, k, true);
    assert!(g.read(c, k));
}

#[test]
fn compact_quad_subdivides() {
    let quad = CompactMesh::<false> {
        twin: vec![None, None, None, None],
        next: vec![1, 2, 3, 0],
        prev: vec![3, 0, 1, 2],
        vert: vec![0, 1, 2, 3],
        edge: vec![0, 1, 2, 3],
        face: vec![0, 0, 0, 0],
        counts: MeshCounts { num_vertices: 4, num_halfedges: 4, num_edges: 4, num_faces: 1 },
    };
    assert_eq!(quad.get_next(3), 0);
    assert_eq!(quad.get_prev(0), 3);
    let sub = quad.subdivide();
    assert_eq!(sub.counts, MeshCounts { num_vertices: 9, num_halfedges: 16, num_edges: 12, num_faces: 4 });
    assert_eq!(sub.twin.len(), 16);
    // Each new face is a quad: the next of each half-edge stays in its face.
    for h in 0..16 {
        assert_eq!(sub.get_face(sub.get_next(h)), sub.get_face(h));
    }
    let sub2 = quad.subdivide_multi(2);
    assert_eq!(sub2.counts.num_faces, 16);
}

#[test]
fn ids_print_as_keys() {
    let mesh = box_mesh();
    let v = mesh.read_connectivity().iter_vertices()[0];
    let f = mesh.read_connectivity().iter_faces()[0];
    let h = mesh.read_connectivity().iter_halfedges()[0];
    assert_eq!(vertex_id_to_string(v), format!("VertexId({:?})", KeyData::from_ffi(v.0)));
    assert_eq!(face_id_to_string(f), format!("FaceId({:?})", KeyData::from_ffi(f.0)));
    assert_eq!(halfedge_id_to_string(h), "HalfEdgeId(1v1)");
}

#[test]
fn utils_rotate_and_join() {
    assert_eq!(rotate_iter(&[1, 2, 3, 4, 5], 2, 5), vec![4, 5, 1, 2, 3]);
    assert_eq!(rotate_iter(&[1, 2, 3], 0, 3), vec![1, 2, 3]);
    assert_eq!(rotate_iter(&[1, 2, 3], 4, 3), vec![3, 1, 2]);
    assert_eq!(rotate_iter(&[1, 2], 1, 5), vec![2, 1, 2, 1, 2]);
    assert_eq!(rotate_iter::<u8>(&[], 3, 4), Vec::<u8>::new());
    let words = vec!["a".to_string(), "b".to_string(), "c".to_string()];
    assert_eq!(join_str(&words, ", "), "a, b, c");
    assert_eq!(join_str(&[], ", "), "");
}

#[test]
fn quad_boundary_walks() {
    let corners = vec![Vec3::ZERO, Vec3::X, Vec3::X + Vec3::Z, Vec3::Z];
    let mesh = Quad::build(&corners).unwrap();
    let f = mesh.read_connectivity().iter_faces()[0];
    let edges = mesh.read_connectivity().face_edges(f);
    assert_eq!(edges.len(), 4);
    let verts = mesh.read_connectivity().face_vertices(f);
    assert_eq!(verts, mesh.read_connectivity().iter_vertices());
}

#[test]
fn links_and_membership_checks() {
    let mut mesh = box_mesh();
    let conn = mesh.read_connectivity();
    assert!(conn.links_check());
    let v = conn.iter_vertices()[0];
    assert!(conn.contains_vertex(v));
    assert!(!conn.contains_vertex(VertexId(0)));
    assert!(!conn.contains_vertex(VertexId(v.0 & 0xffff_ffff)));
    let h = conn.iter_halfedges()[0];
    let mut he = conn.halfedge(h);
    he.next = Some(HalfEdgeId((1u64 << 32) | 999));
    mesh.connectivity.set_halfedge(h, he);
    assert!(!mesh.read_connectivity().links_check());
}
