use blackjack::halfedge::MeshConnectivity;
use blackjack::mesh::HalfEdgeMesh;
use blackjack::primitives::{BuildError, Box, Circle, Cone, Cylinder, Grid, Icosahedron, Line, Polygon, Quad};
use glam::{Quat, Vec3};
use std::f32::consts::PI;

/// The points of a circle around the Y axis.
fn circle_verts(center: Vec3, radius: f32, num_vertices: usize) -> Vec<Vec3> {
    let angle_delta = (2.0 * PI) / num_vertices as f32;
    (0..num_vertices)
        .map(|i| {
            let q = Quat::from_rotation_y(angle_delta * i as f32);
            q * (Vec3::Z * radius) + center
        })
        .collect()
}

/// The corners of a truncated cone: the bottom ring, then the top ring.
fn truncated_cone_verts(center: Vec3, top_radius: f32, bottom_radius: f32, height: f32, num_vertices: usize) -> Vec<Vec3> {
    let v_offset = Vec3::new(0.0, height / 2.0, 0.0);
    let mut verts = circle_verts(center - v_offset, bottom_radius, num_vertices);
    verts.extend(circle_verts(center + v_offset, top_radius, num_vertices));
    verts
}

const PHI: f32 = 1.618_034;

fn icosahedron_verts(center: Vec3, radius: f32) -> Vec<Vec3> {
    let corners: [(f32, f32, f32); 12] = [
        (0., PHI, 1.),
        (0., PHI, -1.),
        (PHI, 1., 0.),
        (-PHI, 1., 0.),
        (1., 0., -PHI),
        (-1., 0., -PHI),
        (-1., 0., PHI),
        (1., 0., PHI),
        (PHI, -1., 0.),
        (-PHI, -1., 0.),
        (0., -PHI, -1.),
        (0., -PHI, 1.),
    ];
    let radius = radius / (PHI * PHI + 1.).sqrt();
    corners.iter().map(|(x, y, z)| (Vec3::new(*x, *y, *z) * radius) + center).collect()
}

fn conn(mesh: &HalfEdgeMesh) -> &MeshConnectivity {
    mesh.read_connectivity()
}

#[test]
fn test_cylinder() {
    Cylinder::build(&truncated_cone_verts(Vec3::ZERO, 1.0, 1.0, 1.0, 8), 8).unwrap();
}

#[test]
fn test_circle() {
    Circle::build(&circle_verts(Vec3::ZERO, 1.0, 24)).unwrap();
    Circle::build(&circle_verts(Vec3::ZERO, 1.0, 3)).unwrap();

    // Not enough vertices to make a circle
    assert!(Circle::build(&circle_verts(Vec3::ZERO, 1.0, 2)).is_err());
    assert!(Circle::build(&circle_verts(Vec3::ZERO, 1.0, 0)).is_err());
}

#[test]
fn test_icosahedron() {
    Icosahedron::build(&icosahedron_verts(Vec3::ZERO, 1.)).unwrap();
}

#[test]
fn icosahedron_is_closed() {
    let mesh = Icosahedron::build(&icosahedron_verts(Vec3::ZERO, 1.)).unwrap();
    assert_eq!(conn(&mesh).num_vertices(), 12);
    assert_eq!(conn(&mesh).num_faces(), 20);
    // Every edge is shared by two triangles: no boundary half-edges.
    assert_eq!(conn(&mesh).num_halfedges(), 60);
}

#[test]
fn box_counts() {
    let corners: Vec<Vec3> = (0..8).map(|i| Vec3::new(i as f32, 0.0, 0.0)).collect();
    let mesh = Box::build(&corners).unwrap();
    assert_eq!(conn(&mesh).num_vertices(), 8);
    assert_eq!(conn(&mesh).num_faces(), 6);
    assert_eq!(conn(&mesh).num_halfedges(), 24);
}

#[test]
fn quad_has_boundary() {
    let corners = vec![Vec3::ZERO, Vec3::X, Vec3::X + Vec3::Z, Vec3::Z];
    let mesh = Quad::build(&corners).unwrap();
    assert_eq!(conn(&mesh).num_vertices(), 4);
    assert_eq!(conn(&mesh).num_faces(), 1);
    // Four interior half-edges and their four boundary twins.
    assert_eq!(conn(&mesh).num_halfedges(), 8);
}

#[test]
fn cone_counts() {
    let mut verts = circle_verts(Vec3::ZERO, 1.0, 8);
    verts.push(Vec3::Y);
    let mesh = Cone::build_cone(&verts, 8).unwrap();
    assert_eq!(conn(&mesh).num_vertices(), 9);
    assert_eq!(conn(&mesh).num_faces(), 9);
    assert_eq!(conn(&mesh).num_halfedges(), 32);
}

#[test]
fn cylinder_counts() {
    let mesh = Cylinder::build(&truncated_cone_verts(Vec3::ZERO, 1.0, 1.0, 1.0, 8), 8).unwrap();
    assert_eq!(conn(&mesh).num_vertices(), 16);
    assert_eq!(conn(&mesh).num_faces(), 10);
    assert_eq!(conn(&mesh).num_halfedges(), 48);
}

#[test]
fn polygon_from_points() {
    let mesh = Polygon::build_from_points(&circle_verts(Vec3::ZERO, 2.0, 5)).unwrap();
    assert_eq!(conn(&mesh).num_faces(), 1);
    assert_eq!(conn(&mesh).num_halfedges(), 10);
}

#[test]
fn build_errors() {
    let pts = vec![Vec3::ZERO, Vec3::X, Vec3::Y, Vec3::Z];
    assert_eq!(
        HalfEdgeMesh::build_from_polygons(&pts, &[vec![0, 1, 2], vec![0, 1]]).err(),
        Some(BuildError::PolygonTooSmall(1))
    );
    assert_eq!(
        HalfEdgeMesh::build_from_polygons(&pts, &[vec![0, 1, 2], vec![2, 1, 4]]).err(),
        Some(BuildError::IndexOutOfRange(1))
    );
    // Both triangles run from 0 to 1.
    assert_eq!(
        HalfEdgeMesh::build_from_polygons(&pts, &[vec![0, 1, 2], vec![0, 1, 3]]).err(),
        Some(BuildError::NonManifoldEdge(0, 1))
    );
    // A small polygon is reported before a repeated edge.
    assert_eq!(
        HalfEdgeMesh::build_from_polygons(&pts, &[vec![0, 1, 2], vec![0, 1, 3], vec![3]]).err(),
        Some(BuildError::PolygonTooSmall(2))
    );
    // Two triangles sharing the edge 1-2 in opposite directions.
    let mesh = HalfEdgeMesh::build_from_polygons(&pts, &[vec![0, 1, 2], vec![2, 1, 3]]).unwrap();
    assert_eq!(conn(&mesh).num_halfedges(), 10);
    // No polygons: the points alone.
    let mesh = HalfEdgeMesh::build_from_polygons(&pts, &[]).unwrap();
    assert_eq!(conn(&mesh).num_vertices(), 4);
    assert_eq!(conn(&mesh).num_halfedges(), 0);
}

#[test]
fn line_with_normals_links_and_channels() {
    let pts: Vec<Vec3> = (0..3).map(|i| Vec3::new(i as f32, 0.0, 0.0)).collect();
    let normals = vec![Vec3::Y; 3];
    let tangents = vec![Vec3::X; 3];
    let mesh = Line::build_with_normals(&pts, &normals, &tangents).unwrap();
    let conn = mesh.read_connectivity();
    assert_eq!((conn.num_vertices(), conn.num_faces(), conn.num_halfedges()), (3, 0, 4));
    assert_eq!(mesh.vertex_vectors.len(), 2);
    assert_eq!(mesh.vertex_vectors[0].name, "tangent");
    assert_eq!(mesh.vertex_vectors[1].name, "normal");
    // Walking the loop from the first vertex visits the points forth and back.
    let v0 = conn.iter_vertices()[0];
    let mut h = conn.vertex(v0).halfedge.unwrap();
    let mut seen = vec![];
    for _ in 0..4 {
        let src = conn.halfedge(h).vertex.unwrap();
        seen.push(mesh.vertex_position(src));
        assert_eq!(mesh.vertex_vectors[1].values.get(src.0), Vec3::Y);
        assert_eq!(mesh.vertex_vectors[0].values.get(src.0), Vec3::X);
        h = conn.halfedge(h).next.unwrap();
    }
    assert_eq!(seen, vec![pts[0], pts[1], pts[2], pts[1]]);
    // A single point gives a lone vertex and no channels.
    let single = Line::build_with_normals(&pts[..1], &normals[..1], &tangents[..1]).unwrap();
    assert_eq!(single.read_connectivity().num_vertices(), 1);
    assert_eq!(single.read_connectivity().num_halfedges(), 0);
    assert!(single.vertex_vectors.is_empty());
}

#[test]
fn line_with_normals_one_and_two_points() {
    let one = Line::build_with_normals(&[Vec3::ZERO], &[Vec3::Y], &[Vec3::X]).unwrap();
    let c1 = one.read_connectivity();
    assert_eq!((c1.num_vertices(), c1.num_faces(), c1.num_halfedges()), (1, 0, 0));
    assert_eq!(one.vertex_position(c1.iter_vertices()[0]), Vec3::ZERO);
    let pts = [Vec3::ZERO, Vec3::Y];
    let two = Line::build_with_normals(&pts, &[Vec3::X, Vec3::X], &[Vec3::Y, Vec3::Y]).unwrap();
    let c2 = two.read_connectivity();
    assert_eq!((c2.num_vertices(), c2.num_faces(), c2.num_halfedges()), (2, 0, 2));
    let h = c2.iter_halfedges()[0];
    let t = c2.halfedge(h).twin.unwrap();
    assert_eq!(c2.halfedge(t).twin, Some(h));
    assert_eq!(c2.halfedge(h).next, Some(t));
    assert_eq!(c2.halfedge(t).next, Some(h));
    let ends = [two.vertex_position(c2.halfedge(h).vertex.unwrap()), two.vertex_position(c2.halfedge(t).vertex.unwrap())];
    assert!(ends.contains(&pts[0]) && ends.contains(&pts[1]));
    assert_eq!(two.vertex_vectors.len(), 2);
}

#[test]
fn grid_places_disconnected_vertices() {
    let points: Vec<Vec3> = (0..6).map(|i| Vec3::new((i / 3) as f32, (i % 3) as f32, 0.0)).collect();
    let mesh = Grid::build(&points);
    let conn = mesh.read_connectivity();
    assert_eq!((conn.num_vertices(), conn.num_faces(), conn.num_halfedges()), (6, 0, 0));
    let placed: Vec<Vec3> = conn.iter_vertices().iter().map(|v| mesh.vertex_position(*v)).collect();
    assert_eq!(placed, points);
}
