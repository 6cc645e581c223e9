use blackjack::compact_mesh::{CompactMesh, MeshCounts};
use blackjack::primitives::{Box, Quad};
use glam::Vec3;

fn counts(v: usize, h: usize, e: usize, f: usize) -> MeshCounts {
    MeshCounts { num_vertices: v, num_halfedges: h, num_edges: e, num_faces: f }
}

fn cumulative(start: MeshCounts, n: usize) -> Vec<MeshCounts> {
    let mut acc = start;
    let mut out = Vec::new();
    for _ in 0..n {
        acc = acc.subdiv();
        out.push(acc);
    }
    out
}

#[test]
fn mesh_counts_test() {
    // A cube, after successive levels of subdivision
    let cube_counts = counts(8, 24, 12, 6);
    let cube_counts_cumulative = cumulative(cube_counts, 4);
    assert_eq!(
        &cube_counts_cumulative,
        &[
            counts(26, 48 * 2, 48, 24),
            counts(98, 192 * 2, 192, 96),
            counts(386, 768 * 2, 768, 384),
            counts(1538, 3072 * 2, 3072, 1536),
        ]
    );

    // A quad, after successive levels of subdivision: it has boundary
    // halfedges.
    let quad_count = counts(4, 4, 4, 1);
    let quad_counts_cumulative = cumulative(quad_count, 4);
    assert_eq!(
        &quad_counts_cumulative,
        &[
            counts(9, 16, 12, 4),
            counts(25, 64, 40, 16),
            counts(81, 256, 144, 64),
            counts(289, 1024, 544, 256),
        ]
    );
}

#[test]
fn compact_form_of_a_box() {
    let corners: Vec<Vec3> = (0..8).map(|i| Vec3::new(i as f32, 0.0, 0.0)).collect();
    let mesh = Box::build(&corners).unwrap();
    let cm = CompactMesh::<false>::from_halfedge(&mesh).unwrap();
    assert_eq!(cm.counts, counts(8, 24, 12, 6));
    for h in 0..24 {
        let n = cm.next[h] as usize;
        assert_eq!(cm.prev[n] as usize, h);
        let t = cm.twin[h].unwrap() as usize;
        assert_eq!(cm.twin[t], Some(h as u32));
        assert_eq!(cm.edge[t], cm.edge[h]);
        assert_eq!(cm.face[n], cm.face[h]);
    }
    // The edges are numbered in the order their first half-edge comes.
    assert_eq!(cm.edge[0], 0);
    // A box subdivides into the counts of a subdivided cube.
    let sub = cm.subdivide();
    assert_eq!(sub.counts, counts(26, 96, 48, 24));
}

#[test]
fn compact_form_of_a_quad() {
    let corners = vec![Vec3::ZERO, Vec3::X, Vec3::X + Vec3::Z, Vec3::Z];
    let mesh = Quad::build(&corners).unwrap();
    let cm = CompactMesh::<false>::from_halfedge(&mesh).unwrap();
    // The boundary half-edges are left out: four half-edges, no twins.
    assert_eq!(cm.counts, counts(4, 4, 4, 1));
    assert!(cm.twin.iter().all(|t| t.is_none()));
    assert_eq!(cm.edge, vec![0, 1, 2, 3]);
    assert_eq!(cm.next, vec![1, 2, 3, 0]);
    assert_eq!(cm.prev, vec![3, 0, 1, 2]);
    assert_eq!(cm.face, vec![0, 0, 0, 0]);
}

#[test]
fn compact_box_validates_and_refines_twice() {
    let corners: Vec<Vec3> = (0..8).map(|i| Vec3::new(i as f32, 0.0, 0.0)).collect();
    let mesh = Box::build(&corners).unwrap();
    let cm = CompactMesh::<false>::from_halfedge(&mesh).unwrap();
    assert!(cm.is_well_formed());
    assert!(CompactMesh::<false>::refinements_fit_check(cm.counts, 2));
    let twice = cm.subdivide_multi(2);
    assert!(twice.is_well_formed());
    assert_eq!(twice.counts, counts(98, 384, 192, 96));
    // Two refinements in one call are two single refinements in a row.
    let stepwise = cm.subdivide().subdivide();
    assert_eq!(twice.twin, stepwise.twin);
    assert_eq!(twice.vert, stepwise.vert);
    assert_eq!(twice.edge, stepwise.edge);
    assert_eq!(twice.counts, stepwise.counts);
    // A broken twin is caught.
    let mut broken = cm;
    broken.twin[0] = Some(0);
    assert!(!broken.is_well_formed());
    // Counts too large to refine are caught.
    assert!(!CompactMesh::<false>::refinements_fit_check(counts(1, 0x4000_0000, 1, 1), 1));
}
