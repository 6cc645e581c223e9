//! The half-edge graph: vertices, faces and half-edges stored in slot maps
//! and linked by optional pointers.
use vstd::prelude::*;

use crate::traversals::TraversalError;
use crate::slots::{
    face_slots, face_slots_get, face_slots_insert, face_slots_keys, face_slots_new, face_slots_remove,
    face_slots_set, halfedge_slots, halfedge_slots_get, halfedge_slots_insert, halfedge_slots_keys,
    halfedge_slots_new, halfedge_slots_remove, halfedge_slots_set, vertex_slots, vertex_slots_get,
    vertex_slots_insert, vertex_slots_keys, vertex_slots_new, vertex_slots_no_vacant, vertex_slots_remove, vertex_slots_set,
    FaceSlots, HalfEdgeSlots, VertexSlots,
};

verus! {

/// The id of a vertex: the 64-bit form of its slot map key.
#[derive(Clone, Copy, Debug, PartialEq, Eq, Hash, PartialOrd, Ord, Structural)]
pub struct VertexId(pub u64);

/// The id of a face: the 64-bit form of its slot map key.
#[derive(Clone, Copy, Debug, PartialEq, Eq, Hash, PartialOrd, Ord, Structural)]
pub struct FaceId(pub u64);

/// The id of a half-edge: the 64-bit form of its slot map key.
#[derive(Clone, Copy, Debug, PartialEq, Eq, Hash, PartialOrd, Ord, Structural)]
pub struct HalfEdgeId(pub u64);

#[derive(Clone, Copy, Debug, PartialEq, Eq, Structural)]
pub struct Vertex {
    /// One of the outgoing half-edges, if the vertex has any.
    pub halfedge: Option<HalfEdgeId>,
}

#[derive(Clone, Copy, Debug, PartialEq, Eq, Structural)]
pub struct Face {
    /// One of the half-edges around the face.
    pub halfedge: Option<HalfEdgeId>,
}

#[derive(Clone, Copy, Debug, PartialEq, Eq, Structural)]
pub struct HalfEdge {
    pub twin: Option<HalfEdgeId>,
    pub next: Option<HalfEdgeId>,
    /// The source vertex.
    pub vertex: Option<VertexId>,
    /// The face to the left, `None` on the boundary.
    pub face: Option<FaceId>,
}

impl HalfEdge {
    /// A half-edge with no links.
    pub fn new_unlinked() -> (r: HalfEdge)
        ensures
            r == (HalfEdge { twin: None, next: None, vertex: None, face: None }),
    {
        HalfEdge { twin: None, next: None, vertex: None, face: None }
    }
}

/// The key the slot map actually reads for a 64-bit key: `from_ffi` forces
/// the version to be odd.
pub open spec fn key_norm(k: u64) -> u64 {
    k | 0x1_0000_0000u64
}

/// Zero is no key a slot map hands out.
pub proof fn lemma_zero_not_normal()
    ensures
        key_norm(0) != 0,
{
    assert((0u64 | 0x1_0000_0000u64) != 0u64) by (bit_vector);
}

/// The slot index of a key.
pub open spec fn key_slot(k: u64) -> u64 {
    k % 0x1_0000_0000u64
}

} // verus!

verus! {

/// The connectivity of a half-edge mesh: three arenas of elements linked by
/// id pointers.
pub struct MeshConnectivity {
    pub vertices: VertexSlots,
    pub faces: FaceSlots,
    pub halfedges: HalfEdgeSlots,
}

/// Mathematical model of a [`MeshConnectivity`]: the elements by id.
pub struct MeshView {
    pub vertices: Map<u64, Vertex>,
    pub faces: Map<u64, Face>,
    pub halfedges: Map<u64, HalfEdge>,
}

impl View for MeshConnectivity {
    type V = MeshView;

    open spec fn view(&self) -> MeshView {
        MeshView {
            vertices: vertex_slots(self.vertices),
            faces: face_slots(self.faces),
            halfedges: halfedge_slots(self.halfedges),
        }
    }
}

pub open spec fn keys_normal<V>(m: Map<u64, V>) -> bool {
    &&& m.dom().finite()
    &&& forall|k: u64| #[trigger] m.dom().contains(k) ==> key_norm(k) == k && key_slot(k) < 0xffff_ffff
}

impl MeshView {
    pub open spec fn has_vertex(self, v: VertexId) -> bool {
        self.vertices.dom().contains(v.0)
    }

    pub open spec fn has_face(self, f: FaceId) -> bool {
        self.faces.dom().contains(f.0)
    }

    pub open spec fn has_halfedge(self, h: HalfEdgeId) -> bool {
        self.halfedges.dom().contains(h.0)
    }

    pub open spec fn opt_halfedge_ok(self, h: Option<HalfEdgeId>) -> bool {
        h matches Some(x) ==> self.has_halfedge(x)
    }

    pub open spec fn halfedge_links_ok(self, he: HalfEdge) -> bool {
        &&& self.opt_halfedge_ok(he.twin)
        &&& self.opt_halfedge_ok(he.next)
        &&& (he.vertex matches Some(v) ==> self.has_vertex(v))
        &&& (he.face matches Some(f) ==> self.has_face(f))
    }

    /// The arenas are finite and their keys are in the form the slot maps
    /// hand out.
    pub open spec fn well_formed(self) -> bool {
        &&& keys_normal(self.vertices)
        &&& keys_normal(self.faces)
        &&& keys_normal(self.halfedges)
    }

    /// Every pointer names an element that exists.
    pub open spec fn links_valid(self) -> bool {
        &&& forall|k: u64| #[trigger]
            self.vertices.dom().contains(k) ==> self.opt_halfedge_ok(self.vertices[k].halfedge)
        &&& forall|k: u64| #[trigger]
            self.faces.dom().contains(k) ==> self.opt_halfedge_ok(self.faces[k].halfedge)
        &&& forall|k: u64| #[trigger]
            self.halfedges.dom().contains(k) ==> self.halfedge_links_ok(self.halfedges[k])
    }

    /// Each arena can take `n` more elements.
    pub open spec fn has_room(self, n: nat) -> bool {
        &&& self.vertices.dom().len() + n + 2 < 0x1_0000_0000
        &&& self.faces.dom().len() + n + 2 < 0x1_0000_0000
        &&& self.halfedges.dom().len() + n + 2 < 0x1_0000_0000
    }
}

impl MeshConnectivity {
    pub open spec fn well_formed(&self) -> bool {
        self@.well_formed()
    }

    /// Whether the vertex arena has no vacant slot, so that the next vertex
    /// takes the slot after the last.
    pub closed spec fn vertices_packed(&self) -> bool {
        vertex_slots_no_vacant(self.vertices)
    }

    /// An empty mesh.
    pub fn new() -> (r: MeshConnectivity)
        ensures
            r.vertices_packed(),
            r@.vertices == Map::<u64, Vertex>::empty(),
            r@.faces == Map::<u64, Face>::empty(),
            r@.halfedges == Map::<u64, HalfEdge>::empty(),
            r.well_formed(),
    {
        let r = MeshConnectivity {
            vertices: vertex_slots_new(),
            faces: face_slots_new(),
            halfedges: halfedge_slots_new(),
        };
        assert(r@.vertices =~= Map::<u64, Vertex>::empty());
        assert(r@.faces =~= Map::<u64, Face>::empty());
        assert(r@.halfedges =~= Map::<u64, HalfEdge>::empty());
        r
    }

    /// The vertex with id `v`.
    pub fn vertex(&self, v: VertexId) -> (r: Vertex)
        requires
            self.well_formed(),
            self@.has_vertex(v),
        ensures
            r == self@.vertices[v.0],
    {
        vertex_slots_get(&self.vertices, v.0).unwrap()
    }

    /// The face with id `f`.
    pub fn face(&self, f: FaceId) -> (r: Face)
        requires
            self.well_formed(),
            self@.has_face(f),
        ensures
            r == self@.faces[f.0],
    {
        face_slots_get(&self.faces, f.0).unwrap()
    }

    /// The half-edge with id `h`.
    pub fn halfedge(&self, h: HalfEdgeId) -> (r: HalfEdge)
        requires
            self.well_formed(),
            self@.has_halfedge(h),
        ensures
            r == self@.halfedges[h.0],
    {
        halfedge_slots_get(&self.halfedges, h.0).unwrap()
    }

    /// Adds a vertex whose outgoing half-edge is `halfedge`.
    pub fn alloc_vertex(&mut self, halfedge: Option<HalfEdgeId>) -> (r: VertexId)
        requires
            old(self).well_formed(),
            old(self)@.vertices.dom().len() + 3 < 0x1_0000_0000,
        ensures
            final(self).well_formed(),
            old(self)@.links_valid() && old(self)@.opt_halfedge_ok(halfedge)
                ==> final(self)@.links_valid(),
            !old(self)@.has_vertex(r),
            key_norm(r.0) == r.0,
            key_slot(r.0) < 0xffff_ffff,
            forall|j: u64| old(self)@.vertices.dom().contains(j) ==> key_slot(j) != key_slot(r.0),
            old(self).vertices_packed() ==> final(self).vertices_packed() && key_slot(r.0) == old(self)@.vertices.dom().len() + 1,
            final(self)@.vertices == old(self)@.vertices.insert(r.0, Vertex { halfedge }),
            final(self)@.faces == old(self)@.faces,
            final(self)@.halfedges == old(self)@.halfedges,
    {
        let k = vertex_slots_insert(&mut self.vertices, Vertex { halfedge });
        VertexId(k)
    }

    /// Adds a face whose half-edge is `halfedge`.
    pub fn alloc_face(&mut self, halfedge: Option<HalfEdgeId>) -> (r: FaceId)
        requires
            old(self).well_formed(),
            old(self)@.faces.dom().len() + 3 < 0x1_0000_0000,
        ensures
            final(self).well_formed(),
            old(self)@.links_valid() && old(self)@.opt_halfedge_ok(halfedge)
                ==> final(self)@.links_valid(),
            !old(self)@.has_face(r),
            key_norm(r.0) == r.0,
            key_slot(r.0) < 0xffff_ffff,
            forall|j: u64| old(self)@.faces.dom().contains(j) ==> key_slot(j) != key_slot(r.0),
            final(self)@.faces == old(self)@.faces.insert(r.0, Face { halfedge }),
            final(self)@.vertices == old(self)@.vertices,
            final(self)@.halfedges == old(self)@.halfedges,
    {
        let k = face_slots_insert(&mut self.faces, Face { halfedge });
        FaceId(k)
    }

    /// Adds a half-edge.
    pub fn alloc_halfedge(&mut self, halfedge: HalfEdge) -> (r: HalfEdgeId)
        requires
            old(self).well_formed(),
            old(self)@.halfedges.dom().len() + 3 < 0x1_0000_0000,
        ensures
            final(self).well_formed(),
            old(self)@.links_valid() && old(self)@.halfedge_links_ok(halfedge)
                ==> final(self)@.links_valid(),
            !old(self)@.has_halfedge(r),
            key_norm(r.0) == r.0,
            key_slot(r.0) < 0xffff_ffff,
            forall|j: u64| old(self)@.halfedges.dom().contains(j) ==> key_slot(j) != key_slot(r.0),
            final(self)@.halfedges == old(self)@.halfedges.insert(r.0, halfedge),
            final(self)@.vertices == old(self)@.vertices,
            final(self)@.faces == old(self)@.faces,
    {
        let ghost m = old(self)@;
        let k = halfedge_slots_insert(&mut self.halfedges, halfedge);
        proof {
            let m2 = self@;
            if m.links_valid() && m.halfedge_links_ok(halfedge) {
                assert forall|j: u64| #[trigger]
                    m2.halfedges.dom().contains(j) implies m2.halfedge_links_ok(m2.halfedges[j]) by {
                    if j != k {
                        assert(m.halfedge_links_ok(m.halfedges[j]));
                    }
                }
                assert forall|j: u64| #[trigger]
                    m2.vertices.dom().contains(j) implies m2.opt_halfedge_ok(
                    m2.vertices[j].halfedge,
                ) by {
                    assert(m.opt_halfedge_ok(m.vertices[j].halfedge));
                }
                assert forall|j: u64| #[trigger]
                    m2.faces.dom().contains(j) implies m2.opt_halfedge_ok(m2.faces[j].halfedge) by {
                    assert(m.opt_halfedge_ok(m.faces[j].halfedge));
                }
            }
        }
        HalfEdgeId(k)
    }

    /// Overwrites the vertex `v`.
    pub fn set_vertex(&mut self, v: VertexId, value: Vertex)
        requires
            old(self).well_formed(),
            old(self)@.has_vertex(v),
        ensures
            final(self).well_formed(),
            old(self)@.links_valid() && old(self)@.opt_halfedge_ok(value.halfedge)
                ==> final(self)@.links_valid(),
            final(self)@.vertices == old(self)@.vertices.insert(v.0, value),
            final(self)@.faces == old(self)@.faces,
            final(self)@.halfedges == old(self)@.halfedges,
    {
        vertex_slots_set(&mut self.vertices, v.0, value);
    }

    /// Overwrites the face `f`.
    pub fn set_face(&mut self, f: FaceId, value: Face)
        requires
            old(self).well_formed(),
            old(self)@.has_face(f),
        ensures
            final(self).well_formed(),
            old(self)@.links_valid() && old(self)@.opt_halfedge_ok(value.halfedge)
                ==> final(self)@.links_valid(),
            final(self)@.faces == old(self)@.faces.insert(f.0, value),
            final(self)@.vertices == old(self)@.vertices,
            final(self)@.halfedges == old(self)@.halfedges,
    {
        face_slots_set(&mut self.faces, f.0, value);
    }

    /// Overwrites the half-edge `h`.
    pub fn set_halfedge(&mut self, h: HalfEdgeId, value: HalfEdge)
        requires
            old(self).well_formed(),
            old(self)@.has_halfedge(h),
        ensures
            final(self).well_formed(),
            old(self)@.links_valid() && old(self)@.halfedge_links_ok(value)
                ==> final(self)@.links_valid(),
            final(self)@.halfedges == old(self)@.halfedges.insert(h.0, value),
            final(self)@.vertices == old(self)@.vertices,
            final(self)@.faces == old(self)@.faces,
    {
        let ghost m = old(self)@;
        halfedge_slots_set(&mut self.halfedges, h.0, value);
        proof {
            let m2 = self@;
            if m.links_valid() && m.halfedge_links_ok(value) {
                assert forall|j: u64| #[trigger]
                    m2.halfedges.dom().contains(j) implies m2.halfedge_links_ok(m2.halfedges[j]) by {
                    if j != h.0 {
                        assert(m.halfedge_links_ok(m.halfedges[j]));
                    }
                }
            }
        }
    }

    /// Removes the vertex `v`, if present, and returns it.
    pub fn remove_vertex(&mut self, v: VertexId) -> (r: Option<Vertex>)
        requires
            old(self).well_formed(),
        ensures
            final(self).well_formed(),
            r == old(self)@.vertices.get(key_norm(v.0)),
            final(self)@.vertices == old(self)@.vertices.remove(key_norm(v.0)),
            final(self)@.faces == old(self)@.faces,
            final(self)@.halfedges == old(self)@.halfedges,
    {
        vertex_slots_remove(&mut self.vertices, v.0)
    }

    /// Removes the face `f`, if present, and returns it.
    pub fn remove_face(&mut self, f: FaceId) -> (r: Option<Face>)
        requires
            old(self).well_formed(),
        ensures
            final(self).well_formed(),
            r == old(self)@.faces.get(key_norm(f.0)),
            final(self)@.faces == old(self)@.faces.remove(key_norm(f.0)),
            final(self)@.vertices == old(self)@.vertices,
            final(self)@.halfedges == old(self)@.halfedges,
    {
        face_slots_remove(&mut self.faces, f.0)
    }

    /// Removes the half-edge `h`, if present, and returns it.
    pub fn remove_halfedge(&mut self, h: HalfEdgeId) -> (r: Option<HalfEdge>)
        requires
            old(self).well_formed(),
        ensures
            final(self).well_formed(),
            r == old(self)@.halfedges.get(key_norm(h.0)),
            final(self)@.halfedges == old(self)@.halfedges.remove(key_norm(h.0)),
            final(self)@.vertices == old(self)@.vertices,
            final(self)@.faces == old(self)@.faces,
    {
        halfedge_slots_remove(&mut self.halfedges, h.0)
    }

    /// The number of vertices.
    pub fn num_vertices(&self) -> (r: usize)
        requires
            self.well_formed(),
        ensures
            r == self@.vertices.dom().len(),
    {
        let ks = vertex_slots_keys(&self.vertices);
        proof {
            assert(ks@.no_duplicates()) by {
                assert forall|i: int, j: int| 0 <= i < ks@.len() && 0 <= j < ks@.len() && i != j
                    implies ks@[i] != ks@[j] by {
                    if i < j {
                        assert(key_slot(ks@[i]) < key_slot(ks@[j]));
                    } else {
                        assert(key_slot(ks@[j]) < key_slot(ks@[i]));
                    }
                }
            }
            ks@.unique_seq_to_set();
            assert(ks@.to_set() =~= self@.vertices.dom());
        }
        ks.len()
    }

    /// The number of faces.
    pub fn num_faces(&self) -> (r: usize)
        requires
            self.well_formed(),
        ensures
            r == self@.faces.dom().len(),
    {
        let ks = face_slots_keys(&self.faces);
        proof {
            assert(ks@.no_duplicates()) by {
                assert forall|i: int, j: int| 0 <= i < ks@.len() && 0 <= j < ks@.len() && i != j
                    implies ks@[i] != ks@[j] by {
                    if i < j {
                        assert(key_slot(ks@[i]) < key_slot(ks@[j]));
                    } else {
                        assert(key_slot(ks@[j]) < key_slot(ks@[i]));
                    }
                }
            }
            ks@.unique_seq_to_set();
            assert(ks@.to_set() =~= self@.faces.dom());
        }
        ks.len()
    }

    /// The number of halfedges.
    pub fn num_halfedges(&self) -> (r: usize)
        requires
            self.well_formed(),
        ensures
            r == self@.halfedges.dom().len(),
    {
        let ks = halfedge_slots_keys(&self.halfedges);
        proof {
            assert(ks@.no_duplicates()) by {
                assert forall|i: int, j: int| 0 <= i < ks@.len() && 0 <= j < ks@.len() && i != j
                    implies ks@[i] != ks@[j] by {
                    if i < j {
                        assert(key_slot(ks@[i]) < key_slot(ks@[j]));
                    } else {
                        assert(key_slot(ks@[j]) < key_slot(ks@[i]));
                    }
                }
            }
            ks@.unique_seq_to_set();
            assert(ks@.to_set() =~= self@.halfedges.dom());
        }
        ks.len()
    }

    /// The ids of all vertices, in slot order.
    pub fn iter_vertices(&self) -> (r: Vec<VertexId>)
        requires
            self.well_formed(),
        ensures
            forall|i: int| 0 <= i < r@.len() ==> self@.has_vertex(#[trigger] r@[i]),
            forall|k: u64| self@.vertices.dom().contains(k) ==> r@.contains(VertexId(k)),
            forall|i: int, j: int|
                0 <= i < j < r@.len() ==> key_slot((#[trigger] r@[i]).0) < key_slot(
                    (#[trigger] r@[j]).0,
                ),
    {
        let keys = vertex_slots_keys(&self.vertices);
        let mut r: Vec<VertexId> = Vec::new();
        let mut i: usize = 0;
        while i < keys.len()
            invariant
                i <= keys@.len(),
                r@.len() == i,
                forall|j: int| 0 <= j < i ==> (#[trigger] r@[j]).0 == keys@[j],
            decreases keys@.len() - i,
        {
            r.push(VertexId(keys[i]));
            i += 1;
        }
        proof {
            assert forall|k: u64| self@.vertices.dom().contains(k) implies r@.contains(VertexId(k)) by {
                assert(keys@.contains(k));
                let j = choose|j: int| 0 <= j < keys@.len() && keys@[j] == k;
                assert(r@[j] == VertexId(k));
            }
        }
        r
    }
    /// The ids of all faces, in slot order.
    pub fn iter_faces(&self) -> (r: Vec<FaceId>)
        requires
            self.well_formed(),
        ensures
            forall|i: int| 0 <= i < r@.len() ==> self@.has_face(#[trigger] r@[i]),
            forall|k: u64| self@.faces.dom().contains(k) ==> r@.contains(FaceId(k)),
            forall|i: int, j: int|
                0 <= i < j < r@.len() ==> key_slot((#[trigger] r@[i]).0) < key_slot(
                    (#[trigger] r@[j]).0,
                ),
    {
        let keys = face_slots_keys(&self.faces);
        let mut r: Vec<FaceId> = Vec::new();
        let mut i: usize = 0;
        while i < keys.len()
            invariant
                i <= keys@.len(),
                r@.len() == i,
                forall|j: int| 0 <= j < i ==> (#[trigger] r@[j]).0 == keys@[j],
            decreases keys@.len() - i,
        {
            r.push(FaceId(keys[i]));
            i += 1;
        }
        proof {
            assert forall|k: u64| self@.faces.dom().contains(k) implies r@.contains(FaceId(k)) by {
                assert(keys@.contains(k));
                let j = choose|j: int| 0 <= j < keys@.len() && keys@[j] == k;
                assert(r@[j] == FaceId(k));
            }
        }
        r
    }
    /// The ids of all halfedges, in slot order.
    pub fn iter_halfedges(&self) -> (r: Vec<HalfEdgeId>)
        requires
            self.well_formed(),
        ensures
            forall|i: int| 0 <= i < r@.len() ==> self@.has_halfedge(#[trigger] r@[i]),
            forall|k: u64| self@.halfedges.dom().contains(k) ==> r@.contains(HalfEdgeId(k)),
            forall|i: int, j: int|
                0 <= i < j < r@.len() ==> key_slot((#[trigger] r@[i]).0) < key_slot(
                    (#[trigger] r@[j]).0,
                ),
    {
        let keys = halfedge_slots_keys(&self.halfedges);
        let mut r: Vec<HalfEdgeId> = Vec::new();
        let mut i: usize = 0;
        while i < keys.len()
            invariant
                i <= keys@.len(),
                r@.len() == i,
                forall|j: int| 0 <= j < i ==> (#[trigger] r@[j]).0 == keys@[j],
            decreases keys@.len() - i,
        {
            r.push(HalfEdgeId(keys[i]));
            i += 1;
        }
        proof {
            assert forall|k: u64| self@.halfedges.dom().contains(k) implies r@.contains(HalfEdgeId(k)) by {
                assert(keys@.contains(k));
                let j = choose|j: int| 0 <= j < keys@.len() && keys@[j] == k;
                assert(r@[j] == HalfEdgeId(k));
            }
        }
        r
    }

    /// Whether `v` is a vertex of the mesh.
    pub fn contains_vertex(&self, v: VertexId) -> (r: bool)
        requires
            self.well_formed(),
        ensures
            r == self@.has_vertex(v),
    {
        (v.0 | 0x1_0000_0000u64) == v.0 && vertex_slots_get(&self.vertices, v.0).is_some()
    }

    /// Whether `f` is a face of the mesh.
    pub fn contains_face(&self, f: FaceId) -> (r: bool)
        requires
            self.well_formed(),
        ensures
            r == self@.has_face(f),
    {
        (f.0 | 0x1_0000_0000u64) == f.0 && face_slots_get(&self.faces, f.0).is_some()
    }

    /// Whether `h` is a half-edge of the mesh.
    pub fn contains_halfedge(&self, h: HalfEdgeId) -> (r: bool)
        requires
            self.well_formed(),
        ensures
            r == self@.has_halfedge(h),
    {
        (h.0 | 0x1_0000_0000u64) == h.0 && halfedge_slots_get(&self.halfedges, h.0).is_some()
    }

    fn opt_halfedge_check(&self, h: Option<HalfEdgeId>) -> (r: bool)
        requires
            self.well_formed(),
        ensures
            r == self@.opt_halfedge_ok(h),
    {
        match h {
            Some(x) => self.contains_halfedge(x),
            None => true,
        }
    }

    /// Whether every pointer of the mesh names an element that exists.
    pub fn links_check(&self) -> (r: bool)
        requires
            self.well_formed(),
        ensures
            r == self@.links_valid(),
    {
        let ghost m = self@;
        let vs = self.iter_vertices();
        let mut i: usize = 0;
        while i < vs.len()
            invariant
                m == self@,
                self.well_formed(),
                i <= vs@.len(),
                forall|j: int| 0 <= j < vs@.len() ==> m.has_vertex(#[trigger] vs@[j]),
                forall|j: int| 0 <= j < i ==> m.opt_halfedge_ok(m.vertices[(#[trigger] vs@[j]).0].halfedge),
            decreases vs@.len() - i,
        {
            if !self.opt_halfedge_check(self.vertex(vs[i]).halfedge) {
                return false;
            }
            i += 1;
        }
        assert forall|k: u64| #[trigger] m.vertices.dom().contains(k) implies m.opt_halfedge_ok(m.vertices[k].halfedge) by {
            assert(vs@.contains(VertexId(k)));
            let j = choose|j: int| 0 <= j < vs@.len() && vs@[j] == VertexId(k);
        }
        let fs = self.iter_faces();
        let mut i: usize = 0;
        while i < fs.len()
            invariant
                m == self@,
                self.well_formed(),
                i <= fs@.len(),
                forall|j: int| 0 <= j < fs@.len() ==> m.has_face(#[trigger] fs@[j]),
                forall|j: int| 0 <= j < i ==> m.opt_halfedge_ok(m.faces[(#[trigger] fs@[j]).0].halfedge),
            decreases fs@.len() - i,
        {
            if !self.opt_halfedge_check(self.face(fs[i]).halfedge) {
                return false;
            }
            i += 1;
        }
        assert forall|k: u64| #[trigger] m.faces.dom().contains(k) implies m.opt_halfedge_ok(m.faces[k].halfedge) by {
            assert(fs@.contains(FaceId(k)));
            let j = choose|j: int| 0 <= j < fs@.len() && fs@[j] == FaceId(k);
        }
        let hs = self.iter_halfedges();
        let mut i: usize = 0;
        while i < hs.len()
            invariant
                m == self@,
                self.well_formed(),
                i <= hs@.len(),
                forall|j: int| 0 <= j < hs@.len() ==> m.has_halfedge(#[trigger] hs@[j]),
                forall|j: int| 0 <= j < i ==> m.halfedge_links_ok(m.halfedges[(#[trigger] hs@[j]).0]),
            decreases hs@.len() - i,
        {
            let he = self.halfedge(hs[i]);
            let ok = self.opt_halfedge_check(he.twin) && self.opt_halfedge_check(he.next) && match he.vertex {
                Some(v) => self.contains_vertex(v),
                None => true,
            } && match he.face {
                Some(f) => self.contains_face(f),
                None => true,
            };
            if !ok {
                return false;
            }
            i += 1;
        }
        assert forall|k: u64| #[trigger] m.halfedges.dom().contains(k) implies m.halfedge_links_ok(m.halfedges[k]) by {
            assert(hs@.contains(HalfEdgeId(k)));
            let j = choose|j: int| 0 <= j < hs@.len() && hs@[j] == HalfEdgeId(k);
        }
        true
    }
}

} // verus!

verus! {

/// Which pointers a walk over half-edges follows.
#[derive(Clone, Copy, PartialEq, Eq, Structural)]
pub enum WalkKind {
    /// `h -> next(h)`: the half-edges around a face.
    Next,
    /// `h -> next(twin(h))`: the outgoing half-edges around a vertex.
    Fan,
}

/// One step of a walk from the half-edge `h`.
pub open spec fn walk_step(m: MeshView, kind: WalkKind, h: u64) -> Result<u64, TraversalError> {
    match kind {
        WalkKind::Next => match m.halfedges[h].next {
            Some(n) => Ok(n.0),
            None => Err(TraversalError::HalfEdgeHasNoNext(HalfEdgeId(h))),
        },
        WalkKind::Fan => match m.halfedges[h].twin {
            Some(t) => match m.halfedges[t.0].next {
                Some(n) => Ok(n.0),
                None => Err(TraversalError::HalfEdgeHasNoNext(t)),
            },
            None => Err(TraversalError::HalfEdgeHasNoTwin(HalfEdgeId(h))),
        },
    }
}

/// Where `k` steps from `h0` lead, or the first error met.
pub open spec fn walk(m: MeshView, kind: WalkKind, h0: u64, k: nat) -> Result<u64, TraversalError>
    decreases k,
{
    if k == 0 {
        Ok(h0)
    } else {
        match walk(m, kind, h0, (k - 1) as nat) {
            Ok(x) => walk_step(m, kind, x),
            Err(e) => Err(e),
        }
    }
}

/// After `k >= 1` steps the walk has failed or come back to `h0`.
pub open spec fn walk_closes(m: MeshView, kind: WalkKind, h0: u64, k: nat) -> bool {
    k >= 1 && (walk(m, kind, h0, k) is Err || walk(m, kind, h0, k) == Ok::<u64, TraversalError>(h0))
}

/// The walk from `h0` ends: it fails or comes back.
pub open spec fn walk_terminates(m: MeshView, kind: WalkKind, h0: u64) -> bool {
    exists|k: nat| walk_closes(m, kind, h0, k)
}

/// The walk from `h0` fails or comes back within `limit` steps.
pub open spec fn closes_within(m: MeshView, kind: WalkKind, h0: u64, limit: nat) -> bool {
    exists|k: nat| 1 <= k <= limit && #[trigger] walk_closes(m, kind, h0, k)
}

/// The walk from `h0` comes back to `h0` without failing.
pub open spec fn walk_cycles(m: MeshView, kind: WalkKind, h0: u64) -> bool {
    exists|k: nat| k >= 1 && walk(m, kind, h0, k) == Ok::<u64, TraversalError>(h0)
}

/// `v` lists the walk from `h0` up to its first return to `h0`.
pub open spec fn is_cycle_of(m: MeshView, kind: WalkKind, h0: u64, v: Seq<HalfEdgeId>) -> bool {
    &&& v.len() >= 1
    &&& forall|j: int| 0 <= j < v.len() ==> walk(m, kind, h0, j as nat) == Ok::<u64, TraversalError>(#[trigger] v[j].0)
    &&& walk(m, kind, h0, v.len()) == Ok::<u64, TraversalError>(h0)
    &&& forall|j: int| 1 <= j < v.len() ==> #[trigger] walk(m, kind, h0, j as nat) != Ok::<u64, TraversalError>(h0)
}

/// The walk from `h0` fails with `e` before coming back.
pub open spec fn is_walk_error(m: MeshView, kind: WalkKind, h0: u64, e: TraversalError) -> bool {
    exists|n: nat|
        n >= 1 && #[trigger] walk(m, kind, h0, n) == Err::<u64, TraversalError>(e) && forall|j: int|
            1 <= j < n ==> #[trigger] walk(m, kind, h0, j as nat) != Ok::<u64, TraversalError>(h0)
}

pub proof fn lemma_walk_in_dom(m: MeshView, kind: WalkKind, h0: u64, k: nat)
    requires
        m.links_valid(),
        m.halfedges.dom().contains(h0),
    ensures
        walk(m, kind, h0, k) matches Ok(x) ==> m.halfedges.dom().contains(x),
    decreases k,
{
    if k > 0 {
        lemma_walk_in_dom(m, kind, h0, (k - 1) as nat);
        if let Ok(x) = walk(m, kind, h0, (k - 1) as nat) {
            assert(m.halfedge_links_ok(m.halfedges[x]));
            if let Some(t) = m.halfedges[x].twin {
                assert(m.halfedge_links_ok(m.halfedges[t.0]));
            }
        }
    }
}

pub proof fn lemma_walk_error_sticks(m: MeshView, kind: WalkKind, h0: u64, n: nat, k: nat)
    requires
        n <= k,
        walk(m, kind, h0, n) is Err,
    ensures
        walk(m, kind, h0, k) == walk(m, kind, h0, n),
    decreases k - n,
{
    if k > n {
        lemma_walk_error_sticks(m, kind, h0, n, (k - 1) as nat);
    }
}

/// The walk comes back to `h0` first after `n` steps, without failing.
pub open spec fn walk_returns_at(m: MeshView, kind: WalkKind, h0: u64, n: nat) -> bool {
    &&& n >= 1
    &&& walk(m, kind, h0, n) == Ok::<u64, TraversalError>(h0)
    &&& forall|j: int| 1 <= j < n ==> #[trigger] walk(m, kind, h0, j as nat) != Ok::<u64, TraversalError>(h0)
}

/// The length of the cycle of the walk from `h0`.
pub open spec fn cycle_len(m: MeshView, kind: WalkKind, h0: u64) -> nat {
    choose|n: nat| walk_returns_at(m, kind, h0, n)
}

/// The half-edges of the cycle of the walk from `h0`, starting at `h0`.
pub open spec fn cycle_seq(m: MeshView, kind: WalkKind, h0: u64) -> Seq<HalfEdgeId> {
    Seq::new(cycle_len(m, kind, h0), |j: int| HalfEdgeId(walk(m, kind, h0, j as nat)->Ok_0))
}

/// The error at which the walk from `h0` stops.
pub open spec fn walk_error(m: MeshView, kind: WalkKind, h0: u64) -> TraversalError {
    walk(m, kind, h0, choose|n: nat| #[trigger] walk(m, kind, h0, n) is Err)->Err_0
}

/// What following the walk from `h0` until it returns gives: the cycle, or
/// the error that stopped it.
pub open spec fn walk_outcome(m: MeshView, kind: WalkKind, h0: u64) -> Result<Seq<HalfEdgeId>, TraversalError> {
    if exists|n: nat| walk_returns_at(m, kind, h0, n) {
        Ok(cycle_seq(m, kind, h0))
    } else {
        Err(walk_error(m, kind, h0))
    }
}

pub proof fn lemma_cycle_outcome(m: MeshView, kind: WalkKind, h0: u64, v: Seq<HalfEdgeId>)
    requires
        is_cycle_of(m, kind, h0, v),
    ensures
        walk_outcome(m, kind, h0) == Ok::<Seq<HalfEdgeId>, TraversalError>(v),
{
    assert(walk_returns_at(m, kind, h0, v.len()));
    let n = cycle_len(m, kind, h0);
    assert(walk_returns_at(m, kind, h0, n));
    if n < v.len() {
        let ni: int = n as int;
        assert(walk(m, kind, h0, ni as nat) != Ok::<u64, TraversalError>(h0));
    }
    if n > v.len() {
        let vi: int = v.len() as int;
        assert(walk(m, kind, h0, vi as nat) != Ok::<u64, TraversalError>(h0));
    }
    assert(cycle_seq(m, kind, h0) =~= v) by {
        assert forall|j: int| 0 <= j < v.len() implies cycle_seq(m, kind, h0)[j] == v[j] by {
            assert(walk(m, kind, h0, j as nat) == Ok::<u64, TraversalError>(v[j].0));
        }
    }
}

pub proof fn lemma_error_outcome(m: MeshView, kind: WalkKind, h0: u64, e: TraversalError)
    requires
        is_walk_error(m, kind, h0, e),
    ensures
        walk_outcome(m, kind, h0) == Err::<Seq<HalfEdgeId>, TraversalError>(e),
{
    let n = choose|n: nat|
        n >= 1 && #[trigger] walk(m, kind, h0, n) == Err::<u64, TraversalError>(e) && forall|j: int|
            1 <= j < n ==> #[trigger] walk(m, kind, h0, j as nat) != Ok::<u64, TraversalError>(h0);
    if exists|n2: nat| walk_returns_at(m, kind, h0, n2) {
        let n2 = choose|n2: nat| walk_returns_at(m, kind, h0, n2);
        if n2 < n {
            let ni: int = n2 as int;
            assert(walk(m, kind, h0, ni as nat) != Ok::<u64, TraversalError>(h0));
        } else {
            lemma_walk_error_sticks(m, kind, h0, n, n2);
        }
    }
    assert(walk(m, kind, h0, n) is Err);
    let n3 = choose|n3: nat| #[trigger] walk(m, kind, h0, n3) is Err;
    if n3 <= n {
        lemma_walk_error_sticks(m, kind, h0, n3, n);
    } else {
        lemma_walk_error_sticks(m, kind, h0, n, n3);
    }
}

impl MeshConnectivity {
    /// One step of a walk.
    pub fn walk_step_exec(&self, kind: WalkKind, h: HalfEdgeId) -> (r: Result<HalfEdgeId, TraversalError>)
        requires
            self.well_formed(),
            self@.links_valid(),
            self@.has_halfedge(h),
        ensures
            match walk_step(self@, kind, h.0) {
                Ok(x) => r == Ok::<HalfEdgeId, TraversalError>(HalfEdgeId(x)),
                Err(e) => r == Err::<HalfEdgeId, TraversalError>(e),
            },
            r matches Ok(x) ==> self@.has_halfedge(x),
    {
        let he = self.halfedge(h);
        proof {
            assert(self@.halfedge_links_ok(self@.halfedges[h.0]));
        }
        match kind {
            WalkKind::Next => match he.next {
                Some(n) => Ok(n),
                None => Err(TraversalError::HalfEdgeHasNoNext(h)),
            },
            WalkKind::Fan => match he.twin {
                Some(t) => {
                    proof {
                        assert(self@.halfedge_links_ok(self@.halfedges[t.0]));
                    }
                    match self.halfedge(t).next {
                        Some(n) => Ok(n),
                        None => Err(TraversalError::HalfEdgeHasNoNext(t)),
                    }
                },
                None => Err(TraversalError::HalfEdgeHasNoTwin(h)),
            },
        }
    }

    /// Follows a walk from `h0` until it comes back to `h0`, returning the
    /// half-edges visited, or the error that stopped it.
    pub fn walk_cycle(&self, kind: WalkKind, h0: HalfEdgeId) -> (r: Result<Vec<HalfEdgeId>, TraversalError>)
        requires
            self.well_formed(),
            self@.links_valid(),
            self@.has_halfedge(h0),
            walk_terminates(self@, kind, h0.0),
        ensures
            match r {
                Ok(v) => is_cycle_of(self@, kind, h0.0, v@) && walk_outcome(self@, kind, h0.0)
                    == Ok::<Seq<HalfEdgeId>, TraversalError>(v@),
                Err(e) => is_walk_error(self@, kind, h0.0, e) && walk_outcome(self@, kind, h0.0)
                    == Err::<Seq<HalfEdgeId>, TraversalError>(e),
            },
    {
        let ghost m = self@;
        let ghost k0 = choose|k: nat| walk_closes(m, kind, h0.0, k);
        let mut v: Vec<HalfEdgeId> = Vec::new();
        v.push(h0);
        let mut h = h0;
        assert(walk(m, kind, h0.0, 0) == Ok::<u64, TraversalError>(h0.0));
        loop
            invariant
                m == self@,
                self.well_formed(),
                self@.links_valid(),
                walk_closes(m, kind, h0.0, k0),
                1 <= v@.len() <= k0,
                h == v@.last(),
                self@.has_halfedge(h),
                forall|j: int| 0 <= j < v@.len() ==> walk(m, kind, h0.0, j as nat) == Ok::<u64, TraversalError>(#[trigger] v@[j].0),
                forall|j: int| 1 <= j < v@.len() ==> #[trigger] walk(m, kind, h0.0, j as nat) != Ok::<u64, TraversalError>(h0.0),
            decreases k0 - v@.len(),
        {
            let len = v.len();
            assert(walk(m, kind, h0.0, (len - 1) as nat) == Ok::<u64, TraversalError>(h.0));
            assert(walk(m, kind, h0.0, len as nat) == walk_step(m, kind, h.0));
            match self.walk_step_exec(kind, h) {
                Err(e) => {
                    proof {
                        assert(is_walk_error(m, kind, h0.0, e));
                        lemma_error_outcome(m, kind, h0.0, e);
                    }
                    return Err(e);
                },
                Ok(nx) => {
                    if nx == h0 {
                        proof {
                            lemma_cycle_outcome(m, kind, h0.0, v@);
                        }
                        return Ok(v);
                    }
                    proof {
                        if len as nat == k0 {
                            assert(false);
                        }
                    }
                    v.push(nx);
                    h = nx;
                },
            }
        }
    }

    /// Whether the walk from `h0` fails or comes back to `h0` within `limit`
    /// steps.
    pub fn walk_closes_within(&self, kind: WalkKind, h0: HalfEdgeId, limit: usize) -> (r: bool)
        requires
            self.well_formed(),
            self@.links_valid(),
            self@.has_halfedge(h0),
        ensures
            r == closes_within(self@, kind, h0.0, limit as nat),
    {
        let ghost m = self@;
        let mut h = h0;
        let mut count: usize = 0;
        while count < limit
            invariant
                m == self@,
                self.well_formed(),
                m.links_valid(),
                count <= limit,
                m.has_halfedge(h),
                walk(m, kind, h0.0, count as nat) == Ok::<u64, TraversalError>(h.0),
                forall|j: nat| 1 <= j <= count ==> !#[trigger] walk_closes(m, kind, h0.0, j),
            decreases limit - count,
        {
            let ghost c1: nat = (count + 1) as nat;
            assert(walk(m, kind, h0.0, c1) == walk_step(m, kind, h.0));
            match self.walk_step_exec(kind, h) {
                Err(_) => {
                    assert(walk_closes(m, kind, h0.0, c1));
                    return true;
                },
                Ok(nx) => {
                    if nx == h0 {
                        assert(walk_closes(m, kind, h0.0, c1));
                        return true;
                    }
                    assert(!walk_closes(m, kind, h0.0, c1));
                    h = nx;
                    count += 1;
                },
            }
        }
        false
    }

    /// The half-edges of the `next` cycle through `h`, starting at `h`.
    pub fn halfedge_loop(&self, h: HalfEdgeId) -> (r: Vec<HalfEdgeId>)
        requires
            self.well_formed(),
            self@.links_valid(),
            self@.has_halfedge(h),
            walk_cycles(self@, WalkKind::Next, h.0),
        ensures
            is_cycle_of(self@, WalkKind::Next, h.0, r@),
            r@ == cycle_seq(self@, WalkKind::Next, h.0),
    {
        let ghost m = self@;
        proof {
            let k = choose|k: nat| k >= 1 && walk(m, WalkKind::Next, h.0, k) == Ok::<u64, TraversalError>(h.0);
            assert(walk_closes(m, WalkKind::Next, h.0, k));
        }
        match self.walk_cycle(WalkKind::Next, h) {
            Ok(v) => {
                proof {
                    lemma_cycle_outcome(m, WalkKind::Next, h.0, v@);
                }
                v
            },
            Err(e) => {
                proof {
                    let k = choose|k: nat| k >= 1 && walk(m, WalkKind::Next, h.0, k) == Ok::<u64, TraversalError>(h.0);
                    let n = choose|n: nat|
                        n >= 1 && #[trigger] walk(m, WalkKind::Next, h.0, n) == Err::<u64, TraversalError>(e) && forall|j: int|
                            1 <= j < n ==> #[trigger] walk(m, WalkKind::Next, h.0, j as nat) != Ok::<u64, TraversalError>(h.0);
                    if n <= k {
                        lemma_walk_error_sticks(m, WalkKind::Next, h.0, n, k);
                    } else {
                        let ki: int = k as int;
                        assert(walk(m, WalkKind::Next, h.0, ki as nat) == Ok::<u64, TraversalError>(h.0));
                    }
                }
                assert(false);
                Vec::new()
            },
        }
    }
}

/// The `next` loop through `h` comes back, without failing, within as many
/// steps as the mesh has half-edges.
pub open spec fn loop_ok(s: MeshView, h: u64) -> bool {
    closes_within(s, WalkKind::Next, h, s.halfedges.dom().len()) && walk_outcome(s, WalkKind::Next, h) is Ok
}

pub proof fn lemma_loop_ok_cycles(s: MeshView, h: u64)
    requires
        loop_ok(s, h),
    ensures
        walk_cycles(s, WalkKind::Next, h),
{
    let n = choose|n: nat| walk_returns_at(s, WalkKind::Next, h, n);
    assert(walk_returns_at(s, WalkKind::Next, h, n));
}

/// Whether the `next` loop through `h` comes back, without failing, within
/// as many steps as the mesh has half-edges.
pub fn loop_check(mesh: &MeshConnectivity, h: HalfEdgeId) -> (r: bool)
    requires
        mesh.well_formed(),
        mesh@.links_valid(),
        mesh@.has_halfedge(h),
    ensures
        r == loop_ok(mesh@, h.0),
{
    let ghost m = mesh@;
    let lim = mesh.num_halfedges();
    if !mesh.walk_closes_within(WalkKind::Next, h, lim) {
        return false;
    }
    proof {
        let k = choose|k: nat| 1 <= k <= lim && #[trigger] walk_closes(m, WalkKind::Next, h.0, k);
        assert(walk_closes(m, WalkKind::Next, h.0, k));
    }
    match mesh.walk_cycle(WalkKind::Next, h) {
        Ok(_) => true,
        Err(_) => false,
    }
}

} // verus!
