//! A half-edge representation storing the half-edge pointers in contiguous
//! arrays, and the connectivity rules of Catmull-Clark style refinement on it
//! ("A Halfedge Refinement Rule for Parallel Catmull-Clark Subdivision").
//!
//! Unlike a [`crate::halfedge::MeshConnectivity`], a boundary edge has a
//! single half-edge here, whose twin is `None`. Once a mesh has been
//! subdivided, every face is a quad whose four half-edges are stored
//! consecutively, so `next`, `prev` and `face` follow from the index alone;
//! the `SUBDIVIDED` parameter records that.
use vstd::prelude::*;

pub mod convert;

verus! {

/// Element counts of a compact mesh.
#[derive(Clone, Copy, Debug, PartialEq, Eq, Structural)]
pub struct MeshCounts {
    /// The number of vertices
    pub num_vertices: usize,
    /// The number of halfedges. A boundary edge has a single halfedge, so
    /// this is not twice the number of edges in general.
    pub num_halfedges: usize,
    /// The number of edges.
    pub num_edges: usize,
    /// The number of faces
    pub num_faces: usize,
}

/// The counts after one step of refinement: every half-edge spawns a quad.
pub open spec fn subdiv_counts(c: MeshCounts) -> MeshCounts {
    MeshCounts {
        num_halfedges: (c.num_halfedges * 4) as usize,
        num_faces: c.num_halfedges,
        num_vertices: (c.num_vertices + c.num_faces + c.num_edges) as usize,
        num_edges: (2 * c.num_edges + c.num_halfedges) as usize,
    }
}

/// The refined counts fit in `usize`.
pub open spec fn subdiv_fits(c: MeshCounts) -> bool {
    &&& c.num_halfedges * 4 <= usize::MAX
    &&& c.num_vertices + c.num_faces + c.num_edges <= usize::MAX
    &&& 2 * c.num_edges + c.num_halfedges <= usize::MAX
}

impl MeshCounts {
    /// Returns the mesh counts of a compact mesh after a single iteration of
    /// subdivision.
    pub fn subdiv(&self) -> (r: Self)
        requires
            subdiv_fits(*self),
        ensures
            r == subdiv_counts(*self),
    {
        let h_0 = self.num_halfedges;
        let v_0 = self.num_vertices;
        let f_0 = self.num_faces;
        let e_0 = self.num_edges;

        MeshCounts {
            num_halfedges: h_0 * 4,
            num_faces: h_0,
            num_vertices: v_0 + f_0 + e_0,
            num_edges: 2 * e_0 + h_0,
        }
    }
}

} // verus!

verus! {

/// A compact half-edge mesh. At index `h` of each array lies the data of
/// half-edge `h`. When `Subdivided` holds, `next`, `prev` and `face` are empty
/// and follow from the index.
#[allow(non_upper_case_globals)]
pub struct CompactMesh<const Subdivided: bool> {
    /// The twin of each half-edge, `None` on the boundary.
    pub twin: Vec<Option<u32>>,
    pub next: Vec<u32>,
    pub prev: Vec<u32>,
    pub vert: Vec<u32>,
    pub edge: Vec<u32>,
    pub face: Vec<u32>,
    pub counts: MeshCounts,
}

/// The size limits under which one refinement computes its indices in `u32`
/// and its counts in `usize` without overflow.
pub open spec fn refinement_fits_counts(c: MeshCounts) -> bool {
    &&& 4 * c.num_halfedges <= u32::MAX
    &&& c.num_vertices + c.num_faces + c.num_edges <= u32::MAX
    &&& 2 * c.num_edges + c.num_halfedges <= u32::MAX
    &&& subdiv_fits(c)
}

/// The counts after `k` refinements.
pub open spec fn counts_after(c: MeshCounts, k: nat) -> MeshCounts
    decreases k,
{
    if k == 0 {
        c
    } else {
        counts_after(subdiv_counts(c), (k - 1) as nat)
    }
}

/// Each of `k` successive refinements fits.
pub open spec fn refinements_fit(c: MeshCounts, k: nat) -> bool
    decreases k,
{
    k == 0 || (refinement_fits_counts(c) && refinements_fit(subdiv_counts(c), (k - 1) as nat))
}

/// `NonMaxU32::new`: every `u32` but `u32::MAX` is a valid index.
pub open spec fn spec_non_max(v: int) -> Option<u32> {
    if v == u32::MAX {
        None
    } else {
        Some(v as u32)
    }
}

fn non_max(v: u32) -> (r: Option<u32>)
    ensures
        r == spec_non_max(v as int),
{
    if v == u32::MAX {
        None
    } else {
        Some(v)
    }
}

#[allow(non_upper_case_globals)]
impl<const Subdivided: bool> CompactMesh<Subdivided> {
    pub open spec fn num_h(&self) -> int {
        self.counts.num_halfedges as int
    }

    pub open spec fn next_of(&self, h: int) -> int {
        if Subdivided {
            if h % 4 == 3 {
                h - 3
            } else {
                h + 1
            }
        } else {
            self.next@[h] as int
        }
    }

    pub open spec fn prev_of(&self, h: int) -> int {
        if Subdivided {
            if h % 4 == 0 {
                h + 3
            } else {
                h - 1
            }
        } else {
            self.prev@[h] as int
        }
    }

    pub open spec fn face_of(&self, h: int) -> int {
        if Subdivided {
            h / 4
        } else {
            self.face@[h] as int
        }
    }

    /// The arrays describe a mesh: they have one entry per half-edge, all
    /// indices are in range, `prev` inverts `next`, twins come in pairs that
    /// share their edge.
    pub open spec fn well_formed(&self) -> bool {
        let n = self.num_h();
        &&& self.twin@.len() == n
        &&& self.vert@.len() == n
        &&& self.edge@.len() == n
        &&& Subdivided ==> n == 4 * self.counts.num_faces
        &&& !Subdivided ==> self.next@.len() == n && self.prev@.len() == n && self.face@.len() == n
        &&& forall|h: int| 0 <= h < n ==> #[trigger] self.halfedge_ok(h)
    }

    /// The facts about half-edge `h` that a well formed mesh holds.
    pub open spec fn halfedge_ok(&self, h: int) -> bool {
        let n = self.num_h();
        &&& 0 <= self.next_of(h) < n
        &&& 0 <= self.prev_of(h) < n
        &&& self.prev_of(self.next_of(h)) == h
        &&& self.next_of(self.prev_of(h)) == h
        &&& 0 <= self.face_of(h) < self.counts.num_faces
        &&& self.vert@[h] < self.counts.num_vertices
        &&& self.edge@[h] < self.counts.num_edges
        &&& (self.twin@[h] matches Some(t) ==> {
            &&& 0 <= t < n
            &&& t != h
            &&& self.twin@[t as int] == Some(h as u32)
            &&& self.edge@[t as int] == self.edge@[h]
        })
    }

    /// The size limits under which refinement computes its indices in `u32`
    /// without overflow.
    pub open spec fn refinement_fits(&self) -> bool {
        refinement_fits_counts(self.counts)
    }

    /// Returns the next of a given halfedge h. This uses the analytical
    /// expression if the mesh has been subdivided at least once.
    pub fn get_next(&self, h: usize) -> (r: usize)
        requires
            self.well_formed(),
            h < self.num_h(),
        ensures
            r == self.next_of(h as int),
    {
        assert(self.halfedge_ok(h as int));
        if Subdivided {
            if h % 4 == 3 {
                h - 3
            } else {
                h + 1
            }
        } else {
            self.next[h] as usize
        }
    }

    /// Returns the prev of a given halfedge h. This uses the analytical
    /// expression if the mesh has been subdivided at least once.
    pub fn get_prev(&self, h: usize) -> (r: usize)
        requires
            self.well_formed(),
            h < self.num_h(),
        ensures
            r == self.prev_of(h as int),
    {
        assert(self.halfedge_ok(h as int));
        if Subdivided {
            if h % 4 == 0 {
                h + 3
            } else {
                h - 1
            }
        } else {
            self.prev[h] as usize
        }
    }

    /// Returns the face of a given halfedge h. This uses the analytical
    /// expression if the mesh has been subdivided at least once.
    pub fn get_face(&self, h: usize) -> (r: usize)
        requires
            self.well_formed(),
            h < self.num_h(),
        ensures
            r == self.face_of(h as int),
    {
        assert(self.halfedge_ok(h as int));
        if Subdivided {
            h / 4
        } else {
            self.face[h] as usize
        }
    }

    /// The next of `h` as the arrays or the index give it, without
    /// assuming the arrays are well formed.
    fn next_raw(&self, h: usize) -> (r: usize)
        requires
            h < self.num_h(),
            !Subdivided ==> h < self.next@.len(),
        ensures
            r == self.next_of(h as int),
    {
        if Subdivided {
            if h % 4 == 3 {
                h - 3
            } else {
                h + 1
            }
        } else {
            self.next[h] as usize
        }
    }

    /// The prev of `h` as the arrays or the index give it, without
    /// assuming the arrays are well formed.
    fn prev_raw(&self, h: usize) -> (r: usize)
        requires
            h < self.num_h(),
            Subdivided ==> self.num_h() == 4 * self.counts.num_faces,
            !Subdivided ==> h < self.prev@.len(),
        ensures
            r == self.prev_of(h as int),
    {
        if Subdivided {
            if h % 4 == 0 {
                h + 3
            } else {
                h - 1
            }
        } else {
            self.prev[h] as usize
        }
    }

    /// Whether the arrays describe a mesh, as `well_formed` says.
    pub fn is_well_formed(&self) -> (r: bool)
        ensures
            r == self.well_formed(),
    {
        let n = self.counts.num_halfedges;
        if self.twin.len() != n || self.vert.len() != n || self.edge.len() != n {
            return false;
        }
        if Subdivided {
            if n % 4 != 0 || n / 4 != self.counts.num_faces {
                return false;
            }
        } else {
            if self.next.len() != n || self.prev.len() != n || self.face.len() != n {
                return false;
            }
        }
        proof {
            if Subdivided {
                assert(n == 4 * self.counts.num_faces);
            }
        }
        let mut h: usize = 0;
        while h < n
            invariant
                n == self.num_h(),
                h <= n,
                self.twin@.len() == n,
                self.vert@.len() == n,
                self.edge@.len() == n,
                Subdivided ==> n == 4 * self.counts.num_faces,
                !Subdivided ==> self.next@.len() == n && self.prev@.len() == n && self.face@.len() == n,
                forall|j: int| 0 <= j < h ==> #[trigger] self.halfedge_ok(j),
            decreases n - h,
        {
            let nx = self.next_raw(h);
            let pv = self.prev_raw(h);
            if nx >= n || pv >= n {
                assert(!self.halfedge_ok(h as int));
                return false;
            }
            if self.prev_raw(nx) != h || self.next_raw(pv) != h {
                assert(!self.halfedge_ok(h as int));
                return false;
            }
            let f: usize = if Subdivided {
                h / 4
            } else {
                self.face[h] as usize
            };
            if f >= self.counts.num_faces || (self.vert[h] as usize) >= self.counts.num_vertices
                || (self.edge[h] as usize) >= self.counts.num_edges {
                assert(!self.halfedge_ok(h as int));
                return false;
            }
            match self.twin[h] {
                Some(t) => {
                    let tu = t as usize;
                    if tu >= n || tu == h {
                        assert(!self.halfedge_ok(h as int));
                        return false;
                    }
                    let h32: u32 = #[verifier::truncate] (h as u32);
                    let back_ok = match self.twin[tu] {
                        Some(b) => b == h32,
                        None => false,
                    };
                    if !back_ok || self.edge[tu] != self.edge[h] {
                        assert(!self.halfedge_ok(h as int));
                        return false;
                    }
                },
                None => {},
            }
            assert(self.halfedge_ok(h as int));
            h += 1;
        }
        true
    }

    /// Whether each of `k` successive refinements fits, as
    /// `refinements_fit` says.
    pub fn refinements_fit_check(counts: MeshCounts, k: usize) -> (r: bool)
        ensures
            r == refinements_fit(counts, k as nat),
    {
        let mut c = counts;
        let mut i: usize = 0;
        while i < k
            invariant
                i <= k,
                refinements_fit(counts, k as nat) == refinements_fit(c, (k - i) as nat),
            decreases k - i,
        {
            let h = c.num_halfedges as u128;
            let v = c.num_vertices as u128;
            let f = c.num_faces as u128;
            let e = c.num_edges as u128;
            let fits = 4 * h <= 0xffff_ffff && v + f + e <= 0xffff_ffff && 2 * e + h <= 0xffff_ffff;
            if !fits {
                return false;
            }
            c = c.subdiv();
            i += 1;
        }
        true
    }

    /// The twin pointer of the `i`-th of the four half-edges spawned by `h`.
    pub open spec fn twin_rule(&self, h: int, i: int) -> Option<u32> {
        if i == 0 {
            match self.twin@[h] {
                Some(t) => spec_non_max(4 * self.next_of(t as int) + 3),
                None => None,
            }
        } else if i == 1 {
            spec_non_max(4 * self.next_of(h) + 2)
        } else if i == 2 {
            spec_non_max(4 * self.prev_of(h) + 1)
        } else {
            match self.twin@[self.prev_of(h)] {
                Some(t) => spec_non_max(4 * t),
                None => None,
            }
        }
    }

    /// The vertex of the `i`-th of the four half-edges spawned by `h`: the
    /// old vertex, the edge point, the face point, the previous edge point.
    pub open spec fn vert_rule(&self, h: int, i: int) -> u32 {
        let v_d = self.counts.num_vertices;
        let f_d = self.counts.num_faces;
        if i == 0 {
            self.vert@[h]
        } else if i == 1 {
            (v_d + f_d + self.edge@[h]) as u32
        } else if i == 2 {
            (v_d + self.face_of(h)) as u32
        } else {
            (v_d + f_d + self.edge@[self.prev_of(h)]) as u32
        }
    }

    /// Whether `h` is the lower-numbered half of its edge (true on the
    /// boundary).
    pub open spec fn is_first_half(&self, h: int) -> bool {
        match self.twin@[h] {
            Some(t) => h < t,
            None => true,
        }
    }

    /// The edge of the `i`-th of the four half-edges spawned by `h`.
    pub open spec fn edge_rule(&self, h: int, i: int) -> u32 {
        let e_d = self.counts.num_edges;
        let hp = self.prev_of(h);
        if i == 0 {
            if self.is_first_half(h) {
                (2 * self.edge@[h]) as u32
            } else {
                (2 * self.edge@[h] + 1) as u32
            }
        } else if i == 1 {
            (2 * e_d + h) as u32
        } else if i == 2 {
            (2 * e_d + hp) as u32
        } else {
            if self.is_first_half(hp) {
                (2 * self.edge@[hp] + 1) as u32
            } else {
                (2 * self.edge@[hp]) as u32
            }
        }
    }

    /// Generates the twin pointers for the 4 halfedges spawning from `h`
    /// during subdivision.
    fn halfedge_refinement_twin_rule(&self, h: usize) -> (r: [Option<u32>; 4])
        requires
            self.well_formed(),
            self.refinement_fits(),
            h < self.num_h(),
        ensures
            forall|i: int| 0 <= i < 4 ==> r@[i] == self.twin_rule(h as int, i),
    {
        assert(self.halfedge_ok(h as int));
        assert(self.halfedge_ok(self.prev_of(h as int)));
        proof {
            if let Some(t) = self.twin@[h as int] {
                assert(self.halfedge_ok(t as int));
            }
        }
        let t0 = match self.twin[h] {
            Some(twin_h) => non_max(4 * (self.get_next(twin_h as usize) as u32) + 3),
            None => None,
        };
        let t1 = non_max(4 * (self.get_next(h) as u32) + 2);
        let t2 = non_max(4 * (self.get_prev(h) as u32) + 1);
        let t3 = match self.twin[self.get_prev(h)] {
            Some(twin_prev_h) => non_max(4 * twin_prev_h),
            None => None,
        };
        [t0, t1, t2, t3]
    }

    /// Generates the vert pointers for the 4 halfedges spawning from `h`
    /// during subdivision.
    fn halfedge_refinement_vertex_rule(&self, h: usize) -> (r: [u32; 4])
        requires
            self.well_formed(),
            self.refinement_fits(),
            h < self.num_h(),
        ensures
            forall|i: int| 0 <= i < 4 ==> r@[i] == self.vert_rule(h as int, i),
    {
        assert(self.halfedge_ok(h as int));
        assert(self.halfedge_ok(self.prev_of(h as int)));
        let v_d = self.counts.num_vertices as u32;
        let f_d = self.counts.num_faces as u32;
        [
            self.vert[h],
            v_d + f_d + self.edge[h],
            v_d + self.get_face(h) as u32,
            v_d + f_d + self.edge[self.get_prev(h)],
        ]
    }

    /// Generates the edge pointers for the 4 halfedges spawning from `h`
    /// during subdivision.
    fn halfedge_refinement_edge_rule(&self, h: usize) -> (r: [u32; 4])
        requires
            self.well_formed(),
            self.refinement_fits(),
            h < self.num_h(),
        ensures
            forall|i: int| 0 <= i < 4 ==> r@[i] == self.edge_rule(h as int, i),
    {
        assert(self.halfedge_ok(h as int));
        assert(self.halfedge_ok(self.prev_of(h as int)));
        let e_d = self.counts.num_edges as u32;
        let h_prev = self.get_prev(h);
        let h_gt_twin_h = match self.twin[h] {
            Some(twin_h) => (h as u32) < twin_h,
            None => true,
        };
        let hp_gt_twin_hp = match self.twin[h_prev] {
            Some(twin_hp) => (h_prev as u32) < twin_hp,
            None => true,
        };
        let e0 = if h_gt_twin_h {
            2 * self.edge[h]
        } else {
            2 * self.edge[h] + 1
        };
        let e3 = if hp_gt_twin_hp {
            2 * self.edge[h_prev] + 1
        } else {
            2 * self.edge[h_prev]
        };
        [e0, 2 * e_d + h as u32, 2 * e_d + h_prev as u32, e3]
    }
}

} // verus!

verus! {

/// `k` is the `k % 4`-th half-edge spawned by half-edge `k / 4`.
pub proof fn lemma_div4(h: int, i: int)
    requires
        0 <= h,
        0 <= i < 4,
    ensures
        (4 * h + i) / 4 == h,
        (4 * h + i) % 4 == i,
{
}

#[allow(non_upper_case_globals)]
impl<const Subdivided: bool> CompactMesh<Subdivided> {
    /// The arrays of `r` hold, at index `k`, what the refinement rules give
    /// for the `k % 4`-th half-edge spawned by half-edge `k / 4` of `self`.
    pub open spec fn is_refinement(&self, r: CompactMesh<true>) -> bool {
        let n = self.num_h();
        &&& r.counts == subdiv_counts(self.counts)
        &&& r.twin@.len() == 4 * n
        &&& r.vert@.len() == 4 * n
        &&& r.edge@.len() == 4 * n
        &&& r.next@.len() == 0
        &&& r.prev@.len() == 0
        &&& r.face@.len() == 0
        &&& forall|k: int|
            0 <= k < 4 * n ==> {
                &&& #[trigger] r.twin@[k] == self.twin_rule(k / 4, k % 4)
                &&& r.vert@[k] == self.vert_rule(k / 4, k % 4)
                &&& r.edge@[k] == self.edge_rule(k / 4, k % 4)
            }
    }

    /// Subdivides the mesh connectivity once: every half-edge `h` spawns the
    /// four half-edges `4h..4h+3` of a quad, following the refinement rules.
    /// The vertices of the result are the old vertices, then one per face,
    /// then one per edge.
    #[verifier::spinoff_prover]
    pub fn subdivide(&self) -> (r: CompactMesh<true>)
        requires
            self.well_formed(),
            self.refinement_fits(),
        ensures
            self.is_refinement(r),
            forall|h: int| 0 <= h < self.num_h() ==> #[trigger] r.vert@[4 * h] == self.vert@[h],
            self.vertex_consistent() ==> r.vertex_consistent(),
    {
        let new_counts = self.counts.subdiv();
        let n = self.counts.num_halfedges;
        let mut new_twin: Vec<Option<u32>> = Vec::new();
        let mut new_vert: Vec<u32> = Vec::new();
        let mut new_edge: Vec<u32> = Vec::new();
        let mut h: usize = 0;
        while h < n
            invariant
                self.well_formed(),
                self.refinement_fits(),
                n == self.num_h(),
                h <= n,
                new_twin@.len() == 4 * h,
                new_vert@.len() == 4 * h,
                new_edge@.len() == 4 * h,
                forall|k: int|
                    0 <= k < 4 * h ==> {
                        &&& #[trigger] new_twin@[k] == self.twin_rule(k / 4, k % 4)
                        &&& new_vert@[k] == self.vert_rule(k / 4, k % 4)
                        &&& new_edge@[k] == self.edge_rule(k / 4, k % 4)
                    },
            decreases n - h,
        {
            let twin = self.halfedge_refinement_twin_rule(h);
            let vert = self.halfedge_refinement_vertex_rule(h);
            let edge = self.halfedge_refinement_edge_rule(h);
            let mut i: usize = 0;
            while i < 4
                invariant
                    i <= 4,
                    h < n,
                    new_twin@.len() == 4 * h + i,
                    new_vert@.len() == 4 * h + i,
                    new_edge@.len() == 4 * h + i,
                    forall|j: int| 0 <= j < 4 ==> twin@[j] == self.twin_rule(h as int, j),
                    forall|j: int| 0 <= j < 4 ==> vert@[j] == self.vert_rule(h as int, j),
                    forall|j: int| 0 <= j < 4 ==> edge@[j] == self.edge_rule(h as int, j),
                    forall|k: int|
                        0 <= k < 4 * h + i ==> {
                            &&& #[trigger] new_twin@[k] == self.twin_rule(k / 4, k % 4)
                            &&& new_vert@[k] == self.vert_rule(k / 4, k % 4)
                            &&& new_edge@[k] == self.edge_rule(k / 4, k % 4)
                        },
                decreases 4 - i,
            {
                proof {
                    lemma_div4(h as int, i as int);
                }
                let ghost (ot, ov, oe) = (new_twin@, new_vert@, new_edge@);
                new_twin.push(twin[i]);
                new_vert.push(vert[i]);
                new_edge.push(edge[i]);
                proof {
                    assert forall|k: int| 0 <= k < 4 * h + i + 1 implies {
                        &&& #[trigger] new_twin@[k] == self.twin_rule(k / 4, k % 4)
                        &&& new_vert@[k] == self.vert_rule(k / 4, k % 4)
                        &&& new_edge@[k] == self.edge_rule(k / 4, k % 4)
                    } by {
                        if k < 4 * h + i {
                            assert(new_twin@[k] == ot[k]);
                            assert(new_vert@[k] == ov[k]);
                            assert(new_edge@[k] == oe[k]);
                        }
                    }
                }
                i += 1;
            }
            proof {
                assert(4 * (h + 1) == 4 * h + 4);
                assert forall|k: int| 0 <= k < 4 * (h + 1) implies {
                    &&& #[trigger] new_twin@[k] == self.twin_rule(k / 4, k % 4)
                    &&& new_vert@[k] == self.vert_rule(k / 4, k % 4)
                    &&& new_edge@[k] == self.edge_rule(k / 4, k % 4)
                } by {}
            }
            h += 1;
        }
        let r = CompactMesh {
            twin: new_twin,
            next: Vec::new(),
            prev: Vec::new(),
            vert: new_vert,
            edge: new_edge,
            face: Vec::new(),
            counts: new_counts,
        };
        proof {
            self.lemma_refinement_corners(r);
            if self.vertex_consistent() {
                self.lemma_refinement_vertex_consistent(r);
            }
        }
        r
    }
}

} // verus!

verus! {

#[allow(non_upper_case_globals)]
impl<const Subdivided: bool> CompactMesh<Subdivided> {
    proof fn lemma_refined_common(&self, r: CompactMesh<true>, h: int, i: int)
        requires
            self.well_formed(),
            self.refinement_fits(),
            self.is_refinement(r),
            0 <= h < self.num_h(),
            0 <= i < 4,
        ensures
            0 <= r.next_of(4 * h + i) < 4 * self.num_h(),
            0 <= r.prev_of(4 * h + i) < 4 * self.num_h(),
            r.prev_of(r.next_of(4 * h + i)) == 4 * h + i,
            r.next_of(r.prev_of(4 * h + i)) == 4 * h + i,
            0 <= r.face_of(4 * h + i) < r.counts.num_faces,
            r.vert@[4 * h + i] < r.counts.num_vertices,
            r.edge@[4 * h + i] < r.counts.num_edges,
            r.twin@[4 * h + i] == self.twin_rule(h, i),
            r.edge@[4 * h + i] == self.edge_rule(h, i),
    {
        let k = 4 * h + i;
        lemma_div4(h, i);
        assert(self.halfedge_ok(h));
        assert(self.halfedge_ok(self.prev_of(h)));
        assert(r.twin@[k] == self.twin_rule(k / 4, k % 4));
    }

    proof fn lemma_refined_twin0(&self, r: CompactMesh<true>, h: int)
        requires
            self.well_formed(),
            self.refinement_fits(),
            self.is_refinement(r),
            0 <= h < self.num_h(),
        ensures
            r.halfedge_ok(4 * h),
    {
        self.lemma_refined_common(r, h, 0);
        assert(self.halfedge_ok(h));
        if let Some(t) = self.twin@[h] {
            let th = t as int;
            assert(self.halfedge_ok(th));
            let g = self.next_of(th);
            assert(self.halfedge_ok(g));
            self.lemma_refined_common(r, g, 3);
            assert(self.is_first_half(th) == !self.is_first_half(h));
        }
    }

    proof fn lemma_refined_twin1(&self, r: CompactMesh<true>, h: int)
        requires
            self.well_formed(),
            self.refinement_fits(),
            self.is_refinement(r),
            0 <= h < self.num_h(),
        ensures
            r.halfedge_ok(4 * h + 1),
    {
        self.lemma_refined_common(r, h, 1);
        assert(self.halfedge_ok(h));
        let hn = self.next_of(h);
        assert(self.halfedge_ok(hn));
        self.lemma_refined_common(r, hn, 2);
    }

    proof fn lemma_refined_twin2(&self, r: CompactMesh<true>, h: int)
        requires
            self.well_formed(),
            self.refinement_fits(),
            self.is_refinement(r),
            0 <= h < self.num_h(),
        ensures
            r.halfedge_ok(4 * h + 2),
    {
        self.lemma_refined_common(r, h, 2);
        assert(self.halfedge_ok(h));
        let hp = self.prev_of(h);
        assert(self.halfedge_ok(hp));
        self.lemma_refined_common(r, hp, 1);
    }

    proof fn lemma_refined_twin3(&self, r: CompactMesh<true>, h: int)
        requires
            self.well_formed(),
            self.refinement_fits(),
            self.is_refinement(r),
            0 <= h < self.num_h(),
        ensures
            r.halfedge_ok(4 * h + 3),
    {
        self.lemma_refined_common(r, h, 3);
        assert(self.halfedge_ok(h));
        let hp = self.prev_of(h);
        assert(self.halfedge_ok(hp));
        if let Some(t) = self.twin@[hp] {
            let tp = t as int;
            assert(self.halfedge_ok(tp));
            self.lemma_refined_common(r, tp, 0);
            assert(self.is_first_half(tp) == !self.is_first_half(hp));
        }
    }

    proof fn lemma_refined_halfedge_ok(&self, r: CompactMesh<true>, k: int)
        requires
            self.well_formed(),
            self.refinement_fits(),
            self.is_refinement(r),
            0 <= k < 4 * self.num_h(),
        ensures
            r.halfedge_ok(k),
    {
        let h = k / 4;
        let i = k % 4;
        assert(k == 4 * h + i);
        if i == 0 {
            self.lemma_refined_twin0(r, h);
        } else if i == 1 {
            self.lemma_refined_twin1(r, h);
        } else if i == 2 {
            self.lemma_refined_twin2(r, h);
        } else {
            self.lemma_refined_twin3(r, h);
        }
    }

    /// The mesh's vertices and faces agree with its links: a half-edge's
    /// twin starts where the half-edge's `next` starts, and a half-edge's
    /// `next` lies on the same face.
    pub open spec fn vertex_consistent(&self) -> bool {
        forall|h: int| 0 <= h < self.num_h() ==> #[trigger] self.consistent_at(h)
    }

    /// Half-edge `h`'s twin starts where its `next` starts, and its `next`
    /// lies on its face.
    pub open spec fn consistent_at(&self, h: int) -> bool {
        &&& (self.twin@[h] matches Some(t) ==> self.vert@[t as int] == self.vert@[self.next_of(h)])
        &&& self.face_of(self.next_of(h)) == self.face_of(h)
    }

    /// One refinement keeps the corners: the first half-edge of the quad
    /// that half-edge `h` spawns starts at the vertex `h` started at.
    pub proof fn lemma_refinement_corners(&self, r: CompactMesh<true>)
        requires
            self.is_refinement(r),
        ensures
            forall|h: int| 0 <= h < self.num_h() ==> #[trigger] r.vert@[4 * h] == self.vert@[h],
    {
        assert forall|h: int| 0 <= h < self.num_h() implies #[trigger] r.vert@[4 * h] == self.vert@[h] by {
            lemma_div4(h, 0);
            assert(r.twin@[4 * h] == self.twin_rule((4 * h) / 4, (4 * h) % 4));
        }
    }

    /// Refinement keeps vertices consistent with the links: in the refined
    /// mesh, too, each half-edge's twin starts where its `next` starts.
    pub proof fn lemma_refinement_vertex_consistent(&self, r: CompactMesh<true>)
        requires
            self.well_formed(),
            self.refinement_fits(),
            self.vertex_consistent(),
            self.is_refinement(r),
        ensures
            r.vertex_consistent(),
    {
        assert forall|k: int| 0 <= k < r.num_h() implies #[trigger] r.consistent_at(k) by {
            let h = k / 4;
            let i = k % 4;
            assert(k == 4 * h + i);
            lemma_div4(h, i);
            assert(0 <= h < self.num_h());
            self.lemma_refined_common(r, h, i);
            assert(self.halfedge_ok(h));
            assert(self.halfedge_ok(self.prev_of(h)));
            assert(self.consistent_at(h));
            assert(self.consistent_at(self.prev_of(h)));
            let n = r.next_of(k);
            if i < 3 {
                assert(n == 4 * h + i + 1);
                lemma_div4(h, i + 1);
            } else {
                assert(n == 4 * h);
                lemma_div4(h, 0);
            }
            assert(r.vert@[n] == self.vert_rule(n / 4, n % 4)) by {
                assert(r.twin@[n] == self.twin_rule(n / 4, n % 4));
            }
            if let Some(t) = r.twin@[k] {
                let tt = t as int;
                if i == 0 {
                    let th = self.twin@[h]->Some_0 as int;
                    assert(self.halfedge_ok(th));
                    let g = self.next_of(th);
                    assert(self.halfedge_ok(g));
                    assert(tt == 4 * g + 3);
                    lemma_div4(g, 3);
                    assert(r.vert@[tt] == self.vert_rule(tt / 4, tt % 4)) by {
                        assert(r.twin@[tt] == self.twin_rule(tt / 4, tt % 4));
                    }
                    assert(self.prev_of(g) == th);
                } else if i == 1 {
                    let g = self.next_of(h);
                    assert(self.halfedge_ok(g));
                    assert(tt == 4 * g + 2);
                    lemma_div4(g, 2);
                    assert(r.vert@[tt] == self.vert_rule(tt / 4, tt % 4)) by {
                        assert(r.twin@[tt] == self.twin_rule(tt / 4, tt % 4));
                    }
                } else if i == 2 {
                    let g = self.prev_of(h);
                    assert(tt == 4 * g + 1);
                    lemma_div4(g, 1);
                    assert(r.vert@[tt] == self.vert_rule(tt / 4, tt % 4)) by {
                        assert(r.twin@[tt] == self.twin_rule(tt / 4, tt % 4));
                    }
                } else {
                    let g = self.prev_of(h);
                    let tg = self.twin@[g]->Some_0 as int;
                    assert(self.halfedge_ok(tg));
                    assert(tt == 4 * tg);
                    lemma_div4(tg, 0);
                    assert(r.vert@[tt] == self.vert_rule(tt / 4, tt % 4)) by {
                        assert(r.twin@[tt] == self.twin_rule(tt / 4, tt % 4));
                    }
                    assert(self.next_of(g) == h);
                }
            }
        }
    }

    /// Refinement keeps a mesh well formed: the refined arrays again describe
    /// a mesh, whose twins pair up and share their edge, with the counts of
    /// [`MeshCounts::subdiv`].
    pub proof fn lemma_refinement_well_formed(&self, r: CompactMesh<true>)
        requires
            self.well_formed(),
            self.refinement_fits(),
            self.is_refinement(r),
        ensures
            r.well_formed(),
    {
        assert forall|k: int| 0 <= k < r.num_h() implies #[trigger] r.halfedge_ok(k) by {
            self.lemma_refined_halfedge_ok(r, k);
        }
    }
}

} // verus!

verus! {

impl CompactMesh<true> {
    /// The two meshes hold the same arrays and counts.
    pub open spec fn same_as(&self, other: CompactMesh<true>) -> bool {
        &&& self.twin@ == other.twin@
        &&& self.next@ == other.next@
        &&& self.prev@ == other.prev@
        &&& self.vert@ == other.vert@
        &&& self.edge@ == other.edge@
        &&& self.face@ == other.face@
        &&& self.counts == other.counts
    }
}

/// `r` is what `k` successive refinements of `m` give: a chain of meshes,
/// each the refinement of the one before, from `m` to `r`.
pub open spec fn refined_times(m: CompactMesh<true>, k: nat, r: CompactMesh<true>) -> bool
    decreases k,
{
    if k == 0 {
        r.same_as(m)
    } else {
        exists|x: CompactMesh<true>| #[trigger] m.is_refinement(x) && refined_times(x, (k - 1) as nat, r)
    }
}

/// Meshes that hold the same arrays refine alike.
proof fn lemma_same_refines(a: CompactMesh<true>, b: CompactMesh<true>, x: CompactMesh<true>)
    requires
        a.same_as(b),
        a.is_refinement(x),
    ensures
        b.is_refinement(x),
{
    assert forall|k: int| 0 <= k < 4 * b.num_h() implies {
        &&& #[trigger] x.twin@[k] == b.twin_rule(k / 4, k % 4)
        &&& x.vert@[k] == b.vert_rule(k / 4, k % 4)
        &&& x.edge@[k] == b.edge_rule(k / 4, k % 4)
    } by {
        assert(x.twin@[k] == a.twin_rule(k / 4, k % 4));
    }
}

/// Refining meshes that hold the same arrays the same number of times
/// reaches the same results.
proof fn lemma_refined_times_same(a: CompactMesh<true>, b: CompactMesh<true>, k: nat, r: CompactMesh<true>)
    requires
        a.same_as(b),
        refined_times(a, k, r),
    ensures
        refined_times(b, k, r),
{
    if k > 0 {
        let x = choose|x: CompactMesh<true>| #[trigger] a.is_refinement(x) && refined_times(x, (k - 1) as nat, r);
        lemma_same_refines(a, b, x);
        assert(b.is_refinement(x) && refined_times(x, (k - 1) as nat, r));
    }
}

/// `k` refinements of a mesh have one outcome: two meshes both reached
/// from `m` by `k` refinements hold the same arrays.
pub proof fn lemma_refined_times_unique(m: CompactMesh<true>, k: nat, r1: CompactMesh<true>, r2: CompactMesh<true>)
    requires
        refined_times(m, k, r1),
        refined_times(m, k, r2),
    ensures
        r1.same_as(r2),
    decreases k,
{
    if k > 0 {
        let x1 = choose|x: CompactMesh<true>| #[trigger] m.is_refinement(x) && refined_times(x, (k - 1) as nat, r1);
        let x2 = choose|x: CompactMesh<true>| #[trigger] m.is_refinement(x) && refined_times(x, (k - 1) as nat, r2);
        m.lemma_refinement_unique(x1, x2);
        lemma_refined_times_same(x2, x1, (k - 1) as nat, r2);
        lemma_refined_times_unique(x1, (k - 1) as nat, r1, r2);
    }
}

#[allow(non_upper_case_globals)]
impl<const Subdivided: bool> CompactMesh<Subdivided> {
    /// `r` is what `k >= 1` successive refinements of `self` give.
    pub open spec fn refines_to(&self, k: nat, r: CompactMesh<true>) -> bool {
        &&& k >= 1
        &&& exists|first: CompactMesh<true>| #[trigger] self.is_refinement(first) && refined_times(first, (k - 1) as nat, r)
    }

    /// A mesh has one refinement: two meshes that both follow the
    /// refinement rules hold the same arrays.
    pub proof fn lemma_refinement_unique(&self, x1: CompactMesh<true>, x2: CompactMesh<true>)
        requires
            self.is_refinement(x1),
            self.is_refinement(x2),
        ensures
            x1.same_as(x2),
    {
        assert forall|k: int| 0 <= k < x1.vert@.len() implies x1.vert@[k] == x2.vert@[k] && x1.edge@[k] == x2.edge@[k] by {
            assert(x1.twin@[k] == x2.twin@[k]);
        }
        assert(x1.twin@ =~= x2.twin@);
        assert(x1.vert@ =~= x2.vert@);
        assert(x1.edge@ =~= x2.edge@);
        assert(x1.next@ =~= x2.next@);
        assert(x1.prev@ =~= x2.prev@);
        assert(x1.face@ =~= x2.face@);
    }

    /// Subdivides the mesh connectivity `iterations` times: the result is
    /// the refinement of the refinement ... of `self`, `iterations` deep.
    pub fn subdivide_multi(&self, iterations: usize) -> (r: CompactMesh<true>)
        requires
            self.well_formed(),
            iterations >= 1,
            refinements_fit(self.counts, iterations as nat),
        ensures
            self.refines_to(iterations as nat, r),
            r.well_formed(),
            self.vertex_consistent() ==> r.vertex_consistent(),
            r.counts == counts_after(self.counts, iterations as nat),
    {
        let mut mesh = self.subdivide();
        let ghost first = mesh;
        proof {
            self.lemma_refinement_well_formed(mesh);
        }
        let mut i: usize = 1;
        while i < iterations
            invariant
                1 <= i <= iterations,
                self.is_refinement(first),
                mesh.well_formed(),
                refinements_fit(mesh.counts, (iterations - i) as nat),
                self.vertex_consistent() ==> mesh.vertex_consistent(),
                counts_after(self.counts, iterations as nat) == counts_after(
                    mesh.counts,
                    (iterations - i) as nat,
                ),
                forall|x: CompactMesh<true>|
                    #[trigger] refined_times(mesh, (iterations - i) as nat, x) ==> refined_times(
                        first,
                        (iterations - 1) as nat,
                        x,
                    ),
            decreases iterations - i,
        {
            let next = mesh.subdivide();
            proof {
                mesh.lemma_refinement_well_formed(next);
                let k = (iterations - i) as nat;
                assert forall|x: CompactMesh<true>| #[trigger] refined_times(next, (k - 1) as nat, x) implies refined_times(
                    first,
                    (iterations - 1) as nat,
                    x,
                ) by {
                    assert(mesh.is_refinement(next) && refined_times(next, (k - 1) as nat, x));
                    assert(refined_times(mesh, k, x));
                }
            }
            mesh = next;
            i += 1;
        }
        proof {
            assert(refined_times(mesh, 0, mesh));
            assert(refined_times(first, (iterations - 1) as nat, mesh));
        }
        mesh
    }
}

} // verus!
