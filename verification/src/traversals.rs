//! Traversals: chains of pointer lookups over a mesh, which stop at the
//! first missing pointer with a [`TraversalError`].
use vstd::prelude::*;

use crate::halfedge::{
    cycle_seq, lemma_walk_in_dom, walk_cycles, walk_outcome, walk_terminates, FaceId, HalfEdgeId,
    MeshConnectivity,
    MeshView, VertexId, WalkKind,
};

verus! {

/// The kinds of mesh element a traversal can stand at.
pub trait Location {}

impl Location for VertexId {}

impl Location for FaceId {}

impl Location for HalfEdgeId {}

impl Location for bool {}

/// A pointer that a traversal needed was missing.
#[derive(Copy, Clone, Debug, PartialEq, Eq, Structural)]
pub enum TraversalError {
    VertexHasNoHalfedge(VertexId),
    FaceHasNoHalfedge(FaceId),
    HalfEdgeHasNoNext(HalfEdgeId),
    HalfEdgeHasNoTwin(HalfEdgeId),
    HalfEdgeHasNoVertex(HalfEdgeId),
    HalfEdgeHasNoFace(HalfEdgeId),
    NoHalfedgeTo(VertexId),
    HalfedgeBadLoop(HalfEdgeId),
    /// A pointer names a half-edge that is not in the mesh.
    MissingHalfEdge(HalfEdgeId),
    /// A pointer names a vertex that is not in the mesh.
    MissingVertex(VertexId),
    /// The loop of a face cannot be walked, or leaves out a vertex it must
    /// hold.
    FaceBadLoop(FaceId),
}

} // verus!

verus! {

/// A successful traversal: a mesh and the element reached in it.
#[derive(Clone, Copy)]
pub struct ValidTraversal<'a, L> where L: Location {
    pub inner: &'a MeshConnectivity,
    pub location: L,
}

/// A traversal: where a chain of lookups got to, or why it stopped.
pub type Traversal<'a, L> = Result<ValidTraversal<'a, L>, TraversalError>;

/// Moves a traversal to `loc`, in the same mesh.
pub open spec fn moved_to<'a, L: Location, M: Location>(v: ValidTraversal<'a, L>, loc: M) -> Traversal<'a, M> {
    Ok(ValidTraversal { inner: v.inner, location: loc })
}

/// Stops a traversal with `e`.
pub open spec fn stopped<'a, M: Location>(e: TraversalError) -> Traversal<'a, M> {
    Err(e)
}

/* ===================== */
/* Traversal on vertices */
/* ===================== */

pub trait VertexTraversal<'a> {
    /// The traversal stands at an existing vertex, or has stopped.
    spec fn vertex_ready(&self) -> bool;

    fn halfedge(&'a self) -> Traversal<'a, HalfEdgeId>
        requires
            self.vertex_ready(),
    ;
}

/// The outgoing half-edge of the vertex a traversal stands at.
pub open spec fn spec_vertex_halfedge<'a>(t: Traversal<'a, VertexId>) -> Traversal<'a, HalfEdgeId> {
    match t {
        Ok(v) => match v.inner@.vertices[v.location.0].halfedge {
            Some(h) => moved_to(v, h),
            None => stopped(TraversalError::VertexHasNoHalfedge(v.location)),
        },
        Err(e) => stopped(e),
    }
}

impl<'a> VertexTraversal<'a> for Traversal<'a, VertexId> {
    open spec fn vertex_ready(&self) -> bool {
        match self {
            Ok(v) => v.inner.well_formed() && v.inner@.has_vertex(v.location),
            Err(_) => true,
        }
    }

    fn halfedge(&'a self) -> (r: Traversal<'a, HalfEdgeId>)
        ensures
            r == spec_vertex_halfedge(*self),
    {
        match self {
            Ok(valid) => match valid.inner.vertex(valid.location).halfedge {
                Some(h) => Ok(ValidTraversal { inner: valid.inner, location: h }),
                None => Err(TraversalError::VertexHasNoHalfedge(valid.location)),
            },
            Err(e) => Err(*e),
        }
    }
}

/* ================== */
/* Traversal on faces */
/* ================== */

pub trait FaceTraversal<'a> {
    /// The traversal stands at an existing face, or has stopped.
    spec fn face_ready(&self) -> bool;

    fn halfedge(&'a self) -> Traversal<'a, HalfEdgeId>
        requires
            self.face_ready(),
    ;
}

/// The half-edge of the face a traversal stands at.
pub open spec fn spec_face_halfedge<'a>(t: Traversal<'a, FaceId>) -> Traversal<'a, HalfEdgeId> {
    match t {
        Ok(v) => match v.inner@.faces[v.location.0].halfedge {
            Some(h) => moved_to(v, h),
            None => stopped(TraversalError::FaceHasNoHalfedge(v.location)),
        },
        Err(e) => stopped(e),
    }
}

impl<'a> FaceTraversal<'a> for Traversal<'a, FaceId> {
    open spec fn face_ready(&self) -> bool {
        match self {
            Ok(v) => v.inner.well_formed() && v.inner@.has_face(v.location),
            Err(_) => true,
        }
    }

    fn halfedge(&'a self) -> (r: Traversal<'a, HalfEdgeId>)
        ensures
            r == spec_face_halfedge(*self),
    {
        match self {
            Ok(valid) => match valid.inner.face(valid.location).halfedge {
                Some(h) => Ok(ValidTraversal { inner: valid.inner, location: h }),
                None => Err(TraversalError::FaceHasNoHalfedge(valid.location)),
            },
            Err(e) => Err(*e),
        }
    }
}

/* ====================== */
/* Traversal on halfedges */
/* ====================== */

pub trait HalfEdgeTraversal<'a> {
    /// The traversal stands at an existing half-edge, or has stopped.
    spec fn halfedge_ready(&self) -> bool;

    fn twin(&'a self) -> Traversal<'a, HalfEdgeId>
        requires
            self.halfedge_ready(),
    ;

    fn next(&'a self) -> Traversal<'a, HalfEdgeId>
        requires
            self.halfedge_ready(),
    ;

    fn face(&'a self) -> Traversal<'a, FaceId>
        requires
            self.halfedge_ready(),
    ;

    fn vertex(&'a self) -> Traversal<'a, VertexId>
        requires
            self.halfedge_ready(),
    ;

    fn face_or_boundary(&'a self) -> Result<Option<FaceId>, TraversalError>
        requires
            self.halfedge_ready(),
    ;
}

/// The half-edge a traversal stands at, in its mesh's model.
pub open spec fn here<'a>(v: ValidTraversal<'a, HalfEdgeId>) -> crate::halfedge::HalfEdge {
    v.inner@.halfedges[v.location.0]
}

pub open spec fn spec_twin<'a>(t: Traversal<'a, HalfEdgeId>) -> Traversal<'a, HalfEdgeId> {
    match t {
        Ok(v) => match here(v).twin {
            Some(h) => moved_to(v, h),
            None => stopped(TraversalError::HalfEdgeHasNoTwin(v.location)),
        },
        Err(e) => stopped(e),
    }
}

pub open spec fn spec_next<'a>(t: Traversal<'a, HalfEdgeId>) -> Traversal<'a, HalfEdgeId> {
    match t {
        Ok(v) => match here(v).next {
            Some(h) => moved_to(v, h),
            None => stopped(TraversalError::HalfEdgeHasNoNext(v.location)),
        },
        Err(e) => stopped(e),
    }
}

pub open spec fn spec_face<'a>(t: Traversal<'a, HalfEdgeId>) -> Traversal<'a, FaceId> {
    match t {
        Ok(v) => match here(v).face {
            Some(f) => moved_to(v, f),
            None => stopped(TraversalError::HalfEdgeHasNoFace(v.location)),
        },
        Err(e) => stopped(e),
    }
}

pub open spec fn spec_vertex<'a>(t: Traversal<'a, HalfEdgeId>) -> Traversal<'a, VertexId> {
    match t {
        Ok(v) => match here(v).vertex {
            Some(x) => moved_to(v, x),
            None => stopped(TraversalError::HalfEdgeHasNoVertex(v.location)),
        },
        Err(e) => stopped(e),
    }
}

impl<'a> HalfEdgeTraversal<'a> for Traversal<'a, HalfEdgeId> {
    open spec fn halfedge_ready(&self) -> bool {
        match self {
            Ok(v) => v.inner.well_formed() && v.inner@.has_halfedge(v.location),
            Err(_) => true,
        }
    }

    fn twin(&'a self) -> (r: Traversal<'a, HalfEdgeId>)
        ensures
            r == spec_twin(*self),
    {
        match self {
            Ok(valid) => match valid.inner.halfedge(valid.location).twin {
                Some(h) => Ok(ValidTraversal { inner: valid.inner, location: h }),
                None => Err(TraversalError::HalfEdgeHasNoTwin(valid.location)),
            },
            Err(e) => Err(*e),
        }
    }

    fn next(&'a self) -> (r: Traversal<'a, HalfEdgeId>)
        ensures
            r == spec_next(*self),
    {
        match self {
            Ok(valid) => match valid.inner.halfedge(valid.location).next {
                Some(h) => Ok(ValidTraversal { inner: valid.inner, location: h }),
                None => Err(TraversalError::HalfEdgeHasNoNext(valid.location)),
            },
            Err(e) => Err(*e),
        }
    }

    fn face(&'a self) -> (r: Traversal<'a, FaceId>)
        ensures
            r == spec_face(*self),
    {
        match self {
            Ok(valid) => match valid.inner.halfedge(valid.location).face {
                Some(f) => Ok(ValidTraversal { inner: valid.inner, location: f }),
                None => Err(TraversalError::HalfEdgeHasNoFace(valid.location)),
            },
            Err(e) => Err(*e),
        }
    }

    fn vertex(&'a self) -> (r: Traversal<'a, VertexId>)
        ensures
            r == spec_vertex(*self),
    {
        match self {
            Ok(valid) => match valid.inner.halfedge(valid.location).vertex {
                Some(x) => Ok(ValidTraversal { inner: valid.inner, location: x }),
                None => Err(TraversalError::HalfEdgeHasNoVertex(valid.location)),
            },
            Err(e) => Err(*e),
        }
    }

    fn face_or_boundary(&'a self) -> (r: Result<Option<FaceId>, TraversalError>)
        ensures
            r == match self {
                Ok(v) => Ok::<Option<FaceId>, TraversalError>(here(*v).face),
                Err(e) => Err::<Option<FaceId>, TraversalError>(*e),
            },
    {
        match self {
            Ok(valid) => Ok(valid.inner.halfedge(valid.location).face),
            Err(e) => Err(*e),
        }
    }
}

/* =================== */
/*  Generic traversal  */
/* =================== */

pub trait AnyTraversal<'a, L> {
    /// The traversal has not stopped.
    spec fn reached(&self) -> bool;

    /// The location reached. Panics if the traversal stopped; excluded here.
    fn end(&'a self) -> L
        requires
            self.reached(),
    ;

    fn try_end(&'a self) -> Result<L, TraversalError>;
}

impl<'a, L> AnyTraversal<'a, L> for Traversal<'a, L> where L: Location + Copy {
    open spec fn reached(&self) -> bool {
        self is Ok
    }

    fn end(&'a self) -> (r: L)
        ensures
            r == self->Ok_0.location,
    {
        match self {
            Ok(valid) => valid.location,
            Err(_) => vstd::pervasive::unreached(),
        }
    }

    fn try_end(&'a self) -> (r: Result<L, TraversalError>)
        ensures
            r == match self {
                Ok(v) => Ok::<L, TraversalError>(v.location),
                Err(e) => Err::<L, TraversalError>(*e),
            },
    {
        match self {
            Ok(valid) => Ok(valid.location),
            Err(e) => Err(*e),
        }
    }
}

/* ============ */
/*  Initiators  */
/* ============ */

impl MeshConnectivity {
    pub fn at_halfedge(&self, halfedge_id: HalfEdgeId) -> (r: Traversal<'_, HalfEdgeId>)
        ensures
            r == Ok::<ValidTraversal<'_, HalfEdgeId>, TraversalError>(ValidTraversal { inner: self, location: halfedge_id }),
    {
        Ok(ValidTraversal { inner: self, location: halfedge_id })
    }

    pub fn at_face(&self, face_id: FaceId) -> (r: Traversal<'_, FaceId>)
        ensures
            r == Ok::<ValidTraversal<'_, FaceId>, TraversalError>(ValidTraversal { inner: self, location: face_id }),
    {
        Ok(ValidTraversal { inner: self, location: face_id })
    }

    pub fn at_vertex(&self, vertex_id: VertexId) -> (r: Traversal<'_, VertexId>)
        ensures
            r == Ok::<ValidTraversal<'_, VertexId>, TraversalError>(ValidTraversal { inner: self, location: vertex_id }),
    {
        Ok(ValidTraversal { inner: self, location: vertex_id })
    }
}

} // verus!

verus! {

/// `r` holds the sequence `s`, or the same error.
pub open spec fn vec_result_is<T>(r: Result<Vec<T>, TraversalError>, s: Result<Seq<T>, TraversalError>) -> bool {
    match r {
        Ok(v) => s == Ok::<Seq<T>, TraversalError>(v@),
        Err(e) => s == Err::<Seq<T>, TraversalError>(e),
    }
}

/// The twins of the half-edges `s`, or the error of the first that has none.
pub open spec fn map_twins(m: MeshView, s: Seq<HalfEdgeId>) -> Result<Seq<HalfEdgeId>, TraversalError>
    decreases s.len(),
{
    if s.len() == 0 {
        Ok(Seq::empty())
    } else {
        match map_twins(m, s.drop_last()) {
            Ok(t) => match m.halfedges[s.last().0].twin {
                Some(x) => Ok(t.push(x)),
                None => Err(TraversalError::HalfEdgeHasNoTwin(s.last())),
            },
            Err(e) => Err(e),
        }
    }
}

/// The source vertices of the half-edges `s`, or the error of the first that
/// has none.
pub open spec fn map_vertices(m: MeshView, s: Seq<HalfEdgeId>) -> Result<Seq<VertexId>, TraversalError>
    decreases s.len(),
{
    if s.len() == 0 {
        Ok(Seq::empty())
    } else {
        match map_vertices(m, s.drop_last()) {
            Ok(t) => match m.halfedges[s.last().0].vertex {
                Some(x) => Ok(t.push(x)),
                None => Err(TraversalError::HalfEdgeHasNoVertex(s.last())),
            },
            Err(e) => Err(e),
        }
    }
}

/// The faces of the half-edges `s` that have one, in order.
pub open spec fn present_faces(m: MeshView, s: Seq<HalfEdgeId>) -> Seq<FaceId>
    decreases s.len(),
{
    if s.len() == 0 {
        Seq::empty()
    } else {
        match m.halfedges[s.last().0].face {
            Some(f) => present_faces(m, s.drop_last()).push(f),
            None => present_faces(m, s.drop_last()),
        }
    }
}

/// The destination vertex of `h`: the source of its next.
pub open spec fn dst_of(m: MeshView, h: HalfEdgeId) -> Option<VertexId> {
    match m.halfedges[h.0].next {
        Some(n) => m.halfedges[n.0].vertex,
        None => None,
    }
}

/// The first half-edge of `s` that ends at `other`.
pub open spec fn first_to(m: MeshView, s: Seq<HalfEdgeId>, other: VertexId) -> Option<HalfEdgeId>
    decreases s.len(),
{
    if s.len() == 0 {
        None
    } else if dst_of(m, s[0]) == Some(other) {
        Some(s[0])
    } else {
        first_to(m, s.drop_first(), other)
    }
}

/// The outgoing half-edges of the vertex a traversal stands at, in fan order.
pub open spec fn spec_outgoing<'a>(t: Traversal<'a, VertexId>) -> Result<Seq<HalfEdgeId>, TraversalError> {
    match t {
        Ok(v) => match v.inner@.vertices[v.location.0].halfedge {
            Some(h) => walk_outcome(v.inner@, WalkKind::Fan, h.0),
            None => Ok(Seq::empty()),
        },
        Err(e) => Err(e),
    }
}

/// The half-edges around the face a traversal stands at.
pub open spec fn spec_face_halfedges<'a>(t: Traversal<'a, FaceId>) -> Result<Seq<HalfEdgeId>, TraversalError> {
    match t {
        Ok(v) => match v.inner@.faces[v.location.0].halfedge {
            Some(h) => walk_outcome(v.inner@, WalkKind::Next, h.0),
            None => Err(TraversalError::FaceHasNoHalfedge(v.location)),
        },
        Err(e) => Err(e),
    }
}

/// The mesh a traversal runs in, when it has not stopped.
pub open spec fn mesh_of<'a, L: Location>(t: Traversal<'a, L>) -> MeshView {
    t->Ok_0.inner@
}

/* ================ */
/*  Vertex Helpers  */
/* ================ */

pub trait VertexTraversalHelpers<'a> {
    /// The traversal stands at an existing vertex of a mesh whose links are
    /// valid and whose fan around the vertex ends, or has stopped.
    spec fn fan_ready(&self) -> bool;

    fn outgoing_halfedges(&'a self) -> Result<Vec<HalfEdgeId>, TraversalError>
        requires
            self.fan_ready(),
    ;

    fn incoming_halfedges(&'a self) -> Result<Vec<HalfEdgeId>, TraversalError>
        requires
            self.fan_ready(),
    ;

    fn halfedge_to(&'a self, other: VertexId) -> Traversal<'a, HalfEdgeId>
        requires
            self.fan_ready(),
    ;

    fn adjacent_faces(&'a self) -> Result<Vec<FaceId>, TraversalError>
        requires
            self.fan_ready(),
    ;
}

impl<'a> VertexTraversalHelpers<'a> for Traversal<'a, VertexId> {
    open spec fn fan_ready(&self) -> bool {
        match self {
            Ok(v) => {
                &&& v.inner.well_formed()
                &&& v.inner@.links_valid()
                &&& v.inner@.has_vertex(v.location)
                &&& (v.inner@.vertices[v.location.0].halfedge matches Some(h) ==> walk_terminates(
                    v.inner@,
                    WalkKind::Fan,
                    h.0,
                ))
            },
            Err(_) => true,
        }
    }

    /// The outgoing half-edges of the vertex, going around its fan; empty for
    /// a disconnected vertex.
    fn outgoing_halfedges(&'a self) -> (r: Result<Vec<HalfEdgeId>, TraversalError>)
        ensures
            vec_result_is(r, spec_outgoing(*self)),
            r matches Ok(v) ==> forall|i: int| 0 <= i < v@.len() ==> mesh_of(*self).has_halfedge(#[trigger] v@[i]),
    {
        match self {
            Ok(valid) => {
                let m = valid.inner;
                proof {
                    assert(m@.opt_halfedge_ok(m@.vertices[valid.location.0].halfedge));
                }
                match m.vertex(valid.location).halfedge {
                    Some(h0) => {
                        let r = m.walk_cycle(WalkKind::Fan, h0);
                        proof {
                            if r is Ok {
                                let v = r->Ok_0;
                                assert forall|i: int| 0 <= i < v@.len() implies m@.has_halfedge(#[trigger] v@[i]) by {
                                    lemma_walk_in_dom(m@, WalkKind::Fan, h0.0, i as nat);
                                }
                            }
                        }
                        r
                    },
                    None => {
                        let v: Vec<HalfEdgeId> = Vec::new();
                        assert(v@ =~= Seq::<HalfEdgeId>::empty());
                        Ok(v)
                    },
                }
            },
            Err(e) => Err(*e),
        }
    }

    /// The twins of the outgoing half-edges.
    fn incoming_halfedges(&'a self) -> (r: Result<Vec<HalfEdgeId>, TraversalError>)
        ensures
            vec_result_is(
                r,
                match spec_outgoing(*self) {
                    Ok(s) => map_twins(mesh_of(*self), s),
                    Err(e) => Err(e),
                },
            ),
    {
        let out = self.outgoing_halfedges()?;
        let ghost s = out@;
        let m = self.as_ref().unwrap().inner;
        let mut res: Vec<HalfEdgeId> = Vec::new();
        let mut i: usize = 0;
        while i < out.len()
            invariant
                i <= out@.len(),
                s == out@,
                m.well_formed(),
                forall|j: int| 0 <= j < out@.len() ==> m@.has_halfedge(#[trigger] out@[j]),
                map_twins(m@, s.take(i as int)) == Ok::<Seq<HalfEdgeId>, TraversalError>(res@),
                spec_outgoing(*self) == Ok::<Seq<HalfEdgeId>, TraversalError>(s),
                mesh_of(*self) == m@,
            decreases out@.len() - i,
        {
            let h = out[i];
            assert(s.take(i + 1).drop_last() =~= s.take(i as int));
            assert(s.take(i + 1).last() == h);
            match m.halfedge(h).twin {
                Some(t) => {
                    res.push(t);
                },
                None => {
                    proof {
                        assert(map_twins(m@, s.take(i + 1)) == Err::<Seq<HalfEdgeId>, TraversalError>(
                            TraversalError::HalfEdgeHasNoTwin(h),
                        ));
                        lemma_map_twins_err_prefix(m@, s, i + 1);
                    }
                    return Err(TraversalError::HalfEdgeHasNoTwin(h));
                },
            }
            i += 1;
        }
        assert(s.take(s.len() as int) =~= s);
        Ok(res)
    }

    /// The outgoing half-edge of this vertex that ends at `other`.
    fn halfedge_to(&'a self, other: VertexId) -> (r: Traversal<'a, HalfEdgeId>)
        ensures
            r == match spec_outgoing(*self) {
                Ok(s) => match first_to(mesh_of(*self), s, other) {
                    Some(h) => moved_to(self->Ok_0, h),
                    None => stopped(TraversalError::NoHalfedgeTo(other)),
                },
                Err(e) => stopped(e),
            },
    {
        let out = match self.outgoing_halfedges() {
            Ok(o) => o,
            Err(e) => {
                return Err(e);
            },
        };
        let valid = self.as_ref().unwrap();
        let m = valid.inner;
        let ghost s = out@;
        let mut i: usize = 0;
        assert(s.skip(0) =~= s);
        while i < out.len()
            invariant
                i <= out@.len(),
                s == out@,
                spec_outgoing(*self) == Ok::<Seq<HalfEdgeId>, TraversalError>(s),
                *self == Ok::<ValidTraversal<'a, VertexId>, TraversalError>(*valid),
                m == valid.inner,
                m.well_formed(),
                m@.links_valid(),
                forall|j: int| 0 <= j < out@.len() ==> m@.has_halfedge(#[trigger] out@[j]),
                first_to(m@, s, other) == first_to(m@, s.skip(i as int), other),
            decreases out@.len() - i,
        {
            let h = out[i];
            assert(s.skip(i as int)[0] == h);
            assert(s.skip(i as int).drop_first() =~= s.skip(i + 1));
            proof {
                assert(m@.halfedge_links_ok(m@.halfedges[h.0]));
            }
            let dst_matches = match m.halfedge(h).next {
                Some(n) => match m.halfedge(n).vertex {
                    Some(w) => w == other,
                    None => false,
                },
                None => false,
            };
            if dst_matches {
                return Ok(ValidTraversal { inner: valid.inner, location: h });
            }
            i += 1;
        }
        assert(s.skip(s.len() as int) =~= Seq::<HalfEdgeId>::empty());
        Err(TraversalError::NoHalfedgeTo(other))
    }

    /// The faces around this vertex; boundary half-edges contribute none.
    fn adjacent_faces(&'a self) -> (r: Result<Vec<FaceId>, TraversalError>)
        ensures
            vec_result_is(
                r,
                match spec_outgoing(*self) {
                    Ok(s) => Ok(present_faces(mesh_of(*self), s)),
                    Err(e) => Err(e),
                },
            ),
    {
        let out = self.outgoing_halfedges()?;
        let ghost s = out@;
        let m = self.as_ref().unwrap().inner;
        let mut res: Vec<FaceId> = Vec::new();
        let mut i: usize = 0;
        while i < out.len()
            invariant
                i <= out@.len(),
                s == out@,
                m.well_formed(),
                forall|j: int| 0 <= j < out@.len() ==> m@.has_halfedge(#[trigger] out@[j]),
                present_faces(m@, s.take(i as int)) == res@,
                spec_outgoing(*self) == Ok::<Seq<HalfEdgeId>, TraversalError>(s),
                mesh_of(*self) == m@,
            decreases out@.len() - i,
        {
            let h = out[i];
            assert(s.take(i + 1).drop_last() =~= s.take(i as int));
            assert(s.take(i + 1).last() == h);
            match m.halfedge(h).face {
                Some(f) => {
                    res.push(f);
                },
                None => {},
            }
            i += 1;
        }
        assert(s.take(s.len() as int) =~= s);
        Ok(res)
    }
}

proof fn lemma_map_twins_err_prefix(m: MeshView, s: Seq<HalfEdgeId>, k: int)
    requires
        0 <= k <= s.len(),
        map_twins(m, s.take(k)) is Err,
    ensures
        map_twins(m, s) == map_twins(m, s.take(k)),
    decreases s.len() - k,
{
    if k < s.len() {
        assert(s.take(k + 1).drop_last() =~= s.take(k));
        lemma_map_twins_err_prefix(m, s, k + 1);
    } else {
        assert(s.take(k) =~= s);
    }
}

proof fn lemma_map_vertices_err_prefix(m: MeshView, s: Seq<HalfEdgeId>, k: int)
    requires
        0 <= k <= s.len(),
        map_vertices(m, s.take(k)) is Err,
    ensures
        map_vertices(m, s) == map_vertices(m, s.take(k)),
    decreases s.len() - k,
{
    if k < s.len() {
        assert(s.take(k + 1).drop_last() =~= s.take(k));
        lemma_map_vertices_err_prefix(m, s, k + 1);
    } else {
        assert(s.take(k) =~= s);
    }
}

} // verus!

verus! {

/* ============== */
/*  Face Helpers  */
/* ============== */

pub trait FaceTraversalHelpers<'a> {
    /// The traversal stands at an existing face of a mesh whose links are
    /// valid and whose loop around the face ends, or has stopped.
    spec fn loop_ready(&self) -> bool;

    fn halfedges(&'a self) -> Result<Vec<HalfEdgeId>, TraversalError>
        requires
            self.loop_ready(),
    ;

    fn vertices(&'a self) -> Result<Vec<VertexId>, TraversalError>
        requires
            self.loop_ready(),
    ;
}

impl<'a> FaceTraversalHelpers<'a> for Traversal<'a, FaceId> {
    open spec fn loop_ready(&self) -> bool {
        match self {
            Ok(v) => {
                &&& v.inner.well_formed()
                &&& v.inner@.links_valid()
                &&& v.inner@.has_face(v.location)
                &&& (v.inner@.faces[v.location.0].halfedge matches Some(h) ==> walk_terminates(
                    v.inner@,
                    WalkKind::Next,
                    h.0,
                ))
            },
            Err(_) => true,
        }
    }

    /// The half-edges around the face, following `next` from the face's
    /// half-edge.
    fn halfedges(&'a self) -> (r: Result<Vec<HalfEdgeId>, TraversalError>)
        ensures
            vec_result_is(r, spec_face_halfedges(*self)),
            r matches Ok(v) ==> forall|i: int| 0 <= i < v@.len() ==> mesh_of(*self).has_halfedge(#[trigger] v@[i]),
    {
        match self {
            Ok(valid) => {
                let m = valid.inner;
                proof {
                    assert(m@.opt_halfedge_ok(m@.faces[valid.location.0].halfedge));
                }
                match m.face(valid.location).halfedge {
                    Some(h0) => {
                        let r = m.walk_cycle(WalkKind::Next, h0);
                        proof {
                            if r is Ok {
                                let v = r->Ok_0;
                                assert forall|i: int| 0 <= i < v@.len() implies m@.has_halfedge(#[trigger] v@[i]) by {
                                    lemma_walk_in_dom(m@, WalkKind::Next, h0.0, i as nat);
                                }
                            }
                        }
                        r
                    },
                    None => Err(TraversalError::FaceHasNoHalfedge(valid.location)),
                }
            },
            Err(e) => Err(*e),
        }
    }

    /// The source vertices of the half-edges around the face.
    fn vertices(&'a self) -> (r: Result<Vec<VertexId>, TraversalError>)
        ensures
            vec_result_is(
                r,
                match spec_face_halfedges(*self) {
                    Ok(s) => map_vertices(mesh_of(*self), s),
                    Err(e) => Err(e),
                },
            ),
    {
        let hs = self.halfedges()?;
        let ghost s = hs@;
        let m = self.as_ref().unwrap().inner;
        let mut res: Vec<VertexId> = Vec::new();
        let mut i: usize = 0;
        while i < hs.len()
            invariant
                i <= hs@.len(),
                s == hs@,
                m.well_formed(),
                forall|j: int| 0 <= j < hs@.len() ==> m@.has_halfedge(#[trigger] hs@[j]),
                map_vertices(m@, s.take(i as int)) == Ok::<Seq<VertexId>, TraversalError>(res@),
                spec_face_halfedges(*self) == Ok::<Seq<HalfEdgeId>, TraversalError>(s),
                mesh_of(*self) == m@,
            decreases hs@.len() - i,
        {
            let h = hs[i];
            assert(s.take(i + 1).drop_last() =~= s.take(i as int));
            assert(s.take(i + 1).last() == h);
            match m.halfedge(h).vertex {
                Some(x) => {
                    res.push(x);
                },
                None => {
                    proof {
                        assert(map_vertices(m@, s.take(i + 1)) == Err::<Seq<VertexId>, TraversalError>(
                            TraversalError::HalfEdgeHasNoVertex(h),
                        ));
                        lemma_map_vertices_err_prefix(m@, s, i + 1);
                    }
                    return Err(TraversalError::HalfEdgeHasNoVertex(h));
                },
            }
            i += 1;
        }
        assert(s.take(s.len() as int) =~= s);
        Ok(res)
    }
}

/* ================== */
/*  Halfedge Helpers  */
/* ================== */

pub trait HalfedgeTraversalHelpers<'a> {
    /// The traversal stands at an existing half-edge of a mesh whose links
    /// are valid, or has stopped.
    spec fn links_ready(&self) -> bool;

    /// As `links_ready`, and following `next` from the half-edge comes back
    /// to it.
    spec fn cycle_ready(&self) -> bool;

    fn cycle_around_fan(&'a self) -> Traversal<'a, HalfEdgeId>
        requires
            self.links_ready(),
    ;

    fn src_vertex(&'a self) -> Traversal<'a, VertexId>
        requires
            self.links_ready(),
    ;

    fn dst_vertex(&'a self) -> Traversal<'a, VertexId>
        requires
            self.links_ready(),
    ;

    fn src_dst_pair(&'a self) -> Result<(VertexId, VertexId), TraversalError>
        requires
            self.links_ready(),
    ;

    fn is_boundary(&'a self) -> Result<bool, TraversalError>
        requires
            self.links_ready(),
    ;

    fn previous(&'a self) -> Traversal<'a, HalfEdgeId>
        requires
            self.cycle_ready(),
    ;
}

impl<'a> HalfedgeTraversalHelpers<'a> for Traversal<'a, HalfEdgeId> {
    open spec fn links_ready(&self) -> bool {
        match self {
            Ok(v) => v.inner.well_formed() && v.inner@.links_valid() && v.inner@.has_halfedge(
                v.location,
            ),
            Err(_) => true,
        }
    }

    open spec fn cycle_ready(&self) -> bool {
        &&& self.links_ready()
        &&& (self matches Ok(v) ==> walk_cycles(v.inner@, WalkKind::Next, v.location.0))
    }

    /// The next outgoing half-edge around the source vertex: `next(twin(h))`.
    fn cycle_around_fan(&'a self) -> (r: Traversal<'a, HalfEdgeId>)
        ensures
            r == spec_next(spec_twin(*self)),
    {
        let t = self.twin();
        proof {
            if let Ok(v) = *self {
                assert(v.inner@.halfedge_links_ok(v.inner@.halfedges[v.location.0]));
            }
        }
        match t {
            Ok(valid) => match valid.inner.halfedge(valid.location).next {
                Some(h) => Ok(ValidTraversal { inner: valid.inner, location: h }),
                None => Err(TraversalError::HalfEdgeHasNoNext(valid.location)),
            },
            Err(e) => Err(e),
        }
    }

    /// The source vertex of the half-edge.
    fn src_vertex(&'a self) -> (r: Traversal<'a, VertexId>)
        ensures
            r == spec_vertex(*self),
    {
        self.vertex()
    }

    /// The destination vertex: the source vertex of the next half-edge.
    fn dst_vertex(&'a self) -> (r: Traversal<'a, VertexId>)
        ensures
            r == spec_vertex(spec_next(*self)),
    {
        let n = self.next();
        proof {
            if let Ok(v) = *self {
                assert(v.inner@.halfedge_links_ok(v.inner@.halfedges[v.location.0]));
            }
        }
        match n {
            Ok(valid) => match valid.inner.halfedge(valid.location).vertex {
                Some(x) => Ok(ValidTraversal { inner: valid.inner, location: x }),
                None => Err(TraversalError::HalfEdgeHasNoVertex(valid.location)),
            },
            Err(e) => Err(e),
        }
    }

    /// The (source, destination) vertices of the half-edge.
    fn src_dst_pair(&'a self) -> (r: Result<(VertexId, VertexId), TraversalError>)
        ensures
            r == match spec_vertex(*self) {
                Ok(a) => match spec_vertex(spec_next(*self)) {
                    Ok(b) => Ok((a.location, b.location)),
                    Err(e) => Err(e),
                },
                Err(e) => Err::<(VertexId, VertexId), TraversalError>(e),
            },
    {
        let src = match self.src_vertex() {
            Ok(v) => v.location,
            Err(e) => {
                return Err(e);
            },
        };
        let dst = match self.dst_vertex() {
            Ok(v) => v.location,
            Err(e) => {
                return Err(e);
            },
        };
        Ok((src, dst))
    }

    /// Whether the half-edge has no face.
    fn is_boundary(&'a self) -> (r: Result<bool, TraversalError>)
        ensures
            r == match *self {
                Ok(v) => Ok::<bool, TraversalError>(here(v).face is None),
                Err(e) => Err::<bool, TraversalError>(e),
            },
    {
        match self {
            Ok(valid) => {
                let t = valid.inner.at_halfedge(valid.location);
                Ok((&t).face().is_err())
            },
            Err(e) => Err(*e),
        }
    }

    /// The half-edge whose next is this one: the last of its `next` loop.
    fn previous(&'a self) -> (r: Traversal<'a, HalfEdgeId>)
        ensures
            r == match *self {
                Ok(v) => moved_to(v, cycle_seq(v.inner@, WalkKind::Next, v.location.0).last()),
                Err(e) => stopped(e),
            },
    {
        match self {
            Ok(valid) => {
                let h_loop = valid.inner.halfedge_loop(valid.location);
                let last = h_loop[h_loop.len() - 1];
                Ok(ValidTraversal { inner: valid.inner, location: last })
            },
            Err(e) => Err(*e),
        }
    }
}

} // verus!
