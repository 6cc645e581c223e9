//! A half-edge mesh: its connectivity and the named groups of its elements,
//! and how selection expressions pick elements out of it.
use vstd::prelude::*;

use crate::channels::{ChannelError, ChannelGroup, ChannelKeyType};
use crate::positions::Positions;
use glam::Vec3;
use crate::halfedge::{key_slot, FaceId, HalfEdgeId, MeshConnectivity, MeshView, VertexId, WalkKind,
    cycle_seq, walk_cycles, walk_terminates, walk_outcome};
use crate::selection::{FragmentView, SelectionExpression, SelectionFragment, SelectionView};
use crate::traversals::{
    map_vertices, spec_face_halfedges, vec_result_is, FaceTraversalHelpers, HalfedgeTraversalHelpers,
    HalfEdgeTraversal, AnyTraversal, TraversalError, spec_vertex, spec_next,
};

verus! {

/// A mesh: connectivity and vertex positions, a group of boolean channels
/// for each element type, and named vector channels on the vertices.
pub struct HalfEdgeMesh {
    pub connectivity: MeshConnectivity,
    pub positions: Positions,
    pub vertex_groups: ChannelGroup,
    pub face_groups: ChannelGroup,
    pub halfedge_groups: ChannelGroup,
    pub vertex_vectors: Vec<VectorChannel>,
}

/// A named channel holding a vector for each vertex, the default where none
/// was set.
pub struct VectorChannel {
    pub name: String,
    pub values: Positions,
}

/// What a selection resolves to over a set of elements.
pub enum ResolvedSelection<Id> {
    All,
    Empty,
    Explicit(Vec<Id>),
}

/// `s` lists the keys of `d`, each once, in the order of their slots.
pub open spec fn in_slot_order(d: Set<u64>, s: Seq<u64>) -> bool {
    &&& forall|i: int| 0 <= i < s.len() ==> d.contains(#[trigger] s[i])
    &&& forall|k: u64| d.contains(k) ==> s.contains(k)
    &&& forall|i: int, j: int| 0 <= i < j < s.len() ==> key_slot(#[trigger] s[i]) < key_slot(#[trigger] s[j])
}

/// Whether fragment `f` picks the element at position `i`, whose key is `k`.
pub open spec fn fragment_selects(f: FragmentView, i: int, k: u64, g: ChannelGroup) -> bool {
    match f {
        FragmentView::Range(a, b) => a <= i < b,
        FragmentView::Single(s) => s == i,
        FragmentView::Group(name) => match g.channel_by_name(name) {
            Some(c) => c.at(k),
            None => false,
        },
    }
}

/// One copy of `k` for each fragment that picks it.
pub open spec fn selected_copies(frags: Seq<FragmentView>, i: int, k: u64, g: ChannelGroup) -> Seq<u64>
    decreases frags.len(),
{
    if frags.len() == 0 {
        Seq::empty()
    } else {
        selected_copies(frags.drop_last(), i, k, g) + if fragment_selects(frags.last(), i, k, g) {
            seq![k]
        } else {
            Seq::empty()
        }
    }
}

/// The keys picked by `frags`, element by element in the order of `keys`.
pub open spec fn resolve_keys(keys: Seq<u64>, frags: Seq<FragmentView>, g: ChannelGroup) -> Seq<u64>
    decreases keys.len(),
{
    if keys.len() == 0 {
        Seq::empty()
    } else {
        resolve_keys(keys.drop_last(), frags, g) + selected_copies(
            frags,
            keys.len() - 1,
            keys.last(),
            g,
        )
    }
}

/// The first group fragment whose group does not exist.
pub open spec fn first_missing_group(frags: Seq<FragmentView>, g: ChannelGroup) -> Option<Seq<char>>
    decreases frags.len(),
{
    if frags.len() == 0 {
        None
    } else {
        match first_missing_group(frags.drop_last(), g) {
            Some(n) => Some(n),
            None => match frags.last() {
                FragmentView::Group(name) => if g.channel_by_name(name) is None {
                    Some(name)
                } else {
                    None
                },
                _ => None,
            },
        }
    }
}

/// What resolving the fragments `frags` over the elements `keys` gives.
pub open spec fn resolve_outcome(keys: Seq<u64>, frags: Seq<FragmentView>, g: ChannelGroup) -> Result<Seq<u64>, Seq<char>> {
    if keys.len() > 0 && first_missing_group(frags, g) is Some {
        Err(first_missing_group(frags, g)->Some_0)
    } else {
        Ok(resolve_keys(keys, frags, g))
    }
}

/// `r` is what resolving `frags` over the elements `keys` gives.
pub open spec fn resolved_as(r: Result<Vec<u64>, ChannelError>, keys: Seq<u64>, frags: Seq<FragmentView>, g: ChannelGroup) -> bool {
    match resolve_outcome(keys, frags, g) {
        Ok(s) => r matches Ok(v) && v@ == s,
        Err(name) => r matches Err(ChannelError::NotFound(n)) && n@ == name,
    }
}

/// Keys listed in slot order are fewer than the slots.
proof fn lemma_slot_order_len(s: Seq<u64>)
    requires
        forall|i: int, j: int| 0 <= i < j < s.len() ==> key_slot(#[trigger] s[i]) < key_slot(#[trigger] s[j]),
    ensures
        s.len() <= 0x1_0000_0000,
{
    lemma_slot_at_least(s, s.len() as int - 1);
    if s.len() > 0x1_0000_0000 {
        assert(key_slot(s[s.len() - 1]) < 0x1_0000_0000);
    }
}

pub(crate) proof fn lemma_slot_at_least(s: Seq<u64>, n: int)
    requires
        forall|i: int, j: int| 0 <= i < j < s.len() ==> key_slot(#[trigger] s[i]) < key_slot(#[trigger] s[j]),
        n < s.len(),
    ensures
        n >= 0 ==> key_slot(s[n]) >= n,
    decreases n,
{
    if n > 0 {
        lemma_slot_at_least(s, n - 1);
        assert(key_slot(s[n - 1]) < key_slot(s[n]));
    }
}

/// Picks the elements that an explicit list of fragments selects: for each
/// element in `keys` order, one copy per fragment that picks it.
fn resolve_explicit_keys(keys: &Vec<u64>, frags: &Vec<SelectionFragment>, g: &ChannelGroup) -> (r: Result<Vec<u64>, ChannelError>)
    requires
        g.well_formed(),
        keys@.len() <= 0x1_0000_0000,
    ensures
        resolved_as(r, keys@, crate::selection::fragments_view(frags@), *g),
{
    let ghost fv = crate::selection::fragments_view(frags@);
    let mut ids: Vec<u64> = Vec::new();
    let mut i: usize = 0;
    while i < keys.len()
        invariant
            g.well_formed(),
            keys@.len() <= 0x1_0000_0000,
            fv == crate::selection::fragments_view(frags@),
            fv.len() == frags@.len(),
            i <= keys@.len(),
            ids@ == resolve_keys(keys@.take(i as int), fv, *g),
            i > 0 ==> first_missing_group(fv, *g) is None,
        decreases keys@.len() - i,
    {
        let k = keys[i];
        let idx: u32 = i as u32;
        let ghost before = ids@;
        let mut j: usize = 0;
        while j < frags.len()
            invariant
                g.well_formed(),
                fv == crate::selection::fragments_view(frags@),
                fv.len() == frags@.len(),
                i < keys@.len(),
                k == keys@[i as int],
                idx == i,
                j <= frags@.len(),
                ids@ == before + selected_copies(fv.take(j as int), i as int, k, *g),
                first_missing_group(fv.take(j as int), *g) is None,
                i > 0 ==> first_missing_group(fv, *g) is None,
            decreases frags@.len() - j,
        {
            assert(fv.take(j + 1).drop_last() =~= fv.take(j as int));
            assert(fv.take(j + 1).last() == frags@[j as int]@);
            match &frags[j] {
                SelectionFragment::Range(r) => {
                    if r.start <= idx && idx < r.end {
                        ids.push(k);
                    }
                },
                SelectionFragment::Single(s) => {
                    if *s == idx {
                        ids.push(k);
                    }
                },
                SelectionFragment::Group(name) => {
                    match g.channel_id(name.as_str()) {
                        Some(ch) => {
                            if g.read(ch, k) {
                                ids.push(k);
                            }
                        },
                        None => {
                            proof {
                                assert(first_missing_group(fv.take(j + 1), *g) == Some(name@));
                                lemma_first_missing_prefix(fv, *g, j + 1);
                            }
                            return Err(ChannelError::NotFound(name.clone()));
                        },
                    }
                },
            }
            j += 1;
        }
        proof {
            assert(fv.take(frags@.len() as int) =~= fv);
            assert(keys@.take(i + 1).drop_last() =~= keys@.take(i as int));
        }
        i += 1;
    }
    assert(keys@.take(keys@.len() as int) =~= keys@);
    Ok(ids)
}

proof fn lemma_first_missing_prefix(frags: Seq<FragmentView>, g: ChannelGroup, j: int)
    requires
        0 <= j <= frags.len(),
        first_missing_group(frags.take(j), g) is Some,
    ensures
        first_missing_group(frags, g) == first_missing_group(frags.take(j), g),
    decreases frags.len() - j,
{
    if j < frags.len() {
        assert(frags.take(j + 1).drop_last() =~= frags.take(j));
        lemma_first_missing_prefix(frags, g, j + 1);
    } else {
        assert(frags.take(j) =~= frags);
    }
}

/// The key sequence of a list of ids.
pub open spec fn vertex_keys(s: Seq<VertexId>) -> Seq<u64> {
    s.map_values(|v: VertexId| v.0)
}

pub open spec fn face_keys(s: Seq<FaceId>) -> Seq<u64> {
    s.map_values(|v: FaceId| v.0)
}

pub open spec fn halfedge_keys(s: Seq<HalfEdgeId>) -> Seq<u64> {
    s.map_values(|v: HalfEdgeId| v.0)
}

/// The keys of the ids in a resolution result.
pub open spec fn vertex_result(r: Result<Vec<VertexId>, ChannelError>) -> Result<Seq<u64>, ChannelError> {
    match r {
        Ok(v) => Ok(vertex_keys(v@)),
        Err(e) => Err(e),
    }
}

pub open spec fn face_result(r: Result<Vec<FaceId>, ChannelError>) -> Result<Seq<u64>, ChannelError> {
    match r {
        Ok(v) => Ok(face_keys(v@)),
        Err(e) => Err(e),
    }
}

pub open spec fn halfedge_result(r: Result<Vec<HalfEdgeId>, ChannelError>) -> Result<Seq<u64>, ChannelError> {
    match r {
        Ok(v) => Ok(halfedge_keys(v@)),
        Err(e) => Err(e),
    }
}

/// What resolving `sel` over elements with domain `d` gives, in full: all the
/// keys in slot order, none, or the explicit resolution.
pub open spec fn resolved_full(r: Result<Seq<u64>, ChannelError>, d: Set<u64>, sel: SelectionView, g: ChannelGroup) -> bool {
    forall|keys: Seq<u64>|
        #![trigger in_slot_order(d, keys)]
        in_slot_order(d, keys) ==> match sel {
            SelectionView::All => r == Ok::<Seq<u64>, ChannelError>(keys),
            SelectionView::Empty => r == Ok::<Seq<u64>, ChannelError>(Seq::<u64>::empty()),
            SelectionView::Explicit(frags) => match resolve_outcome(keys, frags, g) {
                Ok(s) => r == Ok::<Seq<u64>, ChannelError>(s),
                Err(name) => r matches Err(ChannelError::NotFound(n)) && n@ == name,
            },
        }
}

/// Any two sequences in slot order over the same keys are equal.
pub proof fn lemma_slot_order_unique(d: Set<u64>, a: Seq<u64>, b: Seq<u64>)
    requires
        in_slot_order(d, a),
        in_slot_order(d, b),
    ensures
        a == b,
    decreases a.len(),
{
    if a.len() == 0 {
        if b.len() > 0 {
            assert(d.contains(b[0]));
            assert(a.contains(b[0]));
        }
    } else {
        // The last element of each is the one with the largest slot.
        let x = a.last();
        assert(d.contains(x));
        assert(b.contains(x));
        let jb = choose|j: int| 0 <= j < b.len() && b[j] == x;
        if b.len() > 0 {
            let y = b.last();
            assert(d.contains(y));
            assert(a.contains(y));
            let ja = choose|j: int| 0 <= j < a.len() && a[j] == y;
            if jb < b.len() - 1 {
                assert(key_slot(b[jb]) < key_slot(b[b.len() - 1]));
                if ja < a.len() - 1 {
                    assert(key_slot(a[ja]) < key_slot(a[a.len() - 1]));
                }
                assert(false);
            }
        }
        let d2 = d.remove(x);
        let a2 = a.drop_last();
        let b2 = b.drop_last();
        assert forall|i: int| 0 <= i < a2.len() implies d2.contains(#[trigger] a2[i]) by {
            assert(key_slot(a[i]) < key_slot(a[a.len() - 1]));
        }
        assert forall|k: u64| d2.contains(k) implies a2.contains(k) by {
            assert(a.contains(k));
            let j = choose|j: int| 0 <= j < a.len() && a[j] == k;
            assert(a2[j] == k);
        }
        assert forall|i: int| 0 <= i < b2.len() implies d2.contains(#[trigger] b2[i]) by {
            assert(key_slot(b[i]) < key_slot(b[b.len() - 1]));
        }
        assert forall|k: u64| d2.contains(k) implies b2.contains(k) by {
            assert(b.contains(k));
            let j = choose|j: int| 0 <= j < b.len() && b[j] == k;
            assert(b2[j] == k);
        }
        lemma_slot_order_unique(d2, a2, b2);
        assert(a =~= b);
    }
}

impl HalfEdgeMesh {
    pub open spec fn well_formed(&self) -> bool {
        &&& self.connectivity.well_formed()
        &&& forall|k: u64| #[trigger] self.positions.values().dom().contains(k) ==> self.connectivity@.vertices.dom().contains(k)
        &&& self.groups_of(ChannelKeyType::VertexId).well_formed()
        &&& self.groups_of(ChannelKeyType::FaceId).well_formed()
        &&& self.groups_of(ChannelKeyType::HalfEdgeId).well_formed()
    }

    /// An empty mesh, with no groups.
    pub fn new() -> (r: HalfEdgeMesh)
        ensures
            r.well_formed(),
            r.connectivity.vertices_packed(),
            r.connectivity@.vertices == Map::<u64, crate::halfedge::Vertex>::empty(),
            r.connectivity@.faces == Map::<u64, crate::halfedge::Face>::empty(),
            r.connectivity@.halfedges == Map::<u64, crate::halfedge::HalfEdge>::empty(),
            forall|k: u64| !r.positions.values().dom().contains(k),
            r.vertex_vectors@.len() == 0,
    {
        HalfEdgeMesh {
            connectivity: MeshConnectivity::new(),
            positions: Positions::new(),
            vertex_groups: ChannelGroup::new(),
            face_groups: ChannelGroup::new(),
            halfedge_groups: ChannelGroup::new(),
            vertex_vectors: Vec::new(),
        }
    }

    /// The connectivity of the mesh.
    pub fn read_connectivity(&self) -> (r: &MeshConnectivity)
        ensures
            *r == self.connectivity,
    {
        &self.connectivity
    }

    /// The groups of the given element type.
    pub fn groups(&self, kt: ChannelKeyType) -> (r: &ChannelGroup)
        ensures
            *r == self.groups_of(kt),
    {
        match kt {
            ChannelKeyType::VertexId => &self.vertex_groups,
            ChannelKeyType::FaceId => &self.face_groups,
            ChannelKeyType::HalfEdgeId => &self.halfedge_groups,
        }
    }

    pub open spec fn groups_of(&self, kt: ChannelKeyType) -> ChannelGroup {
        match kt {
            ChannelKeyType::VertexId => self.vertex_groups,
            ChannelKeyType::FaceId => self.face_groups,
            ChannelKeyType::HalfEdgeId => self.halfedge_groups,
        }
    }

    /// The keys of the vertexs, in slot order, beside their ids.
    pub(crate) fn vertex_slot_keys(&self) -> (r: (Vec<VertexId>, Vec<u64>))
        requires
            self.well_formed(),
        ensures
            in_slot_order(self.connectivity@.vertices.dom(), r.1@),
            vertex_keys(r.0@) == r.1@,
            r.1@.len() <= 0x1_0000_0000,
    {
        let ids = self.connectivity.iter_vertices();
        let mut keys: Vec<u64> = Vec::new();
        let mut i: usize = 0;
        while i < ids.len()
            invariant
                i <= ids@.len(),
                keys@.len() == i,
                forall|t: int| 0 <= t < i ==> #[trigger] keys@[t] == ids@[t].0,
            decreases ids@.len() - i,
        {
            keys.push(ids[i].0);
            i += 1;
        }
        assert(vertex_keys(ids@) =~= keys@);
        let ghost d = self.connectivity@.vertices.dom();
        proof {
            assert(in_slot_order(d, keys@)) by {
                assert forall|k: u64| d.contains(k) implies keys@.contains(k) by {
                    assert(ids@.contains(VertexId(k)));
                    let j = choose|j: int| 0 <= j < ids@.len() && ids@[j] == VertexId(k);
                    assert(keys@[j] == k);
                }
            }
            lemma_slot_order_len(keys@);
        }
        (ids, keys)
    }

    /// Resolves `fragments` over the vertexs: `All` and `Empty` stay as they
    /// are, an explicit list becomes the vertexs it picks.
    pub fn resolve_vertex_selection(&self, fragments: &SelectionExpression) -> (r: Result<ResolvedSelection<VertexId>, ChannelError>)
        requires
            self.well_formed(),
        ensures
            fragments@ is All ==> r matches Ok(ResolvedSelection::All),
            fragments@ is Empty ==> r matches Ok(ResolvedSelection::Empty),
            fragments@ matches SelectionView::Explicit(frags) ==> forall|keys: Seq<u64>|
                #![trigger in_slot_order(self.connectivity@.vertices.dom(), keys)]
                in_slot_order(self.connectivity@.vertices.dom(), keys) ==> match resolve_outcome(keys, frags, self.vertex_groups) {
                    Ok(s) => r matches Ok(ResolvedSelection::Explicit(v)) && vertex_keys(v@) == s,
                    Err(name) => r matches Err(ChannelError::NotFound(n)) && n@ == name,
                },
    {
        match fragments {
            SelectionExpression::All => Ok(ResolvedSelection::All),
            SelectionExpression::Empty => Ok(ResolvedSelection::Empty),
            SelectionExpression::Explicit(frags) => {
                let (_, keys) = self.vertex_slot_keys();
                match resolve_explicit_keys(&keys, frags, &self.vertex_groups) {
                    Ok(sel) => {
                        let mut out: Vec<VertexId> = Vec::new();
                        let mut j: usize = 0;
                        while j < sel.len()
                            invariant
                                j <= sel@.len(),
                                out@.len() == j,
                                forall|t: int| 0 <= t < j ==> (#[trigger] out@[t]).0 == sel@[t],
                            decreases sel@.len() - j,
                        {
                            out.push(VertexId(sel[j]));
                            j += 1;
                        }
                        assert(vertex_keys(out@) =~= sel@);
                        proof {
                            assert forall|ks: Seq<u64>| #[trigger] in_slot_order(self.connectivity@.vertices.dom(), ks)
                                implies ks == keys@ by {
                                lemma_slot_order_unique(self.connectivity@.vertices.dom(), ks, keys@);
                            }
                        }
                        Ok(ResolvedSelection::Explicit(out))
                    },
                    Err(e) => {
                        proof {
                            assert forall|ks: Seq<u64>| #[trigger] in_slot_order(self.connectivity@.vertices.dom(), ks)
                                implies ks == keys@ by {
                                lemma_slot_order_unique(self.connectivity@.vertices.dom(), ks, keys@);
                            }
                        }
                        Err(e)
                    },
                }
            },
        }
    }

    /// The vertexs that `fragments` selects: all of them in slot order for
    /// `All`, none for `Empty`, or the explicit resolution.
    pub fn resolve_vertex_selection_full(&self, fragments: &SelectionExpression) -> (r: Result<Vec<VertexId>, ChannelError>)
        requires
            self.well_formed(),
        ensures
            resolved_full(vertex_result(r), self.connectivity@.vertices.dom(), fragments@, self.vertex_groups),
            exists|keys: Seq<u64>| in_slot_order(self.connectivity@.vertices.dom(), keys),
    {
        let (_, witness) = self.vertex_slot_keys();
        let res = self.resolve_vertex_selection(fragments);
        let ghost d = self.connectivity@.vertices.dom();
        match res {
            Ok(ResolvedSelection::All) => {
                let (ids, keys) = self.vertex_slot_keys();
                proof {
                    assert forall|ks: Seq<u64>| #[trigger] in_slot_order(d, ks) implies ks == keys@ by {
                        lemma_slot_order_unique(d, ks, keys@);
                    }
                }
                Ok(ids)
            },
            Ok(ResolvedSelection::Empty) => {
                let v: Vec<VertexId> = Vec::new();
                assert(vertex_keys(v@) =~= Seq::<u64>::empty());
                Ok(v)
            },
            Ok(ResolvedSelection::Explicit(v)) => Ok(v),
            Err(e) => Err(e),
        }
    }

    /// The keys of the faces, in slot order, beside their ids.
    pub(crate) fn face_slot_keys(&self) -> (r: (Vec<FaceId>, Vec<u64>))
        requires
            self.well_formed(),
        ensures
            in_slot_order(self.connectivity@.faces.dom(), r.1@),
            face_keys(r.0@) == r.1@,
            r.1@.len() <= 0x1_0000_0000,
    {
        let ids = self.connectivity.iter_faces();
        let mut keys: Vec<u64> = Vec::new();
        let mut i: usize = 0;
        while i < ids.len()
            invariant
                i <= ids@.len(),
                keys@.len() == i,
                forall|t: int| 0 <= t < i ==> #[trigger] keys@[t] == ids@[t].0,
            decreases ids@.len() - i,
        {
            keys.push(ids[i].0);
            i += 1;
        }
        assert(face_keys(ids@) =~= keys@);
        let ghost d = self.connectivity@.faces.dom();
        proof {
            assert(in_slot_order(d, keys@)) by {
                assert forall|k: u64| d.contains(k) implies keys@.contains(k) by {
                    assert(ids@.contains(FaceId(k)));
                    let j = choose|j: int| 0 <= j < ids@.len() && ids@[j] == FaceId(k);
                    assert(keys@[j] == k);
                }
            }
            lemma_slot_order_len(keys@);
        }
        (ids, keys)
    }

    /// Resolves `fragments` over the faces: `All` and `Empty` stay as they
    /// are, an explicit list becomes the faces it picks.
    pub fn resolve_face_selection(&self, fragments: &SelectionExpression) -> (r: Result<ResolvedSelection<FaceId>, ChannelError>)
        requires
            self.well_formed(),
        ensures
            fragments@ is All ==> r matches Ok(ResolvedSelection::All),
            fragments@ is Empty ==> r matches Ok(ResolvedSelection::Empty),
            fragments@ matches SelectionView::Explicit(frags) ==> forall|keys: Seq<u64>|
                #![trigger in_slot_order(self.connectivity@.faces.dom(), keys)]
                in_slot_order(self.connectivity@.faces.dom(), keys) ==> match resolve_outcome(keys, frags, self.face_groups) {
                    Ok(s) => r matches Ok(ResolvedSelection::Explicit(v)) && face_keys(v@) == s,
                    Err(name) => r matches Err(ChannelError::NotFound(n)) && n@ == name,
                },
    {
        match fragments {
            SelectionExpression::All => Ok(ResolvedSelection::All),
            SelectionExpression::Empty => Ok(ResolvedSelection::Empty),
            SelectionExpression::Explicit(frags) => {
                let (_, keys) = self.face_slot_keys();
                match resolve_explicit_keys(&keys, frags, &self.face_groups) {
                    Ok(sel) => {
                        let mut out: Vec<FaceId> = Vec::new();
                        let mut j: usize = 0;
                        while j < sel.len()
                            invariant
                                j <= sel@.len(),
                                out@.len() == j,
                                forall|t: int| 0 <= t < j ==> (#[trigger] out@[t]).0 == sel@[t],
                            decreases sel@.len() - j,
                        {
                            out.push(FaceId(sel[j]));
                            j += 1;
                        }
                        assert(face_keys(out@) =~= sel@);
                        proof {
                            assert forall|ks: Seq<u64>| #[trigger] in_slot_order(self.connectivity@.faces.dom(), ks)
                                implies ks == keys@ by {
                                lemma_slot_order_unique(self.connectivity@.faces.dom(), ks, keys@);
                            }
                        }
                        Ok(ResolvedSelection::Explicit(out))
                    },
                    Err(e) => {
                        proof {
                            assert forall|ks: Seq<u64>| #[trigger] in_slot_order(self.connectivity@.faces.dom(), ks)
                                implies ks == keys@ by {
                                lemma_slot_order_unique(self.connectivity@.faces.dom(), ks, keys@);
                            }
                        }
                        Err(e)
                    },
                }
            },
        }
    }

    /// The faces that `fragments` selects: all of them in slot order for
    /// `All`, none for `Empty`, or the explicit resolution.
    pub fn resolve_face_selection_full(&self, fragments: &SelectionExpression) -> (r: Result<Vec<FaceId>, ChannelError>)
        requires
            self.well_formed(),
        ensures
            resolved_full(face_result(r), self.connectivity@.faces.dom(), fragments@, self.face_groups),
            exists|keys: Seq<u64>| in_slot_order(self.connectivity@.faces.dom(), keys),
    {
        let (_, witness) = self.face_slot_keys();
        let res = self.resolve_face_selection(fragments);
        let ghost d = self.connectivity@.faces.dom();
        match res {
            Ok(ResolvedSelection::All) => {
                let (ids, keys) = self.face_slot_keys();
                proof {
                    assert forall|ks: Seq<u64>| #[trigger] in_slot_order(d, ks) implies ks == keys@ by {
                        lemma_slot_order_unique(d, ks, keys@);
                    }
                }
                Ok(ids)
            },
            Ok(ResolvedSelection::Empty) => {
                let v: Vec<FaceId> = Vec::new();
                assert(face_keys(v@) =~= Seq::<u64>::empty());
                Ok(v)
            },
            Ok(ResolvedSelection::Explicit(v)) => Ok(v),
            Err(e) => Err(e),
        }
    }

    /// The keys of the halfedges, in slot order, beside their ids.
    pub(crate) fn halfedge_slot_keys(&self) -> (r: (Vec<HalfEdgeId>, Vec<u64>))
        requires
            self.well_formed(),
        ensures
            in_slot_order(self.connectivity@.halfedges.dom(), r.1@),
            halfedge_keys(r.0@) == r.1@,
            r.1@.len() <= 0x1_0000_0000,
    {
        let ids = self.connectivity.iter_halfedges();
        let mut keys: Vec<u64> = Vec::new();
        let mut i: usize = 0;
        while i < ids.len()
            invariant
                i <= ids@.len(),
                keys@.len() == i,
                forall|t: int| 0 <= t < i ==> #[trigger] keys@[t] == ids@[t].0,
            decreases ids@.len() - i,
        {
            keys.push(ids[i].0);
            i += 1;
        }
        assert(halfedge_keys(ids@) =~= keys@);
        let ghost d = self.connectivity@.halfedges.dom();
        proof {
            assert(in_slot_order(d, keys@)) by {
                assert forall|k: u64| d.contains(k) implies keys@.contains(k) by {
                    assert(ids@.contains(HalfEdgeId(k)));
                    let j = choose|j: int| 0 <= j < ids@.len() && ids@[j] == HalfEdgeId(k);
                    assert(keys@[j] == k);
                }
            }
            lemma_slot_order_len(keys@);
        }
        (ids, keys)
    }

    /// Resolves `fragments` over the halfedges: `All` and `Empty` stay as they
    /// are, an explicit list becomes the halfedges it picks.
    pub fn resolve_halfedge_selection(&self, fragments: &SelectionExpression) -> (r: Result<ResolvedSelection<HalfEdgeId>, ChannelError>)
        requires
            self.well_formed(),
        ensures
            fragments@ is All ==> r matches Ok(ResolvedSelection::All),
            fragments@ is Empty ==> r matches Ok(ResolvedSelection::Empty),
            fragments@ matches SelectionView::Explicit(frags) ==> forall|keys: Seq<u64>|
                #![trigger in_slot_order(self.connectivity@.halfedges.dom(), keys)]
                in_slot_order(self.connectivity@.halfedges.dom(), keys) ==> match resolve_outcome(keys, frags, self.halfedge_groups) {
                    Ok(s) => r matches Ok(ResolvedSelection::Explicit(v)) && halfedge_keys(v@) == s,
                    Err(name) => r matches Err(ChannelError::NotFound(n)) && n@ == name,
                },
    {
        match fragments {
            SelectionExpression::All => Ok(ResolvedSelection::All),
            SelectionExpression::Empty => Ok(ResolvedSelection::Empty),
            SelectionExpression::Explicit(frags) => {
                let (_, keys) = self.halfedge_slot_keys();
                match resolve_explicit_keys(&keys, frags, &self.halfedge_groups) {
                    Ok(sel) => {
                        let mut out: Vec<HalfEdgeId> = Vec::new();
                        let mut j: usize = 0;
                        while j < sel.len()
                            invariant
                                j <= sel@.len(),
                                out@.len() == j,
                                forall|t: int| 0 <= t < j ==> (#[trigger] out@[t]).0 == sel@[t],
                            decreases sel@.len() - j,
                        {
                            out.push(HalfEdgeId(sel[j]));
                            j += 1;
                        }
                        assert(halfedge_keys(out@) =~= sel@);
                        proof {
                            assert forall|ks: Seq<u64>| #[trigger] in_slot_order(self.connectivity@.halfedges.dom(), ks)
                                implies ks == keys@ by {
                                lemma_slot_order_unique(self.connectivity@.halfedges.dom(), ks, keys@);
                            }
                        }
                        Ok(ResolvedSelection::Explicit(out))
                    },
                    Err(e) => {
                        proof {
                            assert forall|ks: Seq<u64>| #[trigger] in_slot_order(self.connectivity@.halfedges.dom(), ks)
                                implies ks == keys@ by {
                                lemma_slot_order_unique(self.connectivity@.halfedges.dom(), ks, keys@);
                            }
                        }
                        Err(e)
                    },
                }
            },
        }
    }

    /// The halfedges that `fragments` selects: all of them in slot order for
    /// `All`, none for `Empty`, or the explicit resolution.
    pub fn resolve_halfedge_selection_full(&self, fragments: &SelectionExpression) -> (r: Result<Vec<HalfEdgeId>, ChannelError>)
        requires
            self.well_formed(),
        ensures
            resolved_full(halfedge_result(r), self.connectivity@.halfedges.dom(), fragments@, self.halfedge_groups),
            exists|keys: Seq<u64>| in_slot_order(self.connectivity@.halfedges.dom(), keys),
    {
        let (_, witness) = self.halfedge_slot_keys();
        let res = self.resolve_halfedge_selection(fragments);
        let ghost d = self.connectivity@.halfedges.dom();
        match res {
            Ok(ResolvedSelection::All) => {
                let (ids, keys) = self.halfedge_slot_keys();
                proof {
                    assert forall|ks: Seq<u64>| #[trigger] in_slot_order(d, ks) implies ks == keys@ by {
                        lemma_slot_order_unique(d, ks, keys@);
                    }
                }
                Ok(ids)
            },
            Ok(ResolvedSelection::Empty) => {
                let v: Vec<HalfEdgeId> = Vec::new();
                assert(halfedge_keys(v@) =~= Seq::<u64>::empty());
                Ok(v)
            },
            Ok(ResolvedSelection::Explicit(v)) => Ok(v),
            Err(e) => Err(e),
        }
    }

}


/// The face `f` has a half-edge, and following `next` from it comes back.
pub open spec fn face_loop_ok(m: MeshView, f: FaceId) -> bool {
    &&& m.has_face(f)
    &&& m.faces[f.0].halfedge matches Some(h0)
    &&& walk_cycles(m, WalkKind::Next, h0.0)
}

/// The half-edges around face `f`.
pub open spec fn face_loop(m: MeshView, f: FaceId) -> Seq<HalfEdgeId> {
    cycle_seq(m, WalkKind::Next, m.faces[f.0].halfedge->Some_0.0)
}

impl MeshConnectivity {
    /// The half-edges around a face, starting at the face's half-edge. Panics
    /// when the face has no half-edge, which is excluded here.
    pub fn face_edges(&self, face_id: FaceId) -> (r: Vec<HalfEdgeId>)
        requires
            self.well_formed(),
            self@.links_valid(),
            face_loop_ok(self@, face_id),
        ensures
            r@ == face_loop(self@, face_id),
            forall|i: int| 0 <= i < r@.len() ==> self@.has_halfedge(#[trigger] r@[i]),
    {
        let h0 = self.face(face_id).halfedge.unwrap();
        proof {
            assert(self@.opt_halfedge_ok(self@.faces[face_id.0].halfedge));
        }
        let r = self.halfedge_loop(h0);
        proof {
            assert forall|i: int| 0 <= i < r@.len() implies self@.has_halfedge(#[trigger] r@[i]) by {
                crate::halfedge::lemma_walk_in_dom(self@, WalkKind::Next, h0.0, i as nat);
            }
        }
        r
    }

    /// The source vertices of the half-edges around a face. Panics when one
    /// of them has no vertex, which is excluded here.
    pub fn face_vertices(&self, face_id: FaceId) -> (r: Vec<VertexId>)
        requires
            self.well_formed(),
            self@.links_valid(),
            face_loop_ok(self@, face_id),
            map_vertices(self@, face_loop(self@, face_id)) is Ok,
        ensures
            map_vertices(self@, face_loop(self@, face_id)) == Ok::<Seq<VertexId>, TraversalError>(r@),
    {
        let hs = self.face_edges(face_id);
        let ghost s = hs@;
        let mut res: Vec<VertexId> = Vec::new();
        let mut i: usize = 0;
        while i < hs.len()
            invariant
                self.well_formed(),
                i <= hs@.len(),
                s == hs@,
                forall|j: int| 0 <= j < hs@.len() ==> self@.has_halfedge(#[trigger] hs@[j]),
                map_vertices(self@, s.take(i as int)) == Ok::<Seq<VertexId>, TraversalError>(res@),
                map_vertices(self@, s) is Ok,
            decreases hs@.len() - i,
        {
            let h = hs[i];
            assert(s.take(i + 1).drop_last() =~= s.take(i as int));
            assert(s.take(i + 1).last() == h);
            match self.halfedge(h).vertex {
                Some(x) => {
                    res.push(x);
                },
                None => {
                    proof {
                        lemma_map_vertices_err_prefix(self@, s, i + 1);
                    }
                    assert(false);
                },
            }
            i += 1;
        }
        assert(s.take(s.len() as int) =~= s);
        res
    }
}

/// Face `f` exists and its loop comes back, without failing, within as
/// many steps as the mesh has half-edges.
pub open spec fn face_within(m: MeshView, f: FaceId) -> bool {
    &&& m.has_face(f)
    &&& m.faces[f.0].halfedge matches Some(h0)
    &&& crate::halfedge::loop_ok(m, h0.0)
}

impl MeshConnectivity {
    /// The vertices around face `f`, where its loop comes back within as
    /// many steps as the mesh has half-edges and each of its half-edges has
    /// a vertex; `None` otherwise.
    pub fn face_vertices_checked(&self, f: FaceId) -> (r: Option<Vec<VertexId>>)
        requires
            self.well_formed(),
            self@.links_valid(),
        ensures
            r is Some <==> face_within(self@, f) && map_vertices(self@, face_loop(self@, f)) is Ok,
            r matches Some(vs) ==> map_vertices(self@, face_loop(self@, f)) == Ok::<Seq<VertexId>, TraversalError>(vs@),
    {
        if !self.contains_face(f) {
            return None;
        }
        let h0 = match self.face(f).halfedge {
            Some(h) => h,
            None => {
                return None;
            },
        };
        proof {
            assert(self@.opt_halfedge_ok(self@.faces[f.0].halfedge));
        }
        if !crate::halfedge::loop_check(self, h0) {
            return None;
        }
        proof {
            crate::halfedge::lemma_loop_ok_cycles(self@, h0.0);
        }
        let hs = self.face_edges(f);
        let ghost s = hs@;
        let mut res: Vec<VertexId> = Vec::new();
        let mut i: usize = 0;
        while i < hs.len()
            invariant
                self.well_formed(),
                i <= hs@.len(),
                s == hs@,
                s == face_loop(self@, f),
                face_within(self@, f),
                forall|j: int| 0 <= j < hs@.len() ==> self@.has_halfedge(#[trigger] hs@[j]),
                map_vertices(self@, s.take(i as int)) == Ok::<Seq<VertexId>, TraversalError>(res@),
            decreases hs@.len() - i,
        {
            let h = hs[i];
            assert(s.take(i + 1).drop_last() =~= s.take(i as int));
            assert(s.take(i + 1).last() == h);
            match self.halfedge(h).vertex {
                Some(x) => {
                    res.push(x);
                },
                None => {
                    proof {
                        lemma_map_vertices_err_prefix(self@, s, i + 1);
                    }
                    return None;
                },
            }
            i += 1;
        }
        assert(s.take(s.len() as int) =~= s);
        Some(res)
    }
}

proof fn lemma_map_vertices_err_prefix(m: MeshView, s: Seq<HalfEdgeId>, k: int)
    requires
        0 <= k <= s.len(),
        map_vertices(m, s.take(k)) is Err,
    ensures
        map_vertices(m, s) is Err,
    decreases s.len() - k,
{
    if k < s.len() {
        assert(s.take(k + 1).drop_last() =~= s.take(k));
        lemma_map_vertices_err_prefix(m, s, k + 1);
    } else {
        assert(s.take(k) =~= s);
    }
}

impl HalfEdgeMesh {
    /// The half-edges around a face.
    pub fn face_edges(&self, face_id: FaceId) -> (r: Vec<HalfEdgeId>)
        requires
            self.well_formed(),
            self.connectivity@.links_valid(),
            face_loop_ok(self.connectivity@, face_id),
        ensures
            r@ == face_loop(self.connectivity@, face_id),
    {
        self.connectivity.face_edges(face_id)
    }

    /// The vertices around a face, or the error of the traversal.
    pub fn face_vertices(&self, face_id: FaceId) -> (r: Result<Vec<VertexId>, TraversalError>)
        requires
            self.well_formed(),
            self.connectivity@.links_valid(),
            self.connectivity@.has_face(face_id),
            self.connectivity@.faces[face_id.0].halfedge matches Some(h) ==> walk_terminates(
                self.connectivity@,
                WalkKind::Next,
                h.0,
            ),
        ensures
            vec_result_is(
                r,
                match self.connectivity@.faces[face_id.0].halfedge {
                    Some(h) => match walk_outcome(self.connectivity@, WalkKind::Next, h.0) {
                        Ok(s) => map_vertices(self.connectivity@, s),
                        Err(e) => Err(e),
                    },
                    None => Err(TraversalError::FaceHasNoHalfedge(face_id)),
                },
            ),
    {
        let t = self.connectivity.at_face(face_id);
        t.vertices()
    }

    /// The source vertex of a half-edge, or the error of the traversal.
    pub fn halfedge_vertex_id(&self, h: HalfEdgeId) -> (r: Result<VertexId, TraversalError>)
        requires
            self.well_formed(),
            self.connectivity@.has_halfedge(h),
        ensures
            r == match self.connectivity@.halfedges[h.0].vertex {
                Some(v) => Ok::<VertexId, TraversalError>(v),
                None => Err(TraversalError::HalfEdgeHasNoVertex(h)),
            },
    {
        let t = self.connectivity.at_halfedge(h);
        let v = t.vertex();
        v.try_end()
    }

    /// The (source, destination) vertices of a half-edge, or the error of the
    /// traversal.
    pub fn halfedge_vertices(&self, halfedge_id: HalfEdgeId) -> (r: Result<(VertexId, VertexId), TraversalError>)
        requires
            self.well_formed(),
            self.connectivity@.links_valid(),
            self.connectivity@.has_halfedge(halfedge_id),
        ensures
            r == match self.connectivity@.halfedges[halfedge_id.0].vertex {
                Some(a) => match self.connectivity@.halfedges[halfedge_id.0].next {
                    Some(n) => match self.connectivity@.halfedges[n.0].vertex {
                        Some(b) => Ok((a, b)),
                        None => Err(TraversalError::HalfEdgeHasNoVertex(n)),
                    },
                    None => Err(TraversalError::HalfEdgeHasNoNext(halfedge_id)),
                },
                None => Err::<(VertexId, VertexId), TraversalError>(TraversalError::HalfEdgeHasNoVertex(halfedge_id)),
            },
    {
        let t = self.connectivity.at_halfedge(halfedge_id);
        t.src_dst_pair()
    }
}


impl HalfEdgeMesh {
    /// The position of a vertex (the default position when it has none).
    pub fn vertex_position(&self, vertex_id: VertexId) -> (r: Vec3)
        ensures
            r == self.positions.at(vertex_id.0),
    {
        self.positions.get(vertex_id.0)
    }

    /// The positions of the source and destination of a half-edge, or the
    /// error of the traversal.
    pub fn halfedge_endpoints(&self, h: HalfEdgeId) -> (r: Result<(Vec3, Vec3), TraversalError>)
        requires
            self.well_formed(),
            self.connectivity@.links_valid(),
            self.connectivity@.has_halfedge(h),
        ensures
            match crate::edit_ops::src_dst(self.connectivity@, h) {
                Ok((a, b)) => r == Ok::<(Vec3, Vec3), TraversalError>((self.positions.at(a.0), self.positions.at(b.0))),
                Err(e) => r == Err::<(Vec3, Vec3), TraversalError>(e),
            },
    {
        let t = self.connectivity.at_halfedge(h);
        match t.src_dst_pair() {
            Ok((src, dst)) => Ok((self.positions.get(src.0), self.positions.get(dst.0))),
            Err(e) => Err(e),
        }
    }

    /// Adds a vertex with no half-edge at `pos`, and returns it.
    pub fn alloc_vertex_at(&mut self, pos: Vec3) -> (r: VertexId)
        requires
            old(self).well_formed(),
            old(self).connectivity@.vertices.dom().len() + 3 < 0x1_0000_0000,
        ensures
            final(self).well_formed(),
            !old(self).connectivity@.has_vertex(r),
            final(self).connectivity@.vertices == old(self).connectivity@.vertices.insert(r.0, crate::halfedge::Vertex { halfedge: None }),
            final(self).connectivity@.faces == old(self).connectivity@.faces,
            final(self).connectivity@.halfedges == old(self).connectivity@.halfedges,
            old(self).connectivity@.links_valid() ==> final(self).connectivity@.links_valid(),
            final(self).positions.values() == old(self).positions.values().insert(r.0, pos),
            final(self).positions.default == old(self).positions.default,
            final(self).vertex_groups == old(self).vertex_groups,
            final(self).face_groups == old(self).face_groups,
            final(self).halfedge_groups == old(self).halfedge_groups,
            final(self).vertex_vectors == old(self).vertex_vectors,
            crate::halfedge::key_norm(r.0) == r.0,
            crate::halfedge::key_slot(r.0) < 0xffff_ffff,
            forall|j: u64| old(self).connectivity@.vertices.dom().contains(j) ==> crate::halfedge::key_slot(j) != crate::halfedge::key_slot(r.0),
            old(self).connectivity.vertices_packed() ==> final(self).connectivity.vertices_packed()
                && crate::halfedge::key_slot(r.0) == old(self).connectivity@.vertices.dom().len() + 1,
    {
        let ghost before = self.connectivity@;
        let v = self.connectivity.alloc_vertex(None);
        proof {
            assert forall|j: u64| crate::halfedge::key_slot(j) == crate::halfedge::key_slot(v.0) && j != v.0
                implies !self.positions.values().dom().contains(j) by {
                if self.positions.values().dom().contains(j) {
                    assert(before.vertices.dom().contains(j));
                }
            }
        }
        self.positions.set(v.0, pos);
        v
    }
}


/// Every key of a resolution is one of the keys it ran over.
pub proof fn lemma_resolve_keys_within(keys: Seq<u64>, frags: Seq<FragmentView>, g: ChannelGroup, x: u64)
    requires
        resolve_keys(keys, frags, g).contains(x),
    ensures
        keys.contains(x),
    decreases keys.len(),
{
    let a = resolve_keys(keys.drop_last(), frags, g);
    let b = selected_copies(frags, keys.len() - 1, keys.last(), g);
    assert(resolve_keys(keys, frags, g) == a + b);
    let j = choose|j: int| 0 <= j < (a + b).len() && (a + b)[j] == x;
    if j < a.len() {
        assert(a[j] == x);
        lemma_resolve_keys_within(keys.drop_last(), frags, g, x);
        let i = choose|i: int| 0 <= i < keys.drop_last().len() && keys.drop_last()[i] == x;
        assert(keys[i] == x);
    } else {
        lemma_selected_copies_all(frags, keys.len() - 1, keys.last(), g);
        assert(b[j - a.len()] == x);
        assert(keys[keys.len() - 1] == x);
    }
}

proof fn lemma_selected_copies_all(frags: Seq<FragmentView>, i: int, k: u64, g: ChannelGroup)
    ensures
        forall|j: int| 0 <= j < selected_copies(frags, i, k, g).len() ==> #[trigger] selected_copies(frags, i, k, g)[j] == k,
    decreases frags.len(),
{
    if frags.len() > 0 {
        lemma_selected_copies_all(frags.drop_last(), i, k, g);
        let a = selected_copies(frags.drop_last(), i, k, g);
        let b: Seq<u64> = if fragment_selects(frags.last(), i, k, g) {
            seq![k]
        } else {
            Seq::empty()
        };
        assert(selected_copies(frags, i, k, g) == a + b);
        assert forall|j: int| 0 <= j < (a + b).len() implies #[trigger] (a + b)[j] == k by {
            if j < a.len() {
                assert(a[j] == k);
            } else {
                assert(b[j - a.len()] == k);
            }
        }
    }
}

/// The element keys of the given type.
pub open spec fn dom_of(m: MeshView, kt: ChannelKeyType) -> Set<u64> {
    match kt {
        ChannelKeyType::VertexId => m.vertices.dom(),
        ChannelKeyType::FaceId => m.faces.dom(),
        ChannelKeyType::HalfEdgeId => m.halfedges.dom(),
    }
}

impl HalfEdgeMesh {
    /// The keys of the elements of type `kt` that `sel` selects.
    pub fn resolve_keys_full(&self, kt: ChannelKeyType, sel: &SelectionExpression) -> (r: Result<Vec<u64>, ChannelError>)
        requires
            self.well_formed(),
        ensures
            resolved_full(
                match r {
                    Ok(v) => Ok(v@),
                    Err(e) => Err(e),
                },
                dom_of(self.connectivity@, kt),
                sel@,
                self.groups_of(kt),
            ),
            exists|keys: Seq<u64>| in_slot_order(dom_of(self.connectivity@, kt), keys),
    {
        match kt {
            ChannelKeyType::VertexId => {
                let res = self.resolve_vertex_selection_full(sel);
                proof {
                    assert(dom_of(self.connectivity@, kt) == self.connectivity@.vertices.dom());
                    let w = choose|keys: Seq<u64>| in_slot_order(self.connectivity@.vertices.dom(), keys);
                    assert(in_slot_order(dom_of(self.connectivity@, kt), w));
                }
                match res {
                Ok(ids) => {
                    let mut out: Vec<u64> = Vec::new();
                    let mut i: usize = 0;
                    while i < ids.len()
                        invariant
                            i <= ids@.len(),
                            out@.len() == i,
                            forall|t: int| 0 <= t < i ==> #[trigger] out@[t] == ids@[t].0,
                        decreases ids@.len() - i,
                    {
                        out.push(ids[i].0);
                        i += 1;
                    }
                    assert(out@ =~= vertex_keys(ids@));
                    Ok(out)
                },
                Err(e) => Err(e),
                }
            },
            ChannelKeyType::FaceId => {
                let res = self.resolve_face_selection_full(sel);
                proof {
                    assert(dom_of(self.connectivity@, kt) == self.connectivity@.faces.dom());
                    let w = choose|keys: Seq<u64>| in_slot_order(self.connectivity@.faces.dom(), keys);
                    assert(in_slot_order(dom_of(self.connectivity@, kt), w));
                }
                match res {
                Ok(ids) => {
                    let mut out: Vec<u64> = Vec::new();
                    let mut i: usize = 0;
                    while i < ids.len()
                        invariant
                            i <= ids@.len(),
                            out@.len() == i,
                            forall|t: int| 0 <= t < i ==> #[trigger] out@[t] == ids@[t].0,
                        decreases ids@.len() - i,
                    {
                        out.push(ids[i].0);
                        i += 1;
                    }
                    assert(out@ =~= face_keys(ids@));
                    Ok(out)
                },
                Err(e) => Err(e),
                }
            },
            ChannelKeyType::HalfEdgeId => {
                let res = self.resolve_halfedge_selection_full(sel);
                proof {
                    assert(dom_of(self.connectivity@, kt) == self.connectivity@.halfedges.dom());
                    let w = choose|keys: Seq<u64>| in_slot_order(self.connectivity@.halfedges.dom(), keys);
                    assert(in_slot_order(dom_of(self.connectivity@, kt), w));
                }
                match res {
                Ok(ids) => {
                    let mut out: Vec<u64> = Vec::new();
                    let mut i: usize = 0;
                    while i < ids.len()
                        invariant
                            i <= ids@.len(),
                            out@.len() == i,
                            forall|t: int| 0 <= t < i ==> #[trigger] out@[t] == ids@[t].0,
                        decreases ids@.len() - i,
                    {
                        out.push(ids[i].0);
                        i += 1;
                    }
                    assert(out@ =~= halfedge_keys(ids@));
                    Ok(out)
                },
                Err(e) => Err(e),
                }
            },
        }
    }
}

} // verus!
