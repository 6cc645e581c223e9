//! The edit operations as the Lua API exposes them: selections by value and
//! owned names.
use vstd::prelude::*;

use crate::channels::{name_index, ChannelError, ChannelKeyType};
use crate::edit_ops::{check_quad_walks, group_error_as, quad_made, quad_walks_within, EditError};
use crate::halfedge::VertexId;
use crate::mesh::{
    dom_of, in_slot_order, lemma_resolve_keys_within, resolve_outcome, resolved_full, vertex_result, HalfEdgeMesh,
};
use crate::selection::{SelectionExpression, SelectionView};

verus! {

/// Creates a group named `group_name` of the elements of type `key_type`
/// that `selection` picks; see [`crate::edit_ops::make_group`].
pub fn make_group(mesh: &mut HalfEdgeMesh, key_type: ChannelKeyType, selection: SelectionExpression, group_name: String) -> (r: Result<(), EditError>)
    requires
        old(mesh).well_formed(),
    ensures
        final(mesh).well_formed(),
        final(mesh).connectivity == old(mesh).connectivity,
        final(mesh).positions == old(mesh).positions,
        forall|k: ChannelKeyType| k != key_type ==> #[trigger] final(mesh).groups_of(k) == old(mesh).groups_of(k),
        ({
            let g0 = old(mesh).groups_of(key_type);
            let g1 = final(mesh).groups_of(key_type);
            let n = g0.names().len();
            if name_index(g0.names(), group_name@) is Some {
                &&& r matches Err(EditError::Channel(ChannelError::AlreadyExists(x))) && x@ == group_name@
                &&& g1 == g0
            } else {
                &&& g1.names() == g0.names().push(group_name@)
                &&& g1.channels().len() == n + 1
                &&& g1.channels().subrange(0, n as int) == g0.channels()
                &&& g1.channels()[n as int].default == false
                &&& forall|res: Result<Seq<u64>, ChannelError>|
                    #[trigger] resolved_full(res, dom_of(old(mesh).connectivity@, key_type), selection@, g0) ==> match res {
                        Ok(s) => r is Ok && forall|k: u64| #[trigger] g1.channels()[n as int].at(k) == s.contains(crate::halfedge::key_norm(k)),
                        Err(ChannelError::NotFound(x)) => (r matches Err(e) && group_error_as(e, x@, group_name@))
                            && forall|k: u64| !g1.channels()[n as int].values.dom().contains(k),
                        Err(_) => r is Err,
                    }
            }
        }),
{
    crate::edit_ops::make_group(mesh, key_type, &selection, group_name.as_str())
}

/// `r` is the first vertex that `sel` picks in `mesh`: the error of the
/// resolution, or `EmptySelection` where it picks none.
pub open spec fn picks_first(mesh: HalfEdgeMesh, sel: SelectionView, r: Result<VertexId, EditError>) -> bool {
    forall|res: Result<Seq<u64>, ChannelError>|
        #[trigger] resolved_full(res, mesh.connectivity@.vertices.dom(), sel, mesh.vertex_groups) ==> match res {
            Ok(s) => if s.len() > 0 {
                r == Ok::<VertexId, EditError>(VertexId(s[0]))
            } else {
                r == Err::<VertexId, EditError>(EditError::EmptySelection)
            },
            Err(ChannelError::NotFound(x)) => r matches Err(EditError::Channel(ChannelError::NotFound(y))) && y@ == x@,
            Err(_) => r is Err,
        }
}

/// The first vertex that `sel` picks.
fn first_vertex(mesh: &HalfEdgeMesh, sel: &SelectionExpression) -> (r: Result<VertexId, EditError>)
    requires
        mesh.well_formed(),
    ensures
        picks_first(*mesh, sel@, r),
        r matches Ok(v) ==> mesh.connectivity@.has_vertex(v),
{
    let res = mesh.resolve_vertex_selection_full(sel);
    let ghost d = mesh.connectivity@.vertices.dom();
    let ghost g = mesh.vertex_groups;
    let ghost keys = choose|keys: Seq<u64>| in_slot_order(d, keys);
    let ghost rv = vertex_result(res);
    proof {
        assert(in_slot_order(d, keys));
        assert(resolved_full(rv, d, sel@, g));
    }
    let r = match res {
        Ok(v) => {
            if v.len() > 0 {
                Ok(v[0])
            } else {
                Err(EditError::EmptySelection)
            }
        },
        Err(e) => Err(EditError::Channel(e)),
    };
    proof {
        assert forall|res2: Result<Seq<u64>, ChannelError>| #[trigger] resolved_full(res2, d, sel@, g) implies match res2 {
            Ok(s) => if s.len() > 0 {
                r == Ok::<VertexId, EditError>(VertexId(s[0]))
            } else {
                r == Err::<VertexId, EditError>(EditError::EmptySelection)
            },
            Err(ChannelError::NotFound(x)) => r matches Err(EditError::Channel(ChannelError::NotFound(y))) && y@ == x@,
            Err(_) => r is Err,
        } by {
            assert(in_slot_order(d, keys));
        }
        if let Ok(v) = r {
            let s = rv->Ok_0;
            assert(s[0] == v.0);
            match sel@ {
                SelectionView::All => {
                    assert(s == keys);
                },
                SelectionView::Empty => {},
                SelectionView::Explicit(frags) => {
                    lemma_resolve_keys_within(keys, frags, g, v.0);
                    let j = choose|j: int| 0 <= j < keys.len() && keys[j] == v.0;
                    assert(d.contains(keys[j]));
                },
            }
        }
    }
    r
}

/// Makes a quad over the first vertices that `a`, `b`, `c` and `d` pick; see
/// [`crate::edit_ops::make_quad`]. The walks that it follows must come back
/// within as many steps as the mesh has half-edges, else it fails with
/// `OpenLoop` and leaves the mesh as it was.
pub fn make_quad(
    mesh: &mut HalfEdgeMesh,
    a: SelectionExpression,
    b: SelectionExpression,
    c: SelectionExpression,
    d: SelectionExpression,
) -> (r: Result<(), EditError>)
    requires
        old(mesh).well_formed(),
        old(mesh).connectivity@.links_valid(),
        old(mesh).connectivity@.faces.dom().len() + 3 < 0x1_0000_0000,
        old(mesh).connectivity@.halfedges.dom().len() + 11 < 0x1_0000_0000,
    ensures
        final(mesh).well_formed(),
        final(mesh).positions == old(mesh).positions,
        final(mesh).vertex_groups == old(mesh).vertex_groups,
        final(mesh).face_groups == old(mesh).face_groups,
        final(mesh).halfedge_groups == old(mesh).halfedge_groups,
        exists|ra: Result<VertexId, EditError>, rb: Result<VertexId, EditError>, rc: Result<VertexId, EditError>, rd: Result<VertexId, EditError>|
            #![trigger picks_first(*old(mesh), a@, ra), picks_first(*old(mesh), b@, rb), picks_first(*old(mesh), c@, rc), picks_first(*old(mesh), d@, rd)]
        {
            let m = old(mesh).connectivity@;
            &&& picks_first(*old(mesh), a@, ra)
            &&& picks_first(*old(mesh), b@, rb)
            &&& picks_first(*old(mesh), c@, rc)
            &&& picks_first(*old(mesh), d@, rd)
            &&& match (ra, rb, rc, rd) {
                (Ok(va), Ok(vb), Ok(vc), Ok(vd)) => {
                    let verts = seq![va, vb, vc, vd];
                    if quad_walks_within(m, verts, m.halfedges.dom().len()) {
                        quad_made(m, verts, r, final(mesh).connectivity@)
                    } else {
                        r == Err::<(), EditError>(EditError::OpenLoop) && final(mesh).connectivity@ == m
                    }
                },
                (Err(e), _, _, _) => r == Err::<(), EditError>(e) && final(mesh).connectivity@ == m,
                (Ok(_), Err(e), _, _) => r == Err::<(), EditError>(e) && final(mesh).connectivity@ == m,
                (Ok(_), Ok(_), Err(e), _) => r == Err::<(), EditError>(e) && final(mesh).connectivity@ == m,
                (Ok(_), Ok(_), Ok(_), Err(e)) => r == Err::<(), EditError>(e) && final(mesh).connectivity@ == m,
            }
        },
{
    let ra = first_vertex(mesh, &a);
    let rb = first_vertex(mesh, &b);
    let rc = first_vertex(mesh, &c);
    let rd = first_vertex(mesh, &d);
    let (va, vb, vc, vd) = match (ra, rb, rc, rd) {
        (Ok(va), Ok(vb), Ok(vc), Ok(vd)) => (va, vb, vc, vd),
        (Err(e), _, _, _) => {
            return Err(e);
        },
        (Ok(_), Err(e), _, _) => {
            return Err(e);
        },
        (Ok(_), Ok(_), Err(e), _) => {
            return Err(e);
        },
        (Ok(_), Ok(_), Ok(_), Err(e)) => {
            return Err(e);
        },
    };
    let verts = [va, vb, vc, vd];
    let ghost m = mesh.connectivity@;
    assert(verts@ =~= seq![va, vb, vc, vd]);
    if !check_quad_walks(&mesh.connectivity, &verts) {
        return Err(EditError::OpenLoop);
    }
    crate::edit_ops::make_quad(&mut mesh.connectivity, &verts)
}

} // verus!
