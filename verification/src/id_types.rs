//! Text forms of the mesh element ids, for debugging.
use vstd::prelude::*;

use crate::graph::{key_data_debug, key_debug_text};
use crate::halfedge::{FaceId, HalfEdgeId, VertexId};

verus! {

/// The `Debug` text of an id type named `name` holding the key `k`.
pub open spec fn id_debug_text(name: Seq<char>, k: u64) -> Seq<char> {
    name + seq!['('] + key_debug_text(k) + seq![')']
}

/// `name`, then the key's text in brackets.
fn id_text(name: &str, k: u64) -> (r: String)
    ensures
        r@ == id_debug_text(name@, k),
{
    let mut s = String::from_str(name);
    crate::text::push_char(&mut s, '(');
    let key = key_data_debug(k);
    s.append(key.as_str());
    crate::text::push_char(&mut s, ')');
    assert(s@ =~= id_debug_text(name@, k));
    s
}

/// A text for a vertex id, as the id prints with `Debug`.
pub fn vertex_id_to_string(v: VertexId) -> (r: String)
    ensures
        r@ == id_debug_text("VertexId"@, v.0),
{
    id_text("VertexId", v.0)
}

/// A text for a half-edge id, as the id prints with `Debug`.
pub fn halfedge_id_to_string(v: HalfEdgeId) -> (r: String)
    ensures
        r@ == id_debug_text("HalfEdgeId"@, v.0),
{
    id_text("HalfEdgeId", v.0)
}

/// A text for a face id, as the id prints with `Debug`.
pub fn face_id_to_string(v: FaceId) -> (r: String)
    ensures
        r@ == id_debug_text("FaceId"@, v.0),
{
    id_text("FaceId", v.0)
}

} // verus!
