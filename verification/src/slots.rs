//! The arenas of the mesh are `slotmap::SlotMap`s keyed by `DefaultKey`.
//! Keys are handed around as the `u64` that `KeyData::as_ffi` gives, and
//! turned back into keys with `KeyData::from_ffi`.
use vstd::prelude::*;

use slotmap::{DefaultKey, Key, KeyData, SlotMap};

use crate::halfedge::{key_norm, key_slot, Face, HalfEdge, Vertex};

verus! {

/// A `slotmap::SlotMap<DefaultKey, Vertex>`, held privately.
#[verifier::external_body]
pub struct VertexSlots {
    inner: SlotMap<DefaultKey, Vertex>,
}

/// The contents of a Vertex slot map, by 64-bit key (`KeyData::as_ffi`).
pub uninterp spec fn vertex_slots(m: VertexSlots) -> Map<u64, Vertex>;

/// Whether the Vertex slot map has no vacant slot: its free list is empty
/// (`free_head` is the number of slots), so every slot it has made, after
/// the sentinel, holds a value.
pub uninterp spec fn vertex_slots_no_vacant(m: VertexSlots) -> bool;

/// `SlotMap::new`: an empty map, with only its sentinel slot and so no
/// vacant one.
#[verifier::external_body]
pub(crate) fn vertex_slots_new() -> (r: VertexSlots)
    ensures
        forall|k: u64| !vertex_slots(r).dom().contains(k),
        vertex_slots_no_vacant(r),
{
    VertexSlots { inner: SlotMap::new() }
}

/// `SlotMap::insert`: stores `v` under a fresh key, in a vacant or a new
/// slot, and returns the key, whose slot index is below `u32::MAX`. Panics
/// when the map is full, which needs more than `u32::MAX - 1` elements,
/// excluded here. With no vacant slot, the value goes to a new slot pushed
/// after the `n` occupied ones, index `n + 1`, and still none is vacant.
#[verifier::external_body]
pub(crate) fn vertex_slots_insert(m: &mut VertexSlots, v: Vertex) -> (k: u64)
    requires
        vertex_slots(*old(m)).dom().len() + 2 < 0x1_0000_0000,
    ensures
        vertex_slots_no_vacant(*old(m)) ==> vertex_slots_no_vacant(*final(m)) && key_slot(k) == vertex_slots(*old(m)).dom().len() + 1,
        !vertex_slots(*old(m)).dom().contains(k),
        key_norm(k) == k,
        key_slot(k) < 0xffff_ffff,
        forall|j: u64| vertex_slots(*old(m)).dom().contains(j) ==> key_slot(j) != key_slot(k),
        vertex_slots(*final(m)) == vertex_slots(*old(m)).insert(k, v),
{
    m.inner.insert(v).data().as_ffi()
}

/// `SlotMap::get` with the key `KeyData::from_ffi(k)`, which reads the entry
/// under `key_norm(k)`.
#[verifier::external_body]
pub(crate) fn vertex_slots_get(m: &VertexSlots, k: u64) -> (r: Option<Vertex>)
    ensures
        r == vertex_slots(*m).get(key_norm(k)),
{
    m.inner.get(DefaultKey::from(KeyData::from_ffi(k))).copied()
}

/// `SlotMap`'s `IndexMut`: overwrites the entry under `key_norm(k)`, which
/// must exist (else the index panics).
#[verifier::external_body]
pub(crate) fn vertex_slots_set(m: &mut VertexSlots, k: u64, v: Vertex)
    requires
        vertex_slots(*old(m)).dom().contains(key_norm(k)),
    ensures
        vertex_slots(*final(m)) == vertex_slots(*old(m)).insert(key_norm(k), v),
{
    m.inner[DefaultKey::from(KeyData::from_ffi(k))] = v;
}

/// `SlotMap::remove`: takes out the entry under `key_norm(k)`, if any.
#[verifier::external_body]
pub(crate) fn vertex_slots_remove(m: &mut VertexSlots, k: u64) -> (r: Option<Vertex>)
    ensures
        r == vertex_slots(*old(m)).get(key_norm(k)),
        vertex_slots(*final(m)) == vertex_slots(*old(m)).remove(key_norm(k)),
{
    m.inner.remove(DefaultKey::from(KeyData::from_ffi(k)))
}

/// `SlotMap::keys`: every key once, in the order of the slots.
#[verifier::external_body]
pub(crate) fn vertex_slots_keys(m: &VertexSlots) -> (r: Vec<u64>)
    ensures
        forall|i: int| 0 <= i < r@.len() ==> vertex_slots(*m).dom().contains(#[trigger] r@[i]),
        forall|k: u64| vertex_slots(*m).dom().contains(k) ==> r@.contains(k),
        forall|i: int, j: int|
            0 <= i < j < r@.len() ==> key_slot(#[trigger] r@[i]) < key_slot(#[trigger] r@[j]),
{
    m.inner.keys().map(|k| k.data().as_ffi()).collect()
}

/// A `slotmap::SlotMap<DefaultKey, Face>`, held privately.
#[verifier::external_body]
pub struct FaceSlots {
    inner: SlotMap<DefaultKey, Face>,
}

/// The contents of a Face slot map, by 64-bit key (`KeyData::as_ffi`).
pub uninterp spec fn face_slots(m: FaceSlots) -> Map<u64, Face>;

/// `SlotMap::new`: an empty map.
#[verifier::external_body]
pub(crate) fn face_slots_new() -> (r: FaceSlots)
    ensures
        forall|k: u64| !face_slots(r).dom().contains(k),
{
    FaceSlots { inner: SlotMap::new() }
}

/// `SlotMap::insert`: stores `v` under a fresh key, in a vacant or a new
/// slot, and returns the key, whose slot index is below `u32::MAX`. Panics
/// when the map is full, which needs more than `u32::MAX - 1` elements,
/// excluded here.
#[verifier::external_body]
pub(crate) fn face_slots_insert(m: &mut FaceSlots, v: Face) -> (k: u64)
    requires
        face_slots(*old(m)).dom().len() + 2 < 0x1_0000_0000,
    ensures
        !face_slots(*old(m)).dom().contains(k),
        key_norm(k) == k,
        key_slot(k) < 0xffff_ffff,
        forall|j: u64| face_slots(*old(m)).dom().contains(j) ==> key_slot(j) != key_slot(k),
        face_slots(*final(m)) == face_slots(*old(m)).insert(k, v),
{
    m.inner.insert(v).data().as_ffi()
}

/// `SlotMap::get` with the key `KeyData::from_ffi(k)`, which reads the entry
/// under `key_norm(k)`.
#[verifier::external_body]
pub(crate) fn face_slots_get(m: &FaceSlots, k: u64) -> (r: Option<Face>)
    ensures
        r == face_slots(*m).get(key_norm(k)),
{
    m.inner.get(DefaultKey::from(KeyData::from_ffi(k))).copied()
}

/// `SlotMap`'s `IndexMut`: overwrites the entry under `key_norm(k)`, which
/// must exist (else the index panics).
#[verifier::external_body]
pub(crate) fn face_slots_set(m: &mut FaceSlots, k: u64, v: Face)
    requires
        face_slots(*old(m)).dom().contains(key_norm(k)),
    ensures
        face_slots(*final(m)) == face_slots(*old(m)).insert(key_norm(k), v),
{
    m.inner[DefaultKey::from(KeyData::from_ffi(k))] = v;
}

/// `SlotMap::remove`: takes out the entry under `key_norm(k)`, if any.
#[verifier::external_body]
pub(crate) fn face_slots_remove(m: &mut FaceSlots, k: u64) -> (r: Option<Face>)
    ensures
        r == face_slots(*old(m)).get(key_norm(k)),
        face_slots(*final(m)) == face_slots(*old(m)).remove(key_norm(k)),
{
    m.inner.remove(DefaultKey::from(KeyData::from_ffi(k)))
}

/// `SlotMap::keys`: every key once, in the order of the slots.
#[verifier::external_body]
pub(crate) fn face_slots_keys(m: &FaceSlots) -> (r: Vec<u64>)
    ensures
        forall|i: int| 0 <= i < r@.len() ==> face_slots(*m).dom().contains(#[trigger] r@[i]),
        forall|k: u64| face_slots(*m).dom().contains(k) ==> r@.contains(k),
        forall|i: int, j: int|
            0 <= i < j < r@.len() ==> key_slot(#[trigger] r@[i]) < key_slot(#[trigger] r@[j]),
{
    m.inner.keys().map(|k| k.data().as_ffi()).collect()
}

/// A `slotmap::SlotMap<DefaultKey, HalfEdge>`, held privately.
#[verifier::external_body]
pub struct HalfEdgeSlots {
    inner: SlotMap<DefaultKey, HalfEdge>,
}

/// The contents of a HalfEdge slot map, by 64-bit key (`KeyData::as_ffi`).
pub uninterp spec fn halfedge_slots(m: HalfEdgeSlots) -> Map<u64, HalfEdge>;

/// `SlotMap::new`: an empty map.
#[verifier::external_body]
pub(crate) fn halfedge_slots_new() -> (r: HalfEdgeSlots)
    ensures
        forall|k: u64| !halfedge_slots(r).dom().contains(k),
{
    HalfEdgeSlots { inner: SlotMap::new() }
}

/// `SlotMap::insert`: stores `v` under a fresh key, in a vacant or a new
/// slot, and returns the key, whose slot index is below `u32::MAX`. Panics
/// when the map is full, which needs more than `u32::MAX - 1` elements,
/// excluded here.
#[verifier::external_body]
pub(crate) fn halfedge_slots_insert(m: &mut HalfEdgeSlots, v: HalfEdge) -> (k: u64)
    requires
        halfedge_slots(*old(m)).dom().len() + 2 < 0x1_0000_0000,
    ensures
        !halfedge_slots(*old(m)).dom().contains(k),
        key_norm(k) == k,
        key_slot(k) < 0xffff_ffff,
        forall|j: u64| halfedge_slots(*old(m)).dom().contains(j) ==> key_slot(j) != key_slot(k),
        halfedge_slots(*final(m)) == halfedge_slots(*old(m)).insert(k, v),
{
    m.inner.insert(v).data().as_ffi()
}

/// `SlotMap::get` with the key `KeyData::from_ffi(k)`, which reads the entry
/// under `key_norm(k)`.
#[verifier::external_body]
pub(crate) fn halfedge_slots_get(m: &HalfEdgeSlots, k: u64) -> (r: Option<HalfEdge>)
    ensures
        r == halfedge_slots(*m).get(key_norm(k)),
{
    m.inner.get(DefaultKey::from(KeyData::from_ffi(k))).copied()
}

/// `SlotMap`'s `IndexMut`: overwrites the entry under `key_norm(k)`, which
/// must exist (else the index panics).
#[verifier::external_body]
pub(crate) fn halfedge_slots_set(m: &mut HalfEdgeSlots, k: u64, v: HalfEdge)
    requires
        halfedge_slots(*old(m)).dom().contains(key_norm(k)),
    ensures
        halfedge_slots(*final(m)) == halfedge_slots(*old(m)).insert(key_norm(k), v),
{
    m.inner[DefaultKey::from(KeyData::from_ffi(k))] = v;
}

/// `SlotMap::remove`: takes out the entry under `key_norm(k)`, if any.
#[verifier::external_body]
pub(crate) fn halfedge_slots_remove(m: &mut HalfEdgeSlots, k: u64) -> (r: Option<HalfEdge>)
    ensures
        r == halfedge_slots(*old(m)).get(key_norm(k)),
        halfedge_slots(*final(m)) == halfedge_slots(*old(m)).remove(key_norm(k)),
{
    m.inner.remove(DefaultKey::from(KeyData::from_ffi(k)))
}

/// `SlotMap::keys`: every key once, in the order of the slots.
#[verifier::external_body]
pub(crate) fn halfedge_slots_keys(m: &HalfEdgeSlots) -> (r: Vec<u64>)
    ensures
        forall|i: int| 0 <= i < r@.len() ==> halfedge_slots(*m).dom().contains(#[trigger] r@[i]),
        forall|k: u64| halfedge_slots(*m).dom().contains(k) ==> r@.contains(k),
        forall|i: int, j: int|
            0 <= i < j < r@.len() ==> key_slot(#[trigger] r@[i]) < key_slot(#[trigger] r@[j]),
{
    m.inner.keys().map(|k| k.data().as_ffi()).collect()
}

} // verus!
