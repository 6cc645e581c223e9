//! The positions of the vertices of a mesh. Positions are `glam::Vec3`
//! values that the library stores and hands back without looking inside;
//! the arithmetic on them is done by the callers.
use vstd::prelude::*;

use glam::Vec3;
use slotmap::{DefaultKey, KeyData, SecondaryMap};

use crate::halfedge::{key_norm, key_slot};

verus! {

/// `glam::Vec3`, carried through the library as an opaque value.
#[verifier::external_type_specification]
#[verifier::external_body]
pub struct ExVec3(Vec3);

/// A `slotmap::SecondaryMap<DefaultKey, Vec3>`, held privately.
#[verifier::external_body]
pub struct PositionSecondary {
    inner: SecondaryMap<DefaultKey, Vec3>,
}

/// The entries of a position map, by 64-bit key (`KeyData::as_ffi`).
pub uninterp spec fn position_secondary(m: PositionSecondary) -> Map<u64, Vec3>;

/// `SecondaryMap::new`: an empty map.
#[verifier::external_body]
fn position_secondary_new() -> (r: PositionSecondary)
    ensures
        forall|k: u64| !position_secondary(r).dom().contains(k),
{
    PositionSecondary { inner: SecondaryMap::new() }
}

/// `SecondaryMap::get` with the key `KeyData::from_ffi(k)`: the entry stored
/// under exactly that key, if any.
#[verifier::external_body]
fn position_secondary_get(m: &PositionSecondary, k: u64) -> (r: Option<Vec3>)
    ensures
        r == position_secondary(*m).get(key_norm(k)),
{
    m.inner.get(DefaultKey::from(KeyData::from_ffi(k))).copied()
}

/// `SecondaryMap::insert` with the key `KeyData::from_ffi(k)`. It returns the
/// value that was stored under that key. When the key is not the null key
/// and its slot holds nothing, or holds this very key, the key ends up
/// mapped to `v`. When the slot holds a newer version, or the key is the
/// null key, nothing changes; otherwise the key ends up mapped to `v` and
/// the other entries of its slot are gone. Entries of other slots never
/// change.
#[verifier::external_body]
fn position_secondary_insert(m: &mut PositionSecondary, k: u64, v: Vec3) -> (r: Option<Vec3>)
    ensures
        r == position_secondary(*old(m)).get(key_norm(k)),
        forall|j: u64|
            key_slot(j) != key_slot(k) ==> position_secondary(*final(m)).get(j) == position_secondary(
                *old(m),
            ).get(j),
        position_secondary(*final(m)).get(key_norm(k)) == Some(v) || (position_secondary(*final(m))
            == position_secondary(*old(m)) && !position_secondary(*old(m)).dom().contains(key_norm(k))),
        key_slot(k) != 0xffff_ffff && (forall|j: u64|
            key_slot(j) == key_slot(k) && j != key_norm(k) ==> !position_secondary(*old(m)).dom().contains(j))
            ==> position_secondary(*final(m)).get(key_norm(k)) == Some(v),
        forall|j: u64|
            key_slot(j) == key_slot(k) && j != key_norm(k) && position_secondary(
                *final(m),
            ).dom().contains(j) ==> position_secondary(*old(m)).dom().contains(j),
{
    m.inner.insert(DefaultKey::from(KeyData::from_ffi(k)), v)
}

/// `Vec3::default()`, the zero vector.
#[verifier::external_body]
fn vec3_default() -> (r: Vec3) {
    Vec3::default()
}

/// The position channel of a mesh: a position for each vertex, the default
/// where none was set.
pub struct Positions {
    pub inner: PositionSecondary,
    pub default: Vec3,
}

impl Positions {
    /// The stored positions, by vertex key.
    pub closed spec fn values(&self) -> Map<u64, Vec3> {
        position_secondary(self.inner)
    }

    /// The position of the vertex with key `k`.
    pub open spec fn at(&self, k: u64) -> Vec3 {
        match self.values().get(key_norm(k)) {
            Some(p) => p,
            None => self.default,
        }
    }

    /// A channel with no stored positions, whose default is the zero vector.
    pub fn new() -> (r: Positions)
        ensures
            forall|k: u64| !r.values().dom().contains(k),
    {
        Positions { inner: position_secondary_new(), default: vec3_default() }
    }

    /// The position of the vertex with key `k`.
    pub fn get(&self, k: u64) -> (r: Vec3)
        ensures
            r == self.at(k),
    {
        match position_secondary_get(&self.inner, k) {
            Some(p) => p,
            None => self.default,
        }
    }

    /// Stores `p` as the position of the vertex with key `k`, which must be a
    /// key as slot maps hand them out and whose slot holds no other key.
    pub fn set(&mut self, k: u64, p: Vec3)
        requires
            key_norm(k) == k,
            key_slot(k) != 0xffff_ffff,
            forall|j: u64| key_slot(j) == key_slot(k) && j != k ==> !old(self).values().dom().contains(j),
        ensures
            final(self).values() == old(self).values().insert(k, p),
            final(self).default == old(self).default,
    {
        let ghost before = self.values();
        position_secondary_insert(&mut self.inner, k, p);
        proof {
            let after = self.values();
            assert forall|j: u64| #[trigger] after.dom().contains(j) <==> before.insert(k, p).dom().contains(j) by {
                if key_slot(j) != key_slot(k) {
                    assert(after.get(j) == before.get(j));
                } else if j != k {
                    assert(!before.dom().contains(j));
                }
            }
            assert(after =~= before.insert(k, p)) by {
                assert forall|j: u64| after.dom().contains(j) implies after[j] == before.insert(k, p)[j] by {
                    if key_slot(j) != key_slot(k) {
                        assert(after.get(j) == before.get(j));
                    }
                }
            }
        }
    }
}

} // verus!
