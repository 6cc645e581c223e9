//! Channels: data attached to the elements of a mesh. The library keeps the
//! boolean channels, which hold the named groups of vertices, faces and
//! half-edges; each is a `slotmap::SecondaryMap` with a default value.
use vstd::prelude::*;

use core::marker::PhantomData;
use slotmap::{DefaultKey, KeyData, SecondaryMap};

use crate::halfedge::{key_norm, key_slot, FaceId, HalfEdgeId, VertexId};

verus! {

/// The element types that channels can be keyed by.
#[derive(Clone, Copy, PartialEq, Eq, Hash, Debug, PartialOrd, Ord, Structural)]
pub enum ChannelKeyType {
    VertexId,
    FaceId,
    HalfEdgeId,
}

/// The value types that channels can hold.
#[derive(Clone, Copy, PartialEq, Eq, Hash, Debug, PartialOrd, Ord, Structural)]
pub enum ChannelValueType {
    Vec3,
    /// 32-bit floating point scalars.
    F32,
    Bool,
}

/// The key of a channel: the id type of the element it attaches data to.
pub trait ChannelKey: Sized {
    fn key_type() -> ChannelKeyType;

    fn name() -> &'static str;

    fn cast_from_ffi(x: u64) -> Self;
}

impl ChannelKey for VertexId {
    fn key_type() -> (r: ChannelKeyType)
        ensures
            r == ChannelKeyType::VertexId,
    {
        ChannelKeyType::VertexId
    }

    fn name() -> (r: &'static str)
        ensures
            r@ == "VertexId"@,
    {
        "VertexId"
    }

    fn cast_from_ffi(x: u64) -> (r: Self)
        ensures
            r == VertexId(x),
    {
        VertexId(x)
    }
}

impl ChannelKey for FaceId {
    fn key_type() -> (r: ChannelKeyType)
        ensures
            r == ChannelKeyType::FaceId,
    {
        ChannelKeyType::FaceId
    }

    fn name() -> (r: &'static str)
        ensures
            r@ == "FaceId"@,
    {
        "FaceId"
    }

    fn cast_from_ffi(x: u64) -> (r: Self)
        ensures
            r == FaceId(x),
    {
        FaceId(x)
    }
}

impl ChannelKey for HalfEdgeId {
    fn key_type() -> (r: ChannelKeyType)
        ensures
            r == ChannelKeyType::HalfEdgeId,
    {
        ChannelKeyType::HalfEdgeId
    }

    fn name() -> (r: &'static str)
        ensures
            r@ == "HalfEdgeId"@,
    {
        "HalfEdgeId"
    }

    fn cast_from_ffi(x: u64) -> (r: Self)
        ensures
            r == HalfEdgeId(x),
    {
        HalfEdgeId(x)
    }
}

/// A text rendering of a channel value, for the geometry spreadsheet.
pub trait Introspect {
    fn introspect(&self) -> String;
}

/// `format!("{: >6.3}", b)`: the word cut to three letters, right-aligned in
/// six columns.
pub open spec fn introspect_bool(b: bool) -> Seq<char> {
    if b {
        seq![' ', ' ', ' ', 't', 'r', 'u']
    } else {
        seq![' ', ' ', ' ', 'f', 'a', 'l']
    }
}

impl Introspect for bool {
    fn introspect(&self) -> (r: String)
        ensures
            r@ == introspect_bool(*self),
    {
        let mut s = String::new();
        crate::text::push_char(&mut s, ' ');
        crate::text::push_char(&mut s, ' ');
        crate::text::push_char(&mut s, ' ');
        if *self {
            crate::text::push_char(&mut s, 't');
            crate::text::push_char(&mut s, 'r');
            crate::text::push_char(&mut s, 'u');
        } else {
            crate::text::push_char(&mut s, 'f');
            crate::text::push_char(&mut s, 'a');
            crate::text::push_char(&mut s, 'l');
        }
        assert(s@ =~= introspect_bool(*self));
        s
    }
}

/// The value held by a channel.
pub trait ChannelValue: Sized {
    fn value_type() -> ChannelValueType;

    fn name() -> &'static str;
}

impl ChannelValue for bool {
    fn value_type() -> (r: ChannelValueType)
        ensures
            r == ChannelValueType::Bool,
    {
        ChannelValueType::Bool
    }

    fn name() -> (r: &'static str)
        ensures
            r@ == "bool"@,
    {
        "bool"
    }
}

/// The id of a channel inside its group: the 64-bit form of a slot map key.
#[derive(Clone, Copy, Debug, PartialEq, Eq, Hash, Structural)]
pub struct RawChannelId(pub u64);

/// A channel id that also records the key and value types of the channel.
pub struct ChannelId<K, V> {
    pub raw: RawChannelId,
    pub _phantom: PhantomData<(K, V)>,
}

impl<K, V> ChannelId<K, V> {
    pub fn new(raw: RawChannelId) -> (r: Self)
        ensures
            r.raw == raw,
    {
        ChannelId { raw, _phantom: PhantomData }
    }
}

/// A `slotmap::SecondaryMap<DefaultKey, bool>`, held privately.
#[verifier::external_body]
pub struct BoolSecondary {
    inner: SecondaryMap<DefaultKey, bool>,
}

/// The entries of a boolean secondary map, by 64-bit key (`KeyData::as_ffi`).
pub uninterp spec fn bool_secondary(m: BoolSecondary) -> Map<u64, bool>;

/// `SecondaryMap::new`: an empty map.
#[verifier::external_body]
fn bool_secondary_new() -> (r: BoolSecondary)
    ensures
        forall|k: u64| !bool_secondary(r).dom().contains(k),
{
    BoolSecondary { inner: SecondaryMap::new() }
}

/// `SecondaryMap::get` with the key `KeyData::from_ffi(k)`: the entry stored
/// under exactly that key (slot and version), if any.
#[verifier::external_body]
fn bool_secondary_get(m: &BoolSecondary, k: u64) -> (r: Option<bool>)
    ensures
        r == bool_secondary(*m).get(key_norm(k)),
{
    m.inner.get(DefaultKey::from(KeyData::from_ffi(k))).copied()
}

/// `SecondaryMap::insert` with the key `KeyData::from_ffi(k)`. It returns the
/// value that was stored under that key. When the key is not the null key
/// and its slot holds nothing, or holds this very key, the key ends up
/// mapped to `v`. When the slot holds a newer version, or the key is the
/// null key, nothing changes; otherwise the key ends up mapped to `v` and
/// the other entries of its slot are gone. Entries of other slots never
/// change.
#[verifier::external_body]
fn bool_secondary_insert(m: &mut BoolSecondary, k: u64, v: bool) -> (r: Option<bool>)
    ensures
        r == bool_secondary(*old(m)).get(key_norm(k)),
        forall|j: u64|
            key_slot(j) != key_slot(k) ==> bool_secondary(*final(m)).get(j) == bool_secondary(
                *old(m),
            ).get(j),
        bool_secondary(*final(m)).get(key_norm(k)) == Some(v) || (bool_secondary(*final(m))
            == bool_secondary(*old(m)) && !bool_secondary(*old(m)).dom().contains(key_norm(k))),
        key_slot(k) != 0xffff_ffff && (forall|j: u64|
            key_slot(j) == key_slot(k) && j != key_norm(k) ==> !bool_secondary(*old(m)).dom().contains(j))
            ==> bool_secondary(*final(m)).get(key_norm(k)) == Some(v),
        forall|j: u64|
            key_slot(j) == key_slot(k) && j != key_norm(k) && bool_secondary(
                *final(m),
            ).dom().contains(j) ==> bool_secondary(*old(m)).dom().contains(j),
{
    m.inner.insert(DefaultKey::from(KeyData::from_ffi(k)), v)
}

/// A boolean channel: a value for each element, `default` where none was
/// set.
pub struct BoolChannel {
    inner: BoolSecondary,
    default: bool,
}

/// Mathematical model of a [`BoolChannel`].
pub struct BoolChannelView {
    pub values: Map<u64, bool>,
    pub default: bool,
}

impl BoolChannelView {
    /// The value of the channel at the element with key `k`.
    pub open spec fn at(self, k: u64) -> bool {
        match self.values.get(key_norm(k)) {
            Some(b) => b,
            None => self.default,
        }
    }
}

impl View for BoolChannel {
    type V = BoolChannelView;

    closed spec fn view(&self) -> BoolChannelView {
        BoolChannelView { values: bool_secondary(self.inner), default: self.default }
    }
}

impl BoolChannel {
    /// A channel where every element holds `default`.
    pub fn new_with_default(default: bool) -> (r: BoolChannel)
        ensures
            r@.default == default,
            forall|k: u64| !r@.values.dom().contains(k),
    {
        BoolChannel { inner: bool_secondary_new(), default }
    }

    /// The value at the element with key `k`.
    pub fn get(&self, k: u64) -> (r: bool)
        ensures
            r == self@.at(k),
    {
        match bool_secondary_get(&self.inner, k) {
            Some(b) => b,
            None => self.default,
        }
    }

    /// Stores `v` at the element with key `k`.
    pub fn set(&mut self, k: u64, v: bool)
        ensures
            final(self)@.default == old(self)@.default,
            forall|j: u64|
                key_slot(j) != key_slot(k) ==> final(self)@.values.get(j) == old(self)@.values.get(j),
            final(self)@.values.get(key_norm(k)) == Some(v) || final(self)@.values == old(self)@.values,
            key_slot(k) != 0xffff_ffff && (forall|j: u64|
                key_slot(j) == key_slot(k) && j != key_norm(k) ==> !old(self)@.values.dom().contains(j))
                ==> final(self)@.values.get(key_norm(k)) == Some(v),
            forall|j: u64|
                key_slot(j) == key_slot(k) && j != key_norm(k) && final(self)@.values.dom().contains(j)
                    ==> old(self)@.values.dom().contains(j),
    {
        bool_secondary_insert(&mut self.inner, k, v);
    }
}

/// Why a channel operation failed.
#[derive(Debug, PartialEq, Eq)]
pub enum ChannelError {
    /// A channel with this name exists already.
    AlreadyExists(String),
    /// No channel has this name.
    NotFound(String),
    /// The channel is being written and cannot be read.
    Borrowed(String),
}

/// The named boolean channels of one element type.
pub struct ChannelGroup {
    names: Vec<String>,
    channels: Vec<BoolChannel>,
}

/// The index of the channel named `name` among `names`, if any.
pub open spec fn name_index(names: Seq<Seq<char>>, name: Seq<char>) -> Option<int> {
    if exists|i: int| 0 <= i < names.len() && names[i] == name {
        Some(choose|i: int| 0 <= i < names.len() && names[i] == name)
    } else {
        None
    }
}

impl ChannelGroup {
    /// The names of the channels, in creation order.
    pub closed spec fn names(&self) -> Seq<Seq<char>> {
        self.names@.map_values(|s: String| s@)
    }

    /// The channels, in creation order.
    pub closed spec fn channels(&self) -> Seq<BoolChannelView> {
        self.channels@.map_values(|c: BoolChannel| c@)
    }

    /// One channel per name, and no name twice.
    pub closed spec fn well_formed(&self) -> bool {
        &&& self.names@.len() == self.channels@.len()
        &&& self.names().no_duplicates()
    }

    /// The channel named `name`, if there is one.
    pub open spec fn channel_by_name(&self, name: Seq<char>) -> Option<BoolChannelView> {
        match name_index(self.names(), name) {
            Some(i) => Some(self.channels()[i]),
            None => None,
        }
    }

    /// A group with no channels.
    pub fn new() -> (r: ChannelGroup)
        ensures
            r.well_formed(),
            r.names() == Seq::<Seq<char>>::empty(),
            forall|name: Seq<char>| r.channel_by_name(name) is None,
    {
        let r = ChannelGroup { names: Vec::new(), channels: Vec::new() };
        assert(r.names() =~= Seq::<Seq<char>>::empty());
        r
    }

    /// The position of the channel named `name`, if any.
    pub fn channel_id(&self, name: &str) -> (r: Option<usize>)
        requires
            self.well_formed(),
        ensures
            match r {
                Some(i) => name_index(self.names(), name@) == Some(i as int),
                None => name_index(self.names(), name@) is None,
            },
            self.channels().len() == self.names().len(),
            r matches Some(i) ==> i < self.channels().len(),
    {
        let target = String::from_str(name);
        let mut i: usize = 0;
        while i < self.names.len()
            invariant
                self.well_formed(),
                target@ == name@,
                i <= self.names@.len(),
                forall|j: int| 0 <= j < i ==> self.names()[j] != name@,
            decreases self.names@.len() - i,
        {
            if self.names[i] == target {
                proof {
                    assert(self.names()[i as int] == name@);
                    let k = choose|k: int| 0 <= k < self.names().len() && self.names()[k] == name@;
                    if k != i {
                        assert(self.names().no_duplicates());
                    }
                }
                return Some(i);
            }
            i += 1;
        }
        None
    }

    /// Creates a channel named `name` whose default value is `false`; fails
    /// when the name is taken.
    pub fn create_channel(&mut self, name: &str) -> (r: Result<usize, ChannelError>)
        requires
            old(self).well_formed(),
        ensures
            final(self).well_formed(),
            match r {
                Ok(i) => {
                    &&& name_index(old(self).names(), name@) is None
                    &&& i == old(self).names().len()
                    &&& final(self).names() == old(self).names().push(name@)
                    &&& final(self).channels().len() == old(self).channels().len() + 1
                    &&& final(self).channels().subrange(0, i as int) == old(self).channels()
                    &&& final(self).channels()[i as int].default == false
                    &&& forall|k: u64| !final(self).channels()[i as int].values.dom().contains(k)
                },
                Err(e) => {
                    &&& name_index(old(self).names(), name@) is Some
                    &&& e matches ChannelError::AlreadyExists(n) && n@ == name@
                    &&& final(self).names() == old(self).names()
                    &&& final(self).channels() == old(self).channels()
                },
            },
    {
        match self.channel_id(name) {
            Some(_) => Err(ChannelError::AlreadyExists(String::from_str(name))),
            None => {
                let i = self.names.len();
                let ghost old_names = self.names();
                let ghost old_channels = self.channels();
                self.names.push(String::from_str(name));
                self.channels.push(BoolChannel::new_with_default(false));
                proof {
                    assert(self.names() =~= old_names.push(name@));
                    assert(self.channels().subrange(0, i as int) =~= old_channels);
                    assert forall|a: int, b: int|
                        0 <= a < self.names().len() && 0 <= b < self.names().len() && a != b
                        implies self.names()[a] != self.names()[b] by {
                        if a < i && b < i {
                            assert(old_names.no_duplicates());
                        } else if a == i && b < i {
                            assert(old_names[b] != name@);
                        } else if b == i && a < i {
                            assert(old_names[a] != name@);
                        }
                    }
                }
                Ok(i)
            },
        }
    }

    /// The value of channel `ch` at the element with key `k`.
    pub fn read(&self, ch: usize, k: u64) -> (r: bool)
        requires
            self.well_formed(),
            ch < self.channels().len(),
        ensures
            r == self.channels()[ch as int].at(k),
    {
        self.channels[ch].get(k)
    }

    /// Stores `v` in channel `ch` at the element with key `k`.
    pub fn write(&mut self, ch: usize, k: u64, v: bool)
        requires
            old(self).well_formed(),
            ch < old(self).channels().len(),
        ensures
            final(self).well_formed(),
            final(self).names() == old(self).names(),
            final(self).channels().len() == old(self).channels().len(),
            forall|i: int|
                0 <= i < old(self).channels().len() && i != ch ==> final(self).channels()[i]
                    == old(self).channels()[i],
            final(self).channels()[ch as int].default == old(self).channels()[ch as int].default,
            forall|j: u64|
                key_slot(j) != key_slot(k) ==> final(self).channels()[ch as int].values.get(j)
                    == old(self).channels()[ch as int].values.get(j),
            final(self).channels()[ch as int].values.get(key_norm(k)) == Some(v)
                || final(self).channels()[ch as int].values == old(self).channels()[ch as int].values,
            key_slot(k) != 0xffff_ffff && (forall|j: u64|
                key_slot(j) == key_slot(k) && j != key_norm(k) ==> !old(self).channels()[ch as int].values.dom().contains(j))
                ==> final(self).channels()[ch as int].values.get(key_norm(k)) == Some(v),
            forall|j: u64|
                key_slot(j) == key_slot(k) && j != key_norm(k) && final(self).channels()[ch as int].values.dom().contains(j)
                    ==> old(self).channels()[ch as int].values.dom().contains(j),
    {
        let ghost old_channels = self.channels();
        let mut c = self.channels.remove(ch);
        c.set(k, v);
        self.channels.insert(ch, c);
        proof {
            assert forall|i: int| 0 <= i < old_channels.len() && i != ch implies self.channels()[i]
                == old_channels[i] by {}
        }
    }
}

} // verus!
