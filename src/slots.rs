use vstd::prelude::*;
use slotmap::{DefaultKey, Key, KeyData, SlotMap};
use crate::node::{Node, NodeId};

verus! {

/// The storage of a tree: a slot map from generation-tagged keys to nodes.
/// The map is a private field; only the functions below read or change it,
/// and `slot_contents` names what it holds.
#[verifier::external_body]
pub struct NodeSlots {
    inner: SlotMap<DefaultKey, Node>,
}

/// What a slot map of nodes holds, by the identifier of each live node.
pub uninterp spec fn slot_contents(m: NodeSlots) -> Map<NodeId, Node>;

/// The map without any node.
pub open spec fn no_nodes() -> Map<NodeId, Node> {
    Map::empty()
}

/// Below this many live values `SlotMap::insert` does not panic: it panics
/// only when no slot is free and `u32::MAX` slots, one of them a sentinel,
/// are in use.
pub const SLOT_CAPACITY: usize = 4294967294;

/// Relies on `SlotMap::new`: an empty slot map.
#[verifier::external_body]
pub(crate) fn slots_new() -> (r: NodeSlots)
    ensures
        slot_contents(r) == no_nodes(),
{
    NodeSlots { inner: SlotMap::new() }
}

/// Relies on `SlotMap::len`: the number of live values.
#[verifier::external_body]
pub(crate) fn slots_len(m: &NodeSlots) -> (r: usize)
    ensures
        r as nat == slot_contents(*m).len(),
{
    m.inner.len()
}

/// Relies on `SlotMap::insert`: the value is stored under a key that was not
/// live before, whose generation is odd (`KeyData::as_ffi` packs the
/// generation above the slot index). It panics only when every one of the
/// `u32::MAX` slots is taken, which `requires` leaves out.
#[verifier::external_body]
pub(crate) fn slots_insert(m: &mut NodeSlots, v: Node) -> (r: NodeId)
    requires
        slot_contents(*old(m)).dom().finite(),
        slot_contents(*old(m)).len() < SLOT_CAPACITY,
    ensures
        !slot_contents(*old(m)).contains_key(r),
        r.is_canonical(),
        slot_contents(*final(m)) == slot_contents(*old(m)).insert(r, v),
{
    NodeId::from_bits(m.inner.insert(v).data().as_ffi())
}

/// Relies on `SlotMap::contains_key`: whether the key is live.
/// `KeyData::from_ffi` gives back the key that `as_ffi` packed, for an
/// identifier with an odd generation.
#[verifier::external_body]
pub(crate) fn slots_contains(m: &NodeSlots, id: NodeId) -> (r: bool)
    requires
        id.is_canonical(),
    ensures
        r == slot_contents(*m).contains_key(id),
{
    m.inner.contains_key(DefaultKey::from(KeyData::from_ffi(id.to_bits())))
}

/// Relies on `SlotMap`'s `Index`: the value stored under a live key.
#[verifier::external_body]
pub(crate) fn slots_index(m: &NodeSlots, id: NodeId) -> (r: &Node)
    requires
        slot_contents(*m).contains_key(id),
    ensures
        *r == slot_contents(*m)[id],
{
    &m.inner[DefaultKey::from(KeyData::from_ffi(id.to_bits()))]
}

/// Relies on `SlotMap`'s `IndexMut`: the value stored under a live key, for
/// writing; the other values stay as they are.
#[verifier::external_body]
pub(crate) fn slots_index_mut(m: &mut NodeSlots, id: NodeId) -> (r: &mut Node)
    requires
        slot_contents(*old(m)).contains_key(id),
    ensures
        *r == slot_contents(*old(m))[id],
        slot_contents(*final(m)) == slot_contents(*old(m)).insert(id, *final(r)),
{
    &mut m.inner[DefaultKey::from(KeyData::from_ffi(id.to_bits()))]
}

/// Relies on `SlotMap::remove`: the value under a live key leaves the map.
#[verifier::external_body]
pub(crate) fn slots_remove(m: &mut NodeSlots, id: NodeId) -> (r: Option<Node>)
    requires
        slot_contents(*old(m)).contains_key(id),
    ensures
        r == Some(slot_contents(*old(m))[id]),
        slot_contents(*final(m)) == slot_contents(*old(m)).remove(id),
{
    m.inner.remove(DefaultKey::from(KeyData::from_ffi(id.to_bits())))
}

} // verus!
