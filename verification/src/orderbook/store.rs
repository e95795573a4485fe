use crate::orderbook::model::Order;
use vstd::prelude::*;

verus! {

/// A resting order as a node of a side's list: the order, and the handles
/// of its neighbours.
#[derive(Debug, Clone, Copy, PartialEq, Eq, Structural)]
pub struct DirectOrder {
    pub order: Order,
    /// The node that comes next in priority, if any.
    pub next: Option<usize>,
    /// The node that comes just before in priority, if any.
    pub prev: Option<usize>,
}

/// Storage of list nodes under integer handles.
pub trait NodeStore: Sized {
    /// The nodes by handle.
    spec fn nodes(&self) -> Map<usize, DirectOrder>;

    /// Validity of the store itself.
    spec fn store_wf(&self) -> bool;

    /// The node under `key`.
    fn node(&self, key: usize) -> (n: DirectOrder)
        requires
            self.store_wf(),
            self.nodes().contains_key(key),
        ensures
            n == self.nodes()[key],
    ;

    /// Replaces the node under `key`.
    fn put(&mut self, key: usize, n: DirectOrder)
        requires
            old(self).store_wf(),
            old(self).nodes().contains_key(key),
        ensures
            final(self).store_wf(),
            final(self).nodes() == old(self).nodes().insert(key, n),
    ;

    /// Stores a node under a handle that was free, and returns the handle.
    fn insert(&mut self, n: DirectOrder) -> (key: usize)
        requires
            old(self).store_wf(),
        ensures
            final(self).store_wf(),
            !old(self).nodes().contains_key(key),
            final(self).nodes() == old(self).nodes().insert(key, n),
    ;

    /// Frees the handle `key` and returns the node that it held.
    fn remove(&mut self, key: usize) -> (n: DirectOrder)
        requires
            old(self).store_wf(),
            old(self).nodes().contains_key(key),
        ensures
            final(self).store_wf(),
            n == old(self).nodes()[key],
            final(self).nodes() == old(self).nodes().remove(key),
    ;
}

/// `slab::Slab`, storage that hands out integer keys. Its inside is not
/// modelled: the name and functions below say what a slab holds and what
/// each method does to it, and the proofs take their word for it.
#[verifier::external_type_specification]
#[verifier::external_body]
#[verifier::reject_recursive_types(T)]
pub struct ExSlab<T>(slab::Slab<T>);

/// The nodes that a slab holds, by key.
pub uninterp spec fn slab_nodes(s: slab::Slab<DirectOrder>) -> Map<usize, DirectOrder>;

/// `Slab::with_capacity`: a slab without values. It allocates room for
/// `capacity` values at once, so `capacity` is kept small.
#[verifier::external_body]
pub(crate) fn slab_new(capacity: usize) -> (s: slab::Slab<DirectOrder>)
    requires
        capacity <= 0x10000,
    ensures
        slab_nodes(s).dom().is_empty(),
{
    slab::Slab::with_capacity(capacity)
}

/// Indexing a `Slab`: the value under `key`. Under a key without a value it
/// panics, so the key must hold one.
#[verifier::external_body]
pub(crate) fn slab_get(s: &slab::Slab<DirectOrder>, key: usize) -> (n: DirectOrder)
    requires
        slab_nodes(*s).contains_key(key),
    ensures
        n == slab_nodes(*s)[key],
{
    s[key]
}

/// Assigning through the index of a `Slab`: the value under `key` is
/// replaced, the others stay. Under a key without a value it panics.
#[verifier::external_body]
pub(crate) fn slab_set(s: &mut slab::Slab<DirectOrder>, key: usize, n: DirectOrder)
    requires
        slab_nodes(*old(s)).contains_key(key),
    ensures
        slab_nodes(*final(s)) == slab_nodes(*old(s)).insert(key, n),
{
    s[key] = n;
}

/// `Slab::insert`: the value is stored under a key that held none, which is
/// returned; the other values stay.
#[verifier::external_body]
pub(crate) fn slab_insert(s: &mut slab::Slab<DirectOrder>, n: DirectOrder) -> (key: usize)
    ensures
        !slab_nodes(*old(s)).contains_key(key),
        slab_nodes(*final(s)) == slab_nodes(*old(s)).insert(key, n),
{
    s.insert(n)
}

/// `Slab::remove`: the value under `key` is taken out and returned, the
/// others stay. Under a key without a value it panics.
#[verifier::external_body]
pub(crate) fn slab_remove(s: &mut slab::Slab<DirectOrder>, key: usize) -> (n: DirectOrder)
    requires
        slab_nodes(*old(s)).contains_key(key),
    ensures
        n == slab_nodes(*old(s))[key],
        slab_nodes(*final(s)) == slab_nodes(*old(s)).remove(key),
{
    s.remove(key)
}

/// Nodes kept in a slab.
pub struct SlabNodes {
    pub slab: slab::Slab<DirectOrder>,
}

impl SlabNodes {
    /// An empty store with room for `capacity` nodes before it grows.
    pub fn new(capacity: usize) -> (s: Self)
        requires
            capacity <= 0x10000,
        ensures
            s.store_wf(),
            s.nodes().dom().is_empty(),
    {
        SlabNodes { slab: slab_new(capacity) }
    }
}

impl NodeStore for SlabNodes {
    open spec fn nodes(&self) -> Map<usize, DirectOrder> {
        slab_nodes(self.slab)
    }

    open spec fn store_wf(&self) -> bool {
        true
    }

    fn node(&self, key: usize) -> (n: DirectOrder) {
        slab_get(&self.slab, key)
    }

    fn put(&mut self, key: usize, n: DirectOrder) {
        slab_set(&mut self.slab, key, n);
    }

    fn insert(&mut self, n: DirectOrder) -> (key: usize) {
        slab_insert(&mut self.slab, n)
    }

    fn remove(&mut self, key: usize) -> (n: DirectOrder) {
        slab_remove(&mut self.slab, key)
    }
}

} // verus!
