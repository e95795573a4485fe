use crate::api::types::{OrderAction, OrderId, Price};
use vstd::prelude::*;

verus! {

/// `ahash::AHashMap`, a hash map with a fast hasher. Its inside is not
/// modelled: the names and functions below say what a map holds and what
/// each method does to it, and the proofs take their word for it.
#[verifier::external_type_specification]
#[verifier::external_body]
#[verifier::reject_recursive_types(K)]
#[verifier::reject_recursive_types(V)]
#[verifier::reject_recursive_types(S)]
pub struct ExAHashMap<K, V, S>(ahash::AHashMap<K, V, S>);

/// `ahash::RandomState`, the hasher state of an `AHashMap`.
#[verifier::external_type_specification]
#[verifier::external_body]
pub struct ExRandomState(ahash::RandomState);

/// What an order-id index holds: for each id the price and side at which the
/// order is kept.
pub uninterp spec fn spots(m: ahash::AHashMap<OrderId, (Price, OrderAction)>) -> Map<
    OrderId,
    (Price, OrderAction),
>;

/// `AHashMap::new`: a map without entries.
#[verifier::external_body]
pub(crate) fn spots_new() -> (m: ahash::AHashMap<OrderId, (Price, OrderAction)>)
    ensures
        spots(m).dom().is_empty(),
{
    ahash::AHashMap::new()
}

/// `AHashMap::get`: the value kept under `id`, if there is one.
#[verifier::external_body]
pub(crate) fn spots_get(m: &ahash::AHashMap<OrderId, (Price, OrderAction)>, id: OrderId) -> (r:
    Option<(Price, OrderAction)>)
    ensures
        r == if spots(*m).contains_key(id) {
            Some(spots(*m)[id])
        } else {
            None
        },
{
    m.get(&id).copied()
}

/// `AHashMap::insert`: `id` is then kept with `spot`, the other entries stay.
#[verifier::external_body]
pub(crate) fn spots_insert(
    m: &mut ahash::AHashMap<OrderId, (Price, OrderAction)>,
    id: OrderId,
    spot: (Price, OrderAction),
)
    ensures
        spots(*final(m)) == spots(*old(m)).insert(id, spot),
{
    m.insert(id, spot);
}

/// `AHashMap::remove`: `id` is then absent, the other entries stay.
#[verifier::external_body]
pub(crate) fn spots_remove(m: &mut ahash::AHashMap<OrderId, (Price, OrderAction)>, id: OrderId)
    ensures
        spots(*final(m)) == spots(*old(m)).remove(id),
{
    m.remove(&id);
}

/// What a handle index holds: for each order id the handle of its node.
pub uninterp spec fn handles(m: ahash::AHashMap<OrderId, usize>) -> Map<OrderId, usize>;

/// `AHashMap::new`: a map without entries.
#[verifier::external_body]
pub(crate) fn handles_new() -> (m: ahash::AHashMap<OrderId, usize>)
    ensures
        handles(m).dom().is_empty(),
{
    ahash::AHashMap::new()
}

/// `AHashMap::get`: the handle kept under `id`, if there is one.
#[verifier::external_body]
pub(crate) fn handles_get(m: &ahash::AHashMap<OrderId, usize>, id: OrderId) -> (r: Option<usize>)
    ensures
        r == if handles(*m).contains_key(id) {
            Some(handles(*m)[id])
        } else {
            None
        },
{
    m.get(&id).copied()
}

/// `AHashMap::insert`: `id` is then kept with `key`, the other entries stay.
#[verifier::external_body]
pub(crate) fn handles_insert(m: &mut ahash::AHashMap<OrderId, usize>, id: OrderId, key: usize)
    ensures
        handles(*final(m)) == handles(*old(m)).insert(id, key),
{
    m.insert(id, key);
}

/// `Clone` of an `AHashMap`: a map of the same entries.
#[verifier::external_body]
pub(crate) fn handles_clone(m: &ahash::AHashMap<OrderId, usize>) -> (c: ahash::AHashMap<
    OrderId,
    usize,
>)
    ensures
        handles(c) == handles(*m),
{
    m.clone()
}

/// `AHashMap::remove`: `id` is then absent, the other entries stay.
#[verifier::external_body]
pub(crate) fn handles_remove(m: &mut ahash::AHashMap<OrderId, usize>, id: OrderId)
    ensures
        handles(*final(m)) == handles(*old(m)).remove(id),
{
    m.remove(&id);
}

/// Takes every id of `ids` out of the index.
pub fn spots_forget(m: &mut ahash::AHashMap<OrderId, (Price, OrderAction)>, ids: &Vec<OrderId>)
    ensures
        spots(*final(m)) == spots(*old(m)).remove_keys(ids@.to_set()),
{
    let n: usize = ids.len();
    let mut i: usize = 0;
    proof {
        assert(ids@.subrange(0, 0).to_set() =~= Set::<OrderId>::empty());
        assert(spots(*m) =~= spots(*old(m)).remove_keys(ids@.subrange(0, 0).to_set()));
    }
    while i < n
        invariant
            i <= n,
            n == ids@.len(),
            spots(*m) == spots(*old(m)).remove_keys(ids@.subrange(0, i as int).to_set()),
        decreases n - i,
    {
        let ghost before = spots(*m);
        spots_remove(m, ids[i]);
        proof {
            let done = ids@.subrange(0, i as int);
            let next = ids@.subrange(0, i + 1);
            assert(next =~= done.push(ids@[i as int]));
            assert(next.to_set() =~= done.to_set().insert(ids@[i as int])) by {
                assert forall|x: OrderId| next.to_set().contains(x) <==> done.to_set().insert(
                    ids@[i as int],
                ).contains(x) by {
                    if next.contains(x) {
                        let k = choose|k: int| 0 <= k < next.len() && next[k] == x;
                        if k < i {
                            assert(done[k] == x);
                        }
                    }
                    if done.contains(x) {
                        let k = choose|k: int| 0 <= k < done.len() && done[k] == x;
                        assert(next[k] == x);
                    }
                    assert(next[i as int] == ids@[i as int]);
                }
            }
            assert(spots(*m) =~= spots(*old(m)).remove_keys(next.to_set()));
        }
        i = i + 1;
    }
    proof {
        assert(ids@.subrange(0, n as int) =~= ids@);
    }
}

} // verus!
