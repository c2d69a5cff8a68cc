use vstd::prelude::*;

use frame_support::traits::ConstU32;
use frame_support::BoundedVec;

verus! {

/// The most kitties that one owner may hold.
pub const MAX_KITTY: u32 = 5;

/// The type-level bound of an owner's holdings, `frame_support`'s `ConstU32`.
#[verifier::external_type_specification]
#[verifier::external_body]
pub struct ExConstU32<const T: u32>(ConstU32<T>);

/// `frame_support`'s `BoundedVec`: a list that refuses to grow past its bound.
#[verifier::external_type_specification]
#[verifier::external_body]
#[verifier::reject_recursive_types(T)]
#[verifier::reject_recursive_types(S)]
pub struct ExBoundedVec<T, S>(BoundedVec<T, S>);

/// The identifiers held in a bounded list, in order.
pub uninterp spec fn bounded_items(v: BoundedVec<Vec<u8>, ConstU32<MAX_KITTY>>) -> Seq<Seq<u8>>;

/// Relies on `BoundedVec::new`: the list starts empty.
#[verifier::external_body]
pub(crate) fn bounded_new() -> (r: BoundedVec<Vec<u8>, ConstU32<MAX_KITTY>>)
    ensures
        bounded_items(r) == Seq::<Seq<u8>>::empty(),
{
    BoundedVec::new()
}

/// Relies on `BoundedVec::len` (through `Deref` to the inner `Vec`): the
/// number of items.
#[verifier::external_body]
pub(crate) fn bounded_len(v: &BoundedVec<Vec<u8>, ConstU32<MAX_KITTY>>) -> (r: usize)
    ensures
        r == bounded_items(*v).len(),
{
    v.len()
}

/// Relies on indexing through `Deref` to the inner `Vec`: the item at `i`.
#[verifier::external_body]
pub(crate) fn bounded_get(v: &BoundedVec<Vec<u8>, ConstU32<MAX_KITTY>>, i: usize) -> (r: &Vec<u8>)
    requires
        i < bounded_items(*v).len(),
    ensures
        r@ == bounded_items(*v)[i as int],
{
    &v[i]
}

/// Relies on `BoundedVec::try_push`: below the bound the item is appended,
/// at the bound nothing changes and the item comes back.
#[verifier::external_body]
pub(crate) fn bounded_try_push(
    v: &mut BoundedVec<Vec<u8>, ConstU32<MAX_KITTY>>,
    x: Vec<u8>,
) -> (r: Result<(), Vec<u8>>)
    ensures
        bounded_items(*old(v)).len() < MAX_KITTY ==> r is Ok && bounded_items(*final(v))
            == bounded_items(*old(v)).push(x@),
        bounded_items(*old(v)).len() >= MAX_KITTY ==> r is Err && bounded_items(*final(v))
            == bounded_items(*old(v)),
{
    v.try_push(x)
}

/// Relies on `BoundedVec::remove`, which is `Vec::remove`: the item at `i`
/// leaves and the later ones move down.
#[verifier::external_body]
pub(crate) fn bounded_remove(v: &mut BoundedVec<Vec<u8>, ConstU32<MAX_KITTY>>, i: usize) -> (r: Vec<u8>)
    requires
        i < bounded_items(*old(v)).len(),
    ensures
        r@ == bounded_items(*old(v))[i as int],
        bounded_items(*final(v)) == bounded_items(*old(v)).remove(i as int),
{
    v.remove(i)
}

} // verus!
