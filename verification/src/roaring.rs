//! Trusted interface to the `croaring` compressed bitmaps.
//!
//! The partition keeps its posting lists in 64-bit `Treemap`s and the
//! series-set converter computes tag transitions in 32-bit `Bitmap`s.
//! Each value is modelled by the set of integers it holds; the wrappers
//! below state, over that model, what the `croaring` operations do.

use vstd::prelude::*;

verus! {

#[verifier::external_type_specification]
#[verifier::external_body]
pub struct ExTreemap(croaring::Treemap);

#[verifier::external_type_specification]
#[verifier::external_body]
pub struct ExBitmap(croaring::Bitmap);

/// The set of 64-bit integers a `Treemap` holds.
pub uninterp spec fn treemap_set(t: croaring::Treemap) -> Set<u64>;

/// The set of 32-bit integers a `Bitmap` holds.
pub uninterp spec fn bitmap_set(b: croaring::Bitmap) -> Set<u32>;

/// Relies on `croaring::Treemap::new`: creates an empty map.
#[verifier::external_body]
pub fn treemap_new() -> (t: croaring::Treemap)
    ensures
        treemap_set(t) == Set::<u64>::empty(),
        treemap_set(t).finite(),
{
    croaring::Treemap::new()
}

/// Relies on `croaring::Treemap::add`: inserts one value.
#[verifier::external_body]
pub fn treemap_add(t: &mut croaring::Treemap, value: u64)
    ensures
        treemap_set(*final(t)) == treemap_set(*old(t)).insert(value),
        treemap_set(*old(t)).finite() ==> treemap_set(*final(t)).finite(),
{
    t.add(value);
}

/// Relies on `<croaring::Treemap as Clone>::clone`: the copy holds the
/// same values.
#[verifier::external_body]
pub fn treemap_clone(t: &croaring::Treemap) -> (r: croaring::Treemap)
    ensures
        treemap_set(r) == treemap_set(*t),
{
    t.clone()
}

/// Relies on `croaring::Treemap::and`: set intersection.
#[verifier::external_body]
pub fn treemap_and(a: &croaring::Treemap, b: &croaring::Treemap) -> (r: croaring::Treemap)
    ensures
        treemap_set(r) == treemap_set(*a).intersect(treemap_set(*b)),
        treemap_set(*a).finite() ==> treemap_set(r).finite(),
{
    a.and(b)
}

/// Relies on `croaring::Treemap::or`: set union.
#[verifier::external_body]
pub fn treemap_or(a: &croaring::Treemap, b: &croaring::Treemap) -> (r: croaring::Treemap)
    ensures
        treemap_set(r) == treemap_set(*a).union(treemap_set(*b)),
        treemap_set(*a).finite() && treemap_set(*b).finite() ==> treemap_set(r).finite(),
{
    a.or(b)
}

/// Relies on `croaring::Treemap::to_vec`: the held values in ascending
/// order.
#[verifier::external_body]
pub fn treemap_to_vec(t: &croaring::Treemap) -> (v: Vec<u64>)
    ensures
        forall|i: int, j: int| 0 <= i < j < v@.len() ==> v@[i] < v@[j],
        forall|i: int| 0 <= i < v@.len() ==> treemap_set(*t).contains(v@[i]),
        forall|x: u64| treemap_set(*t).contains(x) ==> v@.contains(x),
    {
    t.to_vec()
}

/// Relies on `croaring::Bitmap::new`: creates an empty bitmap.
#[verifier::external_body]
pub fn bitmap_new() -> (b: croaring::Bitmap)
    ensures
        bitmap_set(b) == Set::<u32>::empty(),
        bitmap_set(b).finite(),
{
    croaring::Bitmap::new()
}

/// Relies on `croaring::Bitmap::add`: inserts one value.
#[verifier::external_body]
pub fn bitmap_add(b: &mut croaring::Bitmap, value: u32)
    ensures
        bitmap_set(*final(b)) == bitmap_set(*old(b)).insert(value),
        bitmap_set(*old(b)).finite() ==> bitmap_set(*final(b)).finite(),
{
    b.add(value);
}

/// Relies on `croaring::Bitmap::or_inplace`: set union in place.
#[verifier::external_body]
pub fn bitmap_or_inplace(b: &mut croaring::Bitmap, other: &croaring::Bitmap)
    ensures
        bitmap_set(*final(b)) == bitmap_set(*old(b)).union(bitmap_set(*other)),
        bitmap_set(*old(b)).finite() && bitmap_set(*other).finite() ==> bitmap_set(
            *final(b),
        ).finite(),
{
    b.or_inplace(other);
}

/// Relies on `croaring::Bitmap::to_vec`: the held values in ascending
/// order.
#[verifier::external_body]
pub fn bitmap_to_vec(b: &croaring::Bitmap) -> (v: Vec<u32>)
    ensures
        forall|i: int, j: int| 0 <= i < j < v@.len() ==> v@[i] < v@[j],
        forall|i: int| 0 <= i < v@.len() ==> bitmap_set(*b).contains(v@[i]),
        forall|x: u32| bitmap_set(*b).contains(x) ==> v@.contains(x),
{
    b.to_vec()
}

} // verus!
