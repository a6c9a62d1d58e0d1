//! The outside `roaring::RoaringBitmap` compressed bitmap, made usable from verified code.
use vstd::prelude::*;
use roaring::RoaringBitmap;
use crate::sort::strictly_increasing;

verus! {

#[verifier::external_type_specification]
#[verifier::external_body]
pub struct ExRoaringBitmap(RoaringBitmap);

/// The set of values that a bitmap holds.
pub uninterp spec fn roaring_contents(b: RoaringBitmap) -> Set<u32>;

/// Calls `RoaringBitmap::new`, which "creates an empty `RoaringBitmap`".
#[verifier::external_body]
pub(crate) fn roaring_new() -> (b: RoaringBitmap)
    ensures
        roaring_contents(b) == Set::<u32>::empty(),
{
    RoaringBitmap::new()
}

/// Calls `RoaringBitmap::insert`, which "adds a value to the set" and "returns whether the value
/// was absent from the set".
#[verifier::external_body]
pub(crate) fn roaring_insert(b: &mut RoaringBitmap, value: u32) -> (added: bool)
    ensures
        roaring_contents(*final(b)) == roaring_contents(*old(b)).insert(value),
        added == !roaring_contents(*old(b)).contains(value),
{
    b.insert(value)
}


/// Collects `RoaringBitmap::iter`, the "iterator over each value stored in the RoaringBitmap,
/// [which] guarantees values are ordered by value": the values, each once, in increasing order.
#[verifier::external_body]
pub(crate) fn roaring_values(b: &RoaringBitmap) -> (v: Vec<u32>)
    ensures
        strictly_increasing(v@),
        v@.to_set() == roaring_contents(*b),
{
    b.iter().collect()
}

/// The bytes of the standard Roaring on-disk format for a set of values, as
/// `RoaringBitmap::serialize_into` writes them.
pub uninterp spec fn roaring_bytes(values: Set<u32>) -> Seq<u8>;

/// `data` with `bytes` written over its start, extended where `bytes` is longer.
pub open spec fn overwrite_start(data: Seq<u8>, bytes: Seq<u8>) -> Seq<u8> {
    if bytes.len() >= data.len() { bytes } else { bytes + data.skip(bytes.len() as int) }
}

/// Calls `RoaringBitmap::serialize_into` with a `Cursor` at the start of `data`: the serialized
/// bytes are written over the start of `data`, which grows where they are longer. The contract
/// names the bytes as a function of the bitmap's values (the format has no other input: this
/// version of the crate writes no run containers, and picks array or bitmap containers by
/// cardinality). Writing into a vector cannot fail, so the `io::Result` is unwrapped.
#[verifier::external_body]
pub(crate) fn roaring_serialize_over(b: &RoaringBitmap, data: &mut Vec<u8>)
    ensures
        final(data)@ == overwrite_start(old(data)@, roaring_bytes(roaring_contents(*b))),
{
    b.serialize_into(std::io::Cursor::new(data)).unwrap()
}

/// Calls `&a & &b`, "an intersection between two sets".
#[verifier::external_body]
pub(crate) fn roaring_intersection(a: &RoaringBitmap, b: &RoaringBitmap) -> (r: RoaringBitmap)
    ensures
        roaring_contents(r) == roaring_contents(*a).intersect(roaring_contents(*b)),
{
    a & b
}

/// Calls `a - b` on owned bitmaps, "a difference between two sets".
#[verifier::external_body]
pub(crate) fn roaring_difference(a: RoaringBitmap, b: RoaringBitmap) -> (r: RoaringBitmap)
    ensures
        roaring_contents(r) == roaring_contents(a).difference(roaring_contents(b)),
{
    a - b
}

/// Calls `Extend::extend` with the values of `other`, which inserts each of them.
#[verifier::external_body]
pub(crate) fn roaring_extend(b: &mut RoaringBitmap, other: &RoaringBitmap)
    ensures
        roaring_contents(*final(b)) == roaring_contents(*old(b)).union(roaring_contents(*other)),
{
    b.extend(other)
}

/// Calls `RoaringBitmap::is_empty`: "`true` if there are no integers in this set".
#[verifier::external_body]
pub(crate) fn roaring_is_empty(b: &RoaringBitmap) -> (r: bool)
    ensures
        r == (roaring_contents(*b) == Set::<u32>::empty()),
{
    b.is_empty()
}

/// Calls `RoaringBitmap::len`, "the number of distinct integers added to the set".
#[verifier::external_body]
pub(crate) fn roaring_len(b: &RoaringBitmap) -> (n: u64)
    ensures
        n == roaring_contents(*b).len(),
{
    b.len()
}

/// Calls `RoaringBitmap::clone`: the copy holds the same values.
#[verifier::external_body]
pub(crate) fn roaring_clone(b: &RoaringBitmap) -> (r: RoaringBitmap)
    ensures
        roaring_contents(r) == roaring_contents(*b),
{
    b.clone()
}

} // verus!
