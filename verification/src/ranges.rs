//! Conversion between sets of code points and ranges of characters.
use vstd::prelude::*;
use core::ops::RangeInclusive;
use roaring::RoaringBitmap;
use crate::roaring_bitmap::{roaring_contents, roaring_new, roaring_insert, roaring_values};
use crate::sort::strictly_increasing;
use crate::text::is_scalar;

verus! {

/// Calls `RangeInclusive::start`, which "returns the lower bound of the range".
#[verifier::external_body]
pub(crate) fn range_start(r: &RangeInclusive<char>) -> (c: char)
    ensures
        c == r@.start,
{
    *r.start()
}

/// Calls `RangeInclusive::end`, which "returns the upper bound of the range".
#[verifier::external_body]
pub(crate) fn range_end(r: &RangeInclusive<char>) -> (c: char)
    ensures
        c == r@.end,
{
    *r.end()
}

/// Calls `RangeInclusive::is_empty`, which is true "if the range contains no items": when the
/// lower bound is above the upper bound, and after iteration has finished.
#[verifier::external_body]
fn range_is_empty(r: &RangeInclusive<char>) -> (b: bool)
    ensures
        b == (r@.exhausted || (r@.start as int) > (r@.end as int)),
{
    r.is_empty()
}

/// The characters that a range yields: the scalar values from its start to its end, none once it
/// is exhausted.
pub open spec fn in_range(r: RangeInclusive<char>, x: int) -> bool {
    !r@.exhausted && r@.start as int <= x <= r@.end as int && is_scalar(x)
}

/// The code points of all characters in the ranges.
pub fn encode_range(ranges: &[RangeInclusive<char>]) -> (b: RoaringBitmap)
    ensures
        forall|x: u32| roaring_contents(b).contains(x)
            <==> exists|k: int| 0 <= k < ranges@.len() && #[trigger] in_range(ranges@[k], x as int),
{
    let mut bitmap = roaring_new();
    let mut k: usize = 0;
    while k < ranges.len()
        invariant
            k <= ranges@.len(),
            forall|x: u32| roaring_contents(bitmap).contains(x)
                <==> exists|q: int| 0 <= q < k && #[trigger] in_range(ranges@[q], x as int),
        decreases ranges@.len() - k,
    {
        let range = &ranges[k];
        let ghost before = roaring_contents(bitmap);
        if !range_is_empty(range) {
            let start = crate::text::char_code(range_start(range));
            let end = crate::text::char_code(range_end(range));
            let mut x: u32 = start;
            while x <= end
                invariant
                    start <= x,
                    end as int == range@.end as int,
                    start as int == range@.start as int,
                    !range@.exhausted,
                    x <= end + 1,
                    end <= 0x10FFFF,
                    forall|y: u32| #[trigger] roaring_contents(bitmap).contains(y)
                        <==> (before.contains(y) || (start <= y < x && is_scalar(y as int))),
                decreases end + 1 - x,
            {
                let ghost mid = roaring_contents(bitmap);
                if x < 0xD800 || (0xE000 <= x && x <= 0x10FFFF) {
                    roaring_insert(&mut bitmap, x);
                    proof {
                        assert(is_scalar(x as int));
                        assert forall|y: u32| roaring_contents(bitmap).contains(y)
                            <==> (before.contains(y) || (start <= y < x + 1 && is_scalar(y as int))) by {
                            assert(roaring_contents(bitmap).contains(y) == (mid.contains(y) || y == x));
                        }
                    }
                } else {
                    proof {
                        assert(!is_scalar(x as int));
                        assert forall|y: u32| roaring_contents(bitmap).contains(y)
                            <==> (before.contains(y) || (start <= y < x + 1 && is_scalar(y as int))) by {
                            assert(roaring_contents(bitmap).contains(y) == mid.contains(y));
                        }
                    }
                }
                x = x + 1;
            }
        }
        assert forall|x: u32| roaring_contents(bitmap).contains(x)
            <==> exists|q: int| 0 <= q < k + 1 && #[trigger] in_range(ranges@[q], x as int) by {
            if roaring_contents(bitmap).contains(x) && !before.contains(x) {
                assert(in_range(ranges@[k as int], x as int));
            }
            if before.contains(x) {
                let q = choose|q: int| 0 <= q < k && #[trigger] in_range(ranges@[q], x as int);
                assert(0 <= q < k + 1 && in_range(ranges@[q], x as int));
            }
            if in_range(ranges@[k as int], x as int) {
                assert(0 <= k < k + 1);
            }
            if exists|q: int| 0 <= q < k + 1 && #[trigger] in_range(ranges@[q], x as int) {
                let q = choose|q: int| 0 <= q < k + 1 && #[trigger] in_range(ranges@[q], x as int);
                if q < k {
                    assert(before.contains(x));
                }
            }
        }
        k = k + 1;
    }
    bitmap
}

/// Some range of `r` holds `x`.
pub open spec fn covers(r: Seq<RangeInclusive<char>>, x: int) -> bool {
    exists|k: int| 0 <= k < r.len() && (#[trigger] r[k])@.start as int <= x <= r[k]@.end as int
}

/// `r` is a list of ranges in increasing order, each nonempty and not exhausted, with a gap of at
/// least one code point between any two consecutive ones.
pub open spec fn separated_ranges(r: Seq<RangeInclusive<char>>) -> bool {
    &&& forall|k: int| 0 <= k < r.len() ==> !(#[trigger] r[k])@.exhausted && r[k]@.start as int <= r[k]@.end as int
    &&& forall|k: int| 0 <= k < r.len() - 1 ==> (#[trigger] r[k])@.end as int + 1 < r[k + 1]@.start as int
}

/// The code points that `decode_range` accepts: scalar values, and nothing above `U+D7FF` when
/// `U+D7FF` is present (the character after it does not exist).
pub open spec fn decodable_set(s: Set<u32>) -> bool {
    &&& forall|x: u32| s.contains(x) ==> is_scalar(x as int)
    &&& s.contains(0xD7FF) ==> forall|x: u32| s.contains(x) ==> x <= 0xD7FF
}

/// The maximal runs of consecutive code points of the bitmap, as character ranges in increasing
/// order.
pub fn decode_range(bitmap: &RoaringBitmap) -> (ranges: Vec<RangeInclusive<char>>)
    requires
        decodable_set(roaring_contents(*bitmap)),
    ensures
        separated_ranges(ranges@),
        forall|x: u32| roaring_contents(*bitmap).contains(x) <==> #[trigger] covers(ranges@, x as int),
{
    let values = roaring_values(bitmap);
    let ghost set = roaring_contents(*bitmap);
    let mut range_start: Option<char> = None;
    let mut range_last: char = '\u{fffff}';
    let mut ranges: Vec<RangeInclusive<char>> = Vec::new();
    let mut i: usize = 0;
    while i < values.len()
        invariant
            i <= values@.len(),
            strictly_increasing(values@),
            values@.to_set() == set,
            decodable_set(set),
            separated_ranges(ranges@),
            i == 0 ==> range_start is None && ranges@.len() == 0,
            i > 0 ==> range_start is Some,
            range_start matches Some(cs) ==> {
                &&& range_last as int == values@[i - 1] as int
                &&& cs as int <= range_last as int
                &&& ranges@.len() > 0 ==> ranges@.last()@.end as int + 1 < cs as int
                &&& forall|x: u32| #[trigger] values@.take(i as int).contains(x)
                    <==> (covers(ranges@, x as int) || (cs as int <= x <= range_last as int))
            },
        decreases values@.len() - i,
    {
        let v = values[i];
        assert(values@.to_set().contains(v));
        let ch = core::char::from_u32(v).unwrap();
        let ch_code = crate::text::char_code(ch);
        assert(ch_code as int == v as int);
        let ghost prev = values@.take(i as int);
        assert(values@.take(i + 1) == prev.push(v));
        match range_start {
            Some(start) => {
                let last_code = crate::text::char_code(range_last);
                proof {
                    assert(values@[i - 1] < v);
                    if last_code == 0xD7FF {
                        assert(set.contains(values@[i - 1]));
                    }
                }
                let next = core::char::from_u32(last_code + 1).unwrap();
                let next_code = crate::text::char_code(next);
                assert(next_code as int == last_code + 1);
                if next != ch {
                    let ghost old_ranges = ranges@;
                    ranges.push(RangeInclusive::new(start, range_last));
                    range_start = Some(ch);
                    proof {
                        assert(next as int != ch as int);
                        assert forall|x: u32| #[trigger] values@.take(i + 1).contains(x)
                            <==> (covers(ranges@, x as int) || (ch as int <= x <= ch as int)) by {
                            if covers(ranges@, x as int) {
                                let k = choose|k: int| 0 <= k < ranges@.len() && (#[trigger] ranges@[k])@.start as int <= x as int <= ranges@[k]@.end as int;
                                if k < old_ranges.len() {
                                    assert(ranges@[k] == old_ranges[k]);
                                    assert(covers(old_ranges, x as int));
                                }
                            }
                            if covers(old_ranges, x as int) {
                                let k = choose|k: int| 0 <= k < old_ranges.len() && (#[trigger] old_ranges[k])@.start as int <= x as int <= old_ranges[k]@.end as int;
                                assert(ranges@[k] == old_ranges[k]);
                            }
                            if start as int <= x <= range_last as int {
                                assert(ranges@[old_ranges.len() as int]@.start == start && ranges@[old_ranges.len() as int]@.end == range_last);
                            }
                            crate::sort::lemma_push_contains(prev, v, x);
                            assert(prev.contains(x) <==> (covers(old_ranges, x as int) || (start as int <= x <= range_last as int)));
                        }
                    }
                } else {
                    proof {
                        assert(ch as int == next as int);
                        assert forall|x: u32| #[trigger] values@.take(i + 1).contains(x)
                            <==> (covers(ranges@, x as int) || (start as int <= x <= ch as int)) by {
                            crate::sort::lemma_push_contains(prev, v, x);
                            assert(prev.contains(x) <==> (covers(ranges@, x as int) || (start as int <= x <= range_last as int)));
                        }
                    }
                }
            },
            None => {
                range_start = Some(ch);
                proof {
                    assert forall|x: u32| #[trigger] values@.take(i + 1).contains(x)
                        <==> (covers(ranges@, x as int) || (ch as int <= x <= ch as int)) by {
                        crate::sort::lemma_push_contains(prev, v, x);
                    }
                }
            },
        }
        range_last = ch;
        i = i + 1;
    }
    assert(values@.take(values@.len() as int) == values@);
    match range_start {
        Some(start) => {
            let ghost old_ranges = ranges@;
            ranges.push(RangeInclusive::new(start, range_last));
            proof {
                assert forall|x: u32| set.contains(x) <==> #[trigger] covers(ranges@, x as int) by {
                    assert(values@.to_set().contains(x) == values@.contains(x));
                    if covers(ranges@, x as int) {
                        let k = choose|k: int| 0 <= k < ranges@.len() && (#[trigger] ranges@[k])@.start as int <= x as int <= ranges@[k]@.end as int;
                        if k < old_ranges.len() {
                            assert(ranges@[k] == old_ranges[k]);
                            assert(covers(old_ranges, x as int));
                        }
                    }
                    if covers(old_ranges, x as int) {
                        let k = choose|k: int| 0 <= k < old_ranges.len() && (#[trigger] old_ranges[k])@.start as int <= x as int <= old_ranges[k]@.end as int;
                        assert(ranges@[k] == old_ranges[k]);
                    }
                    if start as int <= x <= range_last as int {
                        assert(ranges@[old_ranges.len() as int]@.start == start && ranges@[old_ranges.len() as int]@.end == range_last);
                    }
                }
            }
        },
        None => {
            proof {
                assert forall|x: u32| set.contains(x) <==> #[trigger] covers(ranges@, x as int) by {
                    assert(values@.to_set().contains(x) == values@.contains(x));
                }
            }
        },
    }
    ranges
}

/// Encoding the ranges that `decode_range` gives for a set yields that set again: a code point
/// lies in one of the ranges exactly when it was in the set.
pub proof fn law_encode_inverts_decode(set: Set<u32>, ranges: Seq<RangeInclusive<char>>, encoded: Set<u32>)
    requires
        decodable_set(set),
        separated_ranges(ranges),
        forall|x: u32| set.contains(x) <==> #[trigger] covers(ranges, x as int),
        forall|x: u32| encoded.contains(x)
            <==> exists|k: int| 0 <= k < ranges.len() && #[trigger] in_range(ranges[k], x as int),
    ensures
        encoded == set,
{
    assert forall|x: u32| encoded.contains(x) == set.contains(x) by {
        if set.contains(x) {
            assert(covers(ranges, x as int));
            let k = choose|k: int| 0 <= k < ranges.len() && (#[trigger] ranges[k])@.start as int <= x as int <= ranges[k]@.end as int;
            assert(in_range(ranges[k], x as int));
        }
        if encoded.contains(x) {
            let k = choose|k: int| 0 <= k < ranges.len() && #[trigger] in_range(ranges[k], x as int);
            assert(covers(ranges, x as int));
        }
    }
    assert(encoded =~= set);
}

} // verus!
