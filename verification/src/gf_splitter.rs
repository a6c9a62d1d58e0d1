//! Splitting a font along the predefined subsets: high priority subsets first, then whole
//! groups, then single subsets while they are worth it, and the code points left over in
//! blocks of limited size.
use vstd::prelude::*;
use std::sync::Arc;
use roaring::RoaringBitmap;
use crate::character_set::CharacterSet;
use crate::roaring_bitmap::{
    roaring_contents, roaring_new, roaring_insert, roaring_values, roaring_intersection, roaring_difference,
    roaring_extend, roaring_is_empty, roaring_len, roaring_clone,
};
use crate::subset_data::{WebfontData, WebfontSubset, WebfontSubsetGroup, subset_view};
use crate::text::{decimal, push_decimal, push_str, string_from_chars};

verus! {

/// The thresholds of the splitter. A ratio `(n, d)` stands for `n / d`.
pub struct TuningParameters {
    /// A subset with fewer new code points than this is rejected.
    pub reject_subset_threshold: usize,
    /// A subset with at least this many new code points is accepted.
    pub accept_subset_count_threshold: usize,
    /// A subset whose share of new code points that the font has is at least this is accepted.
    pub accept_subset_ratio: (u64, u64),
    /// A group whose average share is at least this is accepted.
    pub accept_group_ratio: (u64, u64),
    /// A high priority subset whose share is above this is taken first.
    pub high_priority_ratio: (u64, u64),
    /// The subsets that are taken first.
    pub high_priority_subsets: Vec<String>,
    /// The largest block of left over code points.
    pub residual_class_max_size: usize,
}

/// `t` holds the default thresholds.
pub open spec fn is_default_tuning(t: TuningParameters) -> bool {
    &&& t.reject_subset_threshold == 20
    &&& t.accept_subset_count_threshold == 20
    &&& t.accept_subset_ratio == (1u64, 10u64)
    &&& t.accept_group_ratio == (1u64, 4u64)
    &&& t.high_priority_ratio == (1u64, 4u64)
    &&& name_views(t.high_priority_subsets@) == seq!["latin"@, "latin-ext"@]
    &&& t.residual_class_max_size == 200
}

/// The default thresholds: reject below 20 new code points; accept at 20 new code points or a
/// share of 1/10; accept groups at an average share of 1/4; take `latin` and `latin-ext` first
/// above a share of 1/4; blocks of at most 200 left over code points.
pub fn default_tuning() -> (t: TuningParameters)
    ensures
        is_default_tuning(t),
{
    let mut high: Vec<String> = Vec::new();
    high.push(String::from_str("latin"));
    high.push(String::from_str("latin-ext"));
    let t = TuningParameters {
        reject_subset_threshold: 20,
        accept_subset_count_threshold: 20,
        accept_subset_ratio: (1, 10),
        accept_group_ratio: (1, 4),
        high_priority_ratio: (1, 4),
        high_priority_subsets: high,
        residual_class_max_size: 200,
    };
    proof {
        reveal_strlit("latin");
        reveal_strlit("latin-ext");
        assert(name_views(t.high_priority_subsets@) =~= seq!["latin"@, "latin-ext"@]);
    }
    t
}

/// The state of a split, as plain values: the code points served so far, the names of the
/// subsets and groups handled so far, the number of left over blocks made, whether the preload
/// code points were placed, and the subsets made, in order, by name.
pub type GfState = (Set<u32>, Set<Seq<char>>, Set<Seq<char>>, nat, bool, Seq<(Seq<char>, Set<u32>)>);

/// The code points of `map` that the font has and that are not served yet.
pub open spec fn fresh(avail: Set<u32>, served: Set<u32>, map: Set<u32>) -> Set<u32> {
    avail.intersect(map).difference(served)
}

/// Handles the subset `name` with code points `map`: a subset handled before is skipped. Else
/// the code points of it that the font has and that are not served yet make a new subset,
/// unless they are fewer than the reject threshold (and rejecting is allowed). The first subset
/// made also takes the preload code points, and its name gets `+pl` where that adds any.
pub open spec fn apply_subset(
    reject: int,
    avail: Set<u32>,
    preload: Set<u32>,
    st: GfState,
    name: Seq<char>,
    map: Set<u32>,
    never_reject: bool,
) -> GfState {
    if st.1.contains(name) {
        st
    } else {
        let done = st.1.insert(name);
        let bits = fresh(avail, st.0, map);
        if never_reject || bits.len() >= reject {
            if !st.4 {
                if !preload.subset_of(bits) {
                    let merged = bits.union(preload);
                    (st.0.union(merged), done, st.2, st.3, true, st.5.push((name + "+pl"@, merged)))
                } else {
                    (st.0.union(bits), done, st.2, st.3, true, st.5.push((name, bits)))
                }
            } else {
                (st.0.union(bits), done, st.2, st.3, st.4, st.5.push((name, bits)))
            }
        } else {
            (st.0, done, st.2, st.3, st.4, st.5)
        }
    }
}

/// A list of names as plain values.
pub open spec fn name_views(v: Seq<String>) -> Seq<Seq<char>> {
    v.map_values(|s: String| s@)
}

/// The names of a list, as a set.
pub open spec fn name_set(v: Seq<String>) -> Set<Seq<char>> {
    name_views(v).to_set()
}

/// The subsets made, as plain values.
pub open spec fn made_view(v: Seq<(String, RoaringBitmap)>) -> Seq<(Seq<char>, Set<u32>)> {
    v.map_values(|e: (String, RoaringBitmap)| (e.0@, roaring_contents(e.1)))
}

/// The new code points of a subset: those of `map` not served yet.
pub open spec fn open_count(served: Set<u32>, map: Set<u32>) -> nat {
    map.difference(served).len()
}

/// The new code points of a subset that the font has.
pub open spec fn shown_count(avail: Set<u32>, served: Set<u32>, map: Set<u32>) -> nat {
    fresh(avail, served, map).len()
}

/// The share of the new code points of a subset that the font has, as a fraction; 0 (as 0/1)
/// where the subset has no new code points.
pub open spec fn share_of(avail: Set<u32>, served: Set<u32>, map: Set<u32>) -> (int, int) {
    if open_count(served, map) == 0 {
        (0, 1)
    } else {
        (shown_count(avail, served, map) as int, open_count(served, map) as int)
    }
}

/// The fraction `a` is at most the fraction `b` (both with positive denominators).
pub open spec fn share_le(a: (int, int), b: (int, int)) -> bool {
    a.0 * b.1 <= b.0 * a.1
}

/// The fraction `a` is at least the threshold `t`.
pub open spec fn share_reaches(a: (int, int), t: (u64, u64)) -> bool {
    a.0 * t.1 >= t.0 * a.1
}

/// The fraction `a` is above the threshold `t`.
pub open spec fn share_exceeds(a: (int, int), t: (u64, u64)) -> bool {
    a.0 * t.1 > t.0 * a.1
}

/// A list of subsets as plain values.
pub open spec fn subsets_view(v: Seq<Arc<WebfontSubset>>) -> Seq<(Seq<char>, Set<u32>)> {
    v.map_values(|x: Arc<WebfontSubset>| subset_view(x))
}

/// Among the first `k` subsets not handled yet, the last one with the largest share.
pub open spec fn best_by_share(avail: Set<u32>, served: Set<u32>, done: Set<Seq<char>>,
    subs: Seq<(Seq<char>, Set<u32>)>, k: nat) -> Option<int>
    decreases k,
{
    if k == 0 {
        None
    } else {
        let prev = best_by_share(avail, served, done, subs, (k - 1) as nat);
        let i = k - 1;
        if done.contains(subs[i].0) {
            prev
        } else {
            match prev {
                None => Some(i),
                Some(b) => if share_le(share_of(avail, served, subs[b].1), share_of(avail, served, subs[i].1)) {
                    Some(i)
                } else {
                    prev
                },
            }
        }
    }
}

/// Among the first `k` subsets not handled yet, the last one with the most new code points that
/// the font has.
pub open spec fn best_by_count(avail: Set<u32>, served: Set<u32>, done: Set<Seq<char>>,
    subs: Seq<(Seq<char>, Set<u32>)>, k: nat) -> Option<int>
    decreases k,
{
    if k == 0 {
        None
    } else {
        let prev = best_by_count(avail, served, done, subs, (k - 1) as nat);
        let i = k - 1;
        if done.contains(subs[i].0) {
            prev
        } else {
            match prev {
                None => Some(i),
                Some(b) => if shown_count(avail, served, subs[b].1) <= shown_count(avail, served, subs[i].1) {
                    Some(i)
                } else {
                    prev
                },
            }
        }
    }
}

/// The next subset can be chosen without the chooser stopping: either as many subsets as names
/// handled, or some subset not handled yet.
pub open spec fn selectable(st: GfState, subs: Seq<(Seq<char>, Set<u32>)>) -> bool {
    subs.len() == st.1.len() || exists|i: int| 0 <= i < subs.len() && !st.1.contains(#[trigger] subs[i].0)
}

/// The next subset to take: none when there are as many subsets as names handled; else the
/// subset with the largest share where that share reaches the ratio threshold, else the subset
/// with the most new code points the font has where they reach the count threshold, else none.
pub open spec fn next_subset(t: TuningParameters, avail: Set<u32>, st: GfState, subs: Seq<(Seq<char>, Set<u32>)>) -> Option<int> {
    if subs.len() == st.1.len() {
        None
    } else {
        let r = best_by_share(avail, st.0, st.1, subs, subs.len()).unwrap();
        let c = best_by_count(avail, st.0, st.1, subs, subs.len()).unwrap();
        if share_reaches(share_of(avail, st.0, subs[r].1), t.accept_subset_ratio) {
            Some(r)
        } else if shown_count(avail, st.0, subs[c].1) >= t.accept_subset_count_threshold {
            Some(c)
        } else {
            None
        }
    }
}

/// Handles the first `k` subsets of a list, none of them rejected without reason.
pub open spec fn apply_each(reject: int, avail: Set<u32>, preload: Set<u32>, st: GfState,
    subs: Seq<(Seq<char>, Set<u32>)>, k: nat) -> GfState
    decreases k,
{
    if k == 0 || k > subs.len() {
        st
    } else {
        let prev = apply_each(reject, avail, preload, st, subs, (k - 1) as nat);
        apply_subset(reject, avail, preload, prev, subs[k - 1].0, subs[k - 1].1, false)
    }
}

/// Handles a group: a group handled before is skipped; else each of its subsets is handled.
pub open spec fn apply_group(reject: int, avail: Set<u32>, preload: Set<u32>, st: GfState, name: Seq<char>,
    subs: Seq<(Seq<char>, Set<u32>)>) -> GfState {
    if st.2.contains(name) {
        st
    } else {
        apply_each(reject, avail, preload, (st.0, st.1, st.2.insert(name), st.3, st.4, st.5), subs, subs.len())
    }
}

/// The position of the last subset named `name`.
pub open spec fn last_named(all: Seq<(Seq<char>, Set<u32>)>, name: Seq<char>) -> Option<int>
    decreases all.len(),
{
    if all.len() == 0 {
        None
    } else if all.last().0 == name {
        Some(all.len() - 1)
    } else {
        last_named(all.drop_last(), name)
    }
}

/// Takes the high priority subsets among the first `k` names, in turn: each one that exists and
/// whose share is above the high priority threshold is handled.
pub open spec fn high_priority(t: TuningParameters, avail: Set<u32>, preload: Set<u32>,
    all: Seq<(Seq<char>, Set<u32>)>, names: Seq<Seq<char>>, st: GfState, k: nat) -> GfState
    decreases k,
{
    if k == 0 || k > names.len() {
        st
    } else {
        let prev = high_priority(t, avail, preload, all, names, st, (k - 1) as nat);
        match last_named(all, names[k - 1]) {
            None => prev,
            Some(j) => if share_exceeds(share_of(avail, prev.0, all[j].1), t.high_priority_ratio) {
                apply_subset(t.reject_subset_threshold as int, avail, preload, prev, all[j].0, all[j].1, false)
            } else {
                prev
            },
        }
    }
}

proof fn lemma_last_named(all: Seq<(Seq<char>, Set<u32>)>, name: Seq<char>, i: int)
    requires
        0 <= i < all.len(),
        all[i].0 == name,
        forall|j: int| i < j < all.len() ==> (#[trigger] all[j]).0 != name,
    ensures
        last_named(all, name) == Some(i),
    decreases all.len(),
{
    if i < all.len() - 1 {
        lemma_last_named(all.drop_last(), name, i);
    }
}

proof fn lemma_last_named_none(all: Seq<(Seq<char>, Set<u32>)>, name: Seq<char>)
    requires
        forall|j: int| 0 <= j < all.len() ==> (#[trigger] all[j]).0 != name,
    ensures
        last_named(all, name) is None,
    decreases all.len(),
{
    if all.len() > 0 {
        lemma_last_named_none(all.drop_last(), name);
    }
}

/// The best subsets exist exactly when some subset is not handled yet.
proof fn lemma_best_some(avail: Set<u32>, served: Set<u32>, done: Set<Seq<char>>,
    subs: Seq<(Seq<char>, Set<u32>)>, k: nat)
    requires
        k <= subs.len(),
    ensures
        best_by_share(avail, served, done, subs, k) is Some <==> exists|i: int| 0 <= i < k && !done.contains(#[trigger] subs[i].0),
        best_by_count(avail, served, done, subs, k) is Some <==> exists|i: int| 0 <= i < k && !done.contains(#[trigger] subs[i].0),
        best_by_share(avail, served, done, subs, k) matches Some(b) ==> 0 <= b < k,
        best_by_count(avail, served, done, subs, k) matches Some(b) ==> 0 <= b < k,
    decreases k,
{
    if k > 0 {
        lemma_best_some(avail, served, done, subs, (k - 1) as nat);
        if exists|i: int| 0 <= i < k && !done.contains(#[trigger] subs[i].0) {
            let i = choose|i: int| 0 <= i < k && !done.contains(#[trigger] subs[i].0);
            if i < k - 1 {
                assert(exists|q: int| 0 <= q < k - 1 && !done.contains(#[trigger] subs[q].0));
            }
        }
    }
}

/// The first code point of the Unicode block of a character, as `unicode_blocks` finds the block;
/// `None` for a character in no block.
pub uninterp spec fn block_start(c: char) -> Option<u32>;

/// Calls `unicode_blocks::find_unicode_block` and keeps the first code point of the block, which
/// is all that the crate's `PartialEq` for blocks compares. The contract names the result as a
/// function of the character.
#[verifier::external_body]
fn find_block_start(c: char) -> (r: Option<u32>)
    ensures
        r == block_start(c),
{
    match unicode_blocks::find_unicode_block(c) {
        Some(b) => Some(b.start()),
        None => None,
    }
}

/// The block of a code point, by its first code point.
pub open spec fn block_of(v: u32) -> Option<u32> {
    block_start(v as char)
}

/// The code points of a set in increasing order.
pub open spec fn sorted_values(s: Set<u32>) -> Seq<u32> {
    choose|v: Seq<u32>| crate::sort::strictly_increasing(v) && v.to_set() == s
}

/// The sets of a list of bitmaps.
pub open spec fn bitmaps_view(v: Seq<RoaringBitmap>) -> Seq<Set<u32>> {
    v.map_values(|b: RoaringBitmap| roaring_contents(b))
}

/// The code points of each subset of a list.
pub open spec fn maps_of(v: Seq<Arc<WebfontSubset>>) -> Seq<Set<u32>> {
    v.map_values(|x: Arc<WebfontSubset>| roaring_contents(x.map))
}

/// The code points of each subset of each group, group after group.
pub open spec fn group_maps(groups: Seq<Arc<WebfontSubsetGroup>>) -> Seq<Set<u32>>
    decreases groups.len(),
{
    if groups.len() == 0 {
        Seq::empty()
    } else {
        group_maps(groups.drop_last()) + maps_of(groups.last().subsets@)
    }
}

/// The code points of each subset of the data: the ungrouped ones, then those of each group.
pub open spec fn sweep_maps(data: WebfontData) -> Seq<Set<u32>> {
    maps_of(data.subsets@) + group_maps(data.groups@)
}

/// Sweeps `rem` with the first `k` maps: each map that meets more than `min` of the code points
/// left takes them as a transient subset. Gives what is left and the transient subsets.
pub open spec fn sweep(rem: Set<u32>, maps: Seq<Set<u32>>, min: int, k: nat) -> (Set<u32>, Seq<Set<u32>>)
    decreases k,
{
    if k == 0 || k > maps.len() {
        (rem, Seq::empty())
    } else {
        let prev = sweep(rem, maps, min, (k - 1) as nat);
        let u = prev.0.intersect(maps[k - 1]);
        if u.len() > min {
            (prev.0.difference(u), prev.1.push(u))
        } else {
            prev
        }
    }
}

proof fn lemma_sweep_left(rem: Set<u32>, maps: Seq<Set<u32>>, min: int, k: nat)
    ensures
        sweep(rem, maps, min, k).0.subset_of(rem),
    decreases k,
{
    if k > 0 && k <= maps.len() {
        lemma_sweep_left(rem, maps, min, (k - 1) as nat);
    }
}

/// The code point of a scalar value names the character with that code.
proof fn lemma_char_of_code(c: char, v: u32)
    requires
        c as u32 == v,
    ensures
        v as char == c,
{
    crate::text::lemma_char_scalar(c);
    assert((v as char) as u32 == v);
    crate::text::lemma_char_code_injective(v as char, c);
}

/// Where the chunk of increasing code points `vals` that starts at `seed` ends, looking from
/// position `p` on: at the first code point of another block, else after the code point that
/// brings the chunk to `max` (a chunk takes at least the code point after its seed), else at the
/// end.
pub open spec fn chunk_end(vals: Seq<u32>, seed: int, p: int, max: int) -> int
    decreases vals.len() - p,
{
    if p >= vals.len() || block_of(vals[p]) != block_of(vals[seed]) {
        p
    } else if p + 1 - seed >= max {
        p + 1
    } else {
        chunk_end(vals, seed, p + 1, max)
    }
}

pub proof fn lemma_chunk_end_bounds(vals: Seq<u32>, seed: int, p: int, max: int)
    requires
        p <= vals.len(),
    ensures
        p <= chunk_end(vals, seed, p, max) <= vals.len(),
    decreases vals.len() - p,
{
    if p < vals.len() && block_of(vals[p]) == block_of(vals[seed]) && p + 1 - seed < max {
        lemma_chunk_end_bounds(vals, seed, p + 1, max);
    }
}

/// The chunks of the increasing code points `vals` from position `i` on.
pub open spec fn chunks(vals: Seq<u32>, max: int, i: int) -> Seq<Set<u32>>
    decreases vals.len() - i,
{
    if i < 0 || i >= vals.len() {
        Seq::empty()
    } else {
        let e = chunk_end(vals, i, i + 1, max);
        proof {
            lemma_chunk_end_bounds(vals, i, i + 1, max);
        }
        seq![vals.subrange(i, e).to_set()] + chunks(vals, max, e)
    }
}

/// The transient subsets of what is left of a font: the sweep with the data's maps (each map
/// that meets more than half the reject threshold of what is left), then the chunks of what the
/// sweep leaves, in increasing order, by block, of at most `max` code points.
pub open spec fn transient_subsets(t: TuningParameters, rem: Set<u32>, maps: Seq<Set<u32>>) -> Seq<Set<u32>> {
    let sw = sweep(rem, maps, (t.reject_subset_threshold / 2) as int, maps.len());
    sw.1 + chunks(sorted_values(sw.0), t.residual_class_max_size as int, 0)
}

/// Removing the first set after a prefix from a list of bitmaps.
proof fn lemma_view_remove(v: Seq<RoaringBitmap>, i: int, a: Seq<Set<u32>>, b: Seq<Set<u32>>)
    requires
        bitmaps_view(v) == a + b,
        i == a.len(),
        b.len() > 0,
    ensures
        bitmaps_view(v.remove(i)) == a + b.drop_first(),
{
    let w = v.remove(i);
    assert(bitmaps_view(v).len() == v.len());
    assert forall|q: int| 0 <= q < w.len() implies bitmaps_view(w)[q] == (a + b.drop_first())[q] by {
        if q < i {
            assert(w[q] == v[q]);
            assert(bitmaps_view(v)[q] == (a + b)[q]);
        } else {
            assert(w[q] == v[q + 1]);
            assert(bitmaps_view(v)[q + 1] == (a + b)[q + 1]);
        }
    }
    assert(bitmaps_view(w) =~= a + b.drop_first());
}

/// All the code points of a list of sets.
pub open spec fn union_all(s: Seq<Set<u32>>) -> Set<u32>
    decreases s.len(),
{
    if s.len() == 0 {
        Set::empty()
    } else {
        union_all(s.drop_last()).union(s.last())
    }
}

/// No two sets of a list share a code point.
pub open spec fn pairwise_disjoint(s: Seq<Set<u32>>) -> bool {
    forall|i: int, j: int| 0 <= i < j < s.len() ==> (#[trigger] s[i]).disjoint(#[trigger] s[j])
}

/// Every set of a list lies within `outer`.
pub open spec fn all_within(s: Seq<Set<u32>>, outer: Set<u32>) -> bool {
    forall|i: int| 0 <= i < s.len() ==> (#[trigger] s[i]).subset_of(outer)
}

proof fn lemma_union_all_within(s: Seq<Set<u32>>, outer: Set<u32>)
    requires
        all_within(s, outer),
    ensures
        union_all(s).subset_of(outer),
    decreases s.len(),
{
    if s.len() > 0 {
        assert(all_within(s.drop_last(), outer)) by {
            assert forall|i: int| 0 <= i < s.drop_last().len() implies (#[trigger] s.drop_last()[i]).subset_of(outer) by {
                assert(s.drop_last()[i] == s[i]);
            }
        }
        lemma_union_all_within(s.drop_last(), outer);
        assert(s.last() == s[s.len() - 1]);
    }
}

/// A subset is handled once: handling a subset of the same name again changes nothing.
pub proof fn law_subset_handled_once(reject: int, avail: Set<u32>, preload: Set<u32>, st: GfState, name: Seq<char>,
    map: Set<u32>, never_reject: bool, map2: Set<u32>, never_reject2: bool)
    ensures
        apply_subset(reject, avail, preload, apply_subset(reject, avail, preload, st, name, map, never_reject), name,
            map2, never_reject2) == apply_subset(reject, avail, preload, st, name, map, never_reject),
{
    let once = apply_subset(reject, avail, preload, st, name, map, never_reject);
    assert(once.1.contains(name));
}

/// Handling a subset only adds served code points, and the subset it makes, if any, is served.
pub proof fn law_served_grows(reject: int, avail: Set<u32>, preload: Set<u32>, st: GfState, name: Seq<char>,
    map: Set<u32>, never_reject: bool)
    ensures
        st.0.subset_of(apply_subset(reject, avail, preload, st, name, map, never_reject).0),
        apply_subset(reject, avail, preload, st, name, map, never_reject).5.len() <= st.5.len() + 1,
        forall|i: int| st.5.len() <= i < apply_subset(reject, avail, preload, st, name, map, never_reject).5.len()
            ==> (#[trigger] apply_subset(reject, avail, preload, st, name, map, never_reject).5[i]).1.subset_of(
                apply_subset(reject, avail, preload, st, name, map, never_reject).0),
        apply_subset(reject, avail, preload, st, name, map, never_reject).5.take(st.5.len() as int) == st.5,
{
    let r = apply_subset(reject, avail, preload, st, name, map, never_reject);
    assert(r.5.take(st.5.len() as int) =~= st.5);
}

/// The code points of the subsets made, in order.
pub open spec fn made_sets(made: Seq<(Seq<char>, Set<u32>)>) -> Seq<Set<u32>> {
    made.map_values(|p: (Seq<char>, Set<u32>)| p.1)
}

/// A split shares out its code points: the subsets made share no code point, the served code
/// points are those of `base` (what needed no subset) and those of the subsets made, and no
/// subset was made before the preload code points were placed.
pub open spec fn split_partitioned(base: Set<u32>, st: GfState) -> bool {
    &&& pairwise_disjoint(made_sets(st.5))
    &&& st.0 == base.union(union_all(made_sets(st.5)))
    &&& !st.4 ==> st.5.len() == 0
}

proof fn lemma_within_union_all(s: Seq<Set<u32>>, i: int)
    requires
        0 <= i < s.len(),
    ensures
        s[i].subset_of(union_all(s)),
    decreases s.len(),
{
    if i < s.len() - 1 {
        lemma_within_union_all(s.drop_last(), i);
        assert(s.drop_last()[i] == s[i]);
    }
}

/// A split starts shared out (the code points that need no subset served, nothing made), and
/// handling a subset keeps it shared out: the subsets made never overlap, and together with
/// what needed no subset they make up exactly what is served.
pub proof fn law_split_partition(reject: int, avail: Set<u32>, preload: Set<u32>, base: Set<u32>, st: GfState,
    name: Seq<char>, map: Set<u32>, never_reject: bool)
    requires
        split_partitioned(base, st),
    ensures
        split_partitioned(base, (base, Set::<Seq<char>>::empty(), Set::<Seq<char>>::empty(), 0nat, false,
            Seq::<(Seq<char>, Set<u32>)>::empty())),
        split_partitioned(base, apply_subset(reject, avail, preload, st, name, map, never_reject)),
{
    let e = Seq::<(Seq<char>, Set<u32>)>::empty();
    assert(made_sets(e) =~= Seq::<Set<u32>>::empty());
    assert(base.union(union_all(made_sets(e))) =~= base);
    let r = apply_subset(reject, avail, preload, st, name, map, never_reject);
    if r.5.len() > st.5.len() {
        let x = r.5.last().1;
        let old_sets = made_sets(st.5);
        assert(r.5 == st.5.push(r.5.last()));
        assert(made_sets(r.5) =~= old_sets.push(x));
        assert(union_all(made_sets(r.5)) == union_all(old_sets).union(x)) by {
            assert(made_sets(r.5).drop_last() =~= old_sets);
        }
        assert(r.0 =~= base.union(union_all(made_sets(r.5))));
        assert forall|i: int, j: int| 0 <= i < j < made_sets(r.5).len()
            implies (#[trigger] made_sets(r.5)[i]).disjoint(#[trigger] made_sets(r.5)[j]) by {
            if j < old_sets.len() {
                assert(made_sets(r.5)[i] == old_sets[i] && made_sets(r.5)[j] == old_sets[j]);
            } else {
                assert(made_sets(r.5)[i] == old_sets[i]);
                assert(made_sets(r.5)[j] == x);
                lemma_within_union_all(old_sets, i);
                assert(x == fresh(avail, st.0, map));
            }
        }
    }
}

/// The sweep shares what is left out: its transient subsets and what it leaves are pairwise
/// disjoint and together make up what was left.
pub proof fn law_sweep_partition(rem: Set<u32>, maps: Seq<Set<u32>>, min: int, k: nat)
    ensures
        union_all(sweep(rem, maps, min, k).1).union(sweep(rem, maps, min, k).0) == rem,
        pairwise_disjoint(sweep(rem, maps, min, k).1),
        forall|i: int| 0 <= i < sweep(rem, maps, min, k).1.len() ==>
            (#[trigger] sweep(rem, maps, min, k).1[i]).disjoint(sweep(rem, maps, min, k).0),
    decreases k,
{
    if k > 0 && k <= maps.len() {
        law_sweep_partition(rem, maps, min, (k - 1) as nat);
        let prev = sweep(rem, maps, min, (k - 1) as nat);
        let u = prev.0.intersect(maps[k - 1]);
        if u.len() > min {
            let cur = sweep(rem, maps, min, k);
            assert(cur.1 == prev.1.push(u));
            assert(cur.1.drop_last() =~= prev.1);
            assert(union_all(cur.1).union(cur.0) =~= rem);
            assert forall|i: int, j: int| 0 <= i < j < cur.1.len() implies (#[trigger] cur.1[i]).disjoint(#[trigger] cur.1[j]) by {
                if j == cur.1.len() - 1 {
                    assert(prev.1[i].disjoint(prev.0));
                } else {
                    assert(cur.1[i] == prev.1[i] && cur.1[j] == prev.1[j]);
                }
            }
            assert forall|i: int| 0 <= i < cur.1.len() implies (#[trigger] cur.1[i]).disjoint(cur.0) by {
                if i < prev.1.len() {
                    assert(cur.1[i] == prev.1[i]);
                    assert(prev.1[i].disjoint(prev.0));
                }
            }
        }
    }
}

/// The chunks of an increasing list of code points from position `i` on are pairwise disjoint,
/// lie within the code points from `i` on, and together make them up.
pub proof fn law_chunks_partition(vals: Seq<u32>, max: int, i: int)
    requires
        crate::sort::strictly_increasing(vals),
        0 <= i <= vals.len(),
    ensures
        union_all(chunks(vals, max, i)) == vals.skip(i).to_set(),
        pairwise_disjoint(chunks(vals, max, i)),
        all_within(chunks(vals, max, i), vals.skip(i).to_set()),
    decreases vals.len() - i,
{
    if i == vals.len() {
        assert(vals.skip(i) =~= Seq::<u32>::empty());
        assert(union_all(chunks(vals, max, i)) =~= vals.skip(i).to_set());
    } else {
        let e = chunk_end(vals, i, i + 1, max);
        lemma_chunk_end_bounds(vals, i, i + 1, max);
        law_chunks_partition(vals, max, e);
        let head = vals.subrange(i, e).to_set();
        let tail = chunks(vals, max, e);
        let c = chunks(vals, max, i);
        assert(c == seq![head] + tail);
        // the head lies below every code point from `e` on
        assert forall|x: u32| head.contains(x) && vals.skip(e).to_set().contains(x) implies false by {
            let a = choose|a: int| 0 <= a < e - i && vals.subrange(i, e)[a] == x;
            let b = choose|b: int| 0 <= b < vals.len() - e && vals.skip(e)[b] == x;
            assert(vals[i + a] == x && vals[e + b] == x);
        }
        assert forall|x: u32| #[trigger] vals.skip(i).to_set().contains(x) == (head.contains(x) || vals.skip(e).to_set().contains(x)) by {
            if vals.skip(i).to_set().contains(x) {
                let a = choose|a: int| 0 <= a < vals.len() - i && vals.skip(i)[a] == x;
                if i + a < e {
                    assert(vals.subrange(i, e)[a] == x);
                } else {
                    assert(vals.skip(e)[i + a - e] == x);
                }
            }
            if head.contains(x) {
                let a = choose|a: int| 0 <= a < e - i && vals.subrange(i, e)[a] == x;
                assert(vals.skip(i)[a] == x);
            }
            if vals.skip(e).to_set().contains(x) {
                let b = choose|b: int| 0 <= b < vals.len() - e && vals.skip(e)[b] == x;
                assert(vals.skip(i)[e + b - i] == x);
            }
        }
        lemma_union_all_concat_head(head, tail);
        assert(union_all(c) =~= vals.skip(i).to_set());
        assert forall|p: int, q: int| 0 <= p < q < c.len() implies (#[trigger] c[p]).disjoint(#[trigger] c[q]) by {
            if p == 0 {
                assert(c[q] == tail[q - 1]);
                assert(tail[q - 1].subset_of(vals.skip(e).to_set()));
            } else {
                assert(c[p] == tail[p - 1] && c[q] == tail[q - 1]);
            }
        }
        assert forall|p: int| 0 <= p < c.len() implies (#[trigger] c[p]).subset_of(vals.skip(i).to_set()) by {
            if p > 0 {
                assert(c[p] == tail[p - 1]);
                assert(tail[p - 1].subset_of(vals.skip(e).to_set()));
            }
        }
    }
}

proof fn lemma_union_all_concat_head(head: Set<u32>, tail: Seq<Set<u32>>)
    ensures
        union_all(seq![head] + tail) == head.union(union_all(tail)),
    decreases tail.len(),
{
    if tail.len() == 0 {
        let whole = seq![head] + tail;
        assert(whole =~= seq![head]);
        assert(whole.drop_last() =~= Seq::<Set<u32>>::empty());
        assert(whole.last() == head);
        assert(union_all(whole) == union_all(whole.drop_last()).union(whole.last()));
        assert(union_all(whole) =~= head.union(union_all(tail)));
    } else {
        lemma_union_all_concat_head(head, tail.drop_last());
        let whole = seq![head] + tail;
        assert(whole.drop_last() =~= seq![head] + tail.drop_last());
        assert(whole.last() == tail.last());
        assert(union_all(whole) == union_all(whole.drop_last()).union(whole.last()));
        assert(union_all(tail) == union_all(tail.drop_last()).union(tail.last()));
        assert(union_all(whole) =~= head.union(union_all(tail)));
    }
}

/// Makes a left over block: the next `misc` name, never rejected.
pub open spec fn apply_residual(reject: int, avail: Set<u32>, preload: Set<u32>, st: GfState, bits: Set<u32>) -> GfState {
    let m = st.3 + 1;
    apply_subset(reject, avail, preload, (st.0, st.1, st.2, m, st.4, st.5), "misc"@ + decimal(m), bits, true)
}

/// Goes through the first `k` transient subsets: each one of at least `max` code points becomes
/// a left over block at once; the others are kept, in order.
pub open spec fn take_big(reject: int, avail: Set<u32>, preload: Set<u32>, st: GfState, list: Seq<Set<u32>>,
    max: int, k: nat) -> (GfState, Seq<Set<u32>>)
    decreases k,
{
    if k == 0 || k > list.len() {
        (st, Seq::empty())
    } else {
        let prev = take_big(reject, avail, preload, st, list, max, (k - 1) as nat);
        if list[k - 1].len() >= max {
            (apply_residual(reject, avail, preload, prev.0, list[k - 1]), prev.1)
        } else {
            (prev.0, prev.1.push(list[k - 1]))
        }
    }
}

/// One packing pass over the first `k` sets of `list`: each set that still fits (its size plus
/// that of the block so far is at most `max`) joins the block; the others are kept, in order.
pub open spec fn pack(list: Seq<Set<u32>>, max: int, k: nat) -> (Set<u32>, Seq<Set<u32>>)
    decreases k,
{
    if k == 0 || k > list.len() {
        (Set::empty(), Seq::empty())
    } else {
        let prev = pack(list, max, (k - 1) as nat);
        let x = list[k - 1];
        if x.len() + prev.0.len() <= max {
            (prev.0.union(x), prev.1)
        } else {
            (prev.0, prev.1.push(x))
        }
    }
}

/// Packing passes until no set is left (at most `fuel` of them), each pass making a left over
/// block.
pub open spec fn pack_rounds(reject: int, avail: Set<u32>, preload: Set<u32>, st: GfState, list: Seq<Set<u32>>,
    max: int, fuel: nat) -> GfState
    decreases fuel,
{
    if fuel == 0 || list.len() == 0 {
        st
    } else {
        let r = pack(list, max, list.len());
        pack_rounds(reject, avail, preload, apply_residual(reject, avail, preload, st, r.0), r.1, max, (fuel - 1) as nat)
    }
}

/// The left over blocks of a list of transient subsets: the large ones at once, then the
/// others packed.
pub open spec fn residual_blocks(t: TuningParameters, avail: Set<u32>, preload: Set<u32>, st: GfState,
    transient: Seq<Set<u32>>) -> GfState {
    let max = t.residual_class_max_size as int;
    let reject = t.reject_subset_threshold as int;
    let tb = take_big(reject, avail, preload, st, transient, max, transient.len());
    pack_rounds(reject, avail, preload, tb.0, tb.1, max, transient.len())
}

/// Splits what the font has left into left over blocks, where anything is left.
pub open spec fn residual_state(t: TuningParameters, avail: Set<u32>, preload: Set<u32>, st: GfState,
    maps: Seq<Set<u32>>) -> GfState {
    let rem = avail.difference(st.0);
    if rem == Set::<u32>::empty() {
        st
    } else {
        residual_blocks(t, avail, preload, st, transient_subsets(t, rem, maps))
    }
}

/// A split of one font along the predefined subsets.
pub struct SplitterState {
    tuning: TuningParameters,
    available: RoaringBitmap,
    preload: RoaringBitmap,
    fulfilled: RoaringBitmap,
    processed_subsets: Vec<String>,
    processed_groups: Vec<String>,
    misc_idx: usize,
    preload_done: bool,
    output: Vec<(String, RoaringBitmap)>,
}

/// A bitmap of the code points of a set.
fn bitmap_of(s: &CharacterSet) -> (b: RoaringBitmap)
    ensures
        roaring_contents(b) == s@,
{
    let items = s.to_vec();
    let mut b = roaring_new();
    let mut i: usize = 0;
    while i < items.len()
        invariant
            i <= items@.len(),
            roaring_contents(b) == items@.take(i as int).to_set(),
        decreases items@.len() - i,
    {
        roaring_insert(&mut b, items[i]);
        proof {
            crate::sort::lemma_push_to_set(items@.take(i as int), items@[i as int]);
            assert(items@.take(i + 1) =~= items@.take(i as int).push(items@[i as int]));
        }
        i = i + 1;
    }
    proof {
        assert(items@.take(items@.len() as int) =~= items@);
    }
    b
}

/// The product of two `u64`s, which always fits in a `u128`.
fn mul_wide(a: u64, b: u64) -> (r: u128)
    ensures
        r == a * b,
{
    proof {
        assert(a * b <= 0xffff_ffff_ffff_ffffu64 * 0xffff_ffff_ffff_ffffu64) by (nonlinear_arith)
            requires a <= 0xffff_ffff_ffff_ffffu64, b <= 0xffff_ffff_ffff_ffffu64;
    }
    (a as u128) * (b as u128)
}

/// Whether a list of names holds `name`.
fn has_name(names: &Vec<String>, name: &String) -> (r: bool)
    ensures
        r == name_set(names@).contains(name@),
{
    let mut i: usize = 0;
    while i < names.len()
        invariant
            i <= names@.len(),
            forall|q: int| 0 <= q < i ==> (#[trigger] names@[q])@ != name@,
        decreases names@.len() - i,
    {
        if names[i] == *name {
            proof {
                assert(name_views(names@)[i as int] == name@);
            }
            return true;
        }
        i = i + 1;
    }
    proof {
        if name_set(names@).contains(name@) {
            let q = choose|q: int| 0 <= q < names@.len() && #[trigger] name_views(names@)[q] == name@;
            assert(names@[q]@ == name@);
        }
    }
    false
}

/// The maps of the data's subsets, as `sweep_maps` orders them.
fn collect_maps(data: &WebfontData) -> (r: Vec<RoaringBitmap>)
    ensures
        bitmaps_view(r@) == sweep_maps(*data),
{
    let mut r: Vec<RoaringBitmap> = Vec::new();
    let mut i: usize = 0;
    while i < data.subsets.len()
        invariant
            i <= data.subsets@.len(),
            bitmaps_view(r@) == maps_of(data.subsets@).take(i as int),
        decreases data.subsets@.len() - i,
    {
        let ghost prev = r@;
        let b = roaring_clone(&data.subsets[i].map);
        let ghost bv = b;
        r.push(b);
        proof {
            assert(bitmaps_view(prev).len() == prev.len());
            assert(r@ == prev.push(bv));
            let want = maps_of(data.subsets@).take(i + 1);
            assert forall|q: int| 0 <= q < i + 1 implies bitmaps_view(r@)[q] == want[q] by {
                if q < i {
                    assert(r@[q] == prev[q]);
                    assert(bitmaps_view(prev)[q] == maps_of(data.subsets@).take(i as int)[q]);
                }
            }
            assert(bitmaps_view(r@) =~= want);
        }
        i = i + 1;
    }
    proof {
        assert(maps_of(data.subsets@).take(i as int) =~= maps_of(data.subsets@));
    }
    let ghost first = bitmaps_view(r@);
    let mut g: usize = 0;
    proof {
        assert(group_maps(data.groups@.take(0)) =~= Seq::<Set<u32>>::empty());
        assert(first + group_maps(data.groups@.take(0)) =~= first);
    }
    while g < data.groups.len()
        invariant
            g <= data.groups@.len(),
            first == maps_of(data.subsets@),
            bitmaps_view(r@) == first + group_maps(data.groups@.take(g as int)),
        decreases data.groups@.len() - g,
    {
        let group = &data.groups[g];
        let ghost before = bitmaps_view(r@);
        let mut j: usize = 0;
        while j < group.subsets.len()
            invariant
                j <= group.subsets@.len(),
                bitmaps_view(r@) == before + maps_of(group.subsets@).take(j as int),
            decreases group.subsets@.len() - j,
        {
            let ghost prev = r@;
            let b = roaring_clone(&group.subsets[j].map);
            let ghost bv = b;
            r.push(b);
            proof {
                assert(bitmaps_view(prev).len() == prev.len());
                assert(r@ == prev.push(bv));
                let want = before + maps_of(group.subsets@).take(j + 1);
                assert(bitmaps_view(prev) == before + maps_of(group.subsets@).take(j as int));
                assert forall|q: int| 0 <= q < r@.len() implies bitmaps_view(r@)[q] == want[q] by {
                    if q < prev.len() {
                        assert(r@[q] == prev[q]);
                        assert(bitmaps_view(prev)[q] == (before + maps_of(group.subsets@).take(j as int))[q]);
                    }
                }
                assert(bitmaps_view(r@) =~= want);
            }
            j = j + 1;
        }
        proof {
            assert(maps_of(group.subsets@).take(j as int) =~= maps_of(group.subsets@));
            assert(data.groups@.take(g + 1).drop_last() =~= data.groups@.take(g as int));
            assert(bitmaps_view(r@) =~= first + group_maps(data.groups@.take(g + 1)));
        }
        g = g + 1;
    }
    proof {
        assert(data.groups@.take(g as int) =~= data.groups@);
    }
    r
}

impl SplitterState {
    #[verifier::type_invariant]
    closed spec fn wf(&self) -> bool {
        &&& name_views(self.processed_subsets@).no_duplicates()
        &&& name_views(self.processed_groups@).no_duplicates()
    }

    /// The thresholds.
    pub closed spec fn tuning(&self) -> TuningParameters {
        self.tuning
    }

    /// The code points of the font.
    pub closed spec fn available(&self) -> Set<u32> {
        roaring_contents(self.available)
    }

    /// The code points to preload.
    pub closed spec fn preload_set(&self) -> Set<u32> {
        roaring_contents(self.preload)
    }

    /// The state as plain values.
    pub closed spec fn state(&self) -> GfState {
        (
            roaring_contents(self.fulfilled),
            name_set(self.processed_subsets@),
            name_set(self.processed_groups@),
            self.misc_idx as nat,
            self.preload_done,
            made_view(self.output@),
        )
    }

    /// The number of left over blocks made so far.
    pub closed spec fn misc_count(&self) -> nat {
        self.misc_idx as nat
    }

    /// Starts a split of a font with code points `available`: the code points that the plan
    /// does not have it serve count as served already.
    pub fn init(tuning: TuningParameters, available: RoaringBitmap, used: &CharacterSet, preload: &CharacterSet) -> (s: Self)
        ensures
            s.tuning() == tuning,
            s.available() == roaring_contents(available),
            s.preload_set() == preload@,
            s.state() == (roaring_contents(available).difference(used@), Set::<Seq<char>>::empty(),
                Set::<Seq<char>>::empty(), 0nat, false, Seq::<(Seq<char>, Set<u32>)>::empty()),
    {
        let fulfilled = roaring_difference(roaring_clone(&available), bitmap_of(used));
        let s = SplitterState {
            tuning,
            available,
            preload: bitmap_of(preload),
            fulfilled,
            processed_subsets: Vec::new(),
            processed_groups: Vec::new(),
            misc_idx: 0,
            preload_done: false,
            output: Vec::new(),
        };
        proof {
            assert(name_set(s.processed_subsets@) =~= Set::<Seq<char>>::empty());
            assert(name_set(s.processed_groups@) =~= Set::<Seq<char>>::empty());
            assert(made_view(s.output@) =~= Seq::<(Seq<char>, Set<u32>)>::empty());
        }
        s
    }

    /// How many new code points of `map` the font has, and how many new code points `map` has.
    pub fn subset_counts(&self, map: &RoaringBitmap) -> (r: (u64, u64))
        ensures
            r.0 == shown_count(self.available(), self.state().0, roaring_contents(*map)),
            r.1 == open_count(self.state().0, roaring_contents(*map)),
    {
        let shown = roaring_intersection(&self.available, map);
        let present = roaring_len(&roaring_difference(shown, roaring_clone(&self.fulfilled)));
        let open = roaring_len(&roaring_difference(roaring_clone(map), roaring_clone(&self.fulfilled)));
        (present, open)
    }

    /// The code points of the font not served yet.
    pub fn left_over(&self) -> (r: RoaringBitmap)
        ensures
            roaring_contents(r) == self.available().difference(self.state().0),
    {
        roaring_difference(roaring_clone(&self.available), roaring_clone(&self.fulfilled))
    }

    /// The average share at which a group is accepted.
    pub fn group_threshold(&self) -> (r: (u64, u64))
        ensures
            r == self.tuning().accept_group_ratio,
    {
        self.tuning.accept_group_ratio
    }

    /// Whether the group `name` was handled.
    pub fn group_done(&self, name: &String) -> (r: bool)
        ensures
            r == self.state().2.contains(name@),
    {
        has_name(&self.processed_groups, name)
    }

    /// How many groups were handled.
    pub fn groups_done_count(&self) -> (n: usize)
        ensures
            n == self.state().2.len(),
    {
        proof {
            use_type_invariant(self);
            name_views(self.processed_groups@).unique_seq_to_set();
        }
        self.processed_groups.len()
    }

    /// How many subsets were handled.
    pub fn subsets_done_count(&self) -> (n: usize)
        ensures
            n == self.state().1.len(),
    {
        proof {
            use_type_invariant(self);
            name_views(self.processed_subsets@).unique_seq_to_set();
        }
        self.processed_subsets.len()
    }

    /// Handles a group (see `apply_group`).
    pub fn do_subset_group(&mut self, group: &WebfontSubsetGroup)
        ensures
            final(self).state() == apply_group(old(self).tuning().reject_subset_threshold as int,
                old(self).available(), old(self).preload_set(), old(self).state(), group.name@,
                subsets_view(group.subsets@)),
            final(self).tuning() == old(self).tuning(),
            final(self).available() == old(self).available(),
            final(self).preload_set() == old(self).preload_set(),
    {
        proof { use_type_invariant(&*self); }
        if has_name(&self.processed_groups, &group.name) {
            return;
        }
        let mut names: Vec<String> = Vec::new();
        std::mem::swap(&mut names, &mut self.processed_groups);
        names.push(group.name.clone());
        proof {
            let v = name_views(names@);
            let w = name_views(old(self).processed_groups@);
            assert(v =~= w.push(group.name@));
            crate::sort::lemma_push_to_set(w, group.name@);
            assert(!w.contains(group.name@));
            assert(v.no_duplicates()) by {
                assert forall|i: int, j: int| 0 <= i < v.len() && 0 <= j < v.len() && i != j implies v[i] != v[j] by {
                    if i < w.len() && j < w.len() {
                        assert(v[i] == w[i] && v[j] == w[j]);
                    } else if i < w.len() {
                        assert(v[i] == w[i]);
                    } else if j < w.len() {
                        assert(v[j] == w[j]);
                    }
                }
            }
        }
        self.processed_groups = names;
        let ghost st0 = self.state();
        let ghost subs = subsets_view(group.subsets@);
        let ghost reject = self.tuning().reject_subset_threshold as int;
        let mut k: usize = 0;
        while k < group.subsets.len()
            invariant
                k <= group.subsets@.len(),
                subs == subsets_view(group.subsets@),
                reject == self.tuning().reject_subset_threshold as int,
                self.tuning() == old(self).tuning(),
                self.available() == old(self).available(),
                self.preload_set() == old(self).preload_set(),
                self.state() == apply_each(reject, self.available(), self.preload_set(), st0, subs, k as nat),
            decreases group.subsets@.len() - k,
        {
            let sub = &group.subsets[k];
            self.do_subset(&sub.name, &sub.map, false);
            proof {
                assert(subs[k as int] == subset_view(group.subsets@[k as int]));
            }
            k = k + 1;
        }
    }

    /// Chooses the next subset to take (see `next_subset`).
    pub fn select_next_subset(&self, data: &WebfontData) -> (r: Option<Arc<WebfontSubset>>)
        requires
            selectable(self.state(), subsets_view(data.subsets@)),
        ensures
            match next_subset(self.tuning(), self.available(), self.state(), subsets_view(data.subsets@)) {
                Some(i) => r matches Some(x) && 0 <= i < data.subsets@.len() && x == data.subsets@[i],
                None => r is None,
            },
    {
        let ghost subs = subsets_view(data.subsets@);
        let ghost st = self.state();
        let ghost avail = self.available();
        if data.subsets.len() == self.subsets_done_count() {
            return None;
        }
        let mut best_r: Option<usize> = None;
        let mut best_r_share: (u64, u64) = (0, 1);
        let mut best_c: Option<usize> = None;
        let mut best_c_count: u64 = 0;
        let mut i: usize = 0;
        while i < data.subsets.len()
            invariant
                i <= data.subsets@.len(),
                subs == subsets_view(data.subsets@),
                st == self.state(),
                avail == self.available(),
                best_r matches Some(b) ==> b as int == best_by_share(avail, st.0, st.1, subs, i as nat).unwrap()
                    && (best_r_share.0 as int, best_r_share.1 as int) == share_of(avail, st.0, subs[b as int].1),
                best_r is None <==> best_by_share(avail, st.0, st.1, subs, i as nat) is None,
                best_c matches Some(b) ==> b as int == best_by_count(avail, st.0, st.1, subs, i as nat).unwrap()
                    && best_c_count == shown_count(avail, st.0, subs[b as int].1),
                best_c is None <==> best_by_count(avail, st.0, st.1, subs, i as nat) is None,
            decreases data.subsets@.len() - i,
        {
            let sub = &data.subsets[i];
            proof {
                assert(subs[i as int] == subset_view(data.subsets@[i as int]));
            }
            if !has_name(&self.processed_subsets, &sub.name) {
                let (present, open) = self.subset_counts(&sub.map);
                let share: (u64, u64) = if open == 0 { (0, 1) } else { (present, open) };
                let better_share = match best_r {
                    None => true,
                    Some(_) => mul_wide(best_r_share.0, share.1) <= mul_wide(share.0, best_r_share.1),
                };
                if better_share {
                    best_r = Some(i);
                    best_r_share = share;
                }
                let better_count = match best_c {
                    None => true,
                    Some(_) => best_c_count <= present,
                };
                if better_count {
                    best_c = Some(i);
                    best_c_count = present;
                }
            }
            i = i + 1;
        }
        proof {
            lemma_best_some(avail, st.0, st.1, subs, subs.len());
        }
        let r = best_r.unwrap();
        let c = best_c.unwrap();
        let t = &self.tuning.accept_subset_ratio;
        if mul_wide(best_r_share.0, t.1) >= mul_wide(t.0, best_r_share.1) {
            Some(data.subsets[r].clone())
        } else if best_c_count >= self.tuning.accept_subset_count_threshold as u64 {
            Some(data.subsets[c].clone())
        } else {
            None
        }
    }

    /// Takes the high priority subsets (see `high_priority`).
    pub fn check_high_priority(&mut self, data: &WebfontData)
        ensures
            final(self).state() == high_priority(old(self).tuning(), old(self).available(), old(self).preload_set(),
                data.all_view(), name_views(old(self).tuning().high_priority_subsets@), old(self).state(),
                old(self).tuning().high_priority_subsets@.len()),
            final(self).tuning() == old(self).tuning(),
            final(self).available() == old(self).available(),
            final(self).preload_set() == old(self).preload_set(),
    {
        let ghost names = name_views(self.tuning().high_priority_subsets@);
        let n = self.tuning.high_priority_subsets.len();
        let mut k: usize = 0;
        while k < n
            invariant
                k <= n,
                n == self.tuning().high_priority_subsets@.len(),
                names == name_views(self.tuning().high_priority_subsets@),
                self.tuning() == old(self).tuning(),
                self.available() == old(self).available(),
                self.preload_set() == old(self).preload_set(),
                self.state() == high_priority(old(self).tuning(), old(self).available(), old(self).preload_set(),
                    data.all_view(), names, old(self).state(), k as nat),
            decreases n - k,
        {
            let name = self.tuning.high_priority_subsets[k].clone();
            proof {
                assert(names[k as int] == name@);
            }
            match data.by_name(name.as_str()) {
                Some(sub) => {
                    proof {
                        let j = choose|j: int| 0 <= j < data.all_view().len() && data.all_view()[j] == subset_view(sub)
                            && forall|q: int| j < q < data.all_view().len() ==> (#[trigger] data.all_view()[q]).0 != name@;
                        lemma_last_named(data.all_view(), name@, j);
                    }
                    let (present, open) = self.subset_counts(&sub.map);
                    let t = &self.tuning.high_priority_ratio;
                    let (p, s): (u64, u64) = if open == 0 { (0, 1) } else { (present, open) };
                    if mul_wide(p, t.1) > mul_wide(t.0, s) {
                        self.do_subset(&sub.name, &sub.map, false);
                    }
                },
                None => {
                    proof {
                        lemma_last_named_none(data.all_view(), name@);
                    }
                },
            }
            k = k + 1;
        }
    }

    /// The transient subsets of the code points of the font not served yet (see
    /// `transient_subsets`).
    pub fn generate_transient_subsets(&self, data: &WebfontData) -> (r: Vec<RoaringBitmap>)
        requires
            forall|c: u32| #[trigger] self.available().difference(self.state().0).contains(c) ==> crate::text::is_scalar(c as int),
        ensures
            bitmaps_view(r@) == transient_subsets(self.tuning(), self.available().difference(self.state().0),
                sweep_maps(*data)),
    {
        let ghost rem0 = self.available().difference(self.state().0);
        let maps = collect_maps(data);
        let ghost mv = bitmaps_view(maps@);
        let min: usize = self.tuning.reject_subset_threshold / 2;
        let mut remaining = roaring_difference(roaring_clone(&self.available), roaring_clone(&self.fulfilled));
        let mut subsets: Vec<RoaringBitmap> = Vec::new();
        let mut k: usize = 0;
        proof {
            assert(bitmaps_view(subsets@) =~= Seq::<Set<u32>>::empty());
        }
        while k < maps.len()
            invariant
                k <= maps@.len(),
                mv == bitmaps_view(maps@),
                min == self.tuning().reject_subset_threshold / 2,
                (roaring_contents(remaining), bitmaps_view(subsets@)) == sweep(rem0, mv, min as int, k as nat),
            decreases maps@.len() - k,
        {
            let u = roaring_intersection(&remaining, &maps[k]);
            if roaring_len(&u) > min as u64 {
                let ghost uv = roaring_contents(u);
                remaining = roaring_difference(remaining, roaring_clone(&u));
                subsets.push(u);
                proof {
                    assert(bitmaps_view(subsets@) =~= sweep(rem0, mv, min as int, k as nat).1.push(uv));
                }
            }
            k = k + 1;
        }
        let ghost left = roaring_contents(remaining);
        let vals = roaring_values(&remaining);
        proof {
            assert(crate::sort::strictly_increasing(sorted_values(left)) && sorted_values(left).to_set() == left);
            crate::sort::lemma_strictly_increasing_unique(vals@, sorted_values(left));
            lemma_sweep_left(rem0, mv, min as int, maps@.len() as nat);
            assert forall|q: int| 0 <= q < vals@.len() implies crate::text::is_scalar(#[trigger] vals@[q] as int) by {
                assert(vals@.to_set().contains(vals@[q]));
                assert(rem0.contains(vals@[q]));
            }
        }
        let max = self.tuning.residual_class_max_size;
        let ghost sw = bitmaps_view(subsets@);
        let mut i: usize = 0;
        while i < vals.len()
            invariant
                i <= vals@.len(),
                forall|q: int| 0 <= q < vals@.len() ==> crate::text::is_scalar(#[trigger] vals@[q] as int),
                bitmaps_view(subsets@) + chunks(vals@, max as int, i as int) == sw + chunks(vals@, max as int, 0),
            decreases vals@.len() - i,
        {
            let seed = vals[i];
            let seed_char = core::char::from_u32(seed).unwrap();
            proof { lemma_char_of_code(seed_char, seed); }
            let block = find_block_start(seed_char);
            let mut chunk = roaring_new();
            roaring_insert(&mut chunk, seed);
            let mut p: usize = i + 1;
            proof {
                assert(vals@.subrange(i as int, p as int) =~= seq![seed]);
                assert(seq![seed].to_set() =~= Set::<u32>::empty().insert(seed)) by {
                    crate::sort::lemma_push_to_set(Seq::<u32>::empty(), seed);
                    assert(seq![seed] =~= Seq::<u32>::empty().push(seed));
                }
            }
            loop
                invariant_except_break
                    chunk_end(vals@, i as int, i + 1, max as int) == chunk_end(vals@, i as int, p as int, max as int),
                invariant
                    i < p <= vals@.len(),
                    block == block_of(vals@[i as int]),
                    roaring_contents(chunk) == vals@.subrange(i as int, p as int).to_set(),
                    forall|q: int| 0 <= q < vals@.len() ==> crate::text::is_scalar(#[trigger] vals@[q] as int),
                ensures
                    i < p <= vals@.len(),
                    roaring_contents(chunk) == vals@.subrange(i as int, p as int).to_set(),
                    chunk_end(vals@, i as int, i + 1, max as int) == p,
                decreases vals@.len() - p,
            {
                if p >= vals.len() {
                    break;
                }
                let next = vals[p];
                let next_char = core::char::from_u32(next).unwrap();
                proof { lemma_char_of_code(next_char, next); }
                let next_block = find_block_start(next_char);
                if next_block != block {
                    break;
                }
                roaring_insert(&mut chunk, next);
                proof {
                    crate::sort::lemma_push_to_set(vals@.subrange(i as int, p as int), next);
                    assert(vals@.subrange(i as int, p + 1) =~= vals@.subrange(i as int, p as int).push(next));
                }
                p = p + 1;
                if p - i >= max {
                    break;
                }
            }
            proof {
                lemma_chunk_end_bounds(vals@, i as int, i + 1, max as int);
                assert(chunks(vals@, max as int, i as int) == seq![roaring_contents(chunk)] + chunks(vals@, max as int, p as int));
                assert(bitmaps_view(subsets@.push(chunk)) =~= bitmaps_view(subsets@).push(roaring_contents(chunk)));
                assert(bitmaps_view(subsets@).push(roaring_contents(chunk)) + chunks(vals@, max as int, p as int)
                    =~= bitmaps_view(subsets@) + (seq![roaring_contents(chunk)] + chunks(vals@, max as int, p as int)));
            }
            subsets.push(chunk);
            i = p;
        }
        proof {
            assert(chunks(vals@, max as int, i as int) =~= Seq::<Set<u32>>::empty());
            assert(bitmaps_view(subsets@) =~= sw + chunks(vals@, max as int, 0));
            assert(mv == sweep_maps(*data));
        }
        subsets
    }

    /// Whether the next subset can be chosen (see `selectable`).
    pub fn can_select_next(&self, data: &WebfontData) -> (r: bool)
        ensures
            r == selectable(self.state(), subsets_view(data.subsets@)),
    {
        let ghost subs = subsets_view(data.subsets@);
        if data.subsets.len() == self.subsets_done_count() {
            proof {
                assert(subs.len() == data.subsets@.len());
            }
            return true;
        }
        let mut i: usize = 0;
        while i < data.subsets.len()
            invariant
                i <= data.subsets@.len(),
                subs == subsets_view(data.subsets@),
                forall|q: int| 0 <= q < i ==> self.state().1.contains(#[trigger] subs[q].0),
            decreases data.subsets@.len() - i,
        {
            proof {
                assert(subs[i as int] == subset_view(data.subsets@[i as int]));
            }
            if !has_name(&self.processed_subsets, &data.subsets[i].name) {
                proof {
                    assert(!self.state().1.contains(subs[i as int].0));
                }
                return true;
            }
            i = i + 1;
        }
        false
    }

    /// Makes a left over block (see `apply_residual`).
    fn push_residual_block(&mut self, bits: RoaringBitmap)
        requires
            old(self).misc_count() < usize::MAX,
        ensures
            final(self).state() == apply_residual(old(self).tuning().reject_subset_threshold as int,
                old(self).available(), old(self).preload_set(), old(self).state(), roaring_contents(bits)),
            final(self).misc_count() == old(self).misc_count() + 1,
            final(self).tuning() == old(self).tuning(),
            final(self).available() == old(self).available(),
            final(self).preload_set() == old(self).preload_set(),
    {
        proof { use_type_invariant(&*self); }
        self.misc_idx = self.misc_idx + 1;
        let mut name: Vec<char> = Vec::new();
        push_str(&mut name, "misc");
        push_decimal(&mut name, self.misc_idx as u64);
        proof { reveal_strlit("misc"); }
        let name = string_from_chars(&name);
        self.do_subset(&name, &bits, true);
    }

    /// Splits what the font has left into left over blocks (see `residual_blocks`).
    fn generate_residual_blocks(&mut self, data: &WebfontData)
        requires
            old(self).misc_count() == 0,
            forall|c: u32| #[trigger] old(self).available().difference(old(self).state().0).contains(c) ==> crate::text::is_scalar(c as int),
        ensures
            final(self).state() == residual_blocks(old(self).tuning(), old(self).available(), old(self).preload_set(),
                old(self).state(), transient_subsets(old(self).tuning(),
                old(self).available().difference(old(self).state().0), sweep_maps(*data))),
            final(self).tuning() == old(self).tuning(),
            final(self).available() == old(self).available(),
            final(self).preload_set() == old(self).preload_set(),
    {
        let ghost st0 = self.state();
        let ghost avail = self.available();
        let ghost preload = self.preload_set();
        let ghost reject = self.tuning().reject_subset_threshold as int;
        let mut transient = self.generate_transient_subsets(data);
        let ghost tv = bitmaps_view(transient@);
        let n0 = transient.len();
        proof {
            assert(tv.len() == n0);
        }
        let max = self.tuning.residual_class_max_size;
        let ghost maxi = max as int;
        let mut i: usize = 0;
        let ghost mut k: nat = 0;
        proof {
            assert(tv.skip(0) =~= tv);
            assert(Seq::<Set<u32>>::empty() + tv.skip(0) =~= tv);
        }
        while i < transient.len()
            invariant
                k <= tv.len(),
                tv.len() <= usize::MAX,
                maxi == max as int,
                reject == self.tuning().reject_subset_threshold as int,
                avail == self.available(),
                preload == self.preload_set(),
                self.tuning() == old(self).tuning(),
                self.available() == old(self).available(),
                self.preload_set() == old(self).preload_set(),
                bitmaps_view(transient@) == take_big(reject, avail, preload, st0, tv, maxi, k).1 + tv.skip(k as int),
                i == take_big(reject, avail, preload, st0, tv, maxi, k).1.len(),
                i <= k,
                self.state() == take_big(reject, avail, preload, st0, tv, maxi, k).0,
                self.misc_count() + i <= k,
                forall|q: int| 0 <= q < take_big(reject, avail, preload, st0, tv, maxi, k).1.len() ==>
                    (#[trigger] take_big(reject, avail, preload, st0, tv, maxi, k).1[q]).len() < maxi,
            decreases tv.len() - k,
        {
            let ghost tb = take_big(reject, avail, preload, st0, tv, maxi, k);
            proof {
                assert(bitmaps_view(transient@)[i as int] == tv[k as int]);
                assert(tv.skip(k as int) =~= seq![tv[k as int]] + tv.skip(k as int + 1));
            }
            if roaring_len(&transient[i]) >= max as u64 {
                let ghost before = transient@;
                let b = transient.remove(i);
                proof {
                    assert(roaring_contents(b) == tv[k as int]);
                    lemma_view_remove(before, i as int, tb.1, tv.skip(k as int));
                    assert(tv.skip(k as int).drop_first() =~= tv.skip(k as int + 1));
                }
                self.push_residual_block(b);
            } else {
                proof {
                    assert(bitmaps_view(transient@) =~= tb.1.push(tv[k as int]) + tv.skip(k as int + 1));
                }
                i = i + 1;
            }
            proof {
                k = k + 1;
            }
        }
        let ghost tb = take_big(reject, avail, preload, st0, tv, maxi, tv.len());
        proof {
            assert(k == tv.len());
            assert(tv.skip(k as int) =~= Seq::<Set<u32>>::empty());
            assert(bitmaps_view(transient@) =~= tb.1);
        }
        let ghost target = pack_rounds(reject, avail, preload, tb.0, tb.1, maxi, tv.len());
        let ghost mut fuel: nat = tv.len();
        while transient.len() > 0
            invariant
                tv.len() <= usize::MAX,
                maxi == max as int,
                reject == self.tuning().reject_subset_threshold as int,
                avail == self.available(),
                preload == self.preload_set(),
                self.tuning() == old(self).tuning(),
                self.available() == old(self).available(),
                self.preload_set() == old(self).preload_set(),
                pack_rounds(reject, avail, preload, self.state(), bitmaps_view(transient@), maxi, fuel) == target,
                transient@.len() <= fuel,
                self.misc_count() + transient@.len() <= tv.len(),
                forall|q: int| 0 <= q < transient@.len() ==> (#[trigger] bitmaps_view(transient@)[q]).len() < maxi,
            decreases transient@.len(),
        {
            let ghost list = bitmaps_view(transient@);
            let mut block = roaring_new();
            let mut j: usize = 0;
            let ghost mut q: nat = 0;
            proof {
                assert(list.skip(0) =~= list);
                assert(Seq::<Set<u32>>::empty() + list.skip(0) =~= list);
            }
            while j < transient.len()
                invariant
                    q <= list.len(),
                    list.len() > 0,
                    list[0].len() < maxi,
                    maxi == max as int,
                    bitmaps_view(transient@) == pack(list, maxi, q).1 + list.skip(q as int),
                    j == pack(list, maxi, q).1.len(),
                    roaring_contents(block) == pack(list, maxi, q).0,
                    q >= 1 ==> pack(list, maxi, q).1.len() <= q - 1,
                    forall|r: int| 0 <= r < pack(list, maxi, q).1.len() ==>
                        (#[trigger] pack(list, maxi, q).1[r]).len() < maxi,
                    forall|r: int| 0 <= r < list.len() ==> (#[trigger] list[r]).len() < maxi,
                decreases list.len() - q,
            {
                let ghost pk = pack(list, maxi, q);
                proof {
                    assert(bitmaps_view(transient@)[j as int] == list[q as int]);
                    assert(list.skip(q as int) =~= seq![list[q as int]] + list.skip(q as int + 1));
                    if q == 0 {
                        assert(pk.0 =~= Set::<u32>::empty());
                    }
                }
                let size = roaring_len(&transient[j]);
                let have = roaring_len(&block);
                if (size as u128) + (have as u128) <= max as u128 {
                    let ghost before = transient@;
                    let b = transient.remove(j);
                    proof {
                        assert(roaring_contents(b) == list[q as int]);
                        lemma_view_remove(before, j as int, pk.1, list.skip(q as int));
                        assert(list.skip(q as int).drop_first() =~= list.skip(q as int + 1));
                    }
                    roaring_extend(&mut block, &b);
                } else {
                    proof {
                        assert(q > 0);
                        assert(bitmaps_view(transient@) =~= pk.1.push(list[q as int]) + list.skip(q as int + 1));
                    }
                    j = j + 1;
                }
                proof {
                    q = q + 1;
                }
            }
            let ghost r = pack(list, maxi, list.len());
            proof {
                assert(q == list.len());
                assert(list.skip(q as int) =~= Seq::<Set<u32>>::empty());
                assert(bitmaps_view(transient@) =~= r.1);
            }
            self.push_residual_block(block);
            proof {
                fuel = (fuel - 1) as nat;
            }
        }
        proof {
            assert(bitmaps_view(transient@) =~= Seq::<Set<u32>>::empty());
        }
    }

    /// Splits what the font has left into left over blocks, where anything is left (see
    /// `residual_state`). Only the first call makes blocks from a count of zero.
    pub fn split_residual(&mut self, data: &WebfontData)
        requires
            old(self).misc_count() == 0,
            forall|c: u32| #[trigger] old(self).available().difference(old(self).state().0).contains(c) ==> crate::text::is_scalar(c as int),
        ensures
            final(self).state() == residual_state(old(self).tuning(), old(self).available(), old(self).preload_set(),
                old(self).state(), sweep_maps(*data)),
            final(self).tuning() == old(self).tuning(),
            final(self).available() == old(self).available(),
            final(self).preload_set() == old(self).preload_set(),
    {
        let codepoints = roaring_difference(roaring_clone(&self.available), roaring_clone(&self.fulfilled));
        if !roaring_is_empty(&codepoints) {
            self.generate_residual_blocks(data);
        }
    }

    /// The subsets made, in order.
    pub fn subsets_made(&self) -> (r: &Vec<(String, RoaringBitmap)>)
        ensures
            made_view(r@) == self.state().5,
    {
        &self.output
    }

    /// Handles one subset (see `apply_subset`).
    pub fn do_subset(&mut self, name: &String, map: &RoaringBitmap, never_reject: bool)
        ensures
            final(self).state() == apply_subset(old(self).tuning().reject_subset_threshold as int,
                old(self).available(), old(self).preload_set(), old(self).state(), name@, roaring_contents(*map),
                never_reject),
            final(self).tuning() == old(self).tuning(),
            final(self).available() == old(self).available(),
            final(self).preload_set() == old(self).preload_set(),
    {
        proof { use_type_invariant(&*self); }
        if has_name(&self.processed_subsets, name) {
            return;
        }
        let ghost st = self.state();
        let mut names: Vec<String> = Vec::new();
        std::mem::swap(&mut names, &mut self.processed_subsets);
        names.push(name.clone());
        proof {
            let v = name_views(names@);
            let w = name_views(old(self).processed_subsets@);
            assert(v =~= w.push(name@));
            crate::sort::lemma_push_to_set(w, name@);
            assert(!w.contains(name@));
            assert(v.no_duplicates()) by {
                assert forall|i: int, j: int| 0 <= i < v.len() && 0 <= j < v.len() && i != j implies v[i] != v[j] by {
                    if i < w.len() && j < w.len() {
                        assert(v[i] == w[i] && v[j] == w[j]);
                    } else if i < w.len() {
                        assert(v[i] == w[i]);
                    } else if j < w.len() {
                        assert(v[j] == w[j]);
                    }
                }
            }
        }
        self.processed_subsets = names;
        let shown = roaring_intersection(&self.available, map);
        let bits = roaring_difference(shown, roaring_clone(&self.fulfilled));
        let count = roaring_len(&bits);
        if never_reject || count >= self.tuning.reject_subset_threshold as u64 {
            let mut out_name = name.clone();
            let mut out_bits = bits;
            if !self.preload_done {
                let extra = roaring_difference(roaring_clone(&self.preload), roaring_clone(&out_bits));
                if !roaring_is_empty(&extra) {
                    let mut chars: Vec<char> = Vec::new();
                    push_str(&mut chars, name.as_str());
                    push_str(&mut chars, "+pl");
                    out_name = string_from_chars(&chars);
                    roaring_extend(&mut out_bits, &self.preload);
                    proof {
                        reveal_strlit("+pl");
                        assert(!st.4);
                        assert(!self.preload_set().subset_of(fresh(self.available(), st.0, roaring_contents(*map)))) by {
                            assert(!(roaring_contents(extra) =~= Set::<u32>::empty()));
                            let x = choose|x: u32| roaring_contents(extra).contains(x);
                            assert(self.preload_set().contains(x));
                        }
                    }
                } else {
                    proof {
                        assert(self.preload_set().subset_of(fresh(self.available(), st.0, roaring_contents(*map)))) by {
                            assert forall|x: u32| self.preload_set().contains(x) implies
                                fresh(self.available(), st.0, roaring_contents(*map)).contains(x) by {
                                if !fresh(self.available(), st.0, roaring_contents(*map)).contains(x) {
                                    assert(roaring_contents(extra).contains(x));
                                }
                            }
                        }
                    }
                }
                self.preload_done = true;
            }
            let mut served = roaring_new();
            std::mem::swap(&mut served, &mut self.fulfilled);
            roaring_extend(&mut served, &out_bits);
            self.fulfilled = served;
            let ghost ob = roaring_contents(out_bits);
            let ghost on = out_name@;
            let mut made: Vec<(String, RoaringBitmap)> = Vec::new();
            std::mem::swap(&mut made, &mut self.output);
            made.push((out_name, out_bits));
            self.output = made;
            proof {
                assert(made_view(self.output@) =~= made_view(old(self).output@).push((on, ob)));
            }
        }
    }
}

/// Splits fonts along the predefined subsets.
pub struct GfSubsetSplitter;

impl GfSubsetSplitter {
    /// Starts the split of a font with code points `available`, with the default thresholds:
    /// the code points that the plan does not have the font serve count as served already, and
    /// `preload` is to be preloaded.
    pub fn start(&self, available: RoaringBitmap, used: &CharacterSet, preload: &CharacterSet) -> (s: SplitterState)
        ensures
            is_default_tuning(s.tuning()),
            s.available() == roaring_contents(available),
            s.preload_set() == preload@,
            s.state() == (roaring_contents(available).difference(used@), Set::<Seq<char>>::empty(),
                Set::<Seq<char>>::empty(), 0nat, false, Seq::<(Seq<char>, Set<u32>)>::empty()),
    {
        SplitterState::init(default_tuning(), available, used, preload)
    }
}

/// The name of the Unicode block of a character, as `unic-ucd-block` finds the block; `None` for
/// a character in no block.
pub uninterp spec fn unic_block_name(c: char) -> Option<Seq<char>>;

/// Calls `unic_ucd_block::Block::of` and copies out the block's name. The contract names the
/// result as a function of the character.
#[verifier::external_body]
fn find_unic_block_name(c: char) -> (r: Option<String>)
    ensures
        match r {
            Some(n) => unic_block_name(c) == Some(n@),
            None => unic_block_name(c) is None,
        },
{
    match unic_ucd_block::Block::of(c) {
        Some(b) => Some(b.name.to_string()),
        None => None,
    }
}

/// The block name of a code point.
pub open spec fn name_of_block(v: u32) -> Option<Seq<char>> {
    unic_block_name(v as char)
}

/// Where the run of code points of `vals` in the block of `vals[i]` ends, looking from `p` on.
pub open spec fn run_end(vals: Seq<u32>, i: int, p: int) -> int
    decreases vals.len() - p,
{
    if p >= vals.len() || name_of_block(vals[p]) != name_of_block(vals[i]) {
        p
    } else {
        run_end(vals, i, p + 1)
    }
}

pub proof fn lemma_run_end_bounds(vals: Seq<u32>, i: int, p: int)
    requires
        p <= vals.len(),
    ensures
        p <= run_end(vals, i, p) <= vals.len(),
    decreases vals.len() - p,
{
    if p < vals.len() && name_of_block(vals[p]) == name_of_block(vals[i]) {
        lemma_run_end_bounds(vals, i, p + 1);
    }
}

/// The runs of consecutive code points of `vals` from position `i` on that lie in one block.
pub open spec fn block_runs(vals: Seq<u32>, i: int) -> Seq<Set<u32>>
    decreases vals.len() - i,
{
    if i < 0 || i >= vals.len() {
        Seq::empty()
    } else {
        let e = run_end(vals, i, i + 1);
        proof {
            lemma_run_end_bounds(vals, i, i + 1);
        }
        seq![vals.subrange(i, e).to_set()] + block_runs(vals, e)
    }
}

/// The code points of a bitmap split, in increasing order, into runs that lie in one block.
pub fn split_to_blocks(codepoints: &RoaringBitmap) -> (r: Vec<RoaringBitmap>)
    requires
        forall|c: u32| #[trigger] roaring_contents(*codepoints).contains(c) ==> crate::text::is_scalar(c as int),
    ensures
        bitmaps_view(r@) == block_runs(sorted_values(roaring_contents(*codepoints)), 0),
{
    let vals = roaring_values(codepoints);
    proof {
        let all = roaring_contents(*codepoints);
        assert(crate::sort::strictly_increasing(sorted_values(all)) && sorted_values(all).to_set() == all);
        crate::sort::lemma_strictly_increasing_unique(vals@, sorted_values(all));
        assert forall|q: int| 0 <= q < vals@.len() implies crate::text::is_scalar(#[trigger] vals@[q] as int) by {
            assert(vals@.to_set().contains(vals@[q]));
        }
    }
    let mut out: Vec<RoaringBitmap> = Vec::new();
    let mut i: usize = 0;
    proof {
        assert(bitmaps_view(out@) =~= Seq::<Set<u32>>::empty());
        assert(Seq::<Set<u32>>::empty() + block_runs(vals@, 0) =~= block_runs(vals@, 0));
    }
    while i < vals.len()
        invariant
            i <= vals@.len(),
            forall|q: int| 0 <= q < vals@.len() ==> crate::text::is_scalar(#[trigger] vals@[q] as int),
            bitmaps_view(out@) + block_runs(vals@, i as int) == block_runs(vals@, 0),
        decreases vals@.len() - i,
    {
        let seed = vals[i];
        let seed_char = core::char::from_u32(seed).unwrap();
        proof { lemma_char_of_code(seed_char, seed); }
        let block = find_unic_block_name(seed_char);
        let mut run = roaring_new();
        roaring_insert(&mut run, seed);
        let mut p: usize = i + 1;
        proof {
            assert(vals@.subrange(i as int, p as int) =~= seq![seed]);
            crate::sort::lemma_push_to_set(Seq::<u32>::empty(), seed);
            assert(seq![seed] =~= Seq::<u32>::empty().push(seed));
        }
        loop
            invariant
                i < p <= vals@.len(),
                forall|q: int| 0 <= q < vals@.len() ==> crate::text::is_scalar(#[trigger] vals@[q] as int),
                match block {
                    Some(n) => name_of_block(vals@[i as int]) == Some(n@),
                    None => name_of_block(vals@[i as int]) is None,
                },
                roaring_contents(run) == vals@.subrange(i as int, p as int).to_set(),
                run_end(vals@, i as int, i + 1) == run_end(vals@, i as int, p as int),
            ensures
                i < p <= vals@.len(),
                roaring_contents(run) == vals@.subrange(i as int, p as int).to_set(),
                run_end(vals@, i as int, i + 1) == p,
            decreases vals@.len() - p,
        {
            if p >= vals.len() {
                break;
            }
            let next = vals[p];
            let next_char = core::char::from_u32(next).unwrap();
            proof { lemma_char_of_code(next_char, next); }
            let next_block = find_unic_block_name(next_char);
            let same = match (&next_block, &block) {
                (Some(a), Some(b)) => *a == *b,
                (None, None) => true,
                _ => false,
            };
            if !same {
                break;
            }
            roaring_insert(&mut run, next);
            proof {
                crate::sort::lemma_push_to_set(vals@.subrange(i as int, p as int), next);
                assert(vals@.subrange(i as int, p + 1) =~= vals@.subrange(i as int, p as int).push(next));
            }
            p = p + 1;
        }
        proof {
            lemma_run_end_bounds(vals@, i as int, i + 1);
            assert(block_runs(vals@, i as int) == seq![roaring_contents(run)] + block_runs(vals@, p as int));
            assert(bitmaps_view(out@.push(run)) =~= bitmaps_view(out@).push(roaring_contents(run)));
            assert(bitmaps_view(out@).push(roaring_contents(run)) + block_runs(vals@, p as int)
                =~= bitmaps_view(out@) + (seq![roaring_contents(run)] + block_runs(vals@, p as int)));
        }
        out.push(run);
        i = p;
    }
    proof {
        assert(block_runs(vals@, i as int) =~= Seq::<Set<u32>>::empty());
        assert(bitmaps_view(out@) =~= block_runs(vals@, 0));
    }
    out
}

/// The first `max` code points of a set, in increasing order.
pub open spec fn first_values(x: Set<u32>, max: int) -> Set<u32> {
    sorted_values(x).take(max).to_set()
}

/// Takes a block from the first `k` left over runs of `list`: the first run larger than `max`,
/// met while nothing is taken yet, gives up its first `max` code points and ends the pass; any
/// other run that fits (with what is taken, at most `max` code points) is taken whole; the rest
/// stay, in order. Gives the block, what stays, and whether the pass ended early.
pub open spec fn residual_pick(list: Seq<Set<u32>>, max: int, k: nat) -> (Set<u32>, Seq<Set<u32>>, bool)
    decreases k,
{
    if k == 0 || k > list.len() {
        (Set::empty(), Seq::empty(), false)
    } else {
        let prev = residual_pick(list, max, (k - 1) as nat);
        let x = list[k - 1];
        if prev.2 {
            (prev.0, prev.1.push(x), true)
        } else if x.len() > max && prev.0 == Set::<u32>::empty() {
            let head = first_values(x, max);
            (head, prev.1.push(x.difference(head)), true)
        } else if prev.0.len() + x.len() <= max {
            (prev.0.union(x), prev.1, false)
        } else {
            (prev.0, prev.1.push(x), false)
        }
    }
}

/// The number of code points in a list of sets, counted per set.
pub open spec fn total_size(list: Seq<Set<u32>>) -> nat
    decreases list.len(),
{
    if list.len() == 0 {
        0
    } else {
        total_size(list.drop_last()) + list.last().len()
    }
}

/// Every set of a list is finite and not empty.
pub open spec fn finite_runs(list: Seq<Set<u32>>) -> bool {
    forall|i: int| 0 <= i < list.len() ==> (#[trigger] list[i]).finite() && list[i].len() > 0
}

/// The blocks named `misc<id>`, `misc<id + 1>`, ..., taken in turn from the left over runs
/// until none is left (at most `fuel` of them).
pub open spec fn residual_rounds(list: Seq<Set<u32>>, max: int, id: nat, fuel: nat) -> Seq<(Seq<char>, Set<u32>)>
    decreases fuel,
{
    if fuel == 0 || list.len() == 0 {
        Seq::empty()
    } else {
        let p = residual_pick(list, max, list.len());
        seq![("misc"@ + decimal(id), p.0)] + residual_rounds(p.1, max, id + 1, (fuel - 1) as nat)
    }
}

proof fn lemma_total_push(list: Seq<Set<u32>>, x: Set<u32>)
    ensures
        total_size(list.push(x)) == total_size(list) + x.len(),
{
    assert(list.push(x).drop_last() =~= list);
}

proof fn lemma_total_skip(list: Seq<Set<u32>>, k: int)
    requires
        0 <= k < list.len(),
    ensures
        total_size(list.skip(k)) == list[k].len() + total_size(list.skip(k + 1)),
    decreases list.len(),
{
    if k == list.len() - 1 {
        assert(list.skip(k) =~= seq![list[k]]);
        assert(seq![list[k]].drop_last() =~= Seq::<Set<u32>>::empty());
        assert(list.skip(k + 1) =~= Seq::<Set<u32>>::empty());
    } else {
        lemma_total_skip(list.drop_last(), k);
        assert(list.skip(k).drop_last() =~= list.drop_last().skip(k));
        assert(list.skip(k + 1).drop_last() =~= list.drop_last().skip(k + 1));
        assert(list.skip(k).last() == list.last());
        assert(list.skip(k + 1).last() == list.last());
    }
}

/// The first `max` values of a finite set larger than `max` are `max` of its values.
proof fn lemma_first_values(x: Set<u32>, max: int)
    requires
        crate::sort::strictly_increasing(sorted_values(x)),
        sorted_values(x).to_set() == x,
        x.len() > max >= 1,
    ensures
        first_values(x, max).subset_of(x),
        first_values(x, max).len() == max,
        first_values(x, max).finite(),
        first_values(x, max).len() > 0,
        x.difference(first_values(x, max)).finite(),
        x.difference(first_values(x, max)).len() == x.len() - max,
{
    let v = sorted_values(x);
    assert(v.no_duplicates()) by {
        assert forall|i: int, j: int| 0 <= i < v.len() && 0 <= j < v.len() && i != j implies v[i] != v[j] by {
            if i < j { assert(v[i] < v[j]); } else { assert(v[j] < v[i]); }
        }
    }
    v.unique_seq_to_set();
    let t = v.take(max);
    assert(t.no_duplicates()) by {
        assert forall|i: int, j: int| 0 <= i < t.len() && 0 <= j < t.len() && i != j implies t[i] != t[j] by {
            assert(t[i] == v[i] && t[j] == v[j]);
        }
    }
    t.unique_seq_to_set();
    assert forall|y: u32| t.to_set().contains(y) implies x.contains(y) by {
        let q = choose|q: int| 0 <= q < t.len() && t[q] == y;
        assert(v[q] == y);
    }
    vstd::set_lib::lemma_len_subset(t.to_set(), x);
    vstd::set_lib::lemma_set_difference_len(x, t.to_set());
    assert(x.intersect(t.to_set()) =~= t.to_set());
}

proof fn lemma_total_front(a: Set<u32>, b: Seq<Set<u32>>)
    ensures
        total_size(seq![a] + b) == a.len() + total_size(b),
    decreases b.len(),
{
    let whole = seq![a] + b;
    if b.len() == 0 {
        assert(whole =~= Seq::<Set<u32>>::empty().push(a));
        lemma_total_push(Seq::<Set<u32>>::empty(), a);
    } else {
        lemma_total_front(a, b.drop_last());
        assert(whole.drop_last() =~= seq![a] + b.drop_last());
        assert(whole.last() == b.last());
    }
}

/// The runs of an increasing list are finite and not empty, and hold as many code points as
/// the list from `i` on.
proof fn lemma_runs_sizes(vals: Seq<u32>, i: int)
    requires
        crate::sort::strictly_increasing(vals),
        0 <= i <= vals.len(),
    ensures
        finite_runs(block_runs(vals, i)),
        total_size(block_runs(vals, i)) == vals.len() - i,
        forall|q: int| 0 <= q < block_runs(vals, i).len() ==> exists|a: int, b: int| 0 <= a < b <= vals.len()
            && #[trigger] block_runs(vals, i)[q] == vals.subrange(a, b).to_set(),
    decreases vals.len() - i,
{
    if i < vals.len() {
        let e = run_end(vals, i, i + 1);
        lemma_run_end_bounds(vals, i, i + 1);
        lemma_runs_sizes(vals, e);
        let head = vals.subrange(i, e);
        assert(head.no_duplicates()) by {
            assert forall|p: int, q: int| 0 <= p < head.len() && 0 <= q < head.len() && p != q implies head[p] != head[q] by {
                if p < q { assert(vals[i + p] < vals[i + q]); } else { assert(vals[i + q] < vals[i + p]); }
            }
        }
        head.unique_seq_to_set();
        let r = block_runs(vals, i);
        assert(r == seq![head.to_set()] + block_runs(vals, e));
        lemma_total_front(head.to_set(), block_runs(vals, e));
        assert forall|q: int| 0 <= q < r.len() implies (#[trigger] r[q]).finite() && r[q].len() > 0 by {
            if q == 0 {
                assert(head.to_set().contains(head[0]));
            } else {
                assert(r[q] == block_runs(vals, e)[q - 1]);
            }
        }
        assert forall|q: int| 0 <= q < r.len() implies exists|a: int, b: int| 0 <= a < b <= vals.len()
            && #[trigger] r[q] == vals.subrange(a, b).to_set() by {
            if q == 0 {
                assert(r[0] == vals.subrange(i, e).to_set());
            } else {
                assert(r[q] == block_runs(vals, e)[q - 1]);
            }
        }
    } else {
        assert(block_runs(vals, i) =~= Seq::<Set<u32>>::empty());
    }
}

/// Once a pass has ended, the runs after it stay as they are.
proof fn lemma_pick_after_stop(list: Seq<Set<u32>>, max: int, j: nat, n: nat)
    requires
        residual_pick(list, max, j).2,
        j <= n <= list.len(),
    ensures
        residual_pick(list, max, n).2,
        residual_pick(list, max, n).0 == residual_pick(list, max, j).0,
        residual_pick(list, max, n).1 == residual_pick(list, max, j).1 + list.subrange(j as int, n as int),
    decreases n - j,
{
    if n == j {
        assert(list.subrange(j as int, n as int) =~= Seq::<Set<u32>>::empty());
        assert(residual_pick(list, max, j).1 + list.subrange(j as int, n as int) =~= residual_pick(list, max, j).1);
    } else {
        lemma_pick_after_stop(list, max, j, (n - 1) as nat);
        assert(list.subrange(j as int, n as int) =~= list.subrange(j as int, n - 1).push(list[n - 1]));
        assert(residual_pick(list, max, n).1 =~= residual_pick(list, max, j).1 + list.subrange(j as int, n as int));
    }
}

/// Takes one left over block from `residual` (see `residual_pick`); what stays is left in
/// `residual`. The block is never empty, and fewer code points stay.
pub fn generate_residual_block(residual: &mut Vec<RoaringBitmap>, max: usize) -> (set: RoaringBitmap)
    requires
        old(residual)@.len() > 0,
        max >= 1,
        finite_runs(bitmaps_view(old(residual)@)),
    ensures
        roaring_contents(set) == residual_pick(bitmaps_view(old(residual)@), max as int, old(residual)@.len()).0,
        bitmaps_view(final(residual)@) == residual_pick(bitmaps_view(old(residual)@), max as int, old(residual)@.len()).1,
        roaring_contents(set) != Set::<u32>::empty(),
        finite_runs(bitmaps_view(final(residual)@)),
        total_size(bitmaps_view(final(residual)@)) < total_size(bitmaps_view(old(residual)@)),
{
    let ghost list = bitmaps_view(residual@);
    let ghost maxi = max as int;
    let mut set = roaring_new();
    let mut i: usize = 0;
    let ghost mut k: nat = 0;
    proof {
        assert(list.skip(0) =~= list);
        assert(residual_pick(list, maxi, 0).1 + list.skip(0) =~= list);
    }
    while i < residual.len()
        invariant_except_break
            bitmaps_view(residual@) == residual_pick(list, maxi, k).1 + list.skip(k as int),
            i == residual_pick(list, maxi, k).1.len(),
            !residual_pick(list, maxi, k).2,
        invariant
            k <= list.len(),
            list.len() > 0,
            maxi == max as int,
            maxi >= 1,
            finite_runs(list),
            roaring_contents(set) == residual_pick(list, maxi, k).0,
            finite_runs(residual_pick(list, maxi, k).1),
            k >= 1 ==> residual_pick(list, maxi, k).0 != Set::<u32>::empty()
                && total_size(residual_pick(list, maxi, k).1) + total_size(list.skip(k as int)) < total_size(list),
            k == 0 ==> residual_pick(list, maxi, k).0 == Set::<u32>::empty(),
            residual_pick(list, maxi, k).0.finite(),
        ensures
            k <= list.len(),
            roaring_contents(set) == residual_pick(list, maxi, k).0,
            k >= 1,
            residual_pick(list, maxi, k).0 != Set::<u32>::empty(),
            finite_runs(residual_pick(list, maxi, k).1),
            total_size(residual_pick(list, maxi, k).1) + total_size(list.skip(k as int)) < total_size(list),
            k < list.len() ==> residual_pick(list, maxi, k).2,
            bitmaps_view(residual@) == residual_pick(list, maxi, k).1 + list.skip(k as int),
        decreases list.len() - k,
    {
        let ghost prev = residual_pick(list, maxi, k);
        let ghost x = list[k as int];
        proof {
            assert(bitmaps_view(residual@)[i as int] == x);
            assert(list.skip(k as int) =~= seq![x] + list.skip(k as int + 1));
            lemma_total_front(x, list.skip(k as int + 1));
            if k == 0 {
                assert(list.skip(0) =~= list);
            }
            assert(x.finite() && x.len() > 0);
        }
        let size = roaring_len(&residual[i]);
        if size > max as u64 && roaring_is_empty(&set) {
            let vals = roaring_values(&residual[i]);
            proof {
                assert(crate::sort::strictly_increasing(sorted_values(x)) && sorted_values(x).to_set() == x);
                crate::sort::lemma_strictly_increasing_unique(vals@, sorted_values(x));
                lemma_first_values(x, maxi);
                vals@.unique_seq_to_set();
                assert(vals@.no_duplicates()) by {
                    assert forall|p: int, q: int| 0 <= p < vals@.len() && 0 <= q < vals@.len() && p != q implies vals@[p] != vals@[q] by {
                        if p < q { assert(vals@[p] < vals@[q]); } else { assert(vals@[q] < vals@[p]); }
                    }
                }
            }
            let mut head = roaring_new();
            let mut j: usize = 0;
            while j < max
                invariant
                    j <= max,
                    maxi == max as int,
                    max < vals@.len(),
                    roaring_contents(head) == vals@.take(j as int).to_set(),
                decreases max - j,
            {
                roaring_insert(&mut head, vals[j]);
                proof {
                    crate::sort::lemma_push_to_set(vals@.take(j as int), vals@[j as int]);
                    assert(vals@.take(j + 1) =~= vals@.take(j as int).push(vals@[j as int]));
                }
                j = j + 1;
            }
            let rest = roaring_difference(roaring_clone(&residual[i]), roaring_clone(&head));
            let ghost before = residual@;
            residual.set(i, rest);
            set = head;
            proof {
                let cur = residual_pick(list, maxi, (k + 1) as nat);
                assert(roaring_contents(head) == first_values(x, maxi));
                assert(cur.1 == prev.1.push(x.difference(first_values(x, maxi))));
                assert(bitmaps_view(residual@) =~= cur.1 + list.skip(k as int + 1)) by {
                    assert forall|q: int| 0 <= q < residual@.len() implies bitmaps_view(residual@)[q] == (cur.1 + list.skip(k as int + 1))[q] by {
                        if q != i {
                            assert(residual@[q] == before[q]);
                            assert(bitmaps_view(before)[q] == (prev.1 + list.skip(k as int))[q]);
                        }
                    }
                }
                lemma_total_push(prev.1, x.difference(first_values(x, maxi)));
                assert forall|q: int| 0 <= q < cur.1.len() implies (#[trigger] cur.1[q]).finite() && cur.1[q].len() > 0 by {
                    if q < prev.1.len() {
                        assert(cur.1[q] == prev.1[q]);
                    }
                }
                k = k + 1;
            }
            break;
        } else {
            let have = roaring_len(&set);
            if (have as u128) + (size as u128) <= max as u128 {
                let ghost before = residual@;
                let b = residual.remove(i);
                roaring_extend(&mut set, &b);
                proof {
                    lemma_view_remove(before, i as int, prev.1, list.skip(k as int));
                    assert(list.skip(k as int).drop_first() =~= list.skip(k as int + 1));
                    vstd::set_lib::lemma_set_union_finite_iff(prev.0, x);
                    vstd::set::axiom_set_choose_len(x);
                    assert(prev.0.union(x).contains(x.choose()));
                }
            } else {
                proof {
                    assert(bitmaps_view(residual@) =~= prev.1.push(x) + list.skip(k as int + 1));
                    lemma_total_push(prev.1, x);
                    assert forall|q: int| 0 <= q < prev.1.push(x).len() implies (#[trigger] prev.1.push(x)[q]).finite()
                        && prev.1.push(x)[q].len() > 0 by {
                        if q < prev.1.len() {
                            assert(prev.1.push(x)[q] == prev.1[q]);
                        }
                    }
                }
                i = i + 1;
            }
            proof {
                k = k + 1;
            }
        }
    }
    proof {
        let n = list.len();
        if k < n {
            lemma_pick_after_stop(list, maxi, k, n);
            assert(list.subrange(k as int, n as int) =~= list.skip(k as int));
            lemma_total_concat(residual_pick(list, maxi, k).1, list.skip(k as int));
        } else {
            assert(list.skip(k as int) =~= Seq::<Set<u32>>::empty());
            assert(bitmaps_view(residual@) =~= residual_pick(list, maxi, k).1);
        }
        lemma_total_skip_none(list, k as int);
    }
    set
}

proof fn lemma_total_concat(a: Seq<Set<u32>>, b: Seq<Set<u32>>)
    ensures
        total_size(a + b) == total_size(a) + total_size(b),
    decreases b.len(),
{
    if b.len() == 0 {
        assert(a + b =~= a);
    } else {
        lemma_total_concat(a, b.drop_last());
        assert((a + b).drop_last() =~= a + b.drop_last());
        assert((a + b).last() == b.last());
    }
}

proof fn lemma_total_skip_none(list: Seq<Set<u32>>, k: int)
    requires
        0 <= k <= list.len(),
    ensures
        k == list.len() ==> total_size(list.skip(k)) == 0,
{
    if k == list.len() {
        assert(list.skip(k) =~= Seq::<Set<u32>>::empty());
    }
}

/// The left over code points split into blocks the older way: runs of one block, taken in
/// turn (see `generate_residual_block`), named `misc0`, `misc1`, ...
pub fn residual_blocks_by_name(codepoints: &RoaringBitmap, max: usize) -> (r: Vec<(String, RoaringBitmap)>)
    requires
        forall|c: u32| #[trigger] roaring_contents(*codepoints).contains(c) ==> crate::text::is_scalar(c as int),
        max >= 1,
    ensures
        made_view(r@) == residual_rounds(block_runs(sorted_values(roaring_contents(*codepoints)), 0), max as int, 0,
            total_size(block_runs(sorted_values(roaring_contents(*codepoints)), 0))),
{
    let mut split = split_to_blocks(codepoints);
    let ghost vals = sorted_values(roaring_contents(*codepoints));
    let ghost list0 = bitmaps_view(split@);
    let ghost fuel0 = total_size(list0);
    let all_vals = roaring_values(codepoints);
    let count = all_vals.len();
    proof {
        let all = roaring_contents(*codepoints);
        assert(crate::sort::strictly_increasing(sorted_values(all)) && sorted_values(all).to_set() == all) by {
            assert(crate::sort::strictly_increasing(all_vals@) && all_vals@.to_set() == all);
        }
        crate::sort::lemma_strictly_increasing_unique(all_vals@, vals);
        lemma_runs_sizes(vals, 0);
        assert(fuel0 == count);
    }
    let mut out: Vec<(String, RoaringBitmap)> = Vec::new();
    let mut id: usize = 0;
    let ghost mut fuel: nat = fuel0;
    proof {
        assert(made_view(out@) =~= Seq::<(Seq<char>, Set<u32>)>::empty());
        assert(Seq::<(Seq<char>, Set<u32>)>::empty() + residual_rounds(list0, max as int, 0, fuel0)
            =~= residual_rounds(list0, max as int, 0, fuel0));
    }
    while split.len() > 0
        invariant
            max >= 1,
            fuel0 == total_size(list0),
            fuel0 <= usize::MAX,
            finite_runs(bitmaps_view(split@)),
            total_size(bitmaps_view(split@)) <= fuel,
            id + fuel <= fuel0,
            made_view(out@) + residual_rounds(bitmaps_view(split@), max as int, id as nat, fuel)
                == residual_rounds(list0, max as int, 0, fuel0),
        decreases total_size(bitmaps_view(split@)),
    {
        let ghost list = bitmaps_view(split@);
        let ghost p = residual_pick(list, max as int, list.len());
        proof {
            assert(list[0].len() > 0);
            assert(list =~= Seq::<Set<u32>>::empty().push(list[0]) + list.skip(1));
            lemma_total_front(list[0], list.skip(1));
            assert(seq![list[0]] + list.skip(1) =~= list);
        }
        let set = generate_residual_block(&mut split, max);
        let mut name: Vec<char> = Vec::new();
        push_str(&mut name, "misc");
        push_decimal(&mut name, id as u64);
        proof { reveal_strlit("misc"); }
        let name = string_from_chars(&name);
        let ghost entry = (name@, roaring_contents(set));
        let ghost before_out = out@;
        out.push((name, set));
        proof {
            assert(fuel > 0);
            assert(residual_rounds(list, max as int, id as nat, fuel) == seq![entry]
                + residual_rounds(p.1, max as int, (id + 1) as nat, (fuel - 1) as nat));
            assert(made_view(out@) =~= made_view(before_out).push(entry));
            assert(made_view(out@) + residual_rounds(p.1, max as int, (id + 1) as nat, (fuel - 1) as nat)
                =~= made_view(before_out) + residual_rounds(list, max as int, id as nat, fuel));
        }
        id = id + 1;
        proof {
            fuel = (fuel - 1) as nat;
        }
    }
    proof {
        assert(residual_rounds(bitmaps_view(split@), max as int, id as nat, fuel) =~= Seq::<(Seq<char>, Set<u32>)>::empty());
        assert(made_view(out@) =~= residual_rounds(list0, max as int, 0, fuel0));
    }
    out
}

} // verus!
