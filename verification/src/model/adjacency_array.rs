//! Co-occurrence counts of pairs of code points, packed into a triangular array.
use vstd::prelude::*;
use std::collections::HashMap;
use roaring::RoaringBitmap;
use crate::roaring_bitmap::{roaring_contents, roaring_values};
use crate::sort::strictly_increasing;
use crate::text::{chars_of, chars_eq, contains_str, contains_sub};

verus! {

broadcast use vstd::std_specs::hash::group_hash_axioms;

/// The `n`-th triangular number, `0 + 1 + ... + n`.
pub open spec fn triangle_spec(n: int) -> int {
    n * (n + 1) / 2
}

/// The slot of the unordered pair of places `{a, b}`: pairs whose larger place is `m` take the
/// slots `triangle(m) .. triangle(m + 1)`.
pub open spec fn place_idx_spec(a: int, b: int) -> int {
    if a < b {
        triangle_spec(b + 1) - (a + 1)
    } else {
        triangle_spec(a + 1) - (b + 1)
    }
}

pub proof fn lemma_triangle_step(n: int)
    requires
        n >= 0,
    ensures
        triangle_spec(n + 1) == triangle_spec(n) + n + 1,
        triangle_spec(n) >= 0,
{
    assert((n + 1) * (n + 2) == n * (n + 1) + 2 * (n + 1)) by (nonlinear_arith);
    assert(n * (n + 1) >= 0) by (nonlinear_arith) requires n >= 0;
}

pub proof fn lemma_triangle_monotone(a: int, b: int)
    requires
        0 <= a <= b,
    ensures
        triangle_spec(a) <= triangle_spec(b),
    decreases b - a,
{
    if a < b {
        lemma_triangle_monotone(a, b - 1);
        lemma_triangle_step(b - 1);
    }
}

/// The packing of unordered pairs: the slot of `{a, b}` does not depend on the order of the two
/// places, lies below `triangle(n)` when both places lie below `n`, and different unordered
/// pairs get different slots.
pub proof fn lemma_place_idx_packing(a: int, b: int, c: int, d: int, n: int)
    requires
        0 <= a < n,
        0 <= b < n,
        0 <= c < n,
        0 <= d < n,
    ensures
        place_idx_spec(a, b) == place_idx_spec(b, a),
        0 <= place_idx_spec(a, b) < triangle_spec(n),
        place_idx_spec(a, b) == place_idx_spec(c, d) ==> (a == c && b == d) || (a == d && b == c),
{
    let m1 = if a < b { b } else { a };
    let m2 = if c < d { d } else { c };
    lemma_triangle_step(m1);
    lemma_triangle_step(m2);
    lemma_triangle_monotone(m1 + 1, n);
    if m1 < m2 {
        lemma_triangle_monotone(m1 + 1, m2);
    } else if m2 < m1 {
        lemma_triangle_monotone(m2 + 1, m1);
    }
}

/// The `n`-th triangular number, `n * (n + 1) / 2`.
pub fn triangle(n: usize) -> (t: usize)
    requires
        n * (n + 1) <= usize::MAX,
    ensures
        t == triangle_spec(n as int),
{
    assert(n * (n + 1) >= 0) by (nonlinear_arith);
    assert(n + 1 <= usize::MAX) by (nonlinear_arith)
        requires n * (n + 1) <= usize::MAX, n >= 0, usize::MAX > 0;
    (n * (n + 1)) / 2
}

/// The slot of the unordered pair of places `{place_a, place_b}`.
pub fn place_idx(place_a: usize, place_b: usize) -> (i: usize)
    requires
        (place_a + 1) * (place_a + 2) <= usize::MAX,
        (place_b + 1) * (place_b + 2) <= usize::MAX,
    ensures
        i == place_idx_spec(place_a as int, place_b as int),
    decreases (if place_a < place_b { 1int } else { 0int }),
{
    if place_a < place_b {
        place_idx(place_b, place_a)
    } else {
        proof { lemma_triangle_step(place_a as int); }
        triangle(place_a + 1) - (place_b + 1)
    }
}

/// Counts, for each unordered pair of tracked code points, the samples that use both.
pub struct AdjacencyArrayBuilder {
    codepoint_list: Vec<u32>,
    places: HashMap<u32, usize>,
    data: Vec<u32>,
}

impl AdjacencyArrayBuilder {
    /// The tracked code points, in increasing order; a code point's place is its index here.
    pub closed spec fn codepoints(&self) -> Seq<u32> {
        self.codepoint_list@
    }

    /// The place of each tracked code point.
    pub closed spec fn places(&self) -> Map<u32, usize> {
        self.places@
    }

    /// The pair counts, one per slot of the triangular packing.
    pub closed spec fn counts(&self) -> Seq<u32> {
        self.data@
    }

    pub closed spec fn wf(&self) -> bool {
        let n = self.codepoint_list@.len();
        &&& strictly_increasing(self.codepoint_list@)
        &&& self.places@.dom() == self.codepoint_list@.to_set()
        &&& forall|i: int| 0 <= i < n ==> #[trigger] self.places@[self.codepoint_list@[i]] == i
        &&& n * (n + 1) <= usize::MAX
        &&& self.data@.len() == triangle_spec(n as int)
    }

    /// Starts counting pairs among the code points of `glyphs`, all counts zero.
    pub fn new(glyphs: &RoaringBitmap) -> (b: Self)
        requires
            roaring_contents(*glyphs).len() * (roaring_contents(*glyphs).len() + 1) <= usize::MAX,
        ensures
            b.wf(),
            strictly_increasing(b.codepoints()),
            b.codepoints().to_set() == roaring_contents(*glyphs),
            forall|k: int| 0 <= k < b.counts().len() ==> b.counts()[k] == 0,
    {
        let values = roaring_values(glyphs);
        proof {
            assert(values@.no_duplicates()) by {
                assert forall|i: int, j: int| 0 <= i < values@.len() && 0 <= j < values@.len() && i != j
                    implies values@[i] != values@[j] by {
                    if i < j { assert(values@[i] < values@[j]); } else { assert(values@[j] < values@[i]); }
                }
            }
            values@.unique_seq_to_set();
        }
        let mut codepoint_list: Vec<u32> = Vec::new();
        let mut places: HashMap<u32, usize> = HashMap::new();
        let mut i: usize = 0;
        while i < values.len()
            invariant
                i <= values@.len(),
                strictly_increasing(values@),
                codepoint_list@ == values@.take(i as int),
                places@.dom() == values@.take(i as int).to_set(),
                forall|k: int| 0 <= k < i ==> #[trigger] places@[values@[k]] == k,
            decreases values@.len() - i,
        {
            let glyph = values[i];
            codepoint_list.push(glyph);
            places.insert(glyph, i);
            proof {
                crate::sort::lemma_push_to_set(values@.take(i as int), glyph);
                assert(values@.take(i + 1) == values@.take(i as int).push(glyph));
                assert forall|k: int| 0 <= k < i + 1 implies #[trigger] places@[values@[k]] == k by {
                    if k < i {
                        assert(values@[k] < values@[i as int]);
                    }
                }
            }
            i = i + 1;
        }
        assert(values@.take(values@.len() as int) == values@);
        let n = codepoint_list.len();
        let triangle_ct = triangle(n);
        let mut data: Vec<u32> = Vec::new();
        let mut j: usize = 0;
        while j < triangle_ct
            invariant
                j <= triangle_ct,
                data@.len() == j,
                forall|k: int| 0 <= k < j ==> data@[k] == 0,
            decreases triangle_ct - j,
        {
            data.push(0);
            j = j + 1;
        }
        AdjacencyArrayBuilder { codepoint_list, places, data }
    }

    /// Adds the counts of `other`, a builder over the same code points, to these counts.
    pub fn join(&mut self, other: AdjacencyArrayBuilder)
        requires
            old(self).wf(),
            other.codepoints() == old(self).codepoints(),
            other.places() == old(self).places(),
            other.counts().len() == old(self).counts().len(),
            forall|k: int| 0 <= k < old(self).counts().len()
                ==> #[trigger] old(self).counts()[k] + other.counts()[k] <= u32::MAX,
        ensures
            final(self).wf(),
            final(self).codepoints() == old(self).codepoints(),
            final(self).places() == old(self).places(),
            final(self).counts().len() == old(self).counts().len(),
            forall|k: int| 0 <= k < final(self).counts().len()
                ==> #[trigger] final(self).counts()[k] == old(self).counts()[k] + other.counts()[k],
    {
        let mut i: usize = 0;
        while i < self.data.len()
            invariant
                i <= self.data@.len(),
                self.data@.len() == old(self).data@.len(),
                self.codepoint_list@ == old(self).codepoint_list@,
                self.places@ == old(self).places@,
                other.data@.len() == self.data@.len(),
                forall|k: int| 0 <= k < self.data@.len()
                    ==> #[trigger] old(self).data@[k] + other.data@[k] <= u32::MAX,
                forall|k: int| 0 <= k < i ==> #[trigger] self.data@[k] == old(self).data@[k] + other.data@[k],
                forall|k: int| i <= k < self.data@.len() ==> #[trigger] self.data@[k] == old(self).data@[k],
            decreases self.data@.len() - i,
        {
            self.data[i] = self.data[i] + other.data[i];
            i = i + 1;
        }
    }
}

/// The places of the code points that a sample uses: for each index of the sample, in increasing
/// order, the place of the code point at that index of `chars`, when that code point is tracked.
pub open spec fn placed_list(values: Seq<u32>, chars: Seq<u32>, places: Map<u32, usize>) -> Seq<usize>
    decreases values.len(),
{
    if values.len() == 0 {
        Seq::empty()
    } else {
        let prev = placed_list(values.drop_last(), chars, places);
        let ch = chars[values.last() as int];
        if places.contains_key(ch) { prev.push(places[ch]) } else { prev }
    }
}

/// How many of the pairs `(t[i], t[j])` with `i <= j < jend` fall in slot `k`.
pub open spec fn row_hits(t: Seq<usize>, i: int, jend: int, k: int) -> nat
    decreases jend - i,
{
    if jend <= i {
        0
    } else {
        row_hits(t, i, jend - 1, k) + (if place_idx_spec(t[jend - 1] as int, t[i] as int) == k { 1nat } else { 0nat })
    }
}

/// How many of the pairs `(t[i], t[j])` with `i < iend` and `i <= j` fall in slot `k`: the
/// amount that one sample adds to the count of slot `k`.
pub open spec fn hits(t: Seq<usize>, iend: int, k: int) -> nat
    decreases iend,
{
    if iend <= 0 {
        0
    } else {
        hits(t, iend - 1, k) + row_hits(t, iend - 1, t.len() as int, k)
    }
}

/// What one sample adds to slot `k` of a builder whose places are `places`: the sample is the
/// increasing list of the indices it uses, and the code points that the indices stand for.
pub open spec fn sample_hits(places: Map<u32, usize>, sample: (Seq<u32>, Seq<u32>), k: int) -> nat {
    let t = placed_list(sample.0, sample.1, places);
    hits(t, t.len() as int, k)
}

/// What a list of samples, pushed one after another, adds to slot `k`.
pub open spec fn samples_hits(places: Map<u32, usize>, samples: Seq<(Seq<u32>, Seq<u32>)>, k: int) -> nat
    decreases samples.len(),
{
    if samples.len() == 0 {
        0
    } else {
        samples_hits(places, samples.drop_last(), k) + sample_hits(places, samples.last(), k)
    }
}

/// Joining two builders over the same code points, one that was given the samples `v` and one
/// that was given `w` (`push_vector` adds `sample_hits` of each, `join` adds the counts), gives
/// the counts of one builder that was given `v` and then `w`.
pub proof fn law_join_is_concatenation(
    places: Map<u32, usize>,
    v: Seq<(Seq<u32>, Seq<u32>)>,
    w: Seq<(Seq<u32>, Seq<u32>)>,
    k: int,
)
    ensures
        samples_hits(places, v + w, k) == samples_hits(places, v, k) + samples_hits(places, w, k),
    decreases w.len(),
{
    if w.len() == 0 {
        assert(v + w =~= v);
    } else {
        law_join_is_concatenation(places, v, w.drop_last(), k);
        assert((v + w).drop_last() =~= v + w.drop_last());
        assert((v + w).last() == w.last());
    }
}

proof fn lemma_row_hits_bound(t: Seq<usize>, i: int, jend: int, k: int)
    requires
        i <= jend,
    ensures
        row_hits(t, i, jend, k) <= jend - i,
    decreases jend - i,
{
    if jend > i {
        lemma_row_hits_bound(t, i, jend - 1, k);
    }
}

proof fn lemma_hits_bound(t: Seq<usize>, iend: int, k: int)
    requires
        0 <= iend <= t.len(),
    ensures
        hits(t, iend, k) <= iend * t.len(),
    decreases iend,
{
    if iend > 0 {
        lemma_hits_bound(t, iend - 1, k);
        lemma_row_hits_bound(t, iend - 1, t.len() as int, k);
        assert((iend - 1) * t.len() + t.len() == iend * t.len()) by (nonlinear_arith);
    }
}

proof fn lemma_placed_list_len(values: Seq<u32>, chars: Seq<u32>, places: Map<u32, usize>)
    ensures
        placed_list(values, chars, places).len() <= values.len(),
    decreases values.len(),
{
    if values.len() > 0 {
        lemma_placed_list_len(values.drop_last(), chars, places);
    }
}

proof fn lemma_square_bound(p: int, n: int)
    requires
        0 <= p < n,
    ensures
        (p + 1) * (p + 2) <= n * (n + 1),
{
    assert((p + 1) * (p + 2) <= n * (n + 1)) by (nonlinear_arith) requires 0 <= p < n;
}

impl AdjacencyArrayBuilder {
    /// Counts one sample: `bitmap` holds indices into `chars`, and every pair (with repetition)
    /// of the places of the tracked code points among them adds one to its slot. `tmp` is scratch
    /// space; it ends holding those places.
    pub fn push_vector(&mut self, bitmap: &RoaringBitmap, chars: &[u32], tmp: &mut Vec<usize>)
        requires
            old(self).wf(),
            forall|v: u32| roaring_contents(*bitmap).contains(v) ==> v < chars@.len(),
            forall|k: int| 0 <= k < old(self).counts().len() ==> #[trigger] old(self).counts()[k]
                + roaring_contents(*bitmap).len() * roaring_contents(*bitmap).len() <= u32::MAX,
        ensures
            final(self).wf(),
            final(self).codepoints() == old(self).codepoints(),
            final(self).places() == old(self).places(),
            final(tmp)@ == placed_list(roaring_values_spec(*bitmap), chars@, old(self).places()),
            final(self).counts().len() == old(self).counts().len(),
            forall|k: int| 0 <= k < final(self).counts().len() ==> #[trigger] final(self).counts()[k]
                == old(self).counts()[k] + hits(final(tmp)@, final(tmp)@.len() as int, k),
    {
        let values = roaring_values(bitmap);
        proof {
            lemma_values_spec(*bitmap, values@);
        }
        tmp.clear();
        let ghost n = self.codepoint_list@.len();
        let mut g: usize = 0;
        while g < values.len()
            invariant
                g <= values@.len(),
                values@ == roaring_values_spec(*bitmap),
                values@.to_set() == roaring_contents(*bitmap),
                self.wf(),
                self.codepoint_list@.len() == n,
                forall|v: u32| roaring_contents(*bitmap).contains(v) ==> v < chars@.len(),
                tmp@ == placed_list(values@.take(g as int), chars@, self.places@),
                forall|q: int| 0 <= q < tmp@.len() ==> #[trigger] tmp@[q] < n,
            decreases values@.len() - g,
        {
            let glyph = values[g];
            assert(values@.to_set().contains(glyph));
            assert(values@.take(g + 1).drop_last() == values@.take(g as int));
            let ch = chars[glyph as usize];
            match self.places.get(&ch) {
                Some(p) => {
                    proof {
                        assert(self.places@.dom().contains(ch));
                        assert(self.codepoint_list@.to_set().contains(ch));
                        let w = choose|w: int| 0 <= w < n && self.codepoint_list@[w] == ch;
                        assert(self.places@[self.codepoint_list@[w]] == w);
                    }
                    tmp.push(*p);
                },
                None => {},
            }
            g = g + 1;
        }
        assert(values@.take(values@.len() as int) == values@);
        let ghost t = tmp@;
        let ghost start = self.data@;
        let tlen = tmp.len();
        proof {
            lemma_placed_list_len(values@, chars@, self.places@);
            values@.unique_seq_to_set();
            assert(values@.no_duplicates()) by {
                assert forall|i: int, j: int| 0 <= i < values@.len() && 0 <= j < values@.len() && i != j
                    implies values@[i] != values@[j] by {
                    if i < j { assert(values@[i] < values@[j]); } else { assert(values@[j] < values@[i]); }
                }
            }
            values@.unique_seq_to_set();
            assert(tlen * tlen <= values@.len() * values@.len()) by (nonlinear_arith)
                requires tlen <= values@.len();
            assert(values@.len() == roaring_contents(*bitmap).len());
            assert forall|k: int| 0 <= k < start.len() implies #[trigger] start[k] + tlen * tlen <= u32::MAX by {
                assert(old(self).counts()[k] + roaring_contents(*bitmap).len() * roaring_contents(*bitmap).len() <= u32::MAX);
            }
        }
        let mut i: usize = 0;
        while i < tlen
            invariant
                i <= tlen,
                tlen == t.len(),
                tmp@ == t,
                self.wf(),
                self.codepoint_list@.len() == n,
                self.codepoint_list@ == old(self).codepoint_list@,
                self.places@ == old(self).places@,
                self.data@.len() == start.len(),
                start == old(self).data@,
                forall|q: int| 0 <= q < t.len() ==> #[trigger] t[q] < n,
                forall|k: int| 0 <= k < start.len() ==> #[trigger] start[k] + tlen * tlen <= u32::MAX,
                forall|k: int| 0 <= k < start.len() ==> #[trigger] self.data@[k] == start[k] + hits(t, i as int, k),
            decreases tlen - i,
        {
            let place_a = tmp[i];
            let mut j: usize = i;
            while j < tlen
                invariant
                    i < tlen,
                    i <= j <= tlen,
                    tlen == t.len(),
                    tmp@ == t,
                    place_a == t[i as int],
                    self.wf(),
                    self.codepoint_list@.len() == n,
                    self.codepoint_list@ == old(self).codepoint_list@,
                    self.places@ == old(self).places@,
                    self.data@.len() == start.len(),
                    forall|q: int| 0 <= q < t.len() ==> #[trigger] t[q] < n,
                    forall|k: int| 0 <= k < start.len() ==> #[trigger] start[k] + tlen * tlen <= u32::MAX,
                    forall|k: int| 0 <= k < start.len() ==> #[trigger] self.data@[k]
                        == start[k] + hits(t, i as int, k) + row_hits(t, i as int, j as int, k),
                decreases tlen - j,
            {
                let place_b = tmp[j];
                proof {
                    lemma_square_bound(place_b as int, n as int);
                    lemma_square_bound(place_a as int, n as int);
                    lemma_place_idx_packing(place_b as int, place_a as int, 0, 0, n as int);
                }
                let slot = place_idx(place_b, place_a);
                proof {
                    lemma_hits_bound(t, i as int, slot as int);
                    lemma_row_hits_bound(t, i as int, j as int, slot as int);
                    assert(i * tlen + (j - i) < tlen * tlen) by (nonlinear_arith)
                        requires i < tlen, i <= j < tlen;
                }
                self.data[slot] = self.data[slot] + 1;
                j = j + 1;
            }
            i = i + 1;
        }
    }
}

/// The values of a bitmap, in increasing order.
pub open spec fn roaring_values_spec(b: RoaringBitmap) -> Seq<u32> {
    choose|s: Seq<u32>| strictly_increasing(s) && s.to_set() == roaring_contents(b)
}

/// The increasing enumeration of a bitmap's values is the one that `roaring_values` returns.
proof fn lemma_values_spec(b: RoaringBitmap, s: Seq<u32>)
    requires
        strictly_increasing(s),
        s.to_set() == roaring_contents(b),
    ensures
        s == roaring_values_spec(b),
{
    let r = roaring_values_spec(b);
    assert(strictly_increasing(r) && r.to_set() == roaring_contents(b));
    crate::sort::lemma_strictly_increasing_unique(s, r);
}

/// The sum of the counts of the pairs `{a, b}` with `b < bend` and `b != a`.
pub open spec fn edge_sum(counts: Seq<u32>, a: int, bend: int) -> int
    decreases bend,
{
    if bend <= 0 {
        0
    } else {
        edge_sum(counts, a, bend - 1)
            + (if bend - 1 != a { counts[place_idx_spec(a, bend - 1)] as int } else { 0 })
    }
}

/// The sum of the counts of the pairs `{a, b}` with `a < aend` and `a < b < n`: every pair of
/// distinct places counted once.
pub open spec fn pair_sum(counts: Seq<u32>, n: int, aend: int) -> int
    decreases aend,
{
    if aend <= 0 {
        0
    } else {
        pair_sum(counts, n, aend - 1) + upper_sum(counts, aend - 1, n)
    }
}

/// The sum of the counts of the pairs `{a, b}` with `a < b < bend`.
pub open spec fn upper_sum(counts: Seq<u32>, a: int, bend: int) -> int
    decreases bend - a,
{
    if bend <= a + 1 {
        0
    } else {
        upper_sum(counts, a, bend - 1) + counts[place_idx_spec(a, bend - 1)] as int
    }
}

proof fn lemma_edge_sum_bound(counts: Seq<u32>, a: int, bend: int)
    requires
        bend >= 0,
    ensures
        0 <= edge_sum(counts, a, bend) <= bend * u32::MAX,
    decreases bend,
{
    if bend > 0 {
        lemma_edge_sum_bound(counts, a, bend - 1);
    }
}

proof fn lemma_upper_sum_bound(counts: Seq<u32>, a: int, bend: int)
    requires
        0 <= a,
    ensures
        0 <= upper_sum(counts, a, bend),
        bend >= a + 1 ==> upper_sum(counts, a, bend) <= (bend - a - 1) * u32::MAX,
    decreases bend - a,
{
    if bend > a + 1 {
        lemma_upper_sum_bound(counts, a, bend - 1);
    }
}

proof fn lemma_pair_sum_bound(counts: Seq<u32>, n: int, aend: int)
    requires
        0 <= aend <= n,
    ensures
        0 <= pair_sum(counts, n, aend) <= aend * n * u32::MAX,
    decreases aend,
{
    if aend > 0 {
        lemma_pair_sum_bound(counts, n, aend - 1);
        lemma_upper_sum_bound(counts, aend - 1, n);
        assert((aend - 1) * n * u32::MAX + (n - aend) * u32::MAX <= aend * n * u32::MAX) by (nonlinear_arith)
            requires 1 <= aend <= n;
    }
}

impl AdjacencyArrayBuilder {
    /// For each place `a`, the sum of the counts of the pairs `{a, b}` with `b != a`; and the sum
    /// of the counts of all pairs of distinct places.
    pub fn edge_totals(&self) -> (r: (Vec<u128>, u128))
        requires
            self.wf(),
        ensures
            r.0@.len() == self.codepoints().len(),
            forall|a: int| 0 <= a < r.0@.len() ==> #[trigger] r.0@[a]
                == edge_sum(self.counts(), a, self.codepoints().len() as int),
            r.1 == pair_sum(self.counts(), self.codepoints().len() as int, self.codepoints().len() as int),
    {
        let n = self.codepoint_list.len();
        let ghost counts = self.data@;
        proof {
            assert(n * n <= n * (n + 1)) by (nonlinear_arith);
        }
        let mut totals: Vec<u128> = Vec::new();
        let mut count: u128 = 0;
        let mut a: usize = 0;
        while a < n
            invariant
                self.wf(),
                n == self.codepoint_list@.len(),
                counts == self.data@,
                n * n <= usize::MAX,
                a <= n,
                totals@.len() == a,
                forall|x: int| 0 <= x < a ==> #[trigger] totals@[x] == edge_sum(counts, x, n as int),
                count == pair_sum(counts, n as int, a as int),
            decreases n - a,
        {
            let mut edge_total: u128 = 0;
            let mut upper: u128 = 0;
            let mut b: usize = 0;
            while b < n
                invariant
                    self.wf(),
                    n == self.codepoint_list@.len(),
                    counts == self.data@,
                    n * n <= usize::MAX,
                    a < n,
                    b <= n,
                    edge_total == edge_sum(counts, a as int, b as int),
                    upper == (if b <= a { 0 } else { upper_sum(counts, a as int, b as int) }),
                decreases n - b,
            {
                if a != b {
                    proof {
                        lemma_square_bound(a as int, n as int);
                        lemma_square_bound(b as int, n as int);
                        lemma_place_idx_packing(a as int, b as int, 0, 0, n as int);
                        lemma_edge_sum_bound(counts, a as int, b as int);
                        lemma_upper_sum_bound(counts, a as int, b as int);
                        assert(b * u32::MAX <= n * u32::MAX) by (nonlinear_arith) requires b <= n;
                        assert(n * u32::MAX <= 0x1_0000_0000_0000_0000 * u32::MAX) by (nonlinear_arith)
                            requires n * n <= usize::MAX;
                    }
                    let value = self.data[place_idx(a, b)] as u128;
                    edge_total = edge_total + value;
                    if a < b {
                        upper = upper + value;
                    }
                }
                b = b + 1;
            }
            proof {
                lemma_pair_sum_bound(counts, n as int, (a + 1) as int);
                assert((a + 1) * n * u32::MAX <= n * n * u32::MAX) by (nonlinear_arith) requires a + 1 <= n;
                assert(n * n * u32::MAX <= usize::MAX * u32::MAX) by (nonlinear_arith) requires n * n <= usize::MAX;
                assert(usize::MAX * u32::MAX < u128::MAX) by (nonlinear_arith);
            }
            count = count + upper;
            totals.push(edge_total);
            a = a + 1;
        }
        (totals, count)
    }
}

/// The block that a Unicode block name is grouped under: the Latin extensions, the CJK
/// ideograph extensions, the CJK compatibility blocks and the private use areas are each merged.
pub open spec fn canonical_block(name: Seq<char>) -> Seq<char> {
    if contains_sub(name, "Latin Extended"@) {
        "Latin Extended"@
    } else if contains_sub(name, "Ideographs Extension"@) {
        "CJK Extension"@
    } else if contains_sub(name, "CJK Compatibility"@) {
        "CJK Compatibility"@
    } else if contains_sub(name, "Private Use Area"@) {
        "PUA"@
    } else {
        name
    }
}

proof fn lemma_not_contains_longer(hay: Seq<char>, needle: Seq<char>)
    requires
        hay.len() < needle.len(),
    ensures
        !contains_sub(hay, needle),
{
}

proof fn lemma_contains_self(s: Seq<char>)
    ensures
        contains_sub(s, s),
{
    assert(s.subrange(0int, 0int + s.len()) == s);
}

/// Grouping a block name twice groups it as once.
pub proof fn lemma_canonical_block_idempotent(name: Seq<char>)
    ensures
        canonical_block(canonical_block(name)) == canonical_block(name),
{
    reveal_strlit("Latin Extended");
    reveal_strlit("Ideographs Extension");
    reveal_strlit("CJK Extension");
    reveal_strlit("CJK Compatibility");
    reveal_strlit("Private Use Area");
    reveal_strlit("PUA");
    let c = canonical_block(name);
    if contains_sub(name, "Latin Extended"@) {
        lemma_contains_self("Latin Extended"@);
    } else if contains_sub(name, "Ideographs Extension"@) {
        lemma_not_contains_longer("CJK Extension"@, "Latin Extended"@);
        lemma_not_contains_longer("CJK Extension"@, "Ideographs Extension"@);
        lemma_not_contains_longer("CJK Extension"@, "CJK Compatibility"@);
        lemma_not_contains_longer("CJK Extension"@, "Private Use Area"@);
    } else if contains_sub(name, "CJK Compatibility"@) {
        let s = "CJK Compatibility"@;
        let l = "Latin Extended"@;
        assert(!contains_sub(s, l)) by {
            assert forall|i: int| 0 <= i <= s.len() - l.len() implies #[trigger] s.subrange(i, i + l.len()) != l by {
                assert(s.subrange(i, i + l.len())[0] != l[0]);
            }
        }
        lemma_not_contains_longer(s, "Ideographs Extension"@);
        lemma_contains_self(s);
    } else if contains_sub(name, "Private Use Area"@) {
        lemma_not_contains_longer("PUA"@, "Latin Extended"@);
        lemma_not_contains_longer("PUA"@, "Ideographs Extension"@);
        lemma_not_contains_longer("PUA"@, "CJK Compatibility"@);
        lemma_not_contains_longer("PUA"@, "Private Use Area"@);
    }
}

fn canonical_block_name(name: &Vec<char>) -> (r: Vec<char>)
    ensures
        r@ == canonical_block(name@),
{
    if contains_str(name, "Latin Extended") {
        chars_of("Latin Extended")
    } else if contains_str(name, "Ideographs Extension") {
        chars_of("CJK Extension")
    } else if contains_str(name, "CJK Compatibility") {
        chars_of("CJK Compatibility")
    } else if contains_str(name, "Private Use Area") {
        chars_of("PUA")
    } else {
        name.clone()
    }
}

/// Gives each (grouped) Unicode block name a small id, in order of first appearance.
pub struct BlockIdAssigner {
    block_ids: Vec<Vec<char>>,
}

impl BlockIdAssigner {
    /// The grouped block names seen so far; a name's id is its index.
    pub closed spec fn names(&self) -> Seq<Seq<char>> {
        self.block_ids@.map_values(|v: Vec<char>| v@)
    }

    pub closed spec fn wf(&self) -> bool {
        &&& self.names().no_duplicates()
        &&& forall|i: int| 0 <= i < self.names().len() ==> canonical_block(#[trigger] self.names()[i]) == self.names()[i]
    }

    /// An assigner that has seen no block.
    pub fn new() -> (a: Self)
        ensures
            a.wf(),
            a.names() == Seq::<Seq<char>>::empty(),
    {
        let a = BlockIdAssigner { block_ids: Vec::new() };
        assert(a.names() =~= Seq::<Seq<char>>::empty());
        a
    }

    fn lookup(&self, name: &Vec<char>) -> (r: Option<usize>)
        ensures
            r matches Some(i) ==> i < self.names().len() && self.names()[i as int] == name@,
            r is None ==> !self.names().contains(name@),
    {
        let mut i: usize = 0;
        while i < self.block_ids.len()
            invariant
                i <= self.block_ids@.len(),
                forall|q: int| 0 <= q < i ==> self.names()[q] != name@,
            decreases self.block_ids@.len() - i,
        {
            if chars_eq(&self.block_ids[i], name) {
                return Some(i);
            }
            i = i + 1;
        }
        None
    }

    fn insert_new(&mut self, name: Vec<char>) -> (id: usize)
        requires
            old(self).wf(),
            !old(self).names().contains(name@),
            canonical_block(name@) == name@,
        ensures
            final(self).wf(),
            final(self).names() == old(self).names().push(name@),
            id == old(self).names().len(),
    {
        let id = self.block_ids.len();
        let ghost n = name@;
        self.block_ids.push(name);
        assert(self.names() =~= old(self).names().push(n));
        id
    }

    /// The id of the block that `block_name` is grouped under, assigning the next id to a group
    /// seen for the first time; `None` for no block.
    pub fn assign_id(&mut self, block_name: Option<&str>) -> (r: Option<usize>)
        requires
            old(self).wf(),
        ensures
            final(self).wf(),
            block_name is None ==> r is None && final(self).names() == old(self).names(),
            block_name matches Some(name) ==> {
                let c = canonical_block(name@);
                &&& r matches Some(id) && id < final(self).names().len() && final(self).names()[id as int] == c
                &&& final(self).names() == (if old(self).names().contains(c) {
                        old(self).names()
                    } else {
                        old(self).names().push(c)
                    })
            },
    {
        match block_name {
            None => None,
            Some(name) => {
                let chars = chars_of(name);
                if let Some(id) = self.lookup(&chars) {
                    assert(self.names().contains(chars@));
                    return Some(id);
                }
                let grouped = canonical_block_name(&chars);
                proof { lemma_canonical_block_idempotent(chars@); }
                if !chars_eq(&grouped, &chars) {
                    match self.lookup(&grouped) {
                        Some(id) => {
                            assert(self.names().contains(grouped@));
                            Some(id)
                        },
                        None => Some(self.insert_new(grouped)),
                    }
                } else {
                    Some(self.insert_new(chars))
                }
            },
        }
    }
}

/// The place of a code point that has no row in an adjacency array.
pub const PLACE_SENTINEL: u32 = 0xFFFF_FFFFu32;

/// A map from pairs, later pairs overriding earlier ones with the same key.
pub open spec fn pairs_map(s: Seq<(u32, u32)>) -> Map<u32, u32>
    decreases s.len(),
{
    if s.len() == 0 {
        Map::empty()
    } else {
        pairs_map(s.drop_last()).insert(s.last().0, s.last().1)
    }
}

/// The parts of an adjacency array fit together: 256 byte codes, room for every pair of the
/// `n` places, and every place below `n` (or none).
pub open spec fn array_consistent(places: Map<u32, u32>, n: nat, decode: Seq<u64>, data: Seq<u8>) -> bool {
    &&& decode.len() == 256
    &&& n * (n + 1) <= usize::MAX
    &&& triangle_spec(n as int) <= data.len()
    &&& forall|c: u32| #[trigger] places.contains_key(c) ==> places[c] == PLACE_SENTINEL || places[c] < n
}

/// A trained adjacency array: for each known code point its place (or none), the code points
/// in place order, the byte-coded counts of each unordered pair of places, and the count that
/// each byte code stands for.
pub struct AdjacencyArray {
    places: HashMap<u32, u32>,
    glyphs: Vec<char>,
    decode: Vec<u64>,
    data: Vec<u8>,
}

impl AdjacencyArray {
    #[verifier::type_invariant]
    closed spec fn wf(&self) -> bool {
        array_consistent(self.places@, self.glyphs@.len(), self.decode@, self.data@)
    }

    /// The place of each known code point.
    pub closed spec fn places_view(&self) -> Map<u32, u32> {
        self.places@
    }

    /// The code points in place order.
    pub closed spec fn glyphs_view(&self) -> Seq<char> {
        self.glyphs@
    }

    /// The count that each byte code stands for.
    pub closed spec fn decode_view(&self) -> Seq<u64> {
        self.decode@
    }

    /// The byte-coded counts, in triangular order.
    pub closed spec fn data_view(&self) -> Seq<u8> {
        self.data@
    }

    /// The code point has a place.
    pub open spec fn placed(&self, ch: u32) -> bool {
        self.places_view().contains_key(ch) && self.places_view()[ch] != PLACE_SENTINEL
    }

    /// The count stored for the pair of places of `a` and `b`; 0 unless both have a place.
    pub open spec fn pairing(&self, a: u32, b: u32) -> u64 {
        if self.placed(a) && self.placed(b) {
            self.decode_view()[self.data_view()[place_idx_spec(
                self.places_view()[a] as int,
                self.places_view()[b] as int,
            )] as int]
        } else {
            0
        }
    }

    /// How often a code point occurs: its count with itself.
    pub open spec fn frequency(&self, ch: u32) -> u64 {
        self.pairing(ch, ch)
    }

    /// The pages that `ch` or `new` is on but not both, in wrapping `u64` arithmetic:
    /// `frequency(ch) + frequency(new) - 2 * pairing(ch, new)`.
    pub open spec fn waste_term(&self, ch: u32, new: u32) -> u64 {
        vstd::wrapping::u64_specs::wrapping_sub(
            vstd::wrapping::u64_specs::wrapping_add(self.frequency(ch), self.frequency(new)),
            vstd::wrapping::u64_specs::wrapping_mul(2, self.pairing(ch, new)),
        )
    }

    /// The largest waste term of `new` against the first `k` code points of `set`; 0 for none.
    pub open spec fn wasted_space(&self, set: Seq<u32>, new: u32, k: nat) -> u64
        decreases k,
    {
        if k == 0 || k > set.len() {
            0
        } else {
            let prev = self.wasted_space(set, new, (k - 1) as nat);
            let t = self.waste_term(set[k - 1], new);
            if t > prev { t } else { prev }
        }
    }

    /// Each placed code point is the glyph at its place, as in an array that a builder made.
    pub open spec fn places_match_glyphs(&self) -> bool {
        forall|c: u32| #[trigger] self.placed(c) ==> self.places_view()[c] < self.glyphs_view().len()
            && self.glyphs_view()[self.places_view()[c] as int] as u32 == c
    }

    /// Puts an array together from its parts: the places as pairs of code point and place
    /// (later pairs win), the code points in place order, the count of each byte code, and the
    /// coded counts.
    pub fn from_parts(places: Vec<(u32, u32)>, glyphs: Vec<char>, decode: Vec<u64>, data: Vec<u8>) -> (a: Self)
        requires
            array_consistent(pairs_map(places@), glyphs@.len(), decode@, data@),
        ensures
            a.places_view() == pairs_map(places@),
            a.glyphs_view() == glyphs@,
            a.decode_view() == decode@,
            a.data_view() == data@,
    {
        let mut map: HashMap<u32, u32> = HashMap::new();
        let mut i: usize = 0;
        while i < places.len()
            invariant
                i <= places@.len(),
                map@ == pairs_map(places@.take(i as int)),
            decreases places@.len() - i,
        {
            let (c, p) = places[i];
            map.insert(c, p);
            proof {
                assert(places@.take(i + 1).drop_last() =~= places@.take(i as int));
            }
            i = i + 1;
        }
        proof {
            assert(places@.take(places@.len() as int) =~= places@);
        }
        AdjacencyArray { places: map, glyphs, decode, data }
    }

    /// The code points in place order.
    pub fn glyph_list(&self) -> (g: &[char])
        ensures
            g@ == self.glyphs_view(),
    {
        self.glyphs.as_slice()
    }

    /// The place of a code point, where it has one.
    fn place_of(&self, ch: u32) -> (p: Option<usize>)
        ensures
            p is Some == self.placed(ch),
            p matches Some(q) ==> q == self.places_view()[ch] && (q + 1) * (q + 2) <= usize::MAX
                && q < self.glyphs_view().len(),
    {
        proof { use_type_invariant(self); }
        match self.places.get(&ch) {
            Some(p) => {
                if *p == PLACE_SENTINEL {
                    None
                } else {
                    let q = *p as usize;
                    proof {
                        let n = self.glyphs@.len() as int;
                        assert(self.places@.contains_key(ch));
                        assert((q + 1) * (q + 2) <= n * (n + 1)) by (nonlinear_arith)
                            requires 0 <= q < n;
                    }
                    Some(q)
                }
            },
            None => None,
        }
    }

    /// The count stored for the pair of `a` and `b`; 0 unless both have a place.
    pub fn get_pairing(&self, a: u32, b: u32) -> (r: u64)
        ensures
            r == self.pairing(a, b),
    {
        proof { use_type_invariant(self); }
        let pa = match self.place_of(a) {
            Some(p) => p,
            None => return 0,
        };
        let pb = match self.place_of(b) {
            Some(p) => p,
            None => return 0,
        };
        let n = self.glyphs.len();
        proof {
            lemma_place_idx_packing(pa as int, pb as int, pa as int, pb as int, n as int);
        }
        let idx = place_idx(pa, pb);
        let code = self.data[idx];
        self.decode[code as usize]
    }

    /// How often a code point occurs: its count with itself; 0 without a place.
    pub fn get_character_frequency(&self, ch: u32) -> (r: u64)
        ensures
            r == self.frequency(ch),
    {
        self.get_pairing(ch, ch)
    }

    /// An estimate of the pages that would load the subset `set` with `new` added without
    /// needing both: the largest waste term of `new` against a member of `set`; 0 for an empty
    /// set.
    pub fn estimate_wasted_space_score(&self, set: &[u32], new: u32) -> (r: u64)
        ensures
            r == self.wasted_space(set@, new, set@.len()),
    {
        let mut accum: u64 = 0;
        let new_freq = self.get_character_frequency(new);
        let mut i: usize = 0;
        while i < set.len()
            invariant
                i <= set@.len(),
                new_freq == self.frequency(new),
                accum == self.wasted_space(set@, new, i as nat),
            decreases set@.len() - i,
        {
            let ch = set[i];
            let freq = self.get_character_frequency(ch);
            let pairing = self.get_pairing(ch, new);
            let term = freq.wrapping_add(new_freq).wrapping_sub(2u64.wrapping_mul(pairing));
            if term > accum {
                accum = term;
            }
            i = i + 1;
        }
        accum
    }
}

/// The pairing of two code points does not depend on their order, a code point paired with
/// itself gives its frequency, and, in an array whose places match its glyphs, a code point
/// that is not among the glyphs pairs to 0 with every code point.
pub proof fn law_pairing(arr: AdjacencyArray, a: u32, b: u32)
    ensures
        arr.pairing(a, b) == arr.pairing(b, a),
        arr.pairing(a, a) == arr.frequency(a),
        arr.places_match_glyphs() && !arr.glyphs_view().map_values(|g: char| g as u32).contains(a)
            ==> arr.pairing(a, b) == 0 && arr.pairing(b, a) == 0,
{
    if arr.placed(a) && arr.placed(b) {
        let (pa, pb) = (arr.places_view()[a] as int, arr.places_view()[b] as int);
        assert(place_idx_spec(pa, pb) == place_idx_spec(pb, pa));
    }
    if arr.places_match_glyphs() && arr.placed(a) {
        let p = arr.places_view()[a] as int;
        let codes = arr.glyphs_view().map_values(|g: char| g as u32);
        assert(codes[p] == a);
    }
}

} // verus!
